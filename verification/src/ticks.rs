//! The clock ticks drawn along the spiral: for each tick interval, a run of ticks
//! starting at the current time rounded up to that interval, merged into one
//! stream that comes out earliest first.

use vstd::prelude::*;

use crate::event::IntervalMarker;

use crate::time::{
    error_message, instant_in_range, time_zone_clone, timestamp_add_ok, zoned_at, zoned_checked_add,
    zoned_date_text, zoned_round, zoned_time_text, date_text, time_text, zoned_instant, zoned_rounded,
    zoned_sum, RoundMode, RoundUnit, SpanUnit, TimeError, UnitSpan,
};

verus! {

/// The intervals between ticks.
#[derive(Copy, Clone, Debug, PartialEq, Eq, Structural)]
pub enum TickInterval {
    Second,
    QuarterMinute,
    Minute,
    QuarterHour,
    Hour,
    EighthDay,
    QuarterDay,
    HalfDay,
    Day,
}

/// All tick intervals, shortest first.
pub open spec fn all_tick_intervals() -> Seq<TickInterval> {
    seq![
        TickInterval::Second,
        TickInterval::QuarterMinute,
        TickInterval::Minute,
        TickInterval::QuarterHour,
        TickInterval::Hour,
        TickInterval::EighthDay,
        TickInterval::QuarterDay,
        TickInterval::HalfDay,
        TickInterval::Day,
    ]
}

/// How an instant is rounded to the start of a tick interval: with `mode` to a
/// multiple `increment` of `unit`.
#[derive(Copy, Clone, Debug, PartialEq, Eq, Structural)]
pub struct TickRounding {
    pub mode: RoundMode,
    pub unit: RoundUnit,
    pub increment: i64,
}

impl TickInterval {
    /// How many ticks of this interval are drawn on the spiral.
    pub open spec fn spec_count(self) -> nat {
        match self {
            TickInterval::Second => 30,
            TickInterval::QuarterMinute => 8,
            TickInterval::Minute => 120,
            TickInterval::QuarterHour => 8,
            TickInterval::Hour => 24,
            TickInterval::EighthDay => 8,
            TickInterval::QuarterDay => 4,
            TickInterval::HalfDay => 2,
            TickInterval::Day => 30,
        }
    }

    /// The span between two ticks of this interval.
    pub open spec fn spec_span(self) -> UnitSpan {
        match self {
            TickInterval::Second => UnitSpan { unit: SpanUnit::Second, amount: 1 },
            TickInterval::QuarterMinute => UnitSpan { unit: SpanUnit::Second, amount: 15 },
            TickInterval::Minute => UnitSpan { unit: SpanUnit::Minute, amount: 1 },
            TickInterval::QuarterHour => UnitSpan { unit: SpanUnit::Minute, amount: 15 },
            TickInterval::Hour => UnitSpan { unit: SpanUnit::Hour, amount: 1 },
            TickInterval::EighthDay => UnitSpan { unit: SpanUnit::Hour, amount: 3 },
            TickInterval::QuarterDay => UnitSpan { unit: SpanUnit::Hour, amount: 6 },
            TickInterval::HalfDay => UnitSpan { unit: SpanUnit::Hour, amount: 12 },
            TickInterval::Day => UnitSpan { unit: SpanUnit::Day, amount: 1 },
        }
    }

    /// How the current time is rounded to the first tick of this interval: up
    /// (`RoundMode::Ceil`), to a multiple of the interval's own unit.
    pub open spec fn spec_rounding(self) -> TickRounding {
        match self {
            TickInterval::Second => TickRounding { mode: RoundMode::Ceil, unit: RoundUnit::Second, increment: 1 },
            TickInterval::QuarterMinute => TickRounding { mode: RoundMode::Ceil, unit: RoundUnit::Second, increment: 15 },
            TickInterval::Minute => TickRounding { mode: RoundMode::Ceil, unit: RoundUnit::Minute, increment: 1 },
            TickInterval::QuarterHour => TickRounding { mode: RoundMode::Ceil, unit: RoundUnit::Minute, increment: 15 },
            TickInterval::Hour => TickRounding { mode: RoundMode::Ceil, unit: RoundUnit::Hour, increment: 1 },
            TickInterval::EighthDay => TickRounding { mode: RoundMode::Ceil, unit: RoundUnit::Hour, increment: 3 },
            TickInterval::QuarterDay => TickRounding { mode: RoundMode::Ceil, unit: RoundUnit::Hour, increment: 6 },
            TickInterval::HalfDay => TickRounding { mode: RoundMode::Ceil, unit: RoundUnit::Hour, increment: 12 },
            TickInterval::Day => TickRounding { mode: RoundMode::Ceil, unit: RoundUnit::Day, increment: 1 },
        }
    }

    /// All tick intervals, shortest first.
    pub fn all() -> (r: Vec<TickInterval>)
        ensures
            r@ == all_tick_intervals(),
    {
        vec![
            TickInterval::Second,
            TickInterval::QuarterMinute,
            TickInterval::Minute,
            TickInterval::QuarterHour,
            TickInterval::Hour,
            TickInterval::EighthDay,
            TickInterval::QuarterDay,
            TickInterval::HalfDay,
            TickInterval::Day,
        ]
    }

    /// How many ticks of this interval are drawn on the spiral.
    pub fn count(self) -> (r: usize)
        ensures
            r == self.spec_count(),
    {
        match self {
            TickInterval::Second => 30,
            TickInterval::QuarterMinute => 8,
            TickInterval::Minute => 120,
            TickInterval::QuarterHour => 8,
            TickInterval::Hour => 24,
            TickInterval::EighthDay => 8,
            TickInterval::QuarterDay => 4,
            TickInterval::HalfDay => 2,
            TickInterval::Day => 30,
        }
    }

    /// The span between two ticks of this interval.
    pub fn span(self) -> (r: UnitSpan)
        ensures
            r == self.spec_span(),
    {
        match self {
            TickInterval::Second => UnitSpan { unit: SpanUnit::Second, amount: 1 },
            TickInterval::QuarterMinute => UnitSpan { unit: SpanUnit::Second, amount: 15 },
            TickInterval::Minute => UnitSpan { unit: SpanUnit::Minute, amount: 1 },
            TickInterval::QuarterHour => UnitSpan { unit: SpanUnit::Minute, amount: 15 },
            TickInterval::Hour => UnitSpan { unit: SpanUnit::Hour, amount: 1 },
            TickInterval::EighthDay => UnitSpan { unit: SpanUnit::Hour, amount: 3 },
            TickInterval::QuarterDay => UnitSpan { unit: SpanUnit::Hour, amount: 6 },
            TickInterval::HalfDay => UnitSpan { unit: SpanUnit::Hour, amount: 12 },
            TickInterval::Day => UnitSpan { unit: SpanUnit::Day, amount: 1 },
        }
    }

    /// How the current time is rounded to the first tick of this interval: up
    /// (`RoundMode::Ceil`), to a multiple of the interval's own unit.
    pub fn zoned_round(self) -> (r: TickRounding)
        ensures
            r == self.spec_rounding(),
    {
        match self {
            TickInterval::Second => TickRounding { mode: RoundMode::Ceil, unit: RoundUnit::Second, increment: 1 },
            TickInterval::QuarterMinute => TickRounding { mode: RoundMode::Ceil, unit: RoundUnit::Second, increment: 15 },
            TickInterval::Minute => TickRounding { mode: RoundMode::Ceil, unit: RoundUnit::Minute, increment: 1 },
            TickInterval::QuarterHour => TickRounding { mode: RoundMode::Ceil, unit: RoundUnit::Minute, increment: 15 },
            TickInterval::Hour => TickRounding { mode: RoundMode::Ceil, unit: RoundUnit::Hour, increment: 1 },
            TickInterval::EighthDay => TickRounding { mode: RoundMode::Ceil, unit: RoundUnit::Hour, increment: 3 },
            TickInterval::QuarterDay => TickRounding { mode: RoundMode::Ceil, unit: RoundUnit::Hour, increment: 6 },
            TickInterval::HalfDay => TickRounding { mode: RoundMode::Ceil, unit: RoundUnit::Hour, increment: 12 },
            TickInterval::Day => TickRounding { mode: RoundMode::Ceil, unit: RoundUnit::Day, increment: 1 },
        }
    }

    /// The label of the first tick of this interval at instant `t` in `tz`: the
    /// date for days, the time of day otherwise.
    fn label_for(self, t: i128, tz: &jiff::tz::TimeZone) -> (r: String)
        requires
            instant_in_range(t as int),
        ensures
            r@ == label_text(self, t, *tz),
    {
        match self {
            TickInterval::Day => zoned_date_text(t, tz),
            _ => zoned_time_text(t, tz),
        }
    }
}


/// What a tick is, for contracts: its instant, how many ticks of its interval come
/// before it, its interval, its label, and the time zone it is drawn in.
pub struct TickView {
    pub t: i128,
    pub prior: nat,
    pub ti: TickInterval,
    pub label: Option<Seq<char>>,
    pub tz: jiff::tz::TimeZone,
}

/// The label of the first tick of interval `ti` at instant `t` in `tz`: the date
/// for days, the time of day otherwise.
pub open spec fn label_text(ti: TickInterval, t: i128, tz: jiff::tz::TimeZone) -> Seq<char> {
    match ti {
        TickInterval::Day => date_text(t, tz),
        _ => time_text(t, tz),
    }
}

/// Where the first tick of interval `ti` falls for the current time `now` in `tz`:
/// `now` rounded as the interval says, or `None` where `jiff` cannot round it.
pub open spec fn first_tick_instant(now: i128, tz: jiff::tz::TimeZone, ti: TickInterval) -> Option<i128> {
    zoned_rounded(now, tz, ti.spec_rounding().mode, ti.spec_rounding().unit, ti.spec_rounding().increment)
}

/// The first tick of interval `ti` for the current time `now` in `tz`, where there is one.
pub open spec fn first_tick(now: i128, tz: jiff::tz::TimeZone, ti: TickInterval) -> TickView {
    let t = first_tick_instant(now, tz, ti).unwrap();
    TickView { t, prior: 0, ti, label: Some(label_text(ti, t, tz)), tz }
}

/// One tick on the spiral.
#[derive(Debug)]
pub struct Tick {
    t: i128,
    tz: jiff::tz::TimeZone,
    prior: usize,
    ti: TickInterval,
    label: Option<String>,
}

/// The label as a sequence of characters.
pub open spec fn label_view(l: Option<String>) -> Option<Seq<char>> {
    match l {
        Some(s) => Some(s@),
        None => None,
    }
}

impl View for Tick {
    type V = TickView;

    closed spec fn view(&self) -> TickView {
        TickView { t: self.t, prior: self.prior as nat, ti: self.ti, label: label_view(self.label), tz: self.tz }
    }
}

/// A tick is at an instant `jiff` can represent and is one of the ticks of its interval.
pub open spec fn tick_wf(tk: TickView) -> bool {
    instant_in_range(tk.t as int) && tk.prior < tk.ti.spec_count()
}

/// Ticks come out earliest first; at the same instant, the one with fewer ticks of
/// its interval before it first.
pub open spec fn tick_precedes(a: TickView, b: TickView) -> bool {
    a.t < b.t || (a.t == b.t && a.prior <= b.prior)
}

/// The tick that follows `tk` in its interval, at instant `t`.
pub open spec fn successor(tk: TickView, t: i128) -> TickView {
    TickView { t, prior: tk.prior + 1, ti: tk.ti, label: None, tz: tk.tz }
}

/// `t` is where the tick after `tk` falls: `tk`'s instant plus one span of its
/// interval in its time zone, which is an instant `jiff` can represent, and exactly
/// one span later when the span has no calendar units.
pub open spec fn successor_instant_ok(tk: TickView, t: i128) -> bool {
    &&& Some(t) == zoned_sum(tk.t, tk.tz, tk.ti.spec_span())
    &&& instant_in_range(t as int)
    &&& tk.ti.spec_span().unit.is_time_unit() ==> t == tk.t + tk.ti.spec_span().nanos()
}

/// `tk` is the last tick of its interval.
pub open spec fn is_last(tk: TickView) -> bool {
    tk.prior + 1 >= tk.ti.spec_count()
}

impl Tick {
    /// The zoned datetime of the tick: its own instant, in its time zone.
    pub fn time(&self) -> (r: jiff::Zoned)
        requires
            tick_wf(self@),
        ensures
            zoned_instant(r) == self@.t,
    {
        zoned_at(self.t, &self.tz)
    }

    /// The instant of the tick, in nanoseconds since the Unix epoch.
    pub fn instant(&self) -> (r: i128)
        ensures
            r == self@.t,
    {
        self.t
    }

    /// How many ticks of the same interval come before this one.
    pub fn prior(&self) -> (r: usize)
        ensures
            r == self@.prior,
    {
        self.prior
    }

    /// The interval of the tick.
    pub fn interval(&self) -> (r: TickInterval)
        ensures
            r == self@.ti,
    {
        self.ti
    }

    /// The label of the tick: only the first tick of each interval has one.
    pub fn label(&self) -> (r: Option<&str>)
        ensures
            match r {
                Some(s) => self@.label == Some(s@),
                None => self@.label is None,
            },
    {
        match &self.label {
            Some(s) => Some(s.as_str()),
            None => None,
        }
    }

    /// `self` comes out before `other`, or at the same place.
    pub fn precedes(&self, other: &Tick) -> (r: bool)
        ensures
            r == tick_precedes(self@, other@),
    {
        self.t < other.t || (self.t == other.t && self.prior <= other.prior)
    }

    /// The first tick of interval `ti`: `now` in `tz` rounded up to the interval,
    /// labelled. Fails exactly when `jiff` cannot round `now` so.
    fn new(now: i128, tz: &jiff::tz::TimeZone, ti: TickInterval) -> (r: Result<Tick, TimeError>)
        requires
            instant_in_range(now as int),
        ensures
            r is Ok <==> first_tick_instant(now, *tz, ti) is Some,
            r matches Ok(tk) ==> tick_wf(tk@) && tk@ == first_tick(now, *tz, ti),
    {
        let rounding = ti.zoned_round();
        match zoned_round(now, tz, rounding.mode, rounding.unit, rounding.increment) {
            Ok(t) => {
                let label = ti.label_for(t, tz);
                let tk = Tick { t, tz: time_zone_clone(tz), prior: 0, ti, label: Some(label) };
                assert(tk@.label == Some(label_text(ti, t, *tz)));
                Ok(tk)
            },
            Err(e) => Err(TimeError::Rounding(error_message(&e))),
        }
    }

    /// The tick after this one in its interval, unless this is the last one.
    pub fn next(&self) -> (r: Result<Option<Tick>, TimeError>)
        requires
            tick_wf(self@),
        ensures
            is_last(self@) ==> r matches Ok(None),
            !is_last(self@) ==> match r {
                Ok(Some(n)) => n@ == successor(self@, n@.t) && successor_instant_ok(self@, n@.t),
                Ok(None) => false,
                Err(_) => zoned_sum(self@.t, self@.tz, self@.ti.spec_span()) is None && (
                self@.ti.spec_span().unit.is_time_unit() ==> !timestamp_add_ok(self@.t as int, self@.ti.spec_span())),
            },
    {
        let ti = self.ti;
        let prior = self.prior + 1;
        if prior < ti.count() {
            match zoned_checked_add(self.t, &self.tz, ti.span()) {
                Ok(t) => {
                    let n = Tick { t, tz: time_zone_clone(&self.tz), prior, ti, label: None };
                    assert(n@ == successor(self@, t));
                    Ok(Some(n))
                },
                Err(e) => Err(TimeError::Arithmetic(error_message(&e))),
            }
        } else {
            Ok(None)
        }
    }
}


/// How many ticks of its interval are still to come, counting `tk` itself.
pub open spec fn ticks_left(tk: TickView) -> int {
    tk.ti.spec_count() - tk.prior
}

/// Interval `ti` is counted when counting the ticks of `only` (all of them for `None`).
pub open spec fn counted(only: Option<TickInterval>, ti: TickInterval) -> bool {
    match only {
        Some(x) => x == ti,
        None => true,
    }
}

/// How many ticks are still to come from the pending ticks of interval `only`
/// (of every interval for `None`).
pub open spec fn remaining_where(s: Seq<TickView>, only: Option<TickInterval>) -> int
    decreases s.len(),
{
    if s.len() == 0 {
        0
    } else {
        remaining_where(s.drop_last(), only) + if counted(only, s.last().ti) {
            ticks_left(s.last())
        } else {
            0
        }
    }
}

/// How many ticks are still to come from the pending ticks `s`.
pub open spec fn remaining(s: Seq<TickView>) -> int {
    remaining_where(s, None)
}

/// How many ticks of interval `ti` are still to come from the pending ticks `s`.
pub open spec fn remaining_in(s: Seq<TickView>, ti: TickInterval) -> int {
    remaining_where(s, Some(ti))
}

/// Pending ticks: each well formed, at most one per interval.
pub open spec fn ticks_wf(s: Seq<TickView>) -> bool {
    &&& forall|i: int| 0 <= i < s.len() ==> tick_wf(#[trigger] s[i])
    &&& forall|i: int, j: int| 0 <= i < s.len() && 0 <= j < s.len() && i != j ==> #[trigger] s[i].ti != #[trigger] s[j].ti
}

/// `s[i]` is a pending tick that comes out first.
pub open spec fn is_first(s: Seq<TickView>, i: int) -> bool {
    &&& 0 <= i < s.len()
    &&& forall|j: int| 0 <= j < s.len() ==> tick_precedes(s[i], #[trigger] s[j])
}

/// One tick `tk` comes out of the pending ticks `old`, leaving `new`: `tk` is one that
/// comes out first, and unless it was the last of its interval, the tick after it
/// joins the pending ticks.
pub open spec fn tick_step(old: Seq<TickView>, tk: TickView, new: Seq<TickView>) -> bool {
    exists|i: int|
        #![trigger old[i]]
        is_first(old, i) && old[i] == tk && if is_last(tk) {
            new == old.remove(i)
        } else {
            &&& new.len() == old.len()
            &&& new.drop_last() == old.remove(i)
            &&& new.last() == successor(tk, new.last().t)
            &&& successor_instant_ok(tk, new.last().t)
        }
}

/// Computing the tick after the first pending tick failed: that tick is gone, and no
/// tick follows it.
pub open spec fn tick_step_failed(old: Seq<TickView>, new: Seq<TickView>) -> bool {
    exists|i: int|
        #![trigger old[i]]
        is_first(old, i) && !is_last(old[i]) && new == old.remove(i) && zoned_sum(old[i].t, old[i].tz, old[i].ti.spec_span()) is None && (
        old[i].ti.spec_span().unit.is_time_unit() ==> !timestamp_add_ok(
            old[i].t as int,
            old[i].ti.spec_span(),
        ))
}

/// Removing a pending tick removes what it had still to come.
pub proof fn lemma_remaining_remove(s: Seq<TickView>, i: int, only: Option<TickInterval>)
    requires
        0 <= i < s.len(),
    ensures
        remaining_where(s.remove(i), only) == remaining_where(s, only) - if counted(only, s[i].ti) {
            ticks_left(s[i])
        } else {
            0
        },
    decreases s.len(),
{
    if i == s.len() - 1 {
        assert(s.remove(i) =~= s.drop_last());
    } else {
        lemma_remaining_remove(s.drop_last(), i, only);
        assert(s.remove(i).drop_last() =~= s.drop_last().remove(i));
        assert(s.remove(i).last() == s.last());
        assert(s.drop_last()[i] == s[i]);
    }
}

/// Adding a pending tick adds what it has still to come.
pub proof fn lemma_remaining_push(s: Seq<TickView>, x: TickView, only: Option<TickInterval>)
    ensures
        remaining_where(s.push(x), only) == remaining_where(s, only) + if counted(only, x.ti) {
            ticks_left(x)
        } else {
            0
        },
{
    assert(s.push(x).drop_last() =~= s);
}

/// Each well-formed pending tick has at least one tick still to come.
pub proof fn lemma_remaining_at_least_len(s: Seq<TickView>)
    requires
        forall|i: int| 0 <= i < s.len() ==> tick_wf(#[trigger] s[i]),
    ensures
        remaining(s) >= s.len(),
    decreases s.len(),
{
    if s.len() > 0 {
        assert forall|i: int| 0 <= i < s.drop_last().len() implies tick_wf(#[trigger] s.drop_last()[i]) by {
            assert(s.drop_last()[i] == s[i]);
        }
        lemma_remaining_at_least_len(s.drop_last());
        assert(tick_wf(s[s.len() - 1]));
    }
}

/// Law: one tick coming out leaves well-formed pending ticks, with one tick fewer
/// still to come in all, one fewer of its own interval, and as many as before of
/// every other interval.
pub proof fn lemma_step_counts_down(old: Seq<TickView>, tk: TickView, new: Seq<TickView>)
    requires
        ticks_wf(old),
        tick_step(old, tk, new),
    ensures
        ticks_wf(new),
        remaining(new) == remaining(old) - 1,
        remaining_in(new, tk.ti) == remaining_in(old, tk.ti) - 1,
        forall|ti: TickInterval| ti != tk.ti ==> remaining_in(new, ti) == remaining_in(old, ti),
{
    let i = choose|i: int|
        #![trigger old[i]]
        is_first(old, i) && old[i] == tk && if is_last(tk) {
            new == old.remove(i)
        } else {
            &&& new.len() == old.len()
            &&& new.drop_last() == old.remove(i)
            &&& new.last() == successor(tk, new.last().t)
            &&& successor_instant_ok(tk, new.last().t)
        };
    let rest = old.remove(i);
    let all: Option<TickInterval> = None;
    let own = Some(tk.ti);
    assert(tick_wf(old[i]));
    lemma_remaining_remove(old, i, all);
    lemma_remaining_remove(old, i, own);
    assert forall|ti: TickInterval| ti != tk.ti implies remaining_in(rest, ti) == remaining_in(old, ti) by {
        lemma_remaining_remove(old, i, Some(ti));
    }
    if !is_last(tk) {
        let succ = new.last();
        assert(new =~= rest.push(succ));
        lemma_remaining_push(rest, succ, all);
        lemma_remaining_push(rest, succ, own);
        assert forall|ti: TickInterval| ti != tk.ti implies remaining_in(new, ti) == remaining_in(old, ti) by {
            lemma_remaining_push(rest, succ, Some(ti));
        }
        assert forall|a: int| 0 <= a < new.len() implies tick_wf(#[trigger] new[a]) by {
            if a < rest.len() {
                assert(new[a] == rest[a]);
            }
        }
        assert forall|a: int, b: int| 0 <= a < new.len() && 0 <= b < new.len() && a != b implies #[trigger] new[a].ti != #[trigger] new[b].ti by {
            if a < rest.len() && b < rest.len() {
                assert(new[a] == rest[a] && new[b] == rest[b]);
            } else if a < rest.len() {
                assert(new[a] == rest[a]);
                let ia = if a < i { a } else { a + 1 };
                assert(rest[a] == old[ia]);
            } else {
                assert(new[b] == rest[b]);
                let ib = if b < i { b } else { b + 1 };
                assert(rest[b] == old[ib]);
            }
        }
    } else {
        assert forall|a: int, b: int| 0 <= a < new.len() && 0 <= b < new.len() && a != b implies #[trigger] new[a].ti != #[trigger] new[b].ti by {
            let ia = if a < i { a } else { a + 1 };
            let ib = if b < i { b } else { b + 1 };
            assert(new[a] == old[ia] && new[b] == old[ib]);
        }
        assert forall|a: int| 0 <= a < new.len() implies tick_wf(#[trigger] new[a]) by {
            let ia = if a < i { a } else { a + 1 };
            assert(new[a] == old[ia]);
        }
    }
}


/// Law: ticks come out in order. Of two ticks that come out one after the other,
/// the first precedes the second, unless both are day ticks: the day after a day
/// tick is calendar arithmetic in the time zone, of which nothing is known here.
pub proof fn lemma_ticks_in_order(
    a: Seq<TickView>,
    x: TickView,
    b: Seq<TickView>,
    y: TickView,
    c: Seq<TickView>,
)
    requires
        ticks_wf(a),
        tick_step(a, x, b),
        tick_step(b, y, c),
        !(x.ti == TickInterval::Day && y.ti == TickInterval::Day),
    ensures
        tick_precedes(x, y),
        x.t <= y.t,
        x.t == y.t ==> x.prior <= y.prior,
{
    lemma_step_counts_down(a, x, b);
    let i = choose|i: int|
        #![trigger a[i]]
        is_first(a, i) && a[i] == x && if is_last(x) {
            b == a.remove(i)
        } else {
            &&& b.len() == a.len()
            &&& b.drop_last() == a.remove(i)
            &&& b.last() == successor(x, b.last().t)
            &&& successor_instant_ok(x, b.last().t)
        };
    let j = choose|j: int|
        #![trigger b[j]]
        is_first(b, j) && b[j] == y && if is_last(y) {
            c == b.remove(j)
        } else {
            &&& c.len() == b.len()
            &&& c.drop_last() == b.remove(j)
            &&& c.last() == successor(y, c.last().t)
            &&& successor_instant_ok(y, c.last().t)
        };
    let rest = a.remove(i);
    if j < rest.len() {
        // `y` was pending alongside `x`.
        assert(b[j] == rest[j]);
        let k = if j < i { j } else { j + 1 };
        assert(rest[j] == a[k]);
        assert(tick_precedes(a[i], a[k]));
    } else {
        // `y` is the tick after `x`.
        assert(!is_last(x));
        assert(b[j] == b.last());
        assert(x.ti != TickInterval::Day);
        assert(x.ti.spec_span().unit.is_time_unit());
        assert(x.ti.spec_span().nanos() > 0);
    }
}

/// Law: the ticks run out exactly when no tick of any interval is left to come.
pub proof fn lemma_exhausted_iff_nothing_left(s: Seq<TickView>)
    requires
        ticks_wf(s),
    ensures
        s.len() == 0 <==> remaining(s) == 0,
{
    lemma_remaining_at_least_len(s);
}

/// How many of the ticks `xs` are of interval `ti`.
pub open spec fn count_of(xs: Seq<TickView>, ti: TickInterval) -> int
    decreases xs.len(),
{
    if xs.len() == 0 {
        0
    } else {
        count_of(xs.drop_last(), ti) + if xs.last().ti == ti {
            1int
        } else {
            0
        }
    }
}

/// The ticks `xs` come out one after the other, starting from the pending ticks
/// `states[0]`; `states[k + 1]` is what is pending after `xs[k]` came out.
pub open spec fn tick_run(states: Seq<Seq<TickView>>, xs: Seq<TickView>) -> bool {
    &&& states.len() == xs.len() + 1
    &&& forall|k: int| 0 <= k < xs.len() ==> tick_step(#[trigger] states[k], xs[k], states[k + 1])
}

/// Only the first tick of an interval has a label: the date or time of day of its
/// instant in its time zone, as `label_for` gives it.
pub open spec fn label_ok(tk: TickView) -> bool {
    if tk.prior == 0 {
        tk.label == Some(label_text(tk.ti, tk.t, tk.tz))
    } else {
        tk.label is None
    }
}

/// What holds of the ticks `xs` that came out and the ticks `pending` still to come.
pub open spec fn stream_inv(xs: Seq<TickView>, pending: Seq<TickView>) -> bool {
    &&& ticks_wf(pending)
    &&& forall|i: int| 0 <= i < pending.len() ==> label_ok(#[trigger] pending[i])
    &&& forall|i: int| 0 <= i < xs.len() ==> label_ok(#[trigger] xs[i])
    &&& forall|i: int, j: int|
        0 <= i < xs.len() && 0 <= j < pending.len() && pending[j].ti != TickInterval::Day ==> tick_precedes(
            #[trigger] xs[i],
            #[trigger] pending[j],
        )
    &&& forall|i: int, j: int|
        0 <= i < xs.len() && 0 <= j < pending.len() && #[trigger] xs[i].ti == #[trigger] pending[j].ti
            ==> xs[i].prior < pending[j].prior
    &&& forall|i: int, j: int|
        0 <= i < j < xs.len() && xs[j].ti != TickInterval::Day ==> tick_precedes(#[trigger] xs[i], #[trigger] xs[j])
    &&& forall|i: int, j: int|
        0 <= i < j < xs.len() && #[trigger] xs[i].ti == #[trigger] xs[j].ti ==> xs[i].prior < xs[j].prior
}

/// One more tick coming out keeps `stream_inv`.
proof fn lemma_stream_inv_step(xs: Seq<TickView>, old: Seq<TickView>, x: TickView, new: Seq<TickView>)
    requires
        stream_inv(xs, old),
        tick_step(old, x, new),
    ensures
        stream_inv(xs.push(x), new),
{
    lemma_step_counts_down(old, x, new);
    let i = choose|i: int|
        #![trigger old[i]]
        is_first(old, i) && old[i] == x && if is_last(x) {
            new == old.remove(i)
        } else {
            &&& new.len() == old.len()
            &&& new.drop_last() == old.remove(i)
            &&& new.last() == successor(x, new.last().t)
            &&& successor_instant_ok(x, new.last().t)
        };
    let ys = xs.push(x);
    let rest = old.remove(i);
    assert(label_ok(old[i]));
    // Every tick still pending was pending before, except the successor of `x`.
    assert forall|j: int| 0 <= j < rest.len() implies #[trigger] rest[j] == old[if j < i { j } else { j + 1 }] by {}
    assert forall|j: int| 0 <= j < new.len() implies label_ok(#[trigger] new[j]) by {
        if j < rest.len() {
            assert(new[j] == rest[j]);
            assert(rest[j] == old[if j < i { j } else { j + 1 }]);
        }
    }
    assert forall|a: int| 0 <= a < ys.len() implies label_ok(#[trigger] ys[a]) by {
        if a < xs.len() {
            assert(ys[a] == xs[a]);
        }
    }
    assert forall|a: int, j: int|
        0 <= a < ys.len() && 0 <= j < new.len() && new[j].ti != TickInterval::Day implies tick_precedes(
            #[trigger] ys[a],
            #[trigger] new[j],
        ) by {
        if j < rest.len() {
            let k = if j < i { j } else { j + 1 };
            assert(new[j] == rest[j] && rest[j] == old[k]);
            if a < xs.len() {
                assert(ys[a] == xs[a]);
            } else {
                assert(tick_precedes(old[i], old[k]));
            }
        } else {
            assert(new[j] == new.last());
            assert(x.ti != TickInterval::Day);
            assert(x.ti.spec_span().unit.is_time_unit());
            assert(x.ti.spec_span().nanos() > 0);
            if a < xs.len() {
                assert(ys[a] == xs[a]);
                assert(tick_precedes(xs[a], old[i]));
            }
        }
    }
    assert forall|a: int, j: int|
        0 <= a < ys.len() && 0 <= j < new.len() && #[trigger] ys[a].ti == #[trigger] new[j].ti implies ys[a].prior
        < new[j].prior by {
        if j < rest.len() {
            let k = if j < i { j } else { j + 1 };
            assert(new[j] == rest[j] && rest[j] == old[k]);
            if a < xs.len() {
                assert(ys[a] == xs[a]);
            } else {
                assert(old[k].ti != old[i].ti);
            }
        } else {
            assert(new[j] == new.last());
            if a < xs.len() {
                assert(ys[a] == xs[a]);
                assert(xs[a].prior < old[i].prior);
            }
        }
    }
    assert forall|a: int, b: int|
        0 <= a < b < ys.len() && ys[b].ti != TickInterval::Day implies tick_precedes(#[trigger] ys[a], #[trigger] ys[b]) by {
        assert(ys[a] == xs[a]);
        if b < xs.len() {
            assert(ys[b] == xs[b]);
        } else {
            assert(tick_precedes(xs[a], old[i]));
        }
    }
    assert forall|a: int, b: int|
        0 <= a < b < ys.len() && #[trigger] ys[a].ti == #[trigger] ys[b].ti implies ys[a].prior < ys[b].prior by {
        assert(ys[a] == xs[a]);
        if b < xs.len() {
            assert(ys[b] == xs[b]);
        } else {
            assert(xs[a].prior < old[i].prior);
        }
    }
}

/// Law: the whole stream of ticks. Of ticks that come out one after the other from
/// well-formed pending ticks, each labelled as `label_ok` says (the date or time of
/// day of its instant when it is the first of its interval, no label otherwise):
/// - as many come out as were to come, in all and per interval, once nothing is pending;
/// - no tick comes out before an earlier one, except that a day tick's place after
///   the previous day tick rests on calendar arithmetic in the time zone;
/// - the ticks of one interval come out with strictly increasing priors;
/// - exactly the first tick of each interval carries a label, the date or time of
///   day of its instant.
pub proof fn lemma_tick_stream(states: Seq<Seq<TickView>>, xs: Seq<TickView>)
    requires
        tick_run(states, xs),
        ticks_wf(states[0]),
        forall|i: int| 0 <= i < states[0].len() ==> label_ok(#[trigger] states[0][i]),
    ensures
        ticks_wf(states.last()),
        remaining(states.last()) == remaining(states[0]) - xs.len(),
        forall|ti: TickInterval|
            #[trigger] count_of(xs, ti) == remaining_in(states[0], ti) - remaining_in(states.last(), ti),
        states.last().len() == 0 ==> xs.len() == remaining(states[0]),
        states.last().len() == 0 ==> forall|ti: TickInterval| #[trigger] count_of(xs, ti) == remaining_in(states[0], ti),
        forall|i: int, j: int|
            0 <= i < j < xs.len() && xs[j].ti != TickInterval::Day ==> tick_precedes(#[trigger] xs[i], #[trigger] xs[j]),
        forall|i: int, j: int|
            0 <= i < j < xs.len() && #[trigger] xs[i].ti == #[trigger] xs[j].ti ==> xs[i].prior < xs[j].prior,
        forall|i: int| 0 <= i < xs.len() ==> label_ok(#[trigger] xs[i]),
        forall|i: int, j: int|
            0 <= i < j < xs.len() && xs[j].ti != TickInterval::Day ==> (#[trigger] xs[i]).t <= (#[trigger] xs[j]).t
                && (xs[i].t == xs[j].t ==> xs[i].prior <= xs[j].prior),
        forall|i: int|
            0 <= i < xs.len() && (#[trigger] xs[i]).prior == 0 ==> xs[i].label == Some(
                if xs[i].ti == TickInterval::Day {
                    date_text(xs[i].t, xs[i].tz)
                } else {
                    time_text(xs[i].t, xs[i].tz)
                },
            ),
{
    lemma_tick_run_prefix(states, xs, xs.len() as int);
    assert(xs.take(xs.len() as int) =~= xs);
    assert(states.last() == states[xs.len() as int]);
    let last = states.last();
    if last.len() == 0 {
        assert(remaining(last) == 0);
        assert forall|ti: TickInterval| #[trigger] count_of(xs, ti) == remaining_in(states[0], ti) by {
            assert(remaining_in(last, ti) == 0);
        }
    }
}

/// `stream_inv` and the counts hold after the first `k` ticks of a run.
proof fn lemma_tick_run_prefix(states: Seq<Seq<TickView>>, xs: Seq<TickView>, k: int)
    requires
        tick_run(states, xs),
        ticks_wf(states[0]),
        forall|i: int| 0 <= i < states[0].len() ==> label_ok(#[trigger] states[0][i]),
        0 <= k <= xs.len(),
    ensures
        stream_inv(xs.take(k), states[k]),
        remaining(states[k]) == remaining(states[0]) - k,
        forall|ti: TickInterval|
            #[trigger] count_of(xs.take(k), ti) == remaining_in(states[0], ti) - remaining_in(states[k], ti),
    decreases k,
{
    if k == 0 {
        assert(xs.take(0) =~= Seq::<TickView>::empty());
    } else {
        lemma_tick_run_prefix(states, xs, k - 1);
        assert(tick_step(states[k - 1], xs[k - 1], states[k]));
        lemma_stream_inv_step(xs.take(k - 1), states[k - 1], xs[k - 1], states[k]);
        lemma_step_counts_down(states[k - 1], xs[k - 1], states[k]);
        assert(xs.take(k - 1).push(xs[k - 1]) =~= xs.take(k));
        assert(xs.take(k).drop_last() =~= xs.take(k - 1));
        assert(xs.take(k).last() == xs[k - 1]);
        assert forall|ti: TickInterval|
            #[trigger] count_of(xs.take(k), ti) == remaining_in(states[0], ti) - remaining_in(states[k], ti) by {
            assert(count_of(xs.take(k - 1), ti) == remaining_in(states[0], ti) - remaining_in(states[k - 1], ti));
            if ti != xs[k - 1].ti {
                assert(remaining_in(states[k], ti) == remaining_in(states[k - 1], ti));
            }
        }
    }
}

/// Law: a run of ticks from a fresh `Ticks` (as `Ticks::new` makes it) that ends with
/// nothing pending has 234 ticks, `count(ti)` of each interval `ti`, and a label on
/// exactly the first tick of each interval, the date or time of day of its instant.
pub proof fn lemma_fresh_tick_stream(now: i128, tz: jiff::tz::TimeZone, states: Seq<Seq<TickView>>, xs: Seq<TickView>)
    requires
        tick_run(states, xs),
        ticks_wf(states[0]),
        states[0].len() == all_tick_intervals().len(),
        forall|i: int| 0 <= i < states[0].len() ==> #[trigger] states[0][i] == first_tick(now, tz, all_tick_intervals()[i]),
        remaining(states[0]) == 234,
        forall|ti: TickInterval| remaining_in(states[0], ti) == ti.spec_count(),
        states.last().len() == 0,
    ensures
        xs.len() == 234,
        forall|ti: TickInterval| #[trigger] count_of(xs, ti) == ti.spec_count(),
        forall|i: int| 0 <= i < xs.len() ==> label_ok(#[trigger] xs[i]),
{
    assert forall|i: int| 0 <= i < states[0].len() implies label_ok(#[trigger] states[0][i]) by {
        assert(states[0][i] == first_tick(now, tz, all_tick_intervals()[i]));
    }
    lemma_tick_stream(states, xs);
    assert forall|ti: TickInterval| #[trigger] count_of(xs, ti) == ti.spec_count() by {
        assert(remaining_in(states[0], ti) == ti.spec_count());
    }
}

/// The ticks `xs` follow one another in one interval: each but the last has a
/// successor, and the next one is it.
pub open spec fn tick_chain(xs: Seq<TickView>) -> bool {
    forall|k: int|
        0 <= k < xs.len() - 1 ==> !is_last(#[trigger] xs[k]) && xs[k + 1] == successor(xs[k], xs[k + 1].t)
            && successor_instant_ok(xs[k], xs[k + 1].t)
}

/// Law: the ticks of one interval, from a well-formed first one on. The `k`-th has
/// `k` more ticks before it, the same interval and time zone, and no label after
/// the first; for a span without calendar units it lies exactly `k` spans later. A
/// chain has at most as many ticks as its interval has left.
#[verifier::rlimit(60)]
pub proof fn lemma_tick_chain(xs: Seq<TickView>)
    requires
        xs.len() > 0,
        tick_wf(xs[0]),
        tick_chain(xs),
    ensures
        xs.len() <= xs[0].ti.spec_count() - xs[0].prior,
        forall|k: int|
            0 <= k < xs.len() ==> {
                &&& tick_wf(#[trigger] xs[k])
                &&& xs[k].prior == xs[0].prior + k
                &&& xs[k].ti == xs[0].ti
                &&& xs[k].tz == xs[0].tz
                &&& k > 0 ==> xs[k].label is None
                &&& xs[0].ti.spec_span().unit.is_time_unit() ==> xs[k].t == xs[0].t + k * xs[0].ti.spec_span().nanos()
            },
    decreases xs.len(),
{
    if xs.len() > 1 {
        let init = xs.drop_last();
        assert forall|k: int| 0 <= k < init.len() - 1 implies !is_last(#[trigger] init[k]) && init[k + 1] == successor(
            init[k],
            init[k + 1].t,
        ) && successor_instant_ok(init[k], init[k + 1].t) by {
            assert(init[k] == xs[k] && init[k + 1] == xs[k + 1]);
            assert(!is_last(xs[k]));
        }
        lemma_tick_chain(init);
        let n = xs.len() - 1;
        assert(init[n - 1] == xs[n - 1]);
        assert(!is_last(xs[n - 1]));
        assert(xs[n] == successor(xs[n - 1], xs[n].t));
        assert(successor_instant_ok(xs[n - 1], xs[n].t));
        assert forall|k: int| 0 <= k < xs.len() implies {
            &&& tick_wf(#[trigger] xs[k])
            &&& xs[k].prior == xs[0].prior + k
            &&& xs[k].ti == xs[0].ti
            &&& xs[k].tz == xs[0].tz
            &&& k > 0 ==> xs[k].label is None
            &&& xs[0].ti.spec_span().unit.is_time_unit() ==> xs[k].t == xs[0].t + k * xs[0].ti.spec_span().nanos()
        } by {
            if k < n {
                assert(xs[k] == init[k]);
            } else {
                assert(init[n - 1] == xs[n - 1]);
                assert(xs[0] == init[0]);
                if xs[0].ti.spec_span().unit.is_time_unit() {
                    let d = xs[0].ti.spec_span().nanos();
                    assert(xs[n].t == xs[n - 1].t + d);
                    assert((n - 1) * d + d == n * d) by (nonlinear_arith);
                }
            }
        }
    }
}

/// `now` in `tz` can be rounded for every tick interval.
pub open spec fn all_first_ticks_exist(now: i128, tz: jiff::tz::TimeZone) -> bool {
    forall|i: int| 0 <= i < all_tick_intervals().len() ==> (#[trigger] first_tick_instant(now, tz, all_tick_intervals()[i])) is Some
}

/// The ticks still to come on the spiral, merged so that they come out earliest first.
pub struct Ticks {
    pending: Vec<Tick>,
}

impl View for Ticks {
    type V = Seq<TickView>;

    closed spec fn view(&self) -> Seq<TickView> {
        self.pending@.map_values(|t: Tick| t@)
    }
}

impl Ticks {
    /// The pending ticks are well formed, at most one per interval.
    pub open spec fn wf(&self) -> bool {
        ticks_wf(self@)
    }

    /// The first tick of every interval, shortest interval first: `now` in `tz`
    /// rounded up to the interval, labelled. `jiff` must be able to round `now` in
    /// `tz` for every interval; `Ticks::checked_new` tests that first.
    pub fn new(now: i128, tz: jiff::tz::TimeZone) -> (r: Result<Ticks, TimeError>)
        requires
            instant_in_range(now as int),
            all_first_ticks_exist(now, tz),
        ensures
            r is Ok,
            r matches Ok(ts) ==> {
                &&& ts.wf()
                &&& ts@.len() == all_tick_intervals().len()
                &&& forall|i: int|
                    0 <= i < ts@.len() ==> #[trigger] ts@[i] == first_tick(now, tz, all_tick_intervals()[i])
                &&& remaining(ts@) == 234
                &&& forall|ti: TickInterval| remaining_in(ts@, ti) == ti.spec_count()
            },
    {
        let intervals = TickInterval::all();
        let mut pending: Vec<Tick> = Vec::new();
        let mut i: usize = 0;
        while i < intervals.len()
            invariant
                intervals@ == all_tick_intervals(),
                i <= intervals.len(),
                instant_in_range(now as int),
                pending@.len() == i,
                forall|j: int|
                    0 <= j < i ==> tick_wf((#[trigger] pending@[j])@) && pending@[j]@ == first_tick(now, tz, all_tick_intervals()[j]),
                all_first_ticks_exist(now, tz),
            decreases intervals.len() - i,
        {
            assert(first_tick_instant(now, tz, all_tick_intervals()[i as int]) is Some);
            match Tick::new(now, &tz, intervals[i]) {
                Ok(tk) => pending.push(tk),
                Err(e) => {
                    return Err(e);
                },
            }
            i = i + 1;
        }
        let ts = Ticks { pending };
        proof {
            let s = ts@;
            assert forall|j: int| 0 <= j < s.len() implies tick_wf(#[trigger] s[j]) && s[j].ti == all_tick_intervals()[j]
                && s[j].prior == 0 && s[j] == first_tick(now, tz, all_tick_intervals()[j]) by {
                assert(s[j] == pending@[j]@);
            }
            lemma_first_ticks_remaining(s);
        }
        Ok(ts)
    }

    /// Like `Ticks::new`, but first tests that `jiff` can round `now` in `tz` for
    /// every interval, and fails with a rounding error where it cannot.
    pub fn checked_new(now: i128, tz: jiff::tz::TimeZone) -> (r: Result<Ticks, TimeError>)
        requires
            instant_in_range(now as int),
        ensures
            r is Ok <==> all_first_ticks_exist(now, tz),
            r matches Ok(ts) ==> {
                &&& ts.wf()
                &&& ts@.len() == all_tick_intervals().len()
                &&& forall|i: int|
                    0 <= i < ts@.len() ==> #[trigger] ts@[i] == first_tick(now, tz, all_tick_intervals()[i])
                &&& remaining(ts@) == 234
                &&& forall|ti: TickInterval| remaining_in(ts@, ti) == ti.spec_count()
            },
    {
        let intervals = TickInterval::all();
        let mut i: usize = 0;
        while i < intervals.len()
            invariant
                intervals@ == all_tick_intervals(),
                i <= intervals.len(),
                instant_in_range(now as int),
                forall|j: int| 0 <= j < i ==> (#[trigger] first_tick_instant(now, tz, all_tick_intervals()[j])) is Some,
            decreases intervals.len() - i,
        {
            let rounding = intervals[i].zoned_round();
            match zoned_round(now, &tz, rounding.mode, rounding.unit, rounding.increment) {
                Ok(_) => {},
                Err(e) => {
                    assert(first_tick_instant(now, tz, all_tick_intervals()[i as int]) is None);
                    return Err(TimeError::Rounding(error_message(&e)));
                },
            }
            i = i + 1;
        }
        Ticks::new(now, tz)
    }

    /// Takes out the tick that comes first, and puts the tick after it, if any, among
    /// the pending ticks. `None` once no tick is left. Fails when `jiff` cannot compute
    /// the tick after it; that tick is then gone.
    pub fn next_res(&mut self) -> (r: Result<Option<Tick>, TimeError>)
        requires
            old(self).wf(),
        ensures
            final(self).wf(),
            r matches Ok(None) <==> old(self)@.len() == 0,
            r matches Ok(None) ==> final(self)@ == old(self)@,
            r matches Ok(Some(tk)) ==> tick_step(old(self)@, tk@, final(self)@),
            r matches Ok(Some(tk)) ==> remaining(final(self)@) == remaining(old(self)@) - 1,
            r is Err ==> tick_step_failed(old(self)@, final(self)@),
    {
        let ghost s = self@;
        if self.pending.len() == 0 {
            return Ok(None);
        }
        let mut best: usize = 0;
        let mut i: usize = 1;
        while i < self.pending.len()
            invariant
                self@ == s,
                s.len() == self.pending@.len(),
                0 <= best < i <= s.len(),
                forall|j: int| 0 <= j < i ==> tick_precedes(s[best as int], #[trigger] s[j]),
            decreases self.pending.len() - i,
        {
            assert(s[i as int] == self.pending@[i as int]@ && s[best as int] == self.pending@[best as int]@);
            if !self.pending[best].precedes(&self.pending[i]) {
                best = i;
            }
            i = i + 1;
        }
        assert(is_first(s, best as int));
        let tick = self.pending.remove(best);
        assert(self@ =~= s.remove(best as int));
        assert(tick@ == s[best as int]);
        assert(tick_wf(s[best as int]));
        match tick.next() {
            Ok(Some(n)) => {
                self.pending.push(n);
                proof {
                    assert(self@ =~= s.remove(best as int).push(n@));
                    assert(self@.drop_last() =~= s.remove(best as int));
                    assert(tick_step(s, tick@, self@));
                    lemma_step_counts_down(s, tick@, self@);
                }
                Ok(Some(tick))
            },
            Ok(None) => {
                proof {
                    assert(tick_step(s, tick@, self@));
                    lemma_step_counts_down(s, tick@, self@);
                }
                Ok(Some(tick))
            },
            Err(e) => {
                proof {
                    assert(tick_step_failed(s, self@));
                    lemma_step_failed_wf(s, self@);
                }
                Err(e)
            },
        }
    }
}

/// The first ticks of all intervals leave every tick of every interval to come.
proof fn lemma_first_ticks_remaining(s: Seq<TickView>)
    requires
        s.len() == all_tick_intervals().len(),
        forall|j: int|
            0 <= j < s.len() ==> tick_wf(#[trigger] s[j]) && s[j].ti == all_tick_intervals()[j] && s[j].prior == 0,
    ensures
        ticks_wf(s),
        remaining(s) == 234,
        forall|ti: TickInterval| remaining_in(s, ti) == ti.spec_count(),
{
    assert forall|k: int| 0 <= k <= s.len() implies #[trigger] remaining_where(s.take(k), None) == first_ticks_remaining(k, None) by {
        lemma_first_ticks_prefix(s, k, None);
    }
    assert forall|ti: TickInterval| remaining_in(s, ti) == ti.spec_count() by {
        lemma_first_ticks_prefix(s, 9, Some(ti));
        assert(s.take(9) =~= s);
        reveal_with_fuel(first_ticks_remaining, 10);
        match ti {
            TickInterval::Second => {},
            TickInterval::QuarterMinute => {},
            TickInterval::Minute => {},
            TickInterval::QuarterHour => {},
            TickInterval::Hour => {},
            TickInterval::EighthDay => {},
            TickInterval::QuarterDay => {},
            TickInterval::HalfDay => {},
            TickInterval::Day => {},
        }
    }
    assert(s.take(9) =~= s);
    assert(first_ticks_remaining(9, None) == 234) by {
        reveal_with_fuel(first_ticks_remaining, 10);
    }
    let all = all_tick_intervals();
    assert forall|a: int, b: int| 0 <= a < s.len() && 0 <= b < s.len() && a != b implies #[trigger] s[a].ti != #[trigger] s[b].ti by {
        assert(s[a].ti == all[a] && s[b].ti == all[b]);
    }
}

/// What the first ticks of the first `k` intervals leave to come, of interval `only`.
pub open spec fn first_ticks_remaining(k: int, only: Option<TickInterval>) -> int
    decreases k,
{
    if k <= 0 {
        0
    } else {
        first_ticks_remaining(k - 1, only) + if counted(only, all_tick_intervals()[k - 1]) {
            all_tick_intervals()[k - 1].spec_count() as int
        } else {
            0
        }
    }
}

proof fn lemma_first_ticks_prefix(s: Seq<TickView>, k: int, only: Option<TickInterval>)
    requires
        0 <= k <= s.len() == all_tick_intervals().len(),
        forall|j: int| 0 <= j < s.len() ==> (#[trigger] s[j]).ti == all_tick_intervals()[j] && s[j].prior == 0,
    ensures
        remaining_where(s.take(k), only) == first_ticks_remaining(k, only),
    decreases k,
{
    if k > 0 {
        lemma_first_ticks_prefix(s, k - 1, only);
        assert(s.take(k).drop_last() =~= s.take(k - 1));
        assert(s.take(k).last() == s[k - 1]);
    }
}

/// After a failed step, the pending ticks that remain are still well formed.
proof fn lemma_step_failed_wf(old: Seq<TickView>, new: Seq<TickView>)
    requires
        ticks_wf(old),
        tick_step_failed(old, new),
    ensures
        ticks_wf(new),
{
    let i = choose|i: int|
        #![trigger old[i]]
        is_first(old, i) && !is_last(old[i]) && new == old.remove(i) && zoned_sum(old[i].t, old[i].tz, old[i].ti.spec_span()) is None && (
        old[i].ti.spec_span().unit.is_time_unit() ==> !timestamp_add_ok(
            old[i].t as int,
            old[i].ti.spec_span(),
        ));
    assert forall|a: int, b: int| 0 <= a < new.len() && 0 <= b < new.len() && a != b implies #[trigger] new[a].ti != #[trigger] new[b].ti by {
        let ia = if a < i { a } else { a + 1 };
        let ib = if b < i { b } else { b + 1 };
        assert(new[a] == old[ia] && new[b] == old[ib]);
    }
    assert forall|a: int| 0 <= a < new.len() implies tick_wf(#[trigger] new[a]) by {
        let ia = if a < i { a } else { a + 1 };
        assert(new[a] == old[ia]);
    }
}

/// Law: a finer tick interval has a strictly shorter period, as far as periods have a
/// fixed length: of two intervals of fixed-length spans, the later one in
/// `all_tick_intervals()` has the longer span. (The day span is a calendar span.)
pub proof fn lemma_tick_periods_increase(i: int, j: int)
    requires
        0 <= i < j < all_tick_intervals().len(),
        all_tick_intervals()[i].spec_span().unit.is_time_unit(),
        all_tick_intervals()[j].spec_span().unit.is_time_unit(),
    ensures
        0 < all_tick_intervals()[i].spec_span().nanos() < all_tick_intervals()[j].spec_span().nanos(),
{
    let a = all_tick_intervals();
    assert(a[0] == TickInterval::Second && a[1] == TickInterval::QuarterMinute && a[2] == TickInterval::Minute);
    assert(a[3] == TickInterval::QuarterHour && a[4] == TickInterval::Hour && a[5] == TickInterval::EighthDay);
    assert(a[6] == TickInterval::QuarterDay && a[7] == TickInterval::HalfDay && a[8] == TickInterval::Day);
}

/// Law: the tick that comes out is an earliest pending one: no pending tick is at an
/// earlier instant, and none at the same instant has fewer ticks of its interval
/// before it.
pub proof fn lemma_step_takes_earliest(old: Seq<TickView>, tk: TickView, new: Seq<TickView>)
    requires
        tick_step(old, tk, new),
    ensures
        forall|j: int| 0 <= j < old.len() ==> tk.t <= (#[trigger] old[j]).t,
        forall|j: int| 0 <= j < old.len() && (#[trigger] old[j]).t == tk.t ==> tk.prior <= old[j].prior,
{
    let i = choose|i: int|
        #![trigger old[i]]
        is_first(old, i) && old[i] == tk && if is_last(tk) {
            new == old.remove(i)
        } else {
            &&& new.len() == old.len()
            &&& new.drop_last() == old.remove(i)
            &&& new.last() == successor(tk, new.last().t)
            &&& successor_instant_ok(tk, new.last().t)
        };
    assert forall|j: int| 0 <= j < old.len() implies tk.t <= (#[trigger] old[j]).t by {
        assert(tick_precedes(old[i], old[j]));
    }
    assert forall|j: int| 0 <= j < old.len() && (#[trigger] old[j]).t == tk.t implies tk.prior <= old[j].prior by {
        assert(tick_precedes(old[i], old[j]));
    }
}

/// Law: each tick interval is as long as its name says. A second is 10^9 ns; a
/// quarter minute is 15 s and four of them make a minute of 60 s; a quarter hour is
/// 15 min and four of them make an hour of 60 min; an eighth, a quarter and a half
/// of a day are 3, 6 and 12 hours, 8, 4 and 2 of which make 24 hours; a day is one
/// calendar day.
pub proof fn lemma_tick_spans_named()
    ensures
        TickInterval::Second.spec_span().nanos() == 1_000_000_000,
        TickInterval::QuarterMinute.spec_span().nanos() == 15 * TickInterval::Second.spec_span().nanos(),
        4 * TickInterval::QuarterMinute.spec_span().nanos() == TickInterval::Minute.spec_span().nanos(),
        TickInterval::Minute.spec_span().nanos() == 60 * TickInterval::Second.spec_span().nanos(),
        TickInterval::QuarterHour.spec_span().nanos() == 15 * TickInterval::Minute.spec_span().nanos(),
        4 * TickInterval::QuarterHour.spec_span().nanos() == TickInterval::Hour.spec_span().nanos(),
        TickInterval::Hour.spec_span().nanos() == 60 * TickInterval::Minute.spec_span().nanos(),
        8 * TickInterval::EighthDay.spec_span().nanos() == 24 * TickInterval::Hour.spec_span().nanos(),
        4 * TickInterval::QuarterDay.spec_span().nanos() == 24 * TickInterval::Hour.spec_span().nanos(),
        2 * TickInterval::HalfDay.spec_span().nanos() == 24 * TickInterval::Hour.spec_span().nanos(),
        TickInterval::Day.spec_span() == (UnitSpan { unit: SpanUnit::Day, amount: 1 }),
        forall|ti: TickInterval| ti != TickInterval::Day ==> #[trigger] ti.spec_span().unit.is_time_unit(),
{
}

/// Law: the tick after `tk` lies exactly as far after it as its interval's name says
/// (1 s, 15 s, 1 min, 15 min, 1 h, 3 h, 6 h, 12 h), and the day tick's is one calendar
/// day later in its time zone.
pub proof fn lemma_successor_distance(tk: TickView, t: i128)
    requires
        successor_instant_ok(tk, t),
    ensures
        tk.ti == TickInterval::Second ==> t == tk.t + 1_000_000_000,
        tk.ti == TickInterval::QuarterMinute ==> t == tk.t + 15_000_000_000,
        tk.ti == TickInterval::Minute ==> t == tk.t + 60_000_000_000,
        tk.ti == TickInterval::QuarterHour ==> t == tk.t + 900_000_000_000,
        tk.ti == TickInterval::Hour ==> t == tk.t + 3_600_000_000_000,
        tk.ti == TickInterval::EighthDay ==> t == tk.t + 10_800_000_000_000,
        tk.ti == TickInterval::QuarterDay ==> t == tk.t + 21_600_000_000_000,
        tk.ti == TickInterval::HalfDay ==> t == tk.t + 43_200_000_000_000,
        tk.ti == TickInterval::Day ==> Some(t) == zoned_sum(tk.t, tk.tz, UnitSpan { unit: SpanUnit::Day, amount: 1 }),
{
}

/// Law: the first tick of each interval is `now` rounded up (`RoundMode::Ceil`) in its
/// time zone to a multiple of the interval's own span: the grid the ticks of the
/// interval then walk along.
pub proof fn lemma_first_tick_rounds_up_to_span(now: i128, tz: jiff::tz::TimeZone, ti: TickInterval)
    ensures
        ti.spec_rounding().mode == RoundMode::Ceil,
        ti.spec_rounding().increment == ti.spec_span().amount,
        first_tick_instant(now, tz, ti) == zoned_rounded(
            now,
            tz,
            RoundMode::Ceil,
            match ti.spec_span().unit {
                SpanUnit::Second => RoundUnit::Second,
                SpanUnit::Minute => RoundUnit::Minute,
                SpanUnit::Hour => RoundUnit::Hour,
                _ => RoundUnit::Day,
            },
            ti.spec_span().amount,
        ),
{
}

/// Law: a first tick is labelled with the civil date of its instant for the day
/// interval and with the time of day for every other interval.
pub proof fn lemma_label_kinds(ti: TickInterval, t: i128, tz: jiff::tz::TimeZone)
    ensures
        ti == TickInterval::Day ==> label_text(ti, t, tz) == date_text(t, tz),
        ti != TickInterval::Day ==> label_text(ti, t, tz) == time_text(t, tz),
{
}

/// Law: the tick intervals and the interval markers that share a name share their
/// period: minute, quarter hour, hour, eighth, quarter and half of a day, and day.
pub proof fn lemma_tick_and_marker_spans_agree()
    ensures
        TickInterval::Minute.spec_span() == IntervalMarker::Minute.spec_span(),
        TickInterval::QuarterHour.spec_span() == IntervalMarker::QuarterHour.spec_span(),
        TickInterval::Hour.spec_span() == IntervalMarker::Hour.spec_span(),
        TickInterval::EighthDay.spec_span() == IntervalMarker::EighthDay.spec_span(),
        TickInterval::QuarterDay.spec_span() == IntervalMarker::QuarterDay.spec_span(),
        TickInterval::HalfDay.spec_span() == IntervalMarker::HalfDay.spec_span(),
        TickInterval::Day.spec_span() == IntervalMarker::Day.spec_span(),
{
}

/// Law: how far each interval's run of ticks reaches. The hour, eighth-day,
/// quarter-day and half-day runs each cover exactly one day of 24 hours; the second
/// run covers 30 s, the quarter-minute run 2 min, the minute and quarter-hour runs
/// 2 h each, and the day run 30 days. In all, 234 ticks.
pub proof fn lemma_tick_counts_cover()
    ensures
        TickInterval::Second.spec_count() * TickInterval::Second.spec_span().nanos() == 30_000_000_000,
        TickInterval::QuarterMinute.spec_count() * TickInterval::QuarterMinute.spec_span().nanos() == 2 * TickInterval::Minute.spec_span().nanos(),
        TickInterval::Minute.spec_count() * TickInterval::Minute.spec_span().nanos() == 2 * TickInterval::Hour.spec_span().nanos(),
        TickInterval::QuarterHour.spec_count() * TickInterval::QuarterHour.spec_span().nanos() == 2 * TickInterval::Hour.spec_span().nanos(),
        TickInterval::Hour.spec_count() * TickInterval::Hour.spec_span().nanos() == 86_400_000_000_000,
        TickInterval::EighthDay.spec_count() * TickInterval::EighthDay.spec_span().nanos() == 86_400_000_000_000,
        TickInterval::QuarterDay.spec_count() * TickInterval::QuarterDay.spec_span().nanos() == 86_400_000_000_000,
        TickInterval::HalfDay.spec_count() * TickInterval::HalfDay.spec_span().nanos() == 86_400_000_000_000,
        TickInterval::Day.spec_count() == 30 && TickInterval::Day.spec_span() == (UnitSpan { unit: SpanUnit::Day, amount: 1 }),
        first_ticks_remaining(9, None) == 234,
{
    reveal_with_fuel(first_ticks_remaining, 10);
}

} // verus!
