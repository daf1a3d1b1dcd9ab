//! Events on the countdown spiral: user events and the recurring interval markers.

use vstd::prelude::*;

use crate::time::{
    error_message, instant_in_range, timestamp_add_ok, timestamp_checked_add, timestamp_now, SpanUnit,
    TimeError, UnitSpan,
};

verus! {

/// Something shown on the spiral at some instant.
#[derive(Clone, Debug)]
pub enum Event {
    /// An event named by the user.
    User(String),
    /// A recurring marker one interval ahead of the moment it was (re)scheduled.
    Ivm(IntervalMarker),
}

/// The recurring intervals that are marked on the spiral.
#[derive(Copy, Clone, Debug, PartialEq, Eq, Structural)]
pub enum IntervalMarker {
    Minute,
    QuarterHour,
    Hour,
    EighthDay,
    QuarterDay,
    HalfDay,
    Day,
    Week,
    Month,
    Year,
}

/// All interval markers, shortest first.
pub open spec fn all_markers() -> Seq<IntervalMarker> {
    seq![
        IntervalMarker::Minute,
        IntervalMarker::QuarterHour,
        IntervalMarker::Hour,
        IntervalMarker::EighthDay,
        IntervalMarker::QuarterDay,
        IntervalMarker::HalfDay,
        IntervalMarker::Day,
        IntervalMarker::Week,
        IntervalMarker::Month,
        IntervalMarker::Year,
    ]
}

impl IntervalMarker {
    /// The span between two occurrences of the marker.
    pub open spec fn spec_span(self) -> UnitSpan {
        match self {
            IntervalMarker::Minute => UnitSpan { unit: SpanUnit::Minute, amount: 1 },
            IntervalMarker::QuarterHour => UnitSpan { unit: SpanUnit::Minute, amount: 15 },
            IntervalMarker::Hour => UnitSpan { unit: SpanUnit::Hour, amount: 1 },
            IntervalMarker::EighthDay => UnitSpan { unit: SpanUnit::Hour, amount: 3 },
            IntervalMarker::QuarterDay => UnitSpan { unit: SpanUnit::Hour, amount: 6 },
            IntervalMarker::HalfDay => UnitSpan { unit: SpanUnit::Hour, amount: 12 },
            IntervalMarker::Day => UnitSpan { unit: SpanUnit::Day, amount: 1 },
            IntervalMarker::Week => UnitSpan { unit: SpanUnit::Week, amount: 1 },
            IntervalMarker::Month => UnitSpan { unit: SpanUnit::Month, amount: 1 },
            IntervalMarker::Year => UnitSpan { unit: SpanUnit::Year, amount: 1 },
        }
    }

    /// All interval markers, shortest first.
    pub fn enumerate() -> (r: Vec<IntervalMarker>)
        ensures
            r@ == all_markers(),
    {
        vec![
            IntervalMarker::Minute,
            IntervalMarker::QuarterHour,
            IntervalMarker::Hour,
            IntervalMarker::EighthDay,
            IntervalMarker::QuarterDay,
            IntervalMarker::HalfDay,
            IntervalMarker::Day,
            IntervalMarker::Week,
            IntervalMarker::Month,
            IntervalMarker::Year,
        ]
    }

    /// The span between two occurrences of the marker.
    pub fn span(self) -> (r: UnitSpan)
        ensures
            r == self.spec_span(),
    {
        match self {
            IntervalMarker::Minute => UnitSpan { unit: SpanUnit::Minute, amount: 1 },
            IntervalMarker::QuarterHour => UnitSpan { unit: SpanUnit::Minute, amount: 15 },
            IntervalMarker::Hour => UnitSpan { unit: SpanUnit::Hour, amount: 1 },
            IntervalMarker::EighthDay => UnitSpan { unit: SpanUnit::Hour, amount: 3 },
            IntervalMarker::QuarterDay => UnitSpan { unit: SpanUnit::Hour, amount: 6 },
            IntervalMarker::HalfDay => UnitSpan { unit: SpanUnit::Hour, amount: 12 },
            IntervalMarker::Day => UnitSpan { unit: SpanUnit::Day, amount: 1 },
            IntervalMarker::Week => UnitSpan { unit: SpanUnit::Week, amount: 1 },
            IntervalMarker::Month => UnitSpan { unit: SpanUnit::Month, amount: 1 },
            IntervalMarker::Year => UnitSpan { unit: SpanUnit::Year, amount: 1 },
        }
    }
}


/// The next occurrence of an event after it drops off at `now`: an interval marker
/// comes back one span after `now`; a user event does not come back. Meant where
/// `can_reschedule(ev, now)` holds: elsewhere the marker's span cannot be added.
pub open spec fn next_occurrence(ev: Event, now: i128) -> Option<(i128, Event)>
    recommends
        can_reschedule(ev, now),
{
    match ev {
        Event::Ivm(m) => Some(((now + m.spec_span().nanos()) as i128, Event::Ivm(m))),
        Event::User(_) => None,
    }
}

/// Rescheduling `ev` at `now` is arithmetic that `jiff` accepts.
pub open spec fn can_reschedule(ev: Event, now: i128) -> bool {
    match ev {
        Event::Ivm(m) => timestamp_add_ok(now as int, m.spec_span()),
        Event::User(_) => true,
    }
}

/// The marker `m` one span after `now`. Meant where `jiff` can add the span to `now`
/// as a timestamp.
pub open spec fn standard_entry(now: i128, m: IntervalMarker) -> (i128, Event)
    recommends
        timestamp_add_ok(now as int, m.spec_span()),
{
    ((now + m.spec_span().nanos()) as i128, Event::Ivm(m))
}

/// `r` is what scheduling marker `m` one span after `now` gives: the entry where
/// `jiff` can add the span to `now` as a timestamp, an error otherwise.
pub open spec fn standard_result(r: Result<(i128, Event), TimeError>, now: i128, m: IntervalMarker) -> bool {
    &&& r is Ok <==> timestamp_add_ok(now as int, m.spec_span())
    &&& r matches Ok(x) ==> x == standard_entry(now, m)
}

impl Event {
    /// The occurrence of this event after it drops off at `now`, if it recurs.
    pub fn next_iteration_from(self, now: i128) -> (r: Option<(i128, Event)>)
        requires
            instant_in_range(now as int),
            can_reschedule(self, now),
        ensures
            r == next_occurrence(self, now),
    {
        match self {
            Event::Ivm(ivm) => {
                match timestamp_checked_add(now, ivm.span()) {
                    Ok(t) => Some((t, Event::Ivm(ivm))),
                    Err(_) => None,
                }
            },
            Event::User(_) => None,
        }
    }

    /// Every interval marker, shortest first, scheduled one span after `now`: for
    /// each marker, its entry, or the error `jiff` gives where it cannot add the
    /// marker's span to `now` as a timestamp. The day, week, month and year spans
    /// are calendar spans, so their entries are always errors
    /// (`lemma_calendar_markers_refused`).
    pub fn standard_intervals_at(now: i128) -> (r: Vec<Result<(i128, Event), TimeError>>)
        requires
            instant_in_range(now as int),
        ensures
            r@.len() == all_markers().len(),
            forall|i: int| 0 <= i < r@.len() ==> standard_result(#[trigger] r@[i], now, all_markers()[i]),
    {
        let markers = IntervalMarker::enumerate();
        let mut out: Vec<Result<(i128, Event), TimeError>> = Vec::new();
        let mut i: usize = 0;
        while i < markers.len()
            invariant
                markers@ == all_markers(),
                i <= markers.len(),
                instant_in_range(now as int),
                out@.len() == i,
                forall|j: int| 0 <= j < i ==> standard_result(#[trigger] out@[j], now, all_markers()[j]),
            decreases markers.len() - i,
        {
            let m = markers[i];
            let entry = match timestamp_checked_add(now, m.span()) {
                Ok(t) => Ok((t, Event::Ivm(m))),
                Err(e) => Err(TimeError::Arithmetic(error_message(&e))),
            };
            out.push(entry);
            i = i + 1;
        }
        out
    }

    /// Every interval marker, shortest first, scheduled one span after the current
    /// time, as `standard_intervals_at` gives them at that time.
    pub fn standard_intervals() -> (r: Vec<Result<(i128, Event), TimeError>>)
        ensures
            r@.len() == all_markers().len(),
            exists|now: i128|
                instant_in_range(now as int) && forall|i: int|
                    0 <= i < r@.len() ==> standard_result(#[trigger] r@[i], now, all_markers()[i]),
            forall|i: int| 6 <= i < r@.len() ==> (#[trigger] r@[i]) is Err,
    {
        let now = timestamp_now();
        let r = Event::standard_intervals_at(now);
        proof {
            lemma_calendar_markers_refused(now);
            assert forall|i: int| 6 <= i < r@.len() implies (#[trigger] r@[i]) is Err by {
                assert(standard_result(r@[i], now, all_markers()[i]));
            }
        }
        r
    }
}

/// The day, week, month and year markers cannot be scheduled on a timestamp: their
/// spans are calendar spans, which a timestamp cannot add.
pub proof fn lemma_calendar_markers_refused(now: i128)
    ensures
        forall|i: int| 6 <= i < all_markers().len() ==> !timestamp_add_ok(now as int, #[trigger] all_markers()[i].spec_span()),
{
    assert(all_markers()[6] == IntervalMarker::Day);
    assert(all_markers()[7] == IntervalMarker::Week);
    assert(all_markers()[8] == IntervalMarker::Month);
    assert(all_markers()[9] == IntervalMarker::Year);
}

/// A recurring event comes back strictly after the moment it is rescheduled at,
/// at an instant `jiff` can represent.
pub proof fn lemma_next_occurrence_later(ev: Event, now: i128)
    requires
        can_reschedule(ev, now),
    ensures
        next_occurrence(ev, now) matches Some(x) ==> x.0 > now && instant_in_range(x.0 as int),
{
    match ev {
        Event::Ivm(m) => {
            let sp = m.spec_span();
            assert(sp.nanos() > 0) by {
                match m {
                    IntervalMarker::Minute => {},
                    IntervalMarker::QuarterHour => {},
                    IntervalMarker::Hour => {},
                    IntervalMarker::EighthDay => {},
                    IntervalMarker::QuarterDay => {},
                    IntervalMarker::HalfDay => {},
                    _ => {},
                }
            }
        },
        Event::User(_) => {},
    }
}

/// Law: markers come in strictly increasing order of period, as far as periods have
/// a fixed length: of two markers of fixed-length spans, the later one in
/// `all_markers()` has the longer span. (The day, week, month and year spans are
/// calendar spans, whose length depends on the time zone and date.)
pub proof fn lemma_marker_periods_increase(i: int, j: int)
    requires
        0 <= i < j < all_markers().len(),
        all_markers()[i].spec_span().unit.is_time_unit(),
        all_markers()[j].spec_span().unit.is_time_unit(),
    ensures
        0 < all_markers()[i].spec_span().nanos() < all_markers()[j].spec_span().nanos(),
{
    let m = all_markers();
    assert(m[0] == IntervalMarker::Minute && m[1] == IntervalMarker::QuarterHour && m[2] == IntervalMarker::Hour);
    assert(m[3] == IntervalMarker::EighthDay && m[4] == IntervalMarker::QuarterDay && m[5] == IntervalMarker::HalfDay);
    assert(m[6] == IntervalMarker::Day && m[7] == IntervalMarker::Week && m[8] == IntervalMarker::Month && m[9] == IntervalMarker::Year);
}

/// Law: each interval marker's period is what its name says. The whole-unit markers
/// are exactly one minute, hour, day, week, month and year; a quarter hour is
/// 15 minutes, four of which make the hour; an eighth, a quarter and a half of a
/// day are 3, 6 and 12 hours, 8, 4 and 2 of which make 24 hours.
pub proof fn lemma_marker_spans_named()
    ensures
        IntervalMarker::Minute.spec_span() == (UnitSpan { unit: SpanUnit::Minute, amount: 1 }),
        IntervalMarker::Hour.spec_span() == (UnitSpan { unit: SpanUnit::Hour, amount: 1 }),
        IntervalMarker::Day.spec_span() == (UnitSpan { unit: SpanUnit::Day, amount: 1 }),
        IntervalMarker::Week.spec_span() == (UnitSpan { unit: SpanUnit::Week, amount: 1 }),
        IntervalMarker::Month.spec_span() == (UnitSpan { unit: SpanUnit::Month, amount: 1 }),
        IntervalMarker::Year.spec_span() == (UnitSpan { unit: SpanUnit::Year, amount: 1 }),
        IntervalMarker::Minute.spec_span().nanos() == 60_000_000_000,
        IntervalMarker::Hour.spec_span().nanos() == 60 * IntervalMarker::Minute.spec_span().nanos(),
        4 * IntervalMarker::QuarterHour.spec_span().nanos() == IntervalMarker::Hour.spec_span().nanos(),
        8 * IntervalMarker::EighthDay.spec_span().nanos() == 24 * IntervalMarker::Hour.spec_span().nanos(),
        4 * IntervalMarker::QuarterDay.spec_span().nanos() == 24 * IntervalMarker::Hour.spec_span().nanos(),
        2 * IntervalMarker::HalfDay.spec_span().nanos() == 24 * IntervalMarker::Hour.spec_span().nanos(),
        forall|m: IntervalMarker| (#[trigger] m.spec_span()).amount_ok() && m.spec_span().amount > 0,
{
    assert forall|m: IntervalMarker| (#[trigger] m.spec_span()).amount_ok() && m.spec_span().amount > 0 by {
        match m {
            IntervalMarker::Minute => {},
            IntervalMarker::QuarterHour => {},
            IntervalMarker::Hour => {},
            IntervalMarker::EighthDay => {},
            IntervalMarker::QuarterDay => {},
            IntervalMarker::HalfDay => {},
            IntervalMarker::Day => {},
            IntervalMarker::Week => {},
            IntervalMarker::Month => {},
            IntervalMarker::Year => {},
        }
    }
}

/// Law: a marker that drops off at `now` comes back exactly as far after `now` as
/// its name says (1 min, 15 min, 1 h, 3 h, 6 h, 12 h).
pub proof fn lemma_marker_next_occurrence_distance(m: IntervalMarker, now: i128)
    requires
        can_reschedule(Event::Ivm(m), now),
    ensures
        next_occurrence(Event::Ivm(m), now) matches Some((t, ev)) && ev == Event::Ivm(m) && t == now + match m {
            IntervalMarker::Minute => 60_000_000_000int,
            IntervalMarker::QuarterHour => 900_000_000_000int,
            IntervalMarker::Hour => 3_600_000_000_000int,
            IntervalMarker::EighthDay => 10_800_000_000_000int,
            IntervalMarker::QuarterDay => 21_600_000_000_000int,
            IntervalMarker::HalfDay => 43_200_000_000_000int,
            _ => 0int,
        },
{
    lemma_next_occurrence_later(Event::Ivm(m), now);
}

} // verus!
