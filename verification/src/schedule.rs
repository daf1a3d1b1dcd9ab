//! A schedule of events by instant: events at one instant keep the order in
//! which they were added, and instants come in increasing order.

use vstd::prelude::*;

use crate::event::{can_reschedule, lemma_next_occurrence_later, next_occurrence, Event};
use crate::time::{instant_in_range, TimeError};

verus! {

/// One entry of a schedule: an instant and the events at it, oldest first.
pub type Entry = (i128, Seq<Event>);

/// Instants strictly increase along the entries, and no entry is empty.
pub open spec fn entries_wf(s: Seq<Entry>) -> bool {
    &&& forall|i: int, j: int| 0 <= i < j < s.len() ==> s[i].0 < s[j].0
    &&& forall|i: int| 0 <= i < s.len() ==> (#[trigger] s[i]).1.len() > 0
}

/// The number of leading entries whose instant is before `t`.
pub open spec fn key_pos(s: Seq<Entry>, t: i128) -> nat
    decreases s.len(),
{
    if s.len() > 0 && s[0].0 < t {
        1 + key_pos(s.drop_first(), t)
    } else {
        0
    }
}

/// `ev` added at instant `t`: appended to the events already at `t`, or in a
/// new entry placed so that instants keep increasing.
pub open spec fn insert_event(s: Seq<Entry>, t: i128, ev: Event) -> Seq<Entry> {
    let p = key_pos(s, t) as int;
    if p < s.len() && s[p].0 == t {
        s.update(p, (t, s[p].1.push(ev)))
    } else {
        s.insert(p, (t, seq![ev]))
    }
}

/// The events of `evs` added one after the other, first to last.
pub open spec fn insert_events(s: Seq<Entry>, evs: Seq<(i128, Event)>) -> Seq<Entry>
    decreases evs.len(),
{
    if evs.len() == 0 {
        s
    } else {
        insert_event(insert_events(s, evs.drop_last()), evs.last().0, evs.last().1)
    }
}

/// The events of one entry, each with its instant.
pub open spec fn entry_events(e: Entry) -> Seq<(i128, Event)> {
    e.1.map_values(|ev: Event| (e.0, ev))
}

/// All events of the entries, each with its instant, entry by entry.
pub open spec fn flatten(s: Seq<Entry>) -> Seq<(i128, Event)>
    decreases s.len(),
{
    if s.len() == 0 {
        Seq::empty()
    } else {
        flatten(s.drop_last()) + entry_events(s.last())
    }
}

/// The next occurrences, after `cutoff`, of the recurring events among `evs`, in order.
pub open spec fn reschedule(evs: Seq<(i128, Event)>, cutoff: i128) -> Seq<(i128, Event)>
    decreases evs.len(),
{
    if evs.len() == 0 {
        Seq::empty()
    } else {
        reschedule(evs.drop_last(), cutoff) + match next_occurrence(evs.last().1, cutoff) {
            Some(x) => seq![x],
            None => Seq::empty(),
        }
    }
}

/// The schedule after dropping everything before `cutoff`: the entries at or after
/// `cutoff` stay, and each recurring event that dropped off is added again at its
/// next occurrence after `cutoff`, in the order the dropped events were scheduled.
pub open spec fn drop_past(s: Seq<Entry>, cutoff: i128) -> Seq<Entry> {
    let p = key_pos(s, cutoff) as int;
    insert_events(s.skip(p), reschedule(flatten(s.take(p)), cutoff))
}

/// Every event before `cutoff` can be rescheduled at `cutoff`.
pub open spec fn past_reschedulable(s: Seq<Entry>, cutoff: i128) -> bool {
    forall|i: int, j: int|
        0 <= i < key_pos(s, cutoff) && 0 <= j < s[i].1.len() ==> can_reschedule(
            #[trigger] s[i].1[j],
            cutoff,
        )
}

/// `key_pos` is the first index whose instant is not before `t`.
pub proof fn lemma_key_pos_at(s: Seq<Entry>, t: i128, i: int)
    requires
        0 <= i <= s.len(),
        forall|j: int| 0 <= j < i ==> s[j].0 < t,
        i == s.len() || s[i].0 >= t,
    ensures
        key_pos(s, t) == i,
    decreases i,
{
    if i > 0 {
        lemma_key_pos_at(s.drop_first(), t, i - 1);
    }
}

/// In sorted entries, exactly the entries before `key_pos` are before `t`.
pub proof fn lemma_key_pos_sorted(s: Seq<Entry>, t: i128)
    requires
        entries_wf(s),
    ensures
        key_pos(s, t) <= s.len(),
        forall|j: int| 0 <= j < key_pos(s, t) ==> s[j].0 < t,
        forall|j: int| key_pos(s, t) <= j < s.len() ==> s[j].0 >= t,
    decreases s.len(),
{
    if s.len() > 0 && s[0].0 < t {
        assert(entries_wf(s.drop_first()));
        lemma_key_pos_sorted(s.drop_first(), t);
        assert forall|j: int| 0 <= j < key_pos(s, t) implies s[j].0 < t by {
            if j > 0 {
                assert(s[j] == s.drop_first()[j - 1]);
            }
        }
        assert forall|j: int| key_pos(s, t) <= j < s.len() implies s[j].0 >= t by {
            assert(s[j] == s.drop_first()[j - 1]);
        }
    }
}

/// Adding an event after the first entry's instant leaves the first entry in front.
pub proof fn lemma_insert_event_after_first(s: Seq<Entry>, t: i128, ev: Event)
    requires
        s.len() > 0,
        s[0].0 < t,
    ensures
        insert_event(s, t, ev) == seq![s[0]] + insert_event(s.drop_first(), t, ev),
{
    let p = key_pos(s.drop_first(), t) as int;
    assert(key_pos(s, t) == p + 1);
    lemma_key_pos_bound(s.drop_first(), t);
    assert(p + 1 < s.len() ==> s[p + 1] == s.drop_first()[p]);
    if p < s.drop_first().len() && s.drop_first()[p].0 == t {
        assert(insert_event(s, t, ev) =~= seq![s[0]] + insert_event(s.drop_first(), t, ev));
    } else {
        assert(insert_event(s, t, ev) =~= seq![s[0]] + insert_event(s.drop_first(), t, ev));
    }
}

/// Adding events that all come after the first entry leaves the first entry in front.
pub proof fn lemma_insert_events_after_first(s: Seq<Entry>, evs: Seq<(i128, Event)>)
    requires
        s.len() > 0,
        forall|i: int| 0 <= i < evs.len() ==> (#[trigger] evs[i]).0 > s[0].0,
    ensures
        insert_events(s, evs) == seq![s[0]] + insert_events(s.drop_first(), evs),
    decreases evs.len(),
{
    if evs.len() > 0 {
        let init = evs.drop_last();
        assert forall|i: int| 0 <= i < init.len() implies (#[trigger] init[i]).0 > s[0].0 by {
            assert(init[i] == evs[i]);
        }
        lemma_insert_events_after_first(s, init);
        let mid = insert_events(s.drop_first(), init);
        let x = seq![s[0]] + mid;
        assert(x.drop_first() =~= mid);
        assert(evs.last() == evs[evs.len() - 1]);
        lemma_insert_event_after_first(x, evs.last().0, evs.last().1);
    }
}

/// Adding an event at or after `c` to entries at or after `c` leaves them all at or after `c`.
pub proof fn lemma_insert_event_keys_at_least(s: Seq<Entry>, t: i128, ev: Event, c: i128)
    requires
        forall|i: int| 0 <= i < s.len() ==> (#[trigger] s[i]).0 >= c,
        t >= c,
    ensures
        forall|i: int| 0 <= i < insert_event(s, t, ev).len() ==> (#[trigger] insert_event(s, t, ev)[i]).0 >= c,
{
    lemma_key_pos_bound(s, t);
    let r = insert_event(s, t, ev);
    let p = key_pos(s, t) as int;
    assert forall|i: int| 0 <= i < r.len() implies (#[trigger] r[i]).0 >= c by {
        if p < s.len() && s[p].0 == t {
        } else if i < p {
        } else if i > p {
            assert(r[i] == s[i - 1]);
        }
    }
}

/// `key_pos` never passes the end of the entries.
pub proof fn lemma_key_pos_bound(s: Seq<Entry>, t: i128)
    ensures
        key_pos(s, t) <= s.len(),
    decreases s.len(),
{
    if s.len() > 0 && s[0].0 < t {
        lemma_key_pos_bound(s.drop_first(), t);
    }
}

/// Adding events at or after `c` to entries at or after `c` leaves them all at or after `c`.
pub proof fn lemma_insert_events_keys_at_least(s: Seq<Entry>, evs: Seq<(i128, Event)>, c: i128)
    requires
        forall|i: int| 0 <= i < s.len() ==> (#[trigger] s[i]).0 >= c,
        forall|i: int| 0 <= i < evs.len() ==> (#[trigger] evs[i]).0 >= c,
    ensures
        forall|i: int| 0 <= i < insert_events(s, evs).len() ==> (#[trigger] insert_events(s, evs)[i]).0 >= c,
    decreases evs.len(),
{
    if evs.len() > 0 {
        let init = evs.drop_last();
        assert forall|i: int| 0 <= i < init.len() implies (#[trigger] init[i]).0 >= c by {
            assert(init[i] == evs[i]);
        }
        lemma_insert_events_keys_at_least(s, init, c);
        assert(evs.last() == evs[evs.len() - 1]);
        lemma_insert_event_keys_at_least(insert_events(s, init), evs.last().0, evs.last().1, c);
    }
}

/// The events of two runs of entries, one after the other.
pub proof fn lemma_flatten_append(a: Seq<Entry>, b: Seq<Entry>)
    ensures
        flatten(a + b) == flatten(a) + flatten(b),
    decreases b.len(),
{
    if b.len() == 0 {
        assert(a + b =~= a);
        assert(flatten(a) + flatten(b) =~= flatten(a));
    } else {
        lemma_flatten_append(a, b.drop_last());
        assert((a + b).drop_last() =~= a + b.drop_last());
        assert((a + b).last() == b.last());
        assert(flatten(a) + flatten(b) =~= flatten(a) + flatten(b.drop_last()) + entry_events(b.last()));
    }
}

/// Each event of the flattened entries is one of the events of an entry, with that entry's instant.
pub proof fn lemma_flatten_member(s: Seq<Entry>, k: int)
    requires
        0 <= k < flatten(s).len(),
    ensures
        exists|i: int, j: int|
            0 <= i < s.len() && 0 <= j < s[i].1.len() && flatten(s)[k] == (s[i].0, #[trigger] s[i].1[j]),
    decreases s.len(),
{
    let init = s.drop_last();
    if k < flatten(init).len() {
        lemma_flatten_member(init, k);
        let (i, j) = choose|i: int, j: int|
            0 <= i < init.len() && 0 <= j < init[i].1.len() && flatten(init)[k] == (init[i].0, #[trigger] init[i].1[j]);
        assert(s[i] == init[i]);
    } else {
        let j = k - flatten(init).len();
        assert(flatten(s)[k] == entry_events(s.last())[j]);
        assert(s[s.len() - 1] == s.last());
        assert(flatten(s)[k] == (s[s.len() - 1].0, s[s.len() - 1].1[j]));
    }
}

/// The flattened events of entries whose instants increase come in non-decreasing order of instants.
pub proof fn lemma_flatten_sorted(s: Seq<Entry>)
    requires
        entries_wf(s),
    ensures
        forall|a: int, b: int| 0 <= a < b < flatten(s).len() ==> flatten(s)[a].0 <= flatten(s)[b].0,
        forall|a: int| 0 <= a < flatten(s).len() && s.len() > 0 ==> flatten(s)[a].0 <= s.last().0,
    decreases s.len(),
{
    if s.len() > 0 {
        let init = s.drop_last();
        assert(entries_wf(init));
        lemma_flatten_sorted(init);
        let f = flatten(s);
        let fi = flatten(init);
        assert forall|a: int| 0 <= a < fi.len() implies fi[a].0 < s.last().0 by {
            lemma_flatten_member(init, a);
            let (i, j) = choose|i: int, j: int|
                0 <= i < init.len() && 0 <= j < init[i].1.len() && fi[a] == (init[i].0, #[trigger] init[i].1[j]);
            assert(init[i] == s[i]);
            assert(s.last() == s[s.len() - 1]);
        }
        assert forall|a: int, b: int| 0 <= a < b < f.len() implies f[a].0 <= f[b].0 by {
            if b < fi.len() {
                assert(f[a] == fi[a] && f[b] == fi[b]);
            } else if a < fi.len() {
                assert(f[a] == fi[a]);
                assert(f[b] == entry_events(s.last())[b - fi.len()]);
            } else {
                assert(f[a] == entry_events(s.last())[a - fi.len()]);
                assert(f[b] == entry_events(s.last())[b - fi.len()]);
            }
        }
        assert forall|a: int| 0 <= a < f.len() implies f[a].0 <= s.last().0 by {
            if a < fi.len() {
                assert(f[a] == fi[a]);
            } else {
                assert(f[a] == entry_events(s.last())[a - fi.len()]);
            }
        }
    }
}

/// Law: a schedule is walked in time order. The events that `Schedule::iter`
/// returns never go back in time.
pub proof fn lemma_iter_in_time_order(sched: &Schedule)
    requires
        sched.wf(),
    ensures
        forall|a: int, b: int|
            0 <= a < b < flatten(sched@).len() ==> flatten(sched@)[a].0 <= flatten(sched@)[b].0,
{
    lemma_flatten_sorted(sched@);
}

/// All flattened events of entries whose instants lie in `[lo, hi]` lie in `[lo, hi]`.
pub proof fn lemma_flatten_bounds(s: Seq<Entry>, lo: int, hi: int)
    requires
        forall|i: int| 0 <= i < s.len() ==> lo <= (#[trigger] s[i]).0 <= hi,
    ensures
        forall|k: int| 0 <= k < flatten(s).len() ==> lo <= (#[trigger] flatten(s)[k]).0 <= hi,
{
    assert forall|k: int| 0 <= k < flatten(s).len() implies lo <= (#[trigger] flatten(s)[k]).0 <= hi by {
        lemma_flatten_member(s, k);
    }
}

/// The events of a single entry.
pub proof fn lemma_flatten_single(x: Entry)
    ensures
        flatten(seq![x]) == entry_events(x),
{
    let one = seq![x];
    assert(one.drop_last() =~= Seq::<Entry>::empty());
    assert(one.last() == x);
    assert(flatten(one.drop_last()) =~= Seq::<(i128, Event)>::empty());
    assert(flatten(one) =~= entry_events(x));
}

/// The events of `a`, then those of `x`, then those of `c`.
pub proof fn lemma_flatten_around(a: Seq<Entry>, x: Entry, c: Seq<Entry>)
    ensures
        flatten(a + seq![x] + c) == flatten(a) + entry_events(x) + flatten(c),
{
    lemma_flatten_append(a + seq![x], c);
    lemma_flatten_append(a, seq![x]);
    lemma_flatten_single(x);
}

/// The entries of a sorted schedule from index `p` on lie at or after instant `s[p].0`.
pub proof fn lemma_suffix_after(s: Seq<Entry>, p: int, lo: int)
    requires
        entries_wf(s),
        0 <= p <= s.len(),
        p < s.len() ==> s[p].0 >= lo,
    ensures
        forall|k: int| 0 <= k < flatten(s.skip(p)).len() ==> lo <= (#[trigger] flatten(s.skip(p))[k]).0 <= i128::MAX,
{
    let b = s.skip(p);
    assert forall|i: int| 0 <= i < b.len() implies lo <= (#[trigger] b[i]).0 <= i128::MAX by {
        assert(b[i] == s[p + i]);
        if i > 0 {
            assert(s[p].0 < s[p + i].0);
        }
    }
    lemma_flatten_bounds(b, lo, i128::MAX as int);
}

/// Adding at an instant that already has events: the new event follows them.
proof fn lemma_insert_position_existing(s: Seq<Entry>, t: i128, ev: Event) -> (q: int)
    requires
        entries_wf(s),
        key_pos(s, t) < s.len(),
        s[key_pos(s, t) as int].0 == t,
    ensures
        0 <= q <= flatten(s).len(),
        flatten(insert_event(s, t, ev)) == flatten(s).insert(q, (t, ev)),
        forall|i: int| 0 <= i < q ==> (#[trigger] flatten(s)[i]).0 <= t,
        forall|i: int| q <= i < flatten(s).len() ==> (#[trigger] flatten(s)[i]).0 > t,
{
    lemma_key_pos_sorted(s, t);
    let p = key_pos(s, t) as int;
    let a = s.take(p);
    let c = s.skip(p + 1);
    let l = s[p].1;
    let fa = flatten(a);
    let fc = flatten(c);
    lemma_flatten_bounds(a, i128::MIN as int, t - 1);
    lemma_suffix_after(s, p + 1, t + 1);
    assert(s =~= a + seq![s[p]] + c);
    lemma_flatten_around(a, s[p], c);
    let x: Entry = (t, l.push(ev));
    assert(insert_event(s, t, ev) =~= a + seq![x] + c);
    lemma_flatten_around(a, x, c);
    let q: int = (fa.len() + l.len()) as int;
    assert(entry_events(x) =~= entry_events(s[p]).push((t, ev)));
    assert(flatten(insert_event(s, t, ev)) =~= flatten(s).insert(q, (t, ev)));
    assert forall|i: int| 0 <= i < q implies (#[trigger] flatten(s)[i]).0 <= t by {
        if i >= fa.len() {
            assert(flatten(s)[i] == entry_events(s[p])[i - fa.len()]);
        } else {
            assert(flatten(s)[i] == fa[i]);
        }
    }
    assert forall|i: int| q <= i < flatten(s).len() implies (#[trigger] flatten(s)[i]).0 > t by {
        assert(flatten(s)[i] == fc[i - q]);
    }
    q
}

/// Adding at an instant without events: a new entry between earlier and later ones.
proof fn lemma_insert_position_new(s: Seq<Entry>, t: i128, ev: Event) -> (q: int)
    requires
        entries_wf(s),
        !(key_pos(s, t) < s.len() && s[key_pos(s, t) as int].0 == t),
    ensures
        0 <= q <= flatten(s).len(),
        flatten(insert_event(s, t, ev)) == flatten(s).insert(q, (t, ev)),
        forall|i: int| 0 <= i < q ==> (#[trigger] flatten(s)[i]).0 <= t,
        forall|i: int| q <= i < flatten(s).len() ==> (#[trigger] flatten(s)[i]).0 > t,
{
    lemma_key_pos_sorted(s, t);
    let p = key_pos(s, t) as int;
    let a = s.take(p);
    let b = s.skip(p);
    let fa = flatten(a);
    let fb = flatten(b);
    lemma_flatten_bounds(a, i128::MIN as int, t - 1);
    lemma_suffix_after(s, p, t + 1);
    assert(s =~= a + b);
    lemma_flatten_append(a, b);
    let x: Entry = (t, seq![ev]);
    assert(insert_event(s, t, ev) =~= a + seq![x] + b);
    lemma_flatten_around(a, x, b);
    assert(entry_events(x) =~= seq![(t, ev)]);
    let q = fa.len() as int;
    assert(flatten(insert_event(s, t, ev)) =~= flatten(s).insert(q, (t, ev)));
    assert forall|i: int| 0 <= i < q implies (#[trigger] flatten(s)[i]).0 <= t by {
        assert(flatten(s)[i] == fa[i]);
    }
    assert forall|i: int| q <= i < flatten(s).len() implies (#[trigger] flatten(s)[i]).0 > t by {
        assert(flatten(s)[i] == fb[i - q]);
    }
    q
}

/// Law: an event added at instant `t` goes in after every event at or before `t`
/// and before every event after `t`; nothing else moves.
pub proof fn lemma_insert_position(s: Seq<Entry>, t: i128, ev: Event)
    requires
        entries_wf(s),
    ensures
        exists|q: int|
            0 <= q <= flatten(s).len() && flatten(insert_event(s, t, ev)) == flatten(s).insert(q, (t, ev))
                && (forall|i: int| 0 <= i < q ==> (#[trigger] flatten(s)[i]).0 <= t) && (forall|i: int|
                q <= i < flatten(s).len() ==> (#[trigger] flatten(s)[i]).0 > t),
{
    lemma_key_pos_bound(s, t);
    let q = if key_pos(s, t) < s.len() && s[key_pos(s, t) as int].0 == t {
        lemma_insert_position_existing(s, t, ev)
    } else {
        lemma_insert_position_new(s, t, ev)
    };
    assert(0 <= q <= flatten(s).len() && flatten(insert_event(s, t, ev)) == flatten(s).insert(q, (t, ev)));
}

/// The recurring events among `evs` all come back strictly after `cutoff`.
pub proof fn lemma_reschedule_later(evs: Seq<(i128, Event)>, cutoff: i128)
    requires
        forall|k: int| 0 <= k < evs.len() ==> can_reschedule((#[trigger] evs[k]).1, cutoff),
    ensures
        forall|k: int| 0 <= k < reschedule(evs, cutoff).len() ==> (#[trigger] reschedule(evs, cutoff)[k]).0 > cutoff,
    decreases evs.len(),
{
    if evs.len() > 0 {
        let init = evs.drop_last();
        assert forall|k: int| 0 <= k < init.len() implies can_reschedule((#[trigger] init[k]).1, cutoff) by {
            assert(init[k] == evs[k]);
        }
        lemma_reschedule_later(init, cutoff);
        assert(evs.last() == evs[evs.len() - 1]);
        lemma_next_occurrence_later(evs.last().1, cutoff);
        let ri = reschedule(init, cutoff);
        let r = reschedule(evs, cutoff);
        assert forall|k: int| 0 <= k < r.len() implies (#[trigger] r[k]).0 > cutoff by {
            if k < ri.len() {
                assert(r[k] == ri[k]);
            } else {
                assert(r[k] == next_occurrence(evs.last().1, cutoff).unwrap());
            }
        }
    }
}

/// The events before `cutoff`, flattened, can all be rescheduled at `cutoff`.
proof fn lemma_past_flat_reschedulable(s: Seq<Entry>, cutoff: i128)
    requires
        entries_wf(s),
        past_reschedulable(s, cutoff),
    ensures
        forall|k: int|
            0 <= k < flatten(s.take(key_pos(s, cutoff) as int)).len() ==> can_reschedule(
                (#[trigger] flatten(s.take(key_pos(s, cutoff) as int))[k]).1,
                cutoff,
            ),
{
    lemma_key_pos_sorted(s, cutoff);
    let a = s.take(key_pos(s, cutoff) as int);
    assert forall|k: int| 0 <= k < flatten(a).len() implies can_reschedule((#[trigger] flatten(a)[k]).1, cutoff) by {
        lemma_flatten_member(a, k);
        let (i, j) = choose|i: int, j: int|
            0 <= i < a.len() && 0 <= j < a[i].1.len() && flatten(a)[k] == (a[i].0, #[trigger] a[i].1[j]);
        assert(a[i] == s[i]);
    }
}

/// Law: after dropping the events before `cutoff`, nothing is scheduled before `cutoff`.
pub proof fn lemma_drop_past_not_before_cutoff(s: Seq<Entry>, cutoff: i128)
    requires
        entries_wf(s),
        past_reschedulable(s, cutoff),
    ensures
        forall|i: int| 0 <= i < drop_past(s, cutoff).len() ==> (#[trigger] drop_past(s, cutoff)[i]).0 >= cutoff,
{
    lemma_key_pos_sorted(s, cutoff);
    let p = key_pos(s, cutoff) as int;
    lemma_past_flat_reschedulable(s, cutoff);
    lemma_reschedule_later(flatten(s.take(p)), cutoff);
    let b = s.skip(p);
    let r = reschedule(flatten(s.take(p)), cutoff);
    assert forall|i: int| 0 <= i < b.len() implies (#[trigger] b[i]).0 >= cutoff by {
        assert(b[i] == s[p + i]);
    }
    assert forall|i: int| 0 <= i < r.len() implies (#[trigger] r[i]).0 >= cutoff by {}
    lemma_insert_events_keys_at_least(b, r, cutoff);
}

/// Law: dropping the events before `cutoff` a second time changes nothing.
pub proof fn lemma_drop_past_idempotent(s: Seq<Entry>, cutoff: i128)
    requires
        entries_wf(s),
        past_reschedulable(s, cutoff),
    ensures
        drop_past(drop_past(s, cutoff), cutoff) == drop_past(s, cutoff),
        past_reschedulable(drop_past(s, cutoff), cutoff),
{
    let d = drop_past(s, cutoff);
    lemma_drop_past_not_before_cutoff(s, cutoff);
    lemma_key_pos_at(d, cutoff, 0);
    assert(d.skip(0) =~= d);
    assert(d.take(0) =~= Seq::<Entry>::empty());
    assert(flatten(d.take(0)) =~= Seq::<(i128, Event)>::empty());
    assert(reschedule(flatten(d.take(0)), cutoff) =~= Seq::<(i128, Event)>::empty());
}

/// Some entry of `s` is at instant `k`.
pub open spec fn has_key(s: Seq<Entry>, k: i128) -> bool {
    exists|i: int| 0 <= i < s.len() && (#[trigger] s[i]).0 == k
}

/// The events at instant `k`, oldest first (none when no entry is at `k`).
pub open spec fn list_at(s: Seq<Entry>, k: i128) -> Seq<Event> {
    if has_key(s, k) {
        s[choose|i: int| 0 <= i < s.len() && (#[trigger] s[i]).0 == k].1
    } else {
        Seq::empty()
    }
}

/// The events of `evs` at instant `k`, in order.
pub open spec fn events_at(evs: Seq<(i128, Event)>, k: i128) -> Seq<Event>
    decreases evs.len(),
{
    if evs.len() == 0 {
        Seq::empty()
    } else {
        events_at(evs.drop_last(), k) + if evs.last().0 == k {
            seq![evs.last().1]
        } else {
            Seq::<Event>::empty()
        }
    }
}

/// In well-formed entries, the events at an entry's instant are that entry's.
pub proof fn lemma_list_at_index(s: Seq<Entry>, i: int)
    requires
        entries_wf(s),
        0 <= i < s.len(),
    ensures
        has_key(s, s[i].0),
        list_at(s, s[i].0) == s[i].1,
{
    assert(has_key(s, s[i].0));
    let j = choose|j: int| 0 <= j < s.len() && (#[trigger] s[j]).0 == s[i].0;
    if j < i {
        assert(s[j].0 < s[i].0);
    } else if j > i {
        assert(s[i].0 < s[j].0);
    }
}

/// Adding an event keeps the entries well formed.
pub proof fn lemma_insert_event_wf(s: Seq<Entry>, t: i128, ev: Event)
    requires
        entries_wf(s),
    ensures
        entries_wf(insert_event(s, t, ev)),
{
    lemma_key_pos_sorted(s, t);
    let p = key_pos(s, t) as int;
    let r = insert_event(s, t, ev);
    if p < s.len() && s[p].0 == t {
        assert forall|a: int, b: int| 0 <= a < b < r.len() implies r[a].0 < r[b].0 by {
            assert(r[a].0 == s[a].0 && r[b].0 == s[b].0);
        }
        assert forall|a: int| 0 <= a < r.len() implies (#[trigger] r[a]).1.len() > 0 by {
            if a != p {
                assert(r[a] == s[a]);
            }
        }
    } else {
        assert forall|a: int, b: int| 0 <= a < b < r.len() implies r[a].0 < r[b].0 by {
            if a < p {
                assert(r[a] == s[a]);
            }
            if b > p {
                assert(r[b] == s[b - 1]);
                if b - 1 > p {
                    assert(s[p].0 < s[b - 1].0);
                }
            }
            if a > p {
                assert(r[a] == s[a - 1]);
            }
            if b < p {
                assert(r[b] == s[b]);
            }
        }
        assert forall|a: int| 0 <= a < r.len() implies (#[trigger] r[a]).1.len() > 0 by {
            if a < p {
                assert(r[a] == s[a]);
            } else if a > p {
                assert(r[a] == s[a - 1]);
            }
        }
    }
}

/// Adding `ev` at `t` appends it to the events at `t` and changes no other instant.
pub proof fn lemma_insert_event_lists(s: Seq<Entry>, t: i128, ev: Event)
    requires
        entries_wf(s),
    ensures
        forall|k: i128|
            #[trigger] list_at(insert_event(s, t, ev), k) == if k == t {
                list_at(s, k).push(ev)
            } else {
                list_at(s, k)
            },
{
    lemma_key_pos_sorted(s, t);
    lemma_insert_event_wf(s, t, ev);
    let p = key_pos(s, t) as int;
    let r = insert_event(s, t, ev);
    assert forall|k: i128|
        #[trigger] list_at(r, k) == if k == t {
            list_at(s, k).push(ev)
        } else {
            list_at(s, k)
        } by {
        if p < s.len() && s[p].0 == t {
            if k == t {
                lemma_list_at_index(r, p);
                lemma_list_at_index(s, p);
            } else if has_key(s, k) {
                let i = choose|i: int| 0 <= i < s.len() && (#[trigger] s[i]).0 == k;
                assert(r[i] == s[i]);
                lemma_list_at_index(r, i);
                lemma_list_at_index(s, i);
            } else {
                assert forall|i: int| 0 <= i < r.len() implies (#[trigger] r[i]).0 != k by {
                    if i != p {
                        assert(r[i] == s[i]);
                    }
                }
            }
        } else {
            if k == t {
                lemma_list_at_index(r, p);
                assert forall|i: int| 0 <= i < s.len() implies (#[trigger] s[i]).0 != t by {
                    if i > p {
                        assert(s[p].0 < s[i].0);
                    }
                }
                assert(list_at(s, k) =~= Seq::<Event>::empty());
                assert(Seq::<Event>::empty().push(ev) =~= seq![ev]);
            } else if has_key(s, k) {
                let i = choose|i: int| 0 <= i < s.len() && (#[trigger] s[i]).0 == k;
                let ri = if i < p { i } else { i + 1 };
                assert(r[ri] == s[i]);
                lemma_list_at_index(r, ri);
                lemma_list_at_index(s, i);
            } else {
                assert forall|i: int| 0 <= i < r.len() implies (#[trigger] r[i]).0 != k by {
                    if i < p {
                        assert(r[i] == s[i]);
                    } else if i > p {
                        assert(r[i] == s[i - 1]);
                    }
                }
            }
        }
    }
}

/// Adding the events of `evs` one after the other keeps the entries well formed and
/// appends, at each instant, the events of `evs` at that instant, in order.
pub proof fn lemma_insert_events_lists(s: Seq<Entry>, evs: Seq<(i128, Event)>)
    requires
        entries_wf(s),
    ensures
        entries_wf(insert_events(s, evs)),
        forall|k: i128| #[trigger] list_at(insert_events(s, evs), k) == list_at(s, k) + events_at(evs, k),
    decreases evs.len(),
{
    if evs.len() == 0 {
        assert forall|k: i128| #[trigger] list_at(insert_events(s, evs), k) == list_at(s, k) + events_at(evs, k) by {
            assert(list_at(s, k) + events_at(evs, k) =~= list_at(s, k));
        }
    } else {
        let init = evs.drop_last();
        lemma_insert_events_lists(s, init);
        let mid = insert_events(s, init);
        lemma_insert_event_wf(mid, evs.last().0, evs.last().1);
        lemma_insert_event_lists(mid, evs.last().0, evs.last().1);
        assert forall|k: i128| #[trigger] list_at(insert_events(s, evs), k) == list_at(s, k) + events_at(evs, k) by {
            assert(list_at(mid, k) == list_at(s, k) + events_at(init, k));
            if k == evs.last().0 {
                assert((list_at(s, k) + events_at(init, k)).push(evs.last().1) =~= list_at(s, k) + (events_at(init, k)
                    + seq![evs.last().1]));
            } else {
                assert(events_at(evs, k) =~= events_at(init, k));
            }
        }
    }
}

/// Law: a schedule filled by adding the events of `evs` one after the other holds,
/// at each instant, exactly the events of `evs` at that instant in the order they
/// were added, with instants increasing: walking it gives `evs` stably sorted by time.
pub proof fn lemma_inserts_group_by_instant(evs: Seq<(i128, Event)>)
    ensures
        entries_wf(insert_events(Seq::empty(), evs)),
        forall|k: i128| #[trigger] list_at(insert_events(Seq::empty(), evs), k) == events_at(evs, k),
{
    let e = Seq::<Entry>::empty();
    lemma_insert_events_lists(e, evs);
    assert forall|k: i128| #[trigger] list_at(insert_events(e, evs), k) == events_at(evs, k) by {
        assert(list_at(e, k) =~= Seq::<Event>::empty());
        assert(list_at(e, k) + events_at(evs, k) =~= events_at(evs, k));
    }
}

/// `evs` has no event at `k`.
proof fn lemma_events_at_absent(evs: Seq<(i128, Event)>, k: i128)
    requires
        forall|i: int| 0 <= i < evs.len() ==> (#[trigger] evs[i]).0 != k,
    ensures
        events_at(evs, k) == Seq::<Event>::empty(),
    decreases evs.len(),
{
    if evs.len() > 0 {
        let init = evs.drop_last();
        assert forall|i: int| 0 <= i < init.len() implies (#[trigger] init[i]).0 != k by {
            assert(init[i] == evs[i]);
        }
        lemma_events_at_absent(init, k);
        assert(evs.last() == evs[evs.len() - 1]);
        assert(events_at(evs, k) =~= Seq::<Event>::empty());
    }
}

/// Law: dropping the events before `cutoff` leaves nothing before `cutoff`, and at
/// each instant at or after `cutoff` the events that were there, in their order,
/// followed by the interval markers rescheduled to that instant.
pub proof fn lemma_drop_past_lists(s: Seq<Entry>, cutoff: i128)
    requires
        entries_wf(s),
        past_reschedulable(s, cutoff),
    ensures
        entries_wf(drop_past(s, cutoff)),
        forall|k: i128|
            #[trigger] list_at(drop_past(s, cutoff), k) == if k < cutoff {
                Seq::<Event>::empty()
            } else {
                list_at(s, k) + events_at(
                    reschedule(flatten(s.take(key_pos(s, cutoff) as int)), cutoff),
                    k,
                )
            },
{
    lemma_key_pos_sorted(s, cutoff);
    let p = key_pos(s, cutoff) as int;
    let b = s.skip(p);
    let r = reschedule(flatten(s.take(p)), cutoff);
    assert(entries_wf(b)) by {
        assert forall|i: int, j: int| 0 <= i < j < b.len() implies b[i].0 < b[j].0 by {
            assert(b[i] == s[p + i] && b[j] == s[p + j]);
        }
        assert forall|i: int| 0 <= i < b.len() implies (#[trigger] b[i]).1.len() > 0 by {
            assert(b[i] == s[p + i]);
        }
    }
    lemma_insert_events_lists(b, r);
    lemma_past_flat_reschedulable(s, cutoff);
    lemma_reschedule_later(flatten(s.take(p)), cutoff);
    assert forall|k: i128|
        #[trigger] list_at(drop_past(s, cutoff), k) == if k < cutoff {
            Seq::<Event>::empty()
        } else {
            list_at(s, k) + events_at(r, k)
        } by {
        if k < cutoff {
            assert forall|i: int| 0 <= i < b.len() implies (#[trigger] b[i]).0 != k by {
                assert(b[i] == s[p + i]);
            }
            assert forall|i: int| 0 <= i < r.len() implies (#[trigger] r[i]).0 != k by {}
            lemma_events_at_absent(r, k);
            assert(list_at(b, k) + events_at(r, k) =~= Seq::<Event>::empty());
        } else {
            if has_key(s, k) {
                let i = choose|i: int| 0 <= i < s.len() && (#[trigger] s[i]).0 == k;
                assert(i >= p);
                assert(b[i - p] == s[i]);
                lemma_list_at_index(b, i - p);
                lemma_list_at_index(s, i);
            } else {
                assert forall|i: int| 0 <= i < b.len() implies (#[trigger] b[i]).0 != k by {
                    assert(b[i] == s[p + i]);
                }
            }
        }
    }
}

/// Adding the events of `evs` to well-formed entries adds exactly those events.
pub proof fn lemma_insert_events_multiset(s: Seq<Entry>, evs: Seq<(i128, Event)>)
    requires
        entries_wf(s),
    ensures
        flatten(insert_events(s, evs)).to_multiset() == flatten(s).to_multiset().add(evs.to_multiset()),
    decreases evs.len(),
{
    broadcast use vstd::multiset::group_multiset_axioms;
    if evs.len() == 0 {
        vstd::seq_lib::to_multiset_len(evs);
        vstd::multiset::lemma_multiset_empty_len(evs.to_multiset());
        assert(evs.to_multiset() =~= vstd::multiset::Multiset::<(i128, Event)>::empty());
        assert(flatten(s).to_multiset().add(evs.to_multiset()) =~= flatten(s).to_multiset());
    } else {
        let init = evs.drop_last();
        let x = evs.last();
        lemma_insert_events_multiset(s, init);
        lemma_insert_events_lists(s, init);
        let mid = insert_events(s, init);
        lemma_insert_position(mid, x.0, x.1);
        let q = choose|q: int|
            0 <= q <= flatten(mid).len() && flatten(insert_event(mid, x.0, x.1)) == flatten(mid).insert(q, (x.0, x.1))
                && (forall|i: int| 0 <= i < q ==> (#[trigger] flatten(mid)[i]).0 <= x.0) && (forall|i: int|
                q <= i < flatten(mid).len() ==> (#[trigger] flatten(mid)[i]).0 > x.0);
        vstd::seq_lib::to_multiset_insert(flatten(mid), q, x);
        assert(init.push(x) =~= evs);
        vstd::seq_lib::to_multiset_build(init, x);
        assert(flatten(insert_events(s, evs)).to_multiset() =~= flatten(s).to_multiset().add(evs.to_multiset()));
    }
}

/// Law: dropping the events before `cutoff` keeps, as a multiset, exactly the events
/// at or after `cutoff`, and adds the next occurrence of each interval marker before
/// `cutoff`; user events before `cutoff` are gone. The events before `cutoff` are a
/// prefix of the walk, those at or after it the rest.
pub proof fn lemma_drop_past_multiset(s: Seq<Entry>, cutoff: i128)
    requires
        entries_wf(s),
        past_reschedulable(s, cutoff),
    ensures
        flatten(s) == flatten(s.take(key_pos(s, cutoff) as int)) + flatten(s.skip(key_pos(s, cutoff) as int)),
        forall|i: int|
            0 <= i < flatten(s.take(key_pos(s, cutoff) as int)).len() ==> (#[trigger] flatten(
                s.take(key_pos(s, cutoff) as int),
            )[i]).0 < cutoff,
        forall|i: int|
            0 <= i < flatten(s.skip(key_pos(s, cutoff) as int)).len() ==> (#[trigger] flatten(
                s.skip(key_pos(s, cutoff) as int),
            )[i]).0 >= cutoff,
        flatten(drop_past(s, cutoff)).to_multiset() == flatten(s.skip(key_pos(s, cutoff) as int)).to_multiset().add(
            reschedule(flatten(s.take(key_pos(s, cutoff) as int)), cutoff).to_multiset(),
        ),
{
    lemma_key_pos_sorted(s, cutoff);
    let p = key_pos(s, cutoff) as int;
    let a = s.take(p);
    let b = s.skip(p);
    assert(s =~= a + b);
    lemma_flatten_append(a, b);
    lemma_flatten_bounds(a, i128::MIN as int, cutoff - 1);
    lemma_suffix_after(s, p, cutoff as int);
    assert(entries_wf(b)) by {
        assert forall|i: int, j: int| 0 <= i < j < b.len() implies b[i].0 < b[j].0 by {
            assert(b[i] == s[p + i] && b[j] == s[p + j]);
        }
        assert forall|i: int| 0 <= i < b.len() implies (#[trigger] b[i]).1.len() > 0 by {
            assert(b[i] == s[p + i]);
        }
    }
    lemma_insert_events_multiset(b, reschedule(flatten(a), cutoff));
}

/// The events of two sequences at `k`, one after the other.
pub proof fn lemma_events_at_append(a: Seq<(i128, Event)>, b: Seq<(i128, Event)>, k: i128)
    ensures
        events_at(a + b, k) == events_at(a, k) + events_at(b, k),
    decreases b.len(),
{
    if b.len() == 0 {
        assert(a + b =~= a);
        assert(events_at(a, k) + events_at(b, k) =~= events_at(a, k));
    } else {
        lemma_events_at_append(a, b.drop_last(), k);
        assert((a + b).drop_last() =~= a + b.drop_last());
        assert((a + b).last() == b.last());
        assert(events_at(a + b, k) =~= events_at(a, k) + events_at(b, k));
    }
}

/// The events of one entry at `k`: all of them at its own instant, none elsewhere.
pub proof fn lemma_events_at_entry(e: Entry, k: i128)
    ensures
        events_at(entry_events(e), k) == if e.0 == k {
            e.1
        } else {
            Seq::<Event>::empty()
        },
    decreases e.1.len(),
{
    if e.1.len() == 0 {
        assert(entry_events(e) =~= Seq::<(i128, Event)>::empty());
        assert(e.1 =~= Seq::<Event>::empty());
    } else {
        let e2: Entry = (e.0, e.1.drop_last());
        lemma_events_at_entry(e2, k);
        assert(entry_events(e).drop_last() =~= entry_events(e2));
        assert(entry_events(e).last() == (e.0, e.1.last()));
        if e.0 == k {
            assert(e2.1.push(e.1.last()) =~= e.1);
        }
        assert(events_at(entry_events(e), k) =~= if e.0 == k {
            e.1
        } else {
            Seq::<Event>::empty()
        });
    }
}

/// Walking well-formed entries meets, at each instant, that instant's events in order.
pub proof fn lemma_events_at_flatten(s: Seq<Entry>, k: i128)
    requires
        entries_wf(s),
    ensures
        events_at(flatten(s), k) == list_at(s, k),
    decreases s.len(),
{
    if s.len() == 0 {
        assert(list_at(s, k) =~= Seq::<Event>::empty());
    } else {
        let init = s.drop_last();
        let last = s.last();
        assert(entries_wf(init));
        lemma_events_at_flatten(init, k);
        lemma_events_at_append(flatten(init), entry_events(last), k);
        lemma_events_at_entry(last, k);
        assert(s[s.len() - 1] == last);
        if last.0 == k {
            lemma_list_at_index(s, s.len() - 1);
            assert forall|i: int| 0 <= i < init.len() implies (#[trigger] init[i]).0 != k by {
                assert(init[i] == s[i]);
            }
            assert(list_at(init, k) =~= Seq::<Event>::empty());
            assert(list_at(init, k) + last.1 =~= last.1);
        } else {
            if has_key(init, k) {
                let i = choose|i: int| 0 <= i < init.len() && (#[trigger] init[i]).0 == k;
                assert(init[i] == s[i]);
                lemma_list_at_index(init, i);
                lemma_list_at_index(s, i);
            } else {
                assert forall|i: int| 0 <= i < s.len() implies (#[trigger] s[i]).0 != k by {
                    if i < init.len() {
                        assert(init[i] == s[i]);
                    }
                }
            }
            assert(list_at(init, k) + Seq::<Event>::empty() =~= list_at(init, k));
        }
    }
}

/// Law: a schedule filled by adding the events of `evs` one after the other is walked
/// as the stable sort of `evs` by time: the same events, in non-decreasing order of
/// instants, and at each instant in the order they were added.
pub proof fn lemma_inserts_stable_sort(evs: Seq<(i128, Event)>)
    ensures
        flatten(insert_events(Seq::empty(), evs)).to_multiset() == evs.to_multiset(),
        forall|a: int, b: int|
            0 <= a < b < flatten(insert_events(Seq::empty(), evs)).len() ==> flatten(
                insert_events(Seq::empty(), evs),
            )[a].0 <= flatten(insert_events(Seq::empty(), evs))[b].0,
        forall|k: i128| #[trigger] events_at(flatten(insert_events(Seq::empty(), evs)), k) == events_at(evs, k),
{
    broadcast use vstd::multiset::group_multiset_axioms;
    let e = Seq::<Entry>::empty();
    let r = insert_events(e, evs);
    assert(entries_wf(e));
    lemma_insert_events_multiset(e, evs);
    assert(flatten(e) =~= Seq::<(i128, Event)>::empty());
    vstd::seq_lib::to_multiset_len(flatten(e));
    vstd::multiset::lemma_multiset_empty_len(flatten(e).to_multiset());
    assert(flatten(e).to_multiset() =~= vstd::multiset::Multiset::<(i128, Event)>::empty());
    assert(flatten(r).to_multiset() =~= evs.to_multiset());
    lemma_inserts_group_by_instant(evs);
    lemma_flatten_sorted(r);
    assert forall|k: i128| #[trigger] events_at(flatten(r), k) == events_at(evs, k) by {
        lemma_events_at_flatten(r, k);
    }
}

/// A schedule of events by instant.
#[derive(Debug)]
pub struct Schedule {
    entries: Vec<(i128, Vec<Event>)>,
}

impl View for Schedule {
    type V = Seq<Entry>;

    closed spec fn view(&self) -> Seq<Entry> {
        self.entries@.map_values(|e: (i128, Vec<Event>)| (e.0, e.1@))
    }
}

impl Schedule {
    /// The schedule keeps its instants increasing and its entries non-empty.
    pub open spec fn wf(&self) -> bool {
        entries_wf(self@)
    }

    /// Adds `event` at instant `t`, after the events already at `t`.
    pub fn insert(&mut self, t: i128, event: Event)
        requires
            old(self).wf(),
        ensures
            final(self).wf(),
            final(self)@ == insert_event(old(self)@, t, event),
    {
        let ghost s = self@;
        let mut i: usize = 0;
        while i < self.entries.len() && self.entries[i].0 < t
            invariant
                self@ == s,
                entries_wf(s),
                i <= self.entries.len(),
                forall|j: int| 0 <= j < i ==> s[j].0 < t,
            decreases self.entries.len() - i,
        {
            assert(self.entries@[i as int].0 == s[i as int].0);
            i = i + 1;
        }
        proof {
            if i < self.entries.len() {
                assert(self.entries@[i as int].0 == s[i as int].0);
            }
            lemma_key_pos_at(s, t, i as int);
        }
        if i < self.entries.len() && self.entries[i].0 == t {
            let (k, mut evs) = self.entries.remove(i);
            assert(evs@ == s[i as int].1);
            evs.push(event);
            self.entries.insert(i, (k, evs));
            assert(self@ =~= s.update(i as int, (t, s[i as int].1.push(event))));
        } else {
            proof {
                if i < self.entries.len() {
                    assert(self.entries@[i as int].0 == s[i as int].0);
                }
            }
            let mut evs: Vec<Event> = Vec::new();
            evs.push(event);
            assert(evs@ =~= seq![event]);
            self.entries.insert(i, (t, evs));
            assert(self@ =~= s.insert(i as int, (t, seq![event])));
        }
        proof {
            let r = self@;
            assert forall|a: int, b: int| 0 <= a < b < r.len() implies r[a].0 < r[b].0 by {
                if i < s.len() && s[i as int].0 == t {
                } else {
                    if a < i && b > i {
                        assert(r[b] == s[b - 1]);
                    } else if a > i {
                        assert(r[a] == s[a - 1]);
                        assert(r[b] == s[b - 1]);
                    } else if a == i && b > i {
                        assert(r[b] == s[b - 1]);
                    }
                }
            }
            assert forall|a: int| 0 <= a < r.len() implies (#[trigger] r[a]).1.len() > 0 by {
                if !(i < s.len() && s[i as int].0 == t) && a > i {
                    assert(r[a] == s[a - 1]);
                }
            }
        }
    }

    /// Drops all events before `cutoff`. Each interval marker among them is added
    /// again at its next occurrence after `cutoff`; user events before `cutoff` are gone.
    pub fn drop_past_events(&mut self, cutoff: i128)
        requires
            old(self).wf(),
            instant_in_range(cutoff as int),
            past_reschedulable(old(self)@, cutoff),
        ensures
            final(self).wf(),
            final(self)@ == drop_past(old(self)@, cutoff),
    {
        let ghost orig = self@;
        let ghost p = key_pos(orig, cutoff) as int;
        let ghost mut k: int = 0;
        proof {
            lemma_key_pos_sorted(orig, cutoff);
            assert(orig.skip(0) =~= orig);
            assert(orig.take(0) =~= Seq::<Entry>::empty());
            assert(flatten(orig.take(0)) =~= Seq::<(i128, Event)>::empty());
        }
        loop
            invariant
                self.wf(),
                orig == old(self)@,
                entries_wf(orig),
                instant_in_range(cutoff as int),
                past_reschedulable(orig, cutoff),
                p == key_pos(orig, cutoff),
                0 <= k <= p <= orig.len(),
                forall|j: int| 0 <= j < p ==> orig[j].0 < cutoff,
                forall|j: int| p <= j < orig.len() ==> orig[j].0 >= cutoff,
                self@ == insert_events(orig.skip(k), reschedule(flatten(orig.take(k)), cutoff)),
                forall|i: int|
                    0 <= i < reschedule(flatten(orig.take(k)), cutoff).len() ==> (
                    #[trigger] reschedule(flatten(orig.take(k)), cutoff)[i]).0 > cutoff,
            decreases p - k,
        {
            let ghost before = self@;
            let ghost resched = reschedule(flatten(orig.take(k)), cutoff);
            proof {
                if k < p {
                    assert forall|i: int| 0 <= i < resched.len() implies (#[trigger] resched[i]).0 > orig.skip(k)[0].0 by {}
                    lemma_insert_events_after_first(orig.skip(k), resched);
                    assert(orig.skip(k).drop_first() =~= orig.skip(k + 1));
                    assert(before.len() > 0);
                    assert(before[0] == orig[k]);
                    assert(before.drop_first() =~= insert_events(orig.skip(k + 1), resched));
                } else {
                    assert(before == drop_past(orig, cutoff));
                    assert forall|i: int| 0 <= i < orig.skip(k).len() implies (#[trigger] orig.skip(k)[i]).0 >= cutoff by {}
                    assert forall|i: int| 0 <= i < resched.len() implies (#[trigger] resched[i]).0 >= cutoff by {}
                    lemma_insert_events_keys_at_least(orig.skip(k), resched, cutoff);
                }
            }
            if self.entries.len() == 0 {
                assert(before.len() == 0);
                assert(k == p);
                return;
            }
            let (t, evs) = self.entries.remove(0);
            assert(self@ =~= before.drop_first());
            assert(t == before[0].0 && evs@ == before[0].1);
            if cutoff <= t {
                self.entries.insert(0, (t, evs));
                assert(self@ =~= before);
                assert(k == p);
                return;
            }
            // The first entry is `orig[k]`, which is before `cutoff`.
            let ghost evs0 = evs@;
            let ghost prefix = flatten(orig.take(k));
            let ghost ent = entry_events(orig[k]);
            assert(evs0 == orig[k].1);
            let mut evs = evs;
            let ghost mut j: int = 0;
            proof {
                assert(evs@ =~= evs0.skip(0));
                assert(ent.take(0) =~= Seq::<(i128, Event)>::empty());
                assert(prefix + ent.take(0) =~= prefix);
            }
            while evs.len() > 0
                invariant
                    self.wf(),
                    instant_in_range(cutoff as int),
                    0 <= k < p,
                    0 <= j <= evs0.len(),
                    evs0 == orig[k].1,
                    ent == entry_events(orig[k]),
                    prefix == flatten(orig.take(k)),
                    evs@ == evs0.skip(j),
                    forall|b: int| 0 <= b < evs0.len() ==> can_reschedule(#[trigger] evs0[b], cutoff),
                    self@ == insert_events(orig.skip(k + 1), reschedule(prefix + ent.take(j), cutoff)),
                    forall|i: int|
                        0 <= i < reschedule(prefix + ent.take(j), cutoff).len() ==> (
                        #[trigger] reschedule(prefix + ent.take(j), cutoff)[i]).0 > cutoff,
                decreases evs.len(),
            {
                let ev = evs.remove(0);
                let ghost a = prefix + ent.take(j);
                let ghost b = prefix + ent.take(j + 1);
                proof {
                    assert(ev == evs0[j]);
                    assert(evs@ =~= evs0.skip(j + 1));
                    assert(b =~= a.push((orig[k].0, ev)));
                    assert(b.drop_last() =~= a);
                    assert(b.last() == (orig[k].0, ev));
                    lemma_next_occurrence_later(ev, cutoff);
                }
                let ghost r_a = reschedule(a, cutoff);
                match ev.next_iteration_from(cutoff) {
                    Some((t2, e2)) => {
                        self.insert(t2, e2);
                        proof {
                            assert(reschedule(b, cutoff) =~= r_a.push((t2, e2)));
                            assert(reschedule(b, cutoff).drop_last() =~= r_a);
                        }
                    },
                    None => {
                        assert(reschedule(b, cutoff) =~= r_a);
                    },
                }
                proof {
                    j = j + 1;
                }
            }
            proof {
                assert(ent.take(j) =~= ent);
                assert(orig.take(k + 1).drop_last() =~= orig.take(k));
                assert(orig.take(k + 1).last() == orig[k]);
                k = k + 1;
            }
        }
    }
    /// The empty schedule.
    pub fn empty() -> (r: Schedule)
        ensures
            r.wf(),
            r@ == Seq::<Entry>::empty(),
    {
        let r = Schedule { entries: Vec::new() };
        assert(r@ =~= Seq::<Entry>::empty());
        r
    }

    /// Every event with its instant, in increasing order of instants, and in the
    /// order of addition among events at the same instant.
    pub fn iter(&self) -> (r: Vec<(i128, &Event)>)
        requires
            self.wf(),
        ensures
            r@.len() == flatten(self@).len(),
            forall|i: int| 0 <= i < r@.len() ==> (#[trigger] r@[i]).0 == flatten(self@)[i].0 && *r@[i].1 == flatten(self@)[i].1,
    {
        let mut out: Vec<(i128, &Event)> = Vec::new();
        let mut k: usize = 0;
        proof {
            assert(self@.take(0) =~= Seq::<Entry>::empty());
        }
        while k < self.entries.len()
            invariant
                k <= self.entries.len(),
                self.entries@.len() == self@.len(),
                out@.len() == flatten(self@.take(k as int)).len(),
                forall|i: int| 0 <= i < out@.len() ==> (#[trigger] out@[i]).0 == flatten(self@.take(k as int))[i].0 && *out@[i].1 == flatten(self@.take(k as int))[i].1,
            decreases self.entries.len() - k,
        {
            let t = self.entries[k].0;
            let evs = &self.entries[k].1;
            let ghost base = flatten(self@.take(k as int));
            let ghost ent = entry_events(self@[k as int]);
            assert(evs@ == self@[k as int].1 && t == self@[k as int].0);
            let mut j: usize = 0;
            while j < evs.len()
                invariant
                    j <= evs.len(),
                    ent == entry_events(self@[k as int]),
                    evs@ == self@[k as int].1,
                    t == self@[k as int].0,
                    out@.len() == base.len() + j,
                    forall|i: int| 0 <= i < out@.len() ==> (#[trigger] out@[i]).0 == (base + ent)[i].0 && *out@[i].1 == (base + ent)[i].1,
                decreases evs.len() - j,
            {
                out.push((t, &evs[j]));
                j = j + 1;
            }
            proof {
                assert(self@.take(k + 1).drop_last() =~= self@.take(k as int));
                assert(self@.take(k + 1).last() == self@[k as int]);
            }
            k = k + 1;
        }
        assert(self@.take(self@.len() as int) =~= self@);
        out
    }
    /// Adds the events of `evs` one after the other, first to last.
    fn insert_all(&mut self, evs: Vec<(i128, Event)>)
        requires
            old(self).wf(),
        ensures
            final(self).wf(),
            final(self)@ == insert_events(old(self)@, evs@),
    {
        let ghost s0 = self@;
        let ghost all = evs@;
        let mut evs = evs;
        let ghost mut n: int = 0;
        proof {
            assert(all.take(0) =~= Seq::<(i128, Event)>::empty());
            assert(evs@ =~= all.skip(0));
        }
        while evs.len() > 0
            invariant
                self.wf(),
                0 <= n <= all.len(),
                evs@ == all.skip(n),
                self@ == insert_events(s0, all.take(n)),
            decreases evs.len(),
        {
            let (t, ev) = evs.remove(0);
            proof {
                assert((t, ev) == all[n]);
                assert(evs@ =~= all.skip(n + 1));
                assert(all.take(n + 1).drop_last() =~= all.take(n));
                assert(all.take(n + 1).last() == all[n]);
            }
            self.insert(t, ev);
            proof {
                n = n + 1;
            }
        }
        assert(all.take(all.len() as int) =~= all);
    }

    /// A schedule of the standard interval markers followed by `events`, added in
    /// that order. Adding stops with an error at the first marker that cannot be
    /// scheduled; the day marker never can (see `Event::standard_intervals`), so this
    /// always fails.
    pub fn new(events: Vec<(i128, Event)>) -> (r: Result<Schedule, TimeError>)
        ensures
            r is Err,
    {
        let mut standard = Event::standard_intervals();
        let ghost all = standard@;
        let mut sched = Schedule::empty();
        let ghost mut n: int = 0;
        while standard.len() > 0
            invariant
                sched.wf(),
                0 <= n <= all.len(),
                all.len() == 10,
                standard@ == all.skip(n),
                forall|i: int| 6 <= i < all.len() ==> (#[trigger] all[i]) is Err,
                forall|i: int| 0 <= i < n ==> (#[trigger] all[i]) is Ok,
            decreases standard.len(),
        {
            let entry = standard.remove(0);
            proof {
                assert(entry == all[n]);
                assert(standard@ =~= all.skip(n + 1));
            }
            match entry {
                Ok((t, ev)) => sched.insert(t, ev),
                Err(e) => {
                    return Err(e);
                },
            }
            proof {
                n = n + 1;
            }
        }
        // The loop only ends at an error: every entry came out `Ok`, the day marker's too.
        assert(all[6] is Ok);
        sched.insert_all(events);
        Ok(sched)
    }
}

impl Default for Schedule {
    /// The empty schedule.
    fn default() -> (r: Schedule)
        ensures
            r.wf(),
            r@ == Seq::<Entry>::empty(),
    {
        Schedule::empty()
    }
}

} // verus!
