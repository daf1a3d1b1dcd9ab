use spiral_down::{Event, IntervalMarker, Schedule};

const NS: i128 = 1_000_000_000;
const T0: i128 = 1_700_000_000 * NS;

fn label(ev: &Event) -> String {
    match ev {
        Event::User(s) => s.clone(),
        Event::Ivm(m) => format!("{m:?}"),
    }
}

fn listing(s: &Schedule) -> Vec<(i128, String)> {
    s.iter().into_iter().map(|(t, ev)| (t, label(ev))).collect()
}

#[test]
fn empty_schedule_has_no_events() {
    let s = Schedule::empty();
    assert!(s.iter().is_empty());
    let d = Schedule::default();
    assert!(d.iter().is_empty());
}

#[test]
fn insert_keeps_time_order_and_addition_order() {
    let mut s = Schedule::empty();
    s.insert(T0 + 30, Event::User("c".to_string()));
    s.insert(T0 + 10, Event::User("a".to_string()));
    s.insert(T0 + 30, Event::User("d".to_string()));
    s.insert(T0 + 20, Event::User("b".to_string()));
    s.insert(T0 + 10, Event::Ivm(IntervalMarker::Hour));
    assert_eq!(
        listing(&s),
        vec![
            (T0 + 10, "a".to_string()),
            (T0 + 10, "Hour".to_string()),
            (T0 + 20, "b".to_string()),
            (T0 + 30, "c".to_string()),
            (T0 + 30, "d".to_string()),
        ]
    );
}

#[test]
fn drop_past_events_reschedules_markers_and_drops_user_events() {
    let mut s = Schedule::empty();
    s.insert(T0, Event::User("gone".to_string()));
    s.insert(T0 + NS, Event::Ivm(IntervalMarker::Minute));
    s.insert(T0 + 2 * NS, Event::Ivm(IntervalMarker::Hour));
    s.insert(T0 + 100 * NS, Event::User("kept".to_string()));
    let cutoff = T0 + 50 * NS;
    s.drop_past_events(cutoff);
    assert_eq!(
        listing(&s),
        vec![
            (T0 + 100 * NS, "kept".to_string()),
            (cutoff + 60 * NS, "Minute".to_string()),
            (cutoff + 3600 * NS, "Hour".to_string()),
        ]
    );
}

#[test]
fn drop_past_events_keeps_events_at_cutoff() {
    let mut s = Schedule::empty();
    s.insert(T0, Event::User("at".to_string()));
    s.drop_past_events(T0);
    assert_eq!(listing(&s), vec![(T0, "at".to_string())]);
}

#[test]
fn drop_past_events_twice_is_once() {
    let mut s = Schedule::empty();
    s.insert(T0, Event::Ivm(IntervalMarker::QuarterHour));
    s.insert(T0 + 5, Event::User("x".to_string()));
    let cutoff = T0 + 10;
    s.drop_past_events(cutoff);
    let once = listing(&s);
    s.drop_past_events(cutoff);
    assert_eq!(listing(&s), once);
    assert_eq!(once, vec![(cutoff + 15 * 60 * NS, "QuarterHour".to_string())]);
}

#[test]
fn rescheduled_marker_joins_existing_instant_after_its_events() {
    let mut s = Schedule::empty();
    let cutoff = T0;
    s.insert(cutoff + 60 * NS, Event::User("first".to_string()));
    s.insert(cutoff - NS, Event::Ivm(IntervalMarker::Minute));
    s.drop_past_events(cutoff);
    assert_eq!(
        listing(&s),
        vec![(cutoff + 60 * NS, "first".to_string()), (cutoff + 60 * NS, "Minute".to_string())]
    );
}

#[test]
fn new_schedule_fails_on_calendar_markers() {
    assert!(Schedule::new(vec![(T0, Event::User("x".to_string()))]).is_err());
}
