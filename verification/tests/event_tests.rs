use spiral_down::{Event, IntervalMarker, SpanUnit, TimeError, UnitSpan};

const NS: i128 = 1_000_000_000;

#[test]
fn enumerate_lists_markers_shortest_first() {
    let all = IntervalMarker::enumerate();
    assert_eq!(
        all,
        vec![
            IntervalMarker::Minute,
            IntervalMarker::QuarterHour,
            IntervalMarker::Hour,
            IntervalMarker::EighthDay,
            IntervalMarker::QuarterDay,
            IntervalMarker::HalfDay,
            IntervalMarker::Day,
            IntervalMarker::Week,
            IntervalMarker::Month,
            IntervalMarker::Year,
        ]
    );
}

#[test]
fn marker_spans() {
    assert_eq!(IntervalMarker::QuarterHour.span(), UnitSpan { unit: SpanUnit::Minute, amount: 15 });
    assert_eq!(IntervalMarker::EighthDay.span(), UnitSpan { unit: SpanUnit::Hour, amount: 3 });
    assert_eq!(IntervalMarker::Month.span(), UnitSpan { unit: SpanUnit::Month, amount: 1 });
}

#[test]
fn marker_comes_back_one_span_later() {
    let now: i128 = 1_700_000_000 * NS;
    match Event::Ivm(IntervalMarker::QuarterHour).next_iteration_from(now) {
        Some((t, Event::Ivm(IntervalMarker::QuarterHour))) => assert_eq!(t, now + 15 * 60 * NS),
        other => panic!("unexpected {other:?}"),
    }
    match Event::Ivm(IntervalMarker::HalfDay).next_iteration_from(now) {
        Some((t, Event::Ivm(IntervalMarker::HalfDay))) => assert_eq!(t, now + 12 * 3600 * NS),
        other => panic!("unexpected {other:?}"),
    }
}

#[test]
fn user_event_does_not_come_back() {
    let now: i128 = 1_700_000_000 * NS;
    assert!(Event::User("launch".to_string()).next_iteration_from(now).is_none());
}

#[test]
fn standard_intervals_schedule_fixed_markers_and_refuse_calendar_ones() {
    let now: i128 = 1_700_000_000 * NS;
    let all = Event::standard_intervals_at(now);
    assert_eq!(all.len(), 10);
    let expected: [i128; 6] = [60, 15 * 60, 3600, 3 * 3600, 6 * 3600, 12 * 3600];
    for (i, secs) in expected.iter().enumerate() {
        match &all[i] {
            Ok((t, Event::Ivm(m))) => {
                assert_eq!(*t, now + secs * NS);
                assert_eq!(*m, IntervalMarker::enumerate()[i]);
            }
            other => panic!("unexpected {other:?}"),
        }
    }
    for r in &all[6..] {
        assert!(matches!(r, Err(TimeError::Arithmetic(_))));
    }
    let current = Event::standard_intervals();
    assert_eq!(current.len(), 10);
    assert!(current[..6].iter().all(|r| r.is_ok()));
    assert!(current[6..].iter().all(|r| r.is_err()));
}
