use jiff::tz::TimeZone;
use spiral_down::ticks::TickRounding;
use spiral_down::time::{RoundMode, RoundUnit};
use spiral_down::{Tick, TickInterval, Ticks};

const NS: i128 = 1_000_000_000;

fn drain(ticks: &mut Ticks) -> Vec<Tick> {
    let mut out = vec![];
    while let Some(t) = ticks.next_res().unwrap() {
        out.push(t);
    }
    out
}

#[test]
fn interval_counts() {
    let total: usize = TickInterval::all().into_iter().map(|ti| ti.count()).sum();
    assert_eq!(total, 234);
    assert_eq!(TickInterval::Minute.count(), 120);
    assert_eq!(TickInterval::HalfDay.count(), 2);
}

#[test]
fn fresh_ticks_yield_every_tick_once() {
    // 2023-11-14T22:13:20.5Z
    let now = 1_700_000_000 * NS + NS / 2;
    let mut ticks = Ticks::new(now, TimeZone::UTC).unwrap();
    let all = drain(&mut ticks);
    assert_eq!(all.len(), 234);
    for ti in TickInterval::all() {
        let priors: Vec<usize> = all.iter().filter(|t| t.interval() == ti).map(|t| t.prior()).collect();
        assert_eq!(priors, (0..ti.count()).collect::<Vec<_>>());
    }
    assert!(ticks.next_res().unwrap().is_none());
}

#[test]
fn ticks_come_out_earliest_first() {
    let now = 1_700_000_000 * NS + 123;
    let mut ticks = Ticks::new(now, TimeZone::UTC).unwrap();
    let all = drain(&mut ticks);
    for w in all.windows(2) {
        assert!(w[0].precedes(&w[1]), "{:?} then {:?}", w[0].instant(), w[1].instant());
    }
}

#[test]
fn first_ticks_are_rounded_up_and_labelled() {
    let now = 1_700_000_000 * NS + NS / 2;
    let mut ticks = Ticks::new(now, TimeZone::UTC).unwrap();
    let all = drain(&mut ticks);
    let first = |ti: TickInterval| all.iter().find(|t| t.interval() == ti && t.prior() == 0).unwrap();
    assert_eq!(first(TickInterval::Second).instant(), 1_700_000_001 * NS);
    assert_eq!(first(TickInterval::QuarterMinute).instant(), 1_700_000_010 * NS);
    assert_eq!(first(TickInterval::Hour).instant(), 1_700_002_800 * NS);
    assert_eq!(first(TickInterval::Day).instant(), 1_700_006_400 * NS);
    assert_eq!(first(TickInterval::Day).label(), Some("2023-11-15"));
    assert_eq!(first(TickInterval::Minute).label(), Some("22:14:00"));
    assert!(all.iter().filter(|t| t.prior() > 0).all(|t| t.label().is_none()));
}

#[test]
fn following_ticks_are_one_span_apart() {
    let now = 1_700_000_000 * NS;
    let mut ticks = Ticks::new(now, TimeZone::UTC).unwrap();
    let all = drain(&mut ticks);
    let of = |ti: TickInterval| -> Vec<i128> { all.iter().filter(|t| t.interval() == ti).map(|t| t.instant()).collect() };
    for w in of(TickInterval::QuarterHour).windows(2) {
        assert_eq!(w[1] - w[0], 15 * 60 * NS);
    }
    for w in of(TickInterval::Day).windows(2) {
        assert_eq!(w[1] - w[0], 86_400 * NS);
    }
}

#[test]
fn tick_time_is_zoned_at_its_instant() {
    let now = 1_700_000_000 * NS;
    let mut ticks = Ticks::new(now, TimeZone::UTC).unwrap();
    let t = ticks.next_res().unwrap().unwrap();
    assert_eq!(t.time().timestamp().as_nanosecond(), t.instant());
}

#[test]
fn last_tick_of_an_interval_has_no_successor() {
    let now = 1_700_000_000 * NS;
    let mut ticks = Ticks::new(now, TimeZone::UTC).unwrap();
    let all = drain(&mut ticks);
    let last_half_day = all
        .iter()
        .find(|t| t.interval() == TickInterval::HalfDay && t.prior() == 1)
        .unwrap();
    assert!(last_half_day.next().unwrap().is_none());
    let first_hour = all
        .iter()
        .find(|t| t.interval() == TickInterval::Hour && t.prior() == 0)
        .unwrap();
    let second = first_hour.next().unwrap().unwrap();
    assert_eq!(second.instant(), first_hour.instant() + 3600 * NS);
    assert_eq!(second.prior(), 1);
    assert_eq!(second.interval(), TickInterval::Hour);
    assert!(second.label().is_none());
}

#[test]
fn rounding_rules() {
    assert_eq!(TickInterval::QuarterMinute.zoned_round(), TickRounding { mode: RoundMode::Ceil, unit: RoundUnit::Second, increment: 15 });
    assert_eq!(TickInterval::EighthDay.zoned_round(), TickRounding { mode: RoundMode::Ceil, unit: RoundUnit::Hour, increment: 3 });
    assert_eq!(TickInterval::Day.zoned_round(), TickRounding { mode: RoundMode::Ceil, unit: RoundUnit::Day, increment: 1 });
}

#[test]
fn checked_new_refuses_an_instant_that_cannot_be_rounded() {
    let max = 253_402_207_200 * NS + 999_999_999;
    assert!(matches!(Ticks::checked_new(max, TimeZone::UTC), Err(spiral_down::TimeError::Rounding(_))));
    let now = 1_700_000_000 * NS;
    let mut ticks = Ticks::checked_new(now, TimeZone::UTC).unwrap();
    assert_eq!(drain(&mut ticks).len(), 234);
}
