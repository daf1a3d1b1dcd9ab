//! Instants as nanoseconds since the Unix epoch, spans of one unit, and the
//! calls into `jiff` that do time arithmetic on them.

use jiff::RoundMode as M;
use jiff::Unit as U;
use vstd::prelude::*;

verus! {

/// The earliest instant that `jiff` can represent, in nanoseconds since the Unix epoch.
pub open spec fn min_instant() -> int {
    -377_705_023_201int * 1_000_000_000
}

/// The latest instant that `jiff` can represent, in nanoseconds since the Unix epoch.
pub open spec fn max_instant() -> int {
    253_402_207_200int * 1_000_000_000 + 999_999_999
}

/// An instant (nanoseconds since the Unix epoch) that `jiff::Timestamp` can hold.
pub open spec fn instant_in_range(ns: int) -> bool {
    min_instant() <= ns <= max_instant()
}

/// The unit of a span of time.
#[derive(Clone, Copy, Debug, PartialEq, Eq, Structural)]
pub enum SpanUnit {
    Second,
    Minute,
    Hour,
    Day,
    Week,
    Month,
    Year,
}

/// A span of `amount` units, such as `15 minutes` or `1 month`.
#[derive(Clone, Copy, Debug, PartialEq, Eq, Structural)]
pub struct UnitSpan {
    pub unit: SpanUnit,
    pub amount: i64,
}

impl SpanUnit {
    /// Units of fixed length: seconds, minutes and hours.
    pub open spec fn is_time_unit(self) -> bool {
        match self {
            SpanUnit::Second | SpanUnit::Minute | SpanUnit::Hour => true,
            _ => false,
        }
    }

    /// The length of one unit in nanoseconds, for the units of fixed length.
    pub open spec fn nanos(self) -> int {
        match self {
            SpanUnit::Second => 1_000_000_000,
            SpanUnit::Minute => 60_000_000_000,
            SpanUnit::Hour => 3_600_000_000_000,
            _ => 0,
        }
    }
}

impl UnitSpan {
    /// The amount is one that `jiff::Span` accepts for every unit.
    pub open spec fn amount_ok(self) -> bool {
        -19_998 <= self.amount <= 19_998
    }

    /// The exact length in nanoseconds of a span of fixed-length units (zero for an
    /// empty span of any unit).
    pub open spec fn nanos(self) -> int {
        self.amount * self.unit.nanos()
    }

    /// The span has a fixed length: its unit is of fixed length, or it is empty.
    pub open spec fn is_exact(self) -> bool {
        self.unit.is_time_unit() || self.amount == 0
    }
}

/// Adding `span` to the instant `ns` as a `jiff::Timestamp` succeeds: the span has
/// no non-zero calendar units and the sum is an instant `jiff` can represent.
pub open spec fn timestamp_add_ok(ns: int, span: UnitSpan) -> bool {
    span.is_exact() && instant_in_range(ns + span.nanos())
}

#[verifier::external_type_specification]
#[verifier::external_body]
pub struct ExJiffError(jiff::Error);

/// Why a computation on times failed; each variant carries `jiff`'s message.
#[derive(Clone, Debug)]
pub enum TimeError {
    /// A span could not be added to an instant.
    Arithmetic(String),
    /// An instant could not be rounded.
    Rounding(String),
}

/// The message of a `jiff::Error` (its `Display` output, through `ToString::to_string`).
/// Nothing is claimed of the text.
#[verifier::external_body]
pub(crate) fn error_message(e: &jiff::Error) -> String {
    e.to_string()
}

/// Reads the clock: `jiff::Timestamp::now`, as nanoseconds since the Unix epoch
/// (`Timestamp::as_nanosecond`). Only that the result is an instant `jiff` can
/// represent is claimed; which instant it is depends on the clock.
#[verifier::external_body]
pub(crate) fn timestamp_now() -> (ns: i128)
    ensures
        instant_in_range(ns as int),
{
    jiff::Timestamp::now().as_nanosecond()
}

/// `jiff::Timestamp::checked_add` with a span of one unit. jiff's source
/// (`Timestamp::checked_add_span`) returns an error for a span with non-zero
/// units of days or more (calendar units), and otherwise adds the span's exact
/// length, with an error exactly when the sum leaves the range of `Timestamp`.
#[verifier::external_body]
pub(crate) fn timestamp_checked_add(ns: i128, span: UnitSpan) -> (r: Result<i128, jiff::Error>)
    requires
        instant_in_range(ns as int),
        span.amount_ok(),
    ensures
        r is Ok <==> timestamp_add_ok(ns as int, span),
        r matches Ok(t) ==> t == ns + span.nanos(),
{
    let ts = jiff::Timestamp::from_nanosecond(ns).expect("instant in range");
    let s = jiff::Span::new();
    let s = match span.unit {
        SpanUnit::Second => s.seconds(span.amount),
        SpanUnit::Minute => s.minutes(span.amount),
        SpanUnit::Hour => s.hours(span.amount),
        SpanUnit::Day => s.days(span.amount),
        SpanUnit::Week => s.weeks(span.amount),
        SpanUnit::Month => s.months(span.amount),
        SpanUnit::Year => s.years(span.amount),
    };
    ts.checked_add(s).map(|t| t.as_nanosecond())
}

#[verifier::external_type_specification]
#[verifier::external_body]
pub struct ExTimeZone(jiff::tz::TimeZone);

#[verifier::external_type_specification]
#[verifier::external_body]
pub struct ExZoned(jiff::Zoned);

/// The unit that an instant is rounded to.
#[derive(Clone, Copy, Debug, PartialEq, Eq, Structural)]
pub enum RoundUnit {
    Second,
    Minute,
    Hour,
    Day,
}

/// How an instant between two multiples of the rounding unit is rounded; the modes
/// of `jiff::RoundMode`.
#[derive(Clone, Copy, Debug, PartialEq, Eq, Structural)]
pub enum RoundMode {
    /// Up, towards the later multiple.
    Ceil,
    /// Down, towards the earlier multiple.
    Floor,
    Expand,
    Trunc,
    HalfCeil,
    HalfFloor,
    HalfExpand,
    HalfTrunc,
    HalfEven,
}

/// What `jiff::Zoned::round` gives for instant `ns` in time zone `tz`, rounded with
/// `mode` to a multiple `increment` of `unit`, as nanoseconds; `None` where it
/// returns an error.
pub uninterp spec fn zoned_rounded(
    ns: i128,
    tz: jiff::tz::TimeZone,
    mode: RoundMode,
    unit: RoundUnit,
    increment: i64,
) -> Option<i128>;

/// What `jiff::Zoned::checked_add` gives for a one-unit span added to instant `ns`
/// in time zone `tz`, as nanoseconds; `None` where it returns an error.
pub uninterp spec fn zoned_sum(ns: i128, tz: jiff::tz::TimeZone, span: UnitSpan) -> Option<i128>;

/// The instant of a zoned datetime (`Zoned::timestamp`, then
/// `Timestamp::as_nanosecond`).
pub uninterp spec fn zoned_instant(z: jiff::Zoned) -> i128;

/// The civil date of instant `ns` in time zone `tz`, in `jiff`'s `Display` form.
pub uninterp spec fn date_text(ns: i128, tz: jiff::tz::TimeZone) -> Seq<char>;

/// The civil time of day of instant `ns` in time zone `tz`, in `jiff`'s `Display` form.
pub uninterp spec fn time_text(ns: i128, tz: jiff::tz::TimeZone) -> Seq<char>;

/// A copy of a time zone: `Clone::clone` on `jiff::tz::TimeZone`, whose derived
/// `Clone` copies the shared zone data, so the copy is the same time zone.
#[verifier::external_body]
pub(crate) fn time_zone_clone(tz: &jiff::tz::TimeZone) -> (r: jiff::tz::TimeZone)
    ensures
        r == *tz,
{
    tz.clone()
}

/// The zoned datetime of instant `ns` in `tz` (`Timestamp::from_nanosecond`, then
/// `Timestamp::to_zoned`): its instant is `ns`.
#[verifier::external_body]
pub(crate) fn zoned_at(ns: i128, tz: &jiff::tz::TimeZone) -> (z: jiff::Zoned)
    requires
        instant_in_range(ns as int),
    ensures
        zoned_instant(z) == ns,
{
    jiff::Timestamp::from_nanosecond(ns).expect("instant in range").to_zoned(tz.clone())
}

/// `jiff::Zoned::round` of instant `ns` in `tz` with `mode` to a multiple
/// `increment` of `unit`, as nanoseconds: the result is `zoned_rounded` of the
/// arguments, an instant `jiff` can represent.
#[verifier::external_body]
pub(crate) fn zoned_round(
    ns: i128,
    tz: &jiff::tz::TimeZone,
    mode: RoundMode,
    unit: RoundUnit,
    increment: i64,
) -> (r: Result<i128, jiff::Error>)
    requires
        instant_in_range(ns as int),
    ensures
        r is Ok <==> zoned_rounded(ns, *tz, mode, unit, increment) is Some,
        r matches Ok(t) ==> Some(t) == zoned_rounded(ns, *tz, mode, unit, increment) && instant_in_range(t as int),
{
    let z = jiff::Timestamp::from_nanosecond(ns).expect("in range").to_zoned(tz.clone());
    let u = match unit { RoundUnit::Second => U::Second, RoundUnit::Minute => U::Minute, RoundUnit::Hour => U::Hour,
        RoundUnit::Day => U::Day };
    let m = match mode { RoundMode::Ceil => M::Ceil, RoundMode::Floor => M::Floor, RoundMode::Expand => M::Expand,
        RoundMode::Trunc => M::Trunc, RoundMode::HalfCeil => M::HalfCeil, RoundMode::HalfFloor => M::HalfFloor,
        RoundMode::HalfExpand => M::HalfExpand, RoundMode::HalfTrunc => M::HalfTrunc, RoundMode::HalfEven => M::HalfEven };
    let opts = jiff::ZonedRound::new().mode(m).smallest(u).increment(increment);
    z.round(opts).map(|r| r.timestamp().as_nanosecond())
}

/// `jiff::Zoned::checked_add` of a one-unit span to instant `ns` in `tz`, as
/// nanoseconds: the result is `zoned_sum` of the arguments, an instant `jiff` can
/// represent. jiff's source (`Zoned::checked_add_span`) does a span without non-zero
/// calendar units as `Timestamp::checked_add`, so that case is exact, as for
/// `timestamp_checked_add`.
#[verifier::external_body]
pub(crate) fn zoned_checked_add(ns: i128, tz: &jiff::tz::TimeZone, span: UnitSpan) -> (r: Result<i128, jiff::Error>)
    requires
        instant_in_range(ns as int),
        span.amount_ok(),
    ensures
        r is Ok <==> zoned_sum(ns, *tz, span) is Some,
        r matches Ok(t) ==> Some(t) == zoned_sum(ns, *tz, span) && instant_in_range(t as int),
        span.is_exact() ==> (r is Ok <==> timestamp_add_ok(ns as int, span)),
        span.is_exact() ==> (r matches Ok(t) ==> t == ns + span.nanos()),
{
    let z = jiff::Timestamp::from_nanosecond(ns).expect("instant in range").to_zoned(tz.clone());
    let s = jiff::Span::new();
    let s = match span.unit {
        SpanUnit::Second => s.seconds(span.amount),
        SpanUnit::Minute => s.minutes(span.amount),
        SpanUnit::Hour => s.hours(span.amount),
        SpanUnit::Day => s.days(span.amount),
        SpanUnit::Week => s.weeks(span.amount),
        SpanUnit::Month => s.months(span.amount),
        SpanUnit::Year => s.years(span.amount),
    };
    z.checked_add(s).map(|t| t.timestamp().as_nanosecond())
}

/// The civil date of instant `ns` in `tz`, in `jiff`'s `Display` form (`Zoned::date`,
/// then `ToString::to_string`): `date_text` of the arguments.
#[verifier::external_body]
pub(crate) fn zoned_date_text(ns: i128, tz: &jiff::tz::TimeZone) -> (r: String)
    requires
        instant_in_range(ns as int),
    ensures
        r@ == date_text(ns, *tz),
{
    jiff::Timestamp::from_nanosecond(ns).expect("instant in range").to_zoned(tz.clone()).date().to_string()
}

/// The civil time of day of instant `ns` in `tz`, in `jiff`'s `Display` form
/// (`Zoned::time`, then `ToString::to_string`): `time_text` of the arguments.
#[verifier::external_body]
pub(crate) fn zoned_time_text(ns: i128, tz: &jiff::tz::TimeZone) -> (r: String)
    requires
        instant_in_range(ns as int),
    ensures
        r@ == time_text(ns, *tz),
{
    jiff::Timestamp::from_nanosecond(ns).expect("instant in range").to_zoned(tz.clone()).time().to_string()
}

} // verus!
