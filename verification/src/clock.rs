//! Reads of the wall clock and of the local calendar. What comes back depends on the
//! moment of the call and on the machine's time zone, so little is promised of it; the
//! functions that use it take the value as an argument in a variant whose contract is
//! exact.
use vstd::prelude::*;

verus! {

/// Calls `chrono::Utc::now()` and returns its `timestamp_millis()`: the current time in
/// milliseconds since the Unix epoch. The value depends on the moment of the call, so
/// no clause is stated about it.
#[verifier::external_body]
pub(crate) fn utc_now_millis() -> i64 {
    chrono::Utc::now().timestamp_millis()
}

/// Calls `chrono::Local::now()` and returns the local calendar day as
/// `NaiveDate::num_days_from_ce` (January 1 of year 1 is day 1). It depends on the moment
/// and on the time zone, so no clause is stated about it.
#[verifier::external_body]
pub(crate) fn local_today() -> i32 {
    chrono::Datelike::num_days_from_ce(&chrono::Local::now().date_naive())
}

/// The day of the Unix epoch, January 1 1970, counted as `num_days_from_ce` counts.
pub const EPOCH_DAY: i64 = 719_163;

/// A day in milliseconds.
pub const DAY_MILLIS: i64 = 86_400_000;

/// The day, counted as `num_days_from_ce` counts, that holds the instant `ms` in UTC.
pub open spec fn utc_day(ms: int) -> int {
    ms / (DAY_MILLIS as int) + EPOCH_DAY
}

/// `t` lies less than a day either way of the UTC midnight that starts `day`: where any
/// local midnight of `day` lies, local time being UTC shifted by less than a day.
pub open spec fn near_midnight(t: int, day: int) -> bool {
    let m = (day - EPOCH_DAY) * (DAY_MILLIS as int);
    m - DAY_MILLIS < t < m + DAY_MILLIS
}

/// Calls `NaiveDate::from_num_days_from_ce_opt(day)`, then
/// `Local.from_local_datetime(&date.and_time(NaiveTime::MIN)).single()`, and returns the
/// `timestamp_millis()` of that local midnight. It is `None` when the day does not fit the
/// calendar or when that local midnight does not exist once (a time-zone change). Which
/// instant it is depends on the time zone; what is stated is that it is that day's UTC
/// midnight less the local offset, and chrono's offsets (`FixedOffset`) are always under
/// a day either way (`FixedOffset::east_opt` refuses any other), so the instant is less
/// than a day from that UTC midnight.
#[verifier::external_body]
pub(crate) fn local_midnight_millis(day: i64) -> (r: Option<i64>)
    ensures
        r matches Some(t) ==> near_midnight(t as int, day as int),
{
    let day = i32::try_from(day).ok()?;
    let date = chrono::NaiveDate::from_num_days_from_ce_opt(day)?;
    let local = chrono::TimeZone::from_local_datetime(
        &chrono::Local,
        &date.and_time(chrono::NaiveTime::MIN),
    ).single()?;
    Some(local.timestamp_millis())
}

/// Calls `DateTime::<Utc>::from_timestamp_millis(ms)` and returns the local calendar day
/// of that instant as `num_days_from_ce`, or `None` when the instant is out of chrono's
/// range. Which day it is depends on the time zone. What is stated:
/// chrono's dates reach more than 8 * 10^15 milliseconds either way of the epoch (day
/// 719163), so such an instant has a day, and a local offset is under a day, so that day
/// is at most one day before or after the day that holds the instant in UTC. Only such
/// instants are asked for: at the edge of chrono's range, taking an instant to a local
/// date can leave that range and panic.
#[verifier::external_body]
fn local_day_of_millis(ms: i64) -> (r: Option<i32>)
    requires
        -8_000_000_000_000_000 <= ms <= 8_000_000_000_000_000,
    ensures
        r is Some && -92_000_000 <= r->0 <= 93_400_000,
        r matches Some(d) ==> utc_day(ms as int) - 1 <= d <= utc_day(ms as int) + 1,
{
    let utc = chrono::DateTime::<chrono::Utc>::from_timestamp_millis(ms)?;
    Some(chrono::Datelike::num_days_from_ce(&utc.with_timezone(&chrono::Local).date_naive()))
}

/// A local date and hour as chrono gives them: the day counted from the start of the era
/// (`num_days_from_ce`), the hour, the weekday counted from Monday, the day of the month,
/// the day of the year, the month and the year.
#[derive(PartialEq, Eq, Structural, Clone, Copy, Debug)]
pub struct LocalParts {
    pub day: i32,
    pub hour: u32,
    pub weekday: u32,
    pub day_of_month: u32,
    pub ordinal: u32,
    pub month: u32,
    pub year: i32,
}

/// Calls `DateTime::<Utc>::from_timestamp_millis(ms)`, takes the instant to the local time
/// zone, and returns its calendar parts; `None` when the instant is out of chrono's range.
/// The parts depend on the time zone; the contract states only the ranges chrono's
/// `Timelike` and `Datelike` documentation gives them, and that chrono's dates reach more
/// than 8 * 10^15 milliseconds either way of the epoch, so such an instant has parts.
/// Only such instants are asked for: at the edge of chrono's range, taking an instant to
/// local time can leave that range and panic.
#[verifier::external_body]
fn local_parts(ms: i64) -> (r: Option<LocalParts>)
    requires
        -8_000_000_000_000_000 <= ms <= 8_000_000_000_000_000,
    ensures
        r matches Some(p) ==> p.hour < 24 && p.weekday < 7 && 1 <= p.day_of_month <= 31 && 1 <= p.ordinal
            <= 366 && 1 <= p.month <= 12,
        r is Some,
{
    let l = chrono::DateTime::<chrono::Utc>::from_timestamp_millis(ms)?.with_timezone(&chrono::Local);
    Some(LocalParts {
        day: chrono::Datelike::num_days_from_ce(&l.date_naive()),
        hour: chrono::Timelike::hour(&l),
        weekday: chrono::Datelike::weekday(&l).num_days_from_monday(),
        day_of_month: chrono::Datelike::day(&l),
        ordinal: chrono::Datelike::ordinal(&l),
        month: chrono::Datelike::month(&l),
        year: chrono::Datelike::year(&l),
    })
}

/// Calls `NaiveDate::from_num_days_from_ce_opt(day)`, `and_hms_opt(hour, 0, 0)` and
/// `Local.from_local_datetime(..).single()`, and returns the `timestamp_millis()` of that
/// local time; `None` when the date or hour does not exist, or the local time does not
/// exist once. It depends on the time zone, so no clause is stated about it.
#[verifier::external_body]
pub(crate) fn local_hour_millis(day: i32, hour: u32) -> Option<i64> {
    let naive = chrono::NaiveDate::from_num_days_from_ce_opt(day)?.and_hms_opt(hour, 0, 0)?;
    let local = chrono::TimeZone::from_local_datetime(&chrono::Local, &naive).single()?;
    Some(local.timestamp_millis())
}

/// The local day of the instant `ms` (see `local_day_of_millis`); `None` for an instant
/// more than 8 * 10^15 milliseconds from the epoch, which is not taken to local time.
pub(crate) fn local_day_of(ms: i64) -> (r: Option<i32>)
    ensures
        !(-8_000_000_000_000_000 <= ms <= 8_000_000_000_000_000) ==> r is None,
        -8_000_000_000_000_000 <= ms <= 8_000_000_000_000_000 ==> (r is Some && -92_000_000 <= r->0 <= 93_400_000),
        r matches Some(d) ==> utc_day(ms as int) - 1 <= d <= utc_day(ms as int) + 1,
{
    if -8_000_000_000_000_000 <= ms && ms <= 8_000_000_000_000_000 {
        local_day_of_millis(ms)
    } else {
        None
    }
}

/// The local calendar parts of the instant `ms` (see `local_parts`); `None` for an instant
/// more than 8 * 10^15 milliseconds from the epoch, which is not taken to local time.
pub(crate) fn local_parts_of(ms: i64) -> (r: Option<LocalParts>)
    ensures
        r matches Some(p) ==> p.hour < 24 && p.weekday < 7 && 1 <= p.day_of_month <= 31 && 1 <= p.ordinal
            <= 366 && 1 <= p.month <= 12,
        !(-8_000_000_000_000_000 <= ms <= 8_000_000_000_000_000) ==> r is None,
        -8_000_000_000_000_000 <= ms <= 8_000_000_000_000_000 ==> r is Some,
{
    if -8_000_000_000_000_000 <= ms && ms <= 8_000_000_000_000_000 {
        local_parts(ms)
    } else {
        None
    }
}

} // verus!
