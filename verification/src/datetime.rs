//! Years and Unix times, by way of chrono.

use chrono::{TimeZone, Utc};
use std::fmt::Write;
use vstd::prelude::*;

verus! {

/// The first year that has dates.
pub const MIN_YEAR: i32 = -262143;

/// The last year that has dates.
pub const MAX_YEAR: i32 = 262142;

/// The number of leap days from the first of January of the year 1 up to the
/// first of January of `year`, in the Gregorian calendar carried on backwards.
pub open spec fn leap_days_before(year: int) -> int {
    (year - 1) / 4 - (year - 1) / 100 + (year - 1) / 400
}

/// The Unix time at which `year` begins: the seconds, leap seconds not
/// counted, from the beginning of 1970 to the beginning of `year`, both in
/// UTC.
pub open spec fn year_start(year: int) -> int {
    86400 * (365 * (year - 1970) + leap_days_before(year) - leap_days_before(1970))
}

/// What chrono gives as the Unix time of a date and a time of day in UTC,
/// where it has that date and that time.
pub uninterp spec fn utc_seconds(
    year: i32,
    month: u32,
    day: u32,
    hour: u32,
    min: u32,
    sec: u32,
) -> Option<i64>;

/// What chrono writes for the moment `nsecs` nanoseconds after the Unix time
/// `ts`, in UTC, after the pattern `fmt`, where it has that moment and can
/// write it.
pub uninterp spec fn formatted_utc(ts: i64, nsecs: u32, fmt: Seq<char>) -> Option<Seq<char>>;

/// The Unix time of a date and a time of day in UTC.
///
/// Calls chrono's `TimeZone::with_ymd_and_hms` on `Utc`, takes the result's
/// `earliest()` and, where there is one, its `DateTime::timestamp()`. The
/// contract names the result, which depends on the six numbers alone. Of the
/// first of January at midnight it claims what chrono documents: that moment
/// exists exactly for the years from `MIN_YEAR` to `MAX_YEAR`, the calendar is
/// the Gregorian one carried on backwards, and the time stamp counts 86400
/// seconds a day from the beginning of 1970.
#[verifier::external_body]
fn utc_timestamp(year: i32, month: u32, day: u32, hour: u32, min: u32, sec: u32) -> (seconds:
    Option<i64>)
    ensures
        seconds == utc_seconds(year, month, day, hour, min, sec),
        month == 1 && day == 1 && hour == 0 && min == 0 && sec == 0 ==> (seconds is Some
            <==> MIN_YEAR <= year <= MAX_YEAR),
        month == 1 && day == 1 && hour == 0 && min == 0 && sec == 0 ==> (seconds matches Some(s)
            ==> s == year_start(year as int)),
{
    match Utc.with_ymd_and_hms(year, month, day, hour, min, sec).earliest() {
        Some(moment) => Some(moment.timestamp()),
        None => None,
    }
}

/// The moment `nsecs` nanoseconds after the Unix time `ts`, in UTC, written
/// after the pattern `fmt`.
///
/// Calls chrono's `TimeZone::timestamp_opt` on `Utc`, takes the result's
/// `earliest()`, and writes the `DateTime::format` of it into a fresh string.
/// The result is `None` where chrono has no such moment or where writing
/// fails, as it does for a pattern that chrono does not accept. The contract
/// names the result, which depends on the three arguments alone, and claims
/// of it that chrono has no moment outside the years from `MIN_YEAR` to
/// `MAX_YEAR`.
#[verifier::external_body]
fn format_utc(ts: i64, nsecs: u32, fmt: &str) -> (text: Option<String>)
    ensures
        text is Some <==> formatted_utc(ts, nsecs, fmt@) is Some,
        text matches Some(t) ==> formatted_utc(ts, nsecs, fmt@) == Some(t@),
        text is Some ==> year_start(MIN_YEAR as int) <= ts < year_start(MAX_YEAR + 1),
{
    let moment = Utc.timestamp_opt(ts, nsecs).earliest()?;
    let mut text = String::new();
    match write!(text, "{}", moment.format(fmt)) {
        Ok(()) => Some(text),
        Err(_) => None,
    }
}

/// The Unix time at which `year` begins, for the years that have dates.
pub fn year_to_ts(year: i32) -> (start: Option<i64>)
    ensures
        start is Some <==> MIN_YEAR <= year <= MAX_YEAR,
        start matches Some(seconds) ==> seconds == year_start(year as int),
{
    utc_timestamp(year, 1, 1, 0, 0, 0)
}

/// The moment of the Unix time `ts`, in UTC, written after the pattern `fmt`;
/// `None` where the calendar has no such moment or the pattern cannot be
/// written.
pub fn ts_to_str(ts: i64, fmt: &str) -> (text: Option<String>)
    ensures
        text is Some <==> formatted_utc(ts, 0, fmt@) is Some,
        text matches Some(t) ==> formatted_utc(ts, 0, fmt@) == Some(t@),
        !(year_start(MIN_YEAR as int) <= ts < year_start(MAX_YEAR + 1)) ==> text is None,
{
    format_utc(ts, 0, fmt)
}

} // verus!
