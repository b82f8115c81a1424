//! Commit times: whole seconds since 1970-01-01 00:00:00 UTC, kept within the
//! range of dates that `chrono` can hold.

use vstd::prelude::*;

verus! {

/// The first second of the earliest date that `chrono` represents
/// (1 January of the year -262143).
pub const MIN_TIMESTAMP: i64 = -8_334_601_228_800;

/// The last second of the latest date that `chrono` represents
/// (31 December of the year 262142).
pub const MAX_TIMESTAMP: i64 = 8_210_266_876_799;

/// The time that a record carries until a header line sets one:
/// 2002-10-05 00:00:00 UTC.
pub const DEFAULT_TIMESTAMP: i64 = 1_033_776_000;

/// Whether `secs` names a moment that a calendar date and time can stand for.
pub open spec fn is_timestamp(secs: i64) -> bool {
    MIN_TIMESTAMP <= secs <= MAX_TIMESTAMP
}

/// `chrono::DateTime::from_timestamp(secs, 0)`, read back with
/// `chrono::DateTime::timestamp`.
///
/// Trusted, not proved: `from_timestamp` gives a date and time exactly for
/// the seconds from the first second of `NaiveDate::MIN` to the last second
/// of `NaiveDate::MAX`, which are `MIN_TIMESTAMP` and `MAX_TIMESTAMP`, and
/// `timestamp` gives back the seconds that a date and time was made from.
#[verifier::external_body]
fn datetime_seconds(secs: i64) -> (r: Option<i64>)
    ensures
        r == if is_timestamp(secs) { Some(secs) } else { None::<i64> },
{
    match chrono::DateTime::from_timestamp(secs, 0) {
        Some(moment) => Some(moment.timestamp()),
        None => None,
    }
}

/// The timestamp `secs` as the calendar keeps it, where the calendar reaches
/// that far.
pub fn checked_timestamp(secs: i64) -> (r: Option<i64>)
    ensures
        r == if is_timestamp(secs) { Some(secs) } else { None::<i64> },
{
    datetime_seconds(secs)
}

} // verus!
