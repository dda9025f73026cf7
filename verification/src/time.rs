//! Timestamps as milliseconds since the Unix epoch.
//!
//! The cursor and every update time in the library are plain `i64`
//! millisecond counts; RFC 3339 strings from the tracker are parsed through
//! one trusted item.

use vstd::prelude::*;

verus! {

/// The minimum representable time: the cursor of a store that has never
/// observed an update.
pub const MIN_TIME_MS: i64 = i64::MIN;

/// The millisecond timestamp denoted by an RFC 3339 date-and-time string, or
/// `None` when the string is not a valid RFC 3339 value. The result depends
/// on the characters alone.
pub uninterp spec fn rfc3339_ms(s: Seq<char>) -> Option<i64>;

/// Relies on chrono's `DateTime::parse_from_rfc3339` and
/// `DateTime::timestamp_millis`: the parse accepts exactly the valid RFC 3339
/// strings and both it and the millisecond conversion are pure functions of
/// the input characters.
#[verifier::external_body]
pub fn parse_rfc3339_ms(s: &str) -> (r: Option<i64>)
    ensures
        r == rfc3339_ms(s@),
{
    match chrono::DateTime::parse_from_rfc3339(s) {
        Ok(d) => Some(d.timestamp_millis()),
        Err(_) => None,
    }
}

} // verus!
