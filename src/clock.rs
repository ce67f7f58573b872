//! The wall clock and UTC calendar stamps.

use vstd::prelude::*;

verus! {

/// The UTC calendar stamp `YYYYMMDD_HHMMSS` of a Unix time in seconds.
pub uninterp spec fn compact_utc(secs: int) -> Seq<char>;

/// The UTC calendar stamp `YYYY-MM-DD HH:MM:SS UTC` of a Unix time in seconds.
pub uninterp spec fn readable_utc(secs: int) -> Seq<char>;

/// Seconds either side of the epoch within which chrono has a date for every
/// second (about 253,000 years; chrono's dates reach year 262,142).
pub const STAMP_RANGE: i64 = 8_000_000_000_000;

/// Relies on `std::time::SystemTime::now` read against `UNIX_EPOCH`: the
/// current time in whole seconds since the Unix epoch, `None` for a clock set
/// before it. Nothing is known of its value.
#[verifier::external_body]
pub(crate) fn system_seconds() -> (r: Option<u64>) {
    match std::time::SystemTime::now().duration_since(std::time::UNIX_EPOCH) {
        Ok(d) => Some(d.as_secs()),
        Err(_) => None,
    }
}

/// The current time in seconds since the Unix epoch, `None` where the clock
/// reads before the epoch or beyond `STAMP_RANGE`.
pub fn now_unix_seconds() -> (r: Option<i64>)
    ensures
        r matches Some(t) ==> 0 <= t <= STAMP_RANGE,
{
    match system_seconds() {
        Some(s) => if s <= STAMP_RANGE as u64 {
            Some(s as i64)
        } else {
            None
        },
        None => None,
    }
}

/// Relies on `chrono::DateTime::from_timestamp` and `DateTime::format` with
/// `%Y%m%d_%H%M%S`: the stamp of `secs`, `None` only where chrono has no
/// date for it, which is never within `STAMP_RANGE` of the epoch.
#[verifier::external_body]
pub(crate) fn compact_utc_stamp(secs: i64) -> (r: Option<String>)
    ensures
        r matches Some(s) ==> s@ == compact_utc(secs as int),
        -STAMP_RANGE <= secs <= STAMP_RANGE ==> r is Some,
{
    match chrono::DateTime::from_timestamp(secs, 0) {
        Some(d) => Some(d.format("%Y%m%d_%H%M%S").to_string()),
        None => None,
    }
}

/// Relies on `chrono::DateTime::from_timestamp` and `DateTime::format` with
/// `%Y-%m-%d %H:%M:%S UTC`: the stamp of `secs`, `None` only where chrono has
/// no date for it, which is never within `STAMP_RANGE` of the epoch.
#[verifier::external_body]
pub(crate) fn readable_utc_stamp(secs: i64) -> (r: Option<String>)
    ensures
        r matches Some(s) ==> s@ == readable_utc(secs as int),
        -STAMP_RANGE <= secs <= STAMP_RANGE ==> r is Some,
{
    match chrono::DateTime::from_timestamp(secs, 0) {
        Some(d) => Some(d.format("%Y-%m-%d %H:%M:%S UTC").to_string()),
        None => None,
    }
}

} // verus!
