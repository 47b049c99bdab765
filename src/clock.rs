//! Dates and times in the heartbeat text, read by chrono.
//!
//! A date and time is kept as seconds since 1970-01-01 00:00:00 UTC.
use vstd::prelude::*;

verus! {

/// The `strftime`-style format of dates with a two-digit year.
pub const SHORT_YEAR_FORMAT: &'static str = "%m/%d/%y %H:%M:%S";

/// The `strftime`-style format of dates with a four-digit year.
pub const LONG_YEAR_FORMAT: &'static str = "%m/%d/%Y %H:%M:%S";

/// The UTC date and time, in seconds since the epoch, that chrono reads from
/// `text` with `format`, or `None` where it reads none.
pub uninterp spec fn utc_seconds(text: Seq<u8>, format: Seq<char>) -> Option<i64>;

/// Relies on chrono's `NaiveDateTime::parse_from_str`, taken as UTC: the result
/// depends on the text and the format alone. Text that is not UTF-8 reads as
/// no date.
#[verifier::external_body]
pub fn parse_utc(text: &[u8], format: &str) -> (r: Option<i64>)
    ensures
        r == utc_seconds(text@, format@),
{
    match std::str::from_utf8(text) {
        Ok(s) => match chrono::NaiveDateTime::parse_from_str(s, format) {
            Ok(d) => Some(d.and_utc().timestamp()),
            Err(_) => None,
        },
        Err(_) => None,
    }
}

/// The number of seconds between two scans.
pub const SCAN_INTERVAL: i64 = 21600;

/// The start of the next six-hour scan slot after `t`: the next time of day
/// at 00:00, 06:00, 12:00 or 18:00 UTC, strictly after the slot that holds `t`.
pub open spec fn next_scan_slot(t: int) -> int {
    (t - t % (SCAN_INTERVAL as int)) + SCAN_INTERVAL
}

/// Calculates the expected start time of the next scan.
///
/// Scans run on a six-hour interval, so this is the next six-hour boundary of
/// the UTC day after the slot that holds `datetime`.
pub fn expected_next_scan_time(datetime: i64) -> (r: i64)
    requires
        datetime <= i64::MAX - SCAN_INTERVAL,
    ensures
        r == next_scan_slot(datetime as int),
        r % SCAN_INTERVAL == 0,
        datetime < r <= datetime + SCAN_INTERVAL,
{
    let m = datetime % SCAN_INTERVAL;
    let m = if m < 0 {
        m + SCAN_INTERVAL
    } else {
        m
    };
    assert(m == datetime as int % (SCAN_INTERVAL as int));
    datetime + (SCAN_INTERVAL - m)
}

} // verus!
