//! Wall-clock readings. Both results depend on the moment of the call (and
//! the second one on the machine's time zone), so no contract relates them
//! to anything; the query logic takes them as plain arguments.

use vstd::prelude::*;

verus! {

/// Relies on chrono::Utc::now: the current time as epoch seconds.
#[verifier::external_body]
pub(crate) fn now_timestamp() -> i64 {
    chrono::Utc::now().timestamp()
}

/// Relies on chrono::Local::now and chrono's local time-zone conversions:
/// the inclusive bounds, as epoch seconds, of the local window reaching
/// from the start of today to 23:59:59 of the day `days_ahead` days from
/// now. A bound the time zone cannot place (a skipped or ambiguous local
/// time) falls back to the instant of the call.
#[verifier::external_body]
pub(crate) fn local_window_bounds(days_ahead: u32) -> (i64, i64)
    requires
        days_ahead <= 3650,
{
    let now = chrono::Local::now();
    let start = now
        .date_naive()
        .and_hms_opt(0, 0, 0)
        .and_then(|t| t.and_local_timezone(chrono::Local).earliest())
        .map_or_else(|| now.timestamp(), |t| t.timestamp());
    let horizon = now + chrono::Duration::days(days_ahead as i64);
    let end = horizon
        .date_naive()
        .and_hms_opt(23, 59, 59)
        .and_then(|t| t.and_local_timezone(chrono::Local).latest())
        .map_or_else(|| horizon.timestamp(), |t| t.timestamp());
    (start, end)
}

} // verus!
