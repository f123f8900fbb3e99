//! Log housekeeping decisions: which dated log files have aged out.

use vstd::prelude::*;

use crate::trusted::log_stamp_parsed_of;

verus! {

/// Log files are kept this many days.
pub const LOG_RETENTION_DAYS: i64 = 14;

/// Milliseconds in one day.
pub const MILLIS_PER_DAY: i64 = 86400000;

/// Whether a log file's timestamp has aged out at time `now`
/// (milliseconds since the epoch): true exactly when the stamp parses
/// and lies more than fourteen days in the past. A stamp that does not
/// parse is never counted as outdated.
pub fn is_outdated_timestamp(timestamp: &str, now: i64) -> (r: bool)
    ensures
        r == match log_stamp_parsed_of(timestamp@) {
            Some(t) => t < now - LOG_RETENTION_DAYS * MILLIS_PER_DAY,
            None => false,
        },
{
    match crate::trusted::parse_log_timestamp(timestamp) {
        Some(t) => {
            let threshold = now.checked_sub(LOG_RETENTION_DAYS * MILLIS_PER_DAY);
            match threshold {
                Some(th) => t < th,
                None => false,
            }
        },
        None => false,
    }
}

} // verus!
