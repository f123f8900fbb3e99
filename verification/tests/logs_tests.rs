//! Log housekeeping: the retention cutoff.

use worlds_store::logs::is_outdated_timestamp;
use worlds_store::logs::LOG_RETENTION_DAYS;

#[test]
fn test_is_outdated_timestamp() {
    let now = chrono::Utc::now();
    let threshold = now - chrono::Duration::days(LOG_RETENTION_DAYS);
    let now_ms = now.timestamp_millis();

    let outdated_time = threshold - chrono::Duration::minutes(1);
    let outdated_str = outdated_time.format("%Y-%m-%d_%H-%M-%S.%6f").to_string();
    assert!(is_outdated_timestamp(&outdated_str, now_ms));

    let fresh_time = threshold + chrono::Duration::minutes(1);
    let fresh_str = fresh_time.format("%Y-%m-%d_%H-%M-%S.%6f").to_string();
    assert!(!is_outdated_timestamp(&fresh_str, now_ms));
}
