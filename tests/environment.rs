use aki_monitor::environment::{current_timestamp, timestamp_from_secs};
use aki_monitor::patient::compose_id;

#[test]
fn seconds_become_a_timestamp() {
    assert_eq!(timestamp_from_secs(Some(1700006400)), 1700006400);
    assert_eq!(timestamp_from_secs(Some(i64::MAX as u64)), i64::MAX);
}

#[test]
fn seconds_beyond_i64_are_capped() {
    assert_eq!(timestamp_from_secs(Some(u64::MAX)), i64::MAX);
    assert_eq!(timestamp_from_secs(Some(i64::MAX as u64 + 1)), i64::MAX);
}

#[test]
fn clock_before_the_epoch_gives_zero() {
    assert_eq!(timestamp_from_secs(None), 0);
}

#[test]
fn current_timestamp_reads_the_clock() {
    assert!(current_timestamp() > 1_600_000_000);
}

#[test]
fn identity_is_seconds_times_1000_plus_salt() {
    assert_eq!(compose_id(1700006400, 123), 1700006400123);
    assert_eq!(compose_id(0, 998), 998);
}

#[test]
fn identity_seconds_are_capped() {
    assert_eq!(compose_id(u64::MAX, 7), 9223372036854774007);
    assert_eq!(compose_id(9223372036854774, 999), 9223372036854774999);
}
