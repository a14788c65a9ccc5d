use yaiko::media_timestamps::{validate_and_normalize, TimestampError, TimestampPolicy};

fn policy() -> TimestampPolicy {
    TimestampPolicy { max_gap_ms: 100, max_frame_rate_milli: 60_000, duration_tolerance_ms: 10 }
}

#[test]
fn normalizes_monotonic_timestamps_and_reports_rate() {
    let report = validate_and_normalize(&[100, 150, 200], 100, policy()).unwrap();
    assert_eq!(report.normalized_ms, vec![0, 50, 100]);
    assert_eq!(report.duration_ms, 100);
    assert_eq!(report.frame_rate_milli, 20_000);
}

#[test]
fn rejects_duplicates_gaps_rate_and_duration_mismatch() {
    assert_eq!(validate_and_normalize(&[0, 0, 10], 10, policy()), Err(TimestampError::NonMonotonic));
    assert_eq!(validate_and_normalize(&[0, 101], 101, policy()), Err(TimestampError::GapTooLarge));
    assert_eq!(validate_and_normalize(&[0, 10], 100, policy()), Err(TimestampError::DurationMismatch));
    let strict = TimestampPolicy { max_frame_rate_milli: 1_000, ..policy() };
    assert_eq!(validate_and_normalize(&[0, 10, 20], 20, strict), Err(TimestampError::FrameRateExceeded));
}

#[test]
fn rejects_empty_and_zero_duration_inputs() {
    assert_eq!(validate_and_normalize(&[], 1, policy()), Err(TimestampError::Empty));
    assert_eq!(validate_and_normalize(&[0], 0, policy()), Err(TimestampError::Empty));
}

#[test]
fn single_timestamp_normalizes_to_zero() {
    let report = validate_and_normalize(&[42], 5, policy()).unwrap();
    assert_eq!(report.normalized_ms, vec![0]);
}
