use yaiko::media_retry::{MediaFailure, MediaRetryPolicy, RetryDecision, RetryError};
use yaiko::time::Duration;

#[test]
fn retries_transient_failures_with_bounded_backoff() {
    let policy = MediaRetryPolicy::new(4, Duration::from_secs(1), Duration::from_secs(5), 0).unwrap();
    assert_eq!(
        policy.decide(1, MediaFailure::TransientProcess, 1).unwrap(),
        RetryDecision { retry: true, attempt: 1, delay: Duration::from_secs(1) }
    );
    assert_eq!(policy.decide(2, MediaFailure::StorageUnavailable, 1).unwrap().delay, Duration::from_secs(2));
    assert_eq!(policy.decide(3, MediaFailure::RateLimited, 1).unwrap().delay, Duration::from_secs(4));
    assert!(!policy.decide(4, MediaFailure::TransientProcess, 1).unwrap().retry);
}

#[test]
fn rejects_permanent_and_cancelled_failures() {
    let policy = MediaRetryPolicy::new(3, Duration::from_secs(1), Duration::from_secs(10), 0).unwrap();
    for failure in [MediaFailure::InvalidInput, MediaFailure::Cancelled, MediaFailure::Permanent] {
        assert!(!policy.decide(1, failure, 1).unwrap().retry);
    }
}

#[test]
fn validates_policy_attempts_delays_and_jitter() {
    assert_eq!(
        MediaRetryPolicy::new(0, Duration::from_secs(1), Duration::from_secs(2), 0),
        Err(RetryError::InvalidAttempts)
    );
    assert_eq!(
        MediaRetryPolicy::new(2, Duration::from_secs(2), Duration::from_secs(1), 0),
        Err(RetryError::InvalidDelay)
    );
    assert_eq!(
        MediaRetryPolicy::new(2, Duration::from_secs(1), Duration::from_secs(2), 101),
        Err(RetryError::InvalidDelay)
    );
}

#[test]
fn jitter_is_bounded_and_seed_deterministic() {
    let policy = MediaRetryPolicy::new(3, Duration::from_secs(10), Duration::from_secs(10), 20).unwrap();
    let a = policy.decide(1, MediaFailure::TransientProcess, 7).unwrap();
    let b = policy.decide(1, MediaFailure::TransientProcess, 7).unwrap();
    assert_eq!(a, b);
    assert!(a.delay >= Duration::from_secs(9) && a.delay <= Duration::from_secs(11));
}

#[test]
fn backoff_is_capped_at_the_maximum_delay() {
    let policy = MediaRetryPolicy::new(10, Duration::from_secs(1), Duration::from_secs(5), 0).unwrap();
    assert_eq!(policy.decide(6, MediaFailure::TransientProcess, 3).unwrap().delay, Duration::from_secs(5));
    assert!(MediaFailure::RateLimited.retryable());
    assert!(!MediaFailure::Permanent.retryable());
}
