use yaiko::resilience::{CircuitBreaker, CircuitState, ResilienceError};
use yaiko::time::Duration;

fn at(ms: u64) -> Duration {
    Duration::from_millis(ms)
}

#[test]
fn opens_after_threshold_and_recovers_after_cooldown() {
    let mut breaker = CircuitBreaker::new(2, Duration::from_millis(10));
    assert_eq!(breaker.state(), CircuitState::Closed);
    breaker.failure(at(0));
    assert!(breaker.allow(at(0)).is_ok());
    breaker.failure(at(0));
    assert_eq!(breaker.state(), CircuitState::Open);
    assert_eq!(breaker.allow(at(1)), Err(ResilienceError::OpenCircuit));
    assert!(breaker.allow(at(15)).is_ok());
    assert_eq!(breaker.state(), CircuitState::HalfOpen);
    breaker.success();
    assert_eq!(breaker.state(), CircuitState::Closed);
}

#[test]
fn successful_calls_reset_failures() {
    let mut breaker = CircuitBreaker::new(2, Duration::from_secs(1));
    breaker.failure(at(0));
    breaker.success();
    breaker.failure(at(0));
    assert_eq!(breaker.state(), CircuitState::Closed);
    assert!(breaker.allow(at(0)).is_ok());
}

#[test]
fn half_open_lets_one_probe_through() {
    let mut breaker = CircuitBreaker::new(1, Duration::from_millis(10));
    breaker.failure(at(100));
    assert_eq!(breaker.state(), CircuitState::Open);
    assert_eq!(breaker.allow(at(109)), Err(ResilienceError::OpenCircuit));
    assert!(breaker.allow(at(110)).is_ok());
    assert_eq!(breaker.allow(at(111)), Err(ResilienceError::OpenCircuit));
    breaker.failure(at(120));
    assert_eq!(breaker.state(), CircuitState::Open);
    assert_eq!(breaker.allow(at(125)), Err(ResilienceError::OpenCircuit));
    assert!(breaker.allow(at(130)).is_ok());
}

#[test]
fn zero_threshold_and_cooldown_are_raised() {
    let mut breaker = CircuitBreaker::new(0, Duration::zero());
    breaker.failure(at(5));
    assert_eq!(breaker.state(), CircuitState::Open);
    assert_eq!(breaker.allow(Duration::from_nanos(5_999_999)), Err(ResilienceError::OpenCircuit));
    assert!(breaker.allow(at(6)).is_ok());
}
