use yaiko::pool::{PoolError, PoolPolicy};

#[test]
fn builds_deterministic_pool_policy() {
    let p = PoolPolicy::new(10).unwrap().min_connections(2).unwrap().acquire_timeout_ms(1000).unwrap();
    assert_eq!(p.max_connections, 10);
    assert_eq!(p.min_connections, 2);
    assert_eq!(p.acquire_timeout_ms, 1000)
}

#[test]
fn validates_bounds_and_timeouts() {
    assert!(PoolPolicy::new(0).is_err());
    assert!(PoolPolicy::new(2).unwrap().min_connections(3).is_err());
    assert!(PoolPolicy::new(1).unwrap().acquire_timeout_ms(0).is_err());
    assert!(PoolPolicy::new(1).unwrap().idle_timeout_ms(0).is_err())
}

#[test]
fn defaults_and_error_kinds() {
    let d = PoolPolicy::default();
    assert_eq!(d, PoolPolicy { max_connections: 10, min_connections: 0, acquire_timeout_ms: 30_000, idle_timeout_ms: 600_000 });
    assert_eq!(PoolPolicy::new(0), Err(PoolError::InvalidConnections));
    assert_eq!(d.idle_timeout_ms(0), Err(PoolError::InvalidTimeout));
    assert_eq!(d.idle_timeout_ms(5).unwrap().idle_timeout_ms, 5);
    assert_eq!(d.min_connections(10).unwrap().min_connections, 10);
}
