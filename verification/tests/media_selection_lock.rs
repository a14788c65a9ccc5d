use yaiko::media_selection_lock::{MediaSelectionLockStore, SelectionLockError};
use yaiko::time::{Duration, SystemTime};

fn now(seconds: u64) -> SystemTime {
    SystemTime::from_unix_secs(seconds)
}

#[test]
fn acquires_renews_releases_and_orders_locks() {
    let mut store = MediaSelectionLockStore::new(3, Duration::from_secs(10));
    let first = store.acquire("project", "tenant", "user-a", "lock-a", 100, 200, "token-a", now(1)).unwrap();
    let second = store.acquire("project", "tenant", "user-b", "lock-b", 0, 50, "token-b", now(1)).unwrap();
    assert_eq!(second.locks[0].id, "lock-b");
    let renewed = store.renew("project", "tenant", "lock-a", "token-a", now(2)).unwrap();
    assert!(renewed.locks.iter().any(|lock| lock.expires_at == now(12)));
    let released = store.release("project", "tenant", "lock-b", "token-b").unwrap();
    assert_eq!(released.locks.len(), 1);
    assert_eq!(first.locks.len(), 1);
}

#[test]
fn rejects_overlap_ownership_scope_expiry_and_invalid_ranges() {
    let mut store = MediaSelectionLockStore::new(2, Duration::from_secs(5));
    store.acquire("project", "tenant", "user", "lock-a", 0, 100, "token-a", now(1)).unwrap();
    assert_eq!(
        store.acquire("project", "tenant", "other", "lock-b", 50, 150, "token-b", now(1)),
        Err(SelectionLockError::Conflict)
    );
    assert_eq!(store.renew("project", "tenant", "lock-a", "bad", now(2)), Err(SelectionLockError::Ownership));
    assert_eq!(
        store.renew("project", "other", "lock-a", "token-a", now(2)),
        Err(SelectionLockError::ScopeMismatch)
    );
    assert_eq!(store.renew("project", "tenant", "lock-a", "token-a", now(7)), Err(SelectionLockError::Expired));
    assert_eq!(
        store.acquire("project", "tenant", "user", "bad", 10, 10, "token", now(1)),
        Err(SelectionLockError::InvalidRange)
    );
}

#[test]
fn expired_locks_are_cleaned_up() {
    let mut store = MediaSelectionLockStore::new(2, Duration::from_secs(5));
    store.acquire("p", "t", "u", "l", 0, 10, "tok", now(1)).unwrap();
    assert_eq!(store.cleanup_expired(now(3)), 0);
    assert_eq!(store.cleanup_expired(now(7)), 1);
}
