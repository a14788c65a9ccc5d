use yaiko::media_quota::{MediaQuota, QuotaError, QuotaLimit, QuotaUsage};

fn quota() -> MediaQuota {
    let mut quota = MediaQuota::new();
    quota.configure("tenant-a", QuotaLimit { max_bytes: 1000, max_files: 2 }).unwrap();
    quota.configure("tenant-b", QuotaLimit { max_bytes: 1000, max_files: 2 }).unwrap();
    quota
}

#[test]
fn reserves_commits_and_releases_usage() {
    let mut quota = quota();
    let mut reservation = quota.reserve("tenant-a", 400, 1).unwrap();
    assert_eq!(quota.usage("tenant-a").unwrap().reserved_bytes, 400);
    reservation.commit(&mut quota).unwrap();
    assert_eq!(
        quota.usage("tenant-a").unwrap(),
        QuotaUsage { used_bytes: 400, used_files: 1, reserved_bytes: 0, reserved_files: 0 }
    );
    assert_eq!(reservation.commit(&mut quota), Err(QuotaError::ReservationClosed));
    let mut released = quota.reserve("tenant-a", 100, 1).unwrap();
    released.release(&mut quota).unwrap();
    assert_eq!(quota.usage("tenant-a").unwrap().used_bytes, 400);
}

#[test]
fn enforces_bytes_files_and_scope_isolation() {
    let mut quota = quota();
    assert_eq!(quota.reserve("tenant-a", 1001, 1).unwrap_err(), QuotaError::ByteLimit);
    assert_eq!(quota.reserve("tenant-a", 1, 3).unwrap_err(), QuotaError::FileLimit);
    let mut reservation = quota.reserve("tenant-a", 900, 1).unwrap();
    reservation.commit(&mut quota).unwrap();
    assert_eq!(quota.usage("tenant-b").unwrap(), QuotaUsage::default());
}

#[test]
fn rejects_invalid_scopes_zero_values_and_overflow() {
    let mut quota = quota();
    assert_eq!(quota.reserve("../tenant", 1, 1).unwrap_err(), QuotaError::InvalidScope);
    assert_eq!(quota.reserve("tenant-a", 0, 1).unwrap_err(), QuotaError::Overflow);
    assert_eq!(quota.usage("missing").unwrap_err(), QuotaError::InvalidScope);
}

#[test]
fn concurrent_reservations_are_atomic() {
    let mut quota = quota();
    let first = quota.reserve("tenant-a", 600, 1).unwrap();
    assert_eq!(quota.reserve("tenant-a", 500, 1).unwrap_err(), QuotaError::ByteLimit);
    drop(first);
    assert_eq!(quota.usage("tenant-a").unwrap().reserved_bytes, 600);
}

#[test]
fn release_gives_back_exactly_what_was_reserved() {
    let mut quota = quota();
    let before = quota.usage("tenant-a").unwrap();
    let mut r = quota.reserve("tenant-a", 250, 2).unwrap();
    assert_eq!(r.scope(), "tenant-a");
    assert_eq!(quota.usage("tenant-a").unwrap().total_bytes(), 250);
    assert_eq!(quota.usage("tenant-a").unwrap().total_files(), 2);
    r.release(&mut quota).unwrap();
    assert_eq!(quota.usage("tenant-a").unwrap(), before);
    assert_eq!(r.release(&mut quota), Err(QuotaError::ReservationClosed));
}

#[test]
fn configure_refuses_invalid_scope_and_overflow_is_reported() {
    let mut quota = MediaQuota::default();
    assert_eq!(quota.configure("a/b", QuotaLimit { max_bytes: 1, max_files: 1 }), Err(QuotaError::InvalidScope));
    quota.configure("big", QuotaLimit { max_bytes: u64::MAX, max_files: u64::MAX }).unwrap();
    let mut r = quota.reserve("big", u64::MAX, 1).unwrap();
    r.commit(&mut quota).unwrap();
    assert_eq!(quota.reserve("big", 1, 1).unwrap_err(), QuotaError::Overflow);
}
