use yaiko::media_presence::{MediaPresenceStore, PresenceError, PresenceRole};
use yaiko::time::{Duration, SystemTime};

fn now(seconds: u64) -> SystemTime {
    SystemTime::from_unix_secs(seconds)
}

#[test]
fn joins_heartbeats_leaves_and_sorts_participants() {
    let mut store = MediaPresenceStore::new(2, 2, Duration::from_secs(10));
    store.join("project", "tenant", "user-b", PresenceRole::Editor, now(1)).unwrap();
    let joined = store.join("project", "tenant", "user-a", PresenceRole::Viewer, now(2)).unwrap();
    assert_eq!(joined.participants[0].user_id, "user-a");
    let heartbeat = store.heartbeat("project", "tenant", "user-a", now(3)).unwrap();
    assert_eq!(heartbeat.participants.len(), 2);
    let left = store.leave("project", "tenant", "user-b").unwrap();
    assert_eq!(left.participants.len(), 1);
}

#[test]
fn isolates_scopes_bounds_capacity_and_expires() {
    let mut store = MediaPresenceStore::new(1, 1, Duration::from_secs(5));
    store.join("project", "tenant", "user", PresenceRole::Owner, now(1)).unwrap();
    assert_eq!(
        store.join("project", "tenant", "other", PresenceRole::Viewer, now(2)),
        Err(PresenceError::Capacity)
    );
    assert_eq!(store.snapshot("project", "other"), Err(PresenceError::NotFound));
    assert_eq!(store.cleanup_expired(now(7)), 1);
    assert_eq!(store.snapshot("project", "tenant"), Err(PresenceError::NotFound));
}

#[test]
fn heartbeat_keeps_a_participant_alive() {
    let mut store = MediaPresenceStore::new(1, 2, Duration::from_secs(5));
    store.join("p", "t", "u", PresenceRole::Owner, now(1)).unwrap();
    store.heartbeat("p", "t", "u", now(5)).unwrap();
    assert_eq!(store.cleanup_expired(now(7)), 0);
    assert_eq!(store.snapshot("p", "t").unwrap().participants.len(), 1);
}
