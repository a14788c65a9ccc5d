use yaiko::media_notification_preferences::{
    DigestMode, MediaNotificationPreferenceStore, NotificationChannel, NotificationPreferenceError,
};

#[test]
fn matches_wildcards_and_orders() {
    let mut s = MediaNotificationPreferenceStore::new(2, 3);
    s.add("b", "t", "u", NotificationChannel::Email, "media.ready", DigestMode::Immediate).unwrap();
    s.add("a", "t", "u", NotificationChannel::InApp, "*", DigestMode::Daily).unwrap();
    assert_eq!(
        s.matches("t", "u", "media.ready").unwrap().iter().map(|x| x.id.as_str()).collect::<Vec<_>>(),
        vec!["a", "b"]
    )
}

#[test]
fn validates_and_disables() {
    let mut s = MediaNotificationPreferenceStore::new(1, 1);
    let p = s.add("x", "t", "u", NotificationChannel::Webhook, "media.failed", DigestMode::Hourly).unwrap();
    s.set_enabled("t", "x", false).unwrap();
    assert!(s.matches("t", "u", "media.failed").unwrap().is_empty());
    assert_eq!(
        s.add("y", "t", "u", NotificationChannel::Email, "x", DigestMode::Daily),
        Err(NotificationPreferenceError::Capacity)
    );
    assert_eq!(p.id, "x")
}

#[test]
fn rejects_duplicates_missing_and_invalid() {
    let mut s = MediaNotificationPreferenceStore::new(2, 3);
    s.add("x", "t", "u", NotificationChannel::Email, "e", DigestMode::Daily).unwrap();
    assert_eq!(
        s.add("x", "t", "u", NotificationChannel::Email, "e", DigestMode::Daily),
        Err(NotificationPreferenceError::Duplicate)
    );
    assert_eq!(
        s.add("bad/id", "t", "u", NotificationChannel::Email, "e", DigestMode::Daily),
        Err(NotificationPreferenceError::Invalid)
    );
    assert_eq!(s.matches("none", "u", "e"), Err(NotificationPreferenceError::Missing));
    assert_eq!(s.set_enabled("t", "nope", true), Err(NotificationPreferenceError::Missing));
    assert!(s.matches("t", "other", "e").unwrap().is_empty());
}
