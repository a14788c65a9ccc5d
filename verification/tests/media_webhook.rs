use yaiko::media_webhook::{MediaEventKind, MediaWebhookError, MediaWebhookEvent, MediaWebhookSigner};
use yaiko::time::SystemTime;

fn now() -> SystemTime {
    SystemTime::from_unix_secs(10_000)
}

fn event(kind: MediaEventKind) -> MediaWebhookEvent {
    MediaWebhookEvent {
        id: "event-1".into(),
        task_id: "task-1".into(),
        kind,
        progress: Some(50),
        attempt: 1,
        timestamp: 10_000,
        detail: Some("encoding".into()),
    }
}

#[test]
fn signs_and_verifies_lifecycle_events() {
    let mut signer = MediaWebhookSigner::new(&[7; 32], 1024).unwrap();
    let token = signer.encode(&event(MediaEventKind::Progress)).unwrap();
    let verified = signer.verify(&token, now(), 60).unwrap();
    assert_eq!(verified, event(MediaEventKind::Progress));
}

#[test]
fn rejects_tampering_expiry_replay_and_invalid_events() {
    let mut signer = MediaWebhookSigner::new(&[7; 32], 1024).unwrap();
    let token = signer.encode(&event(MediaEventKind::Succeeded)).unwrap();
    let mut tampered = token.clone();
    tampered.push('x');
    assert_eq!(signer.verify(&tampered, now(), 60), Err(MediaWebhookError::InvalidSignature));
    assert_eq!(
        signer.verify(&token, SystemTime::from_unix_secs(10_061), 60),
        Err(MediaWebhookError::InvalidTimestamp)
    );
    assert!(signer.verify(&token, now(), 60).is_ok());
    assert_eq!(signer.verify(&token, now(), 60), Err(MediaWebhookError::Replay));
    let mut invalid = event(MediaEventKind::Progress);
    invalid.progress = None;
    assert_eq!(signer.encode(&invalid), Err(MediaWebhookError::InvalidEvent));
}

#[test]
fn enforces_payload_and_secret_bounds() {
    assert!(matches!(MediaWebhookSigner::new(&[1; 8], 100), Err(MediaWebhookError::InvalidSecret)));
    assert!(matches!(MediaWebhookSigner::new(&[1; 32], 0), Err(MediaWebhookError::InvalidSecret)));
    let signer = MediaWebhookSigner::new(&[1; 32], 32).unwrap();
    let mut large = event(MediaEventKind::Failed);
    large.detail = Some("x".repeat(100));
    assert_eq!(signer.encode(&large), Err(MediaWebhookError::PayloadTooLarge));
}

#[test]
fn a_different_secret_does_not_verify() {
    let signer = MediaWebhookSigner::new(&[7; 32], 1024).unwrap();
    let mut other = MediaWebhookSigner::new(&[8; 32], 1024).unwrap();
    let token = signer.encode(&event(MediaEventKind::Queued)).unwrap();
    assert_eq!(other.verify(&token, now(), 60), Err(MediaWebhookError::InvalidSignature));
}
