use sha2::{Digest, Sha256};
use yaiko::media_processing::MediaPath;
use yaiko::resumable_upload::{ResumableUploadStore, UploadSessionError};
use yaiko::time::{Duration, SystemTime};

fn now() -> SystemTime {
    SystemTime::from_unix_secs(10_000)
}

fn later(secs: u64) -> SystemTime {
    SystemTime::from_unix_secs(10_000 + secs)
}

fn sum(data: &[u8]) -> String {
    format!("sha256:{:x}", Sha256::digest(data))
}

#[test]
fn accepts_ordered_chunks_and_completes() {
    let mut store = ResumableUploadStore::new(4, 10);
    store.start("upload-1", "uploads/video.mp4", 2, now(), Duration::from_secs(60)).unwrap();
    store.accept("upload-1", 0, b"abc".to_vec(), &sum(b"abc"), now()).unwrap();
    store.accept("upload-1", 1, b"def".to_vec(), &sum(b"def"), now()).unwrap();
    let completed = store.complete("upload-1", now()).unwrap();
    assert_eq!(completed.bytes, b"abcdef");
    assert_eq!(completed.path, MediaPath::new("uploads/video.mp4").unwrap());
}

#[test]
fn enforces_order_checksum_duplicates_and_completion() {
    let mut store = ResumableUploadStore::new(4, 10);
    store.start("upload-1", "video.mp4", 2, now(), Duration::from_secs(60)).unwrap();
    assert_eq!(
        store.accept("upload-1", 1, b"b".to_vec(), &sum(b"b"), now()),
        Err(UploadSessionError::OutOfOrder)
    );
    assert_eq!(
        store.accept("upload-1", 0, b"a".to_vec(), "sha256:bad", now()),
        Err(UploadSessionError::ChecksumMismatch)
    );
    store.accept("upload-1", 0, b"a".to_vec(), &sum(b"a"), now()).unwrap();
    assert_eq!(
        store.accept("upload-1", 0, b"a".to_vec(), &sum(b"a"), now()),
        Err(UploadSessionError::OutOfOrder)
    );
    assert_eq!(store.complete("upload-1", now()), Err(UploadSessionError::Incomplete));
}

#[test]
fn enforces_expiry_capacity_and_cancellation() {
    let mut store = ResumableUploadStore::new(1, 2);
    store.start("upload-1", "video.mp4", 1, now(), Duration::from_secs(1)).unwrap();
    assert_eq!(
        store.start("upload-2", "video.mp4", 1, now(), Duration::from_secs(1)),
        Err(UploadSessionError::Capacity)
    );
    assert_eq!(
        store.accept("upload-1", 0, b"a".to_vec(), &sum(b"a"), later(2)),
        Err(UploadSessionError::Expired)
    );
    store.cancel("upload-1").unwrap();
    assert_eq!(store.active_sessions(), 0);
}

#[test]
fn accept_reports_the_number_of_chunks_received() {
    let mut store = ResumableUploadStore::new(2, 8);
    store.start("u", "a.mp4", 3, now(), Duration::from_secs(5)).unwrap();
    assert_eq!(store.accept("u", 0, b"x".to_vec(), &sum(b"x"), now()), Ok(1));
    assert_eq!(store.accept("u", 1, b"y".to_vec(), &sum(b"y"), now()), Ok(2));
    assert_eq!(store.accept("u", 2, b"z".to_vec(), &sum(b"z"), now()), Ok(3));
}

#[test]
fn completed_upload_carries_the_checksum_of_all_bytes() {
    let mut store = ResumableUploadStore::new(2, 8);
    store.start("u", "a.mp4", 2, now(), Duration::from_secs(5)).unwrap();
    store.accept("u", 0, b"he".to_vec(), &sum(b"he"), now()).unwrap();
    store.accept("u", 1, b"llo".to_vec(), &sum(b"llo"), now()).unwrap();
    let done = store.complete("u", now()).unwrap();
    assert_eq!(done.checksum_sha256, sum(b"hello"));
    assert_eq!(store.complete("u", now()), Err(UploadSessionError::AlreadyCompleted));
    assert_eq!(
        store.accept("u", 2, b"!".to_vec(), &sum(b"!"), now()),
        Err(UploadSessionError::AlreadyCompleted)
    );
}

#[test]
fn start_rejects_bad_parameters() {
    let mut store = ResumableUploadStore::new(4, 8);
    assert_eq!(
        store.start("u", "../escape.mp4", 1, now(), Duration::from_secs(5)),
        Err(UploadSessionError::UnsafePath)
    );
    assert_eq!(
        store.start("", "a.mp4", 1, now(), Duration::from_secs(5)),
        Err(UploadSessionError::InvalidChunkCount)
    );
    assert_eq!(
        store.start("u", "a.mp4", 0, now(), Duration::from_secs(5)),
        Err(UploadSessionError::InvalidChunkCount)
    );
    assert_eq!(
        store.start("u", "a.mp4", 1, now(), Duration::zero()),
        Err(UploadSessionError::InvalidChunkCount)
    );
    assert_eq!(
        store.start("u", "a.mp4", 1, now(), Duration::from_secs(86_401)),
        Err(UploadSessionError::InvalidChunkCount)
    );
    let long_id = "x".repeat(129);
    assert_eq!(
        store.start(&long_id, "a.mp4", 1, now(), Duration::from_secs(5)),
        Err(UploadSessionError::InvalidChunkCount)
    );
    assert_eq!(store.start("u", "a.mp4", 1, now(), Duration::from_secs(86_400)), Ok(()));
    assert_eq!(
        store.start("u", "a.mp4", 1, now(), Duration::from_secs(5)),
        Err(UploadSessionError::Capacity)
    );
    assert_eq!(store.active_sessions(), 1);
}

#[test]
fn accept_rejects_invalid_chunks_and_unknown_sessions() {
    let mut store = ResumableUploadStore::new(4, 2);
    store.start("u", "a.mp4", 1, now(), Duration::from_secs(5)).unwrap();
    assert_eq!(
        store.accept("nope", 0, b"a".to_vec(), &sum(b"a"), now()),
        Err(UploadSessionError::MissingSession)
    );
    assert_eq!(
        store.accept("u", 0, Vec::new(), &sum(b""), now()),
        Err(UploadSessionError::InvalidChunk)
    );
    assert_eq!(
        store.accept("u", 0, b"abc".to_vec(), &sum(b"abc"), now()),
        Err(UploadSessionError::InvalidChunk)
    );
    assert_eq!(
        store.accept("u", 1, b"a".to_vec(), &sum(b"a"), now()),
        Err(UploadSessionError::InvalidChunk)
    );
    assert_eq!(store.complete("nope", now()), Err(UploadSessionError::MissingSession));
    assert_eq!(store.complete("u", later(5)), Err(UploadSessionError::Expired));
    assert_eq!(store.cancel("nope"), Err(UploadSessionError::MissingSession));
}

#[test]
fn bounds_are_raised_to_one() {
    let mut store = ResumableUploadStore::new(0, 0);
    store.start("u", "a.mp4", 1, now(), Duration::from_secs(5)).unwrap();
    assert_eq!(
        store.start("v", "a.mp4", 1, now(), Duration::from_secs(5)),
        Err(UploadSessionError::Capacity)
    );
    assert_eq!(store.accept("u", 0, b"a".to_vec(), &sum(b"a"), now()), Ok(1));
}
