use yaiko::media_processing::MediaPath;
use yaiko::media_retention::{MediaRetention, RetentionError, RetentionPolicy};
use yaiko::time::{Duration, SystemTime};

fn at(seconds: u64) -> SystemTime {
    SystemTime::from_unix_secs(seconds)
}

fn now() -> SystemTime {
    at(10_000)
}

#[test]
fn removes_expired_and_preserves_active_task_outputs() {
    let mut retention = MediaRetention::new(10);
    retention.register("tenant-a", "old.mp4", 100, at(10_000 - 100), None).unwrap();
    retention.register("tenant-a", "active.mp4", 200, at(10_000 - 100), Some("task-1".into())).unwrap();
    let report = retention
        .plan_cleanup(
            "tenant-a",
            RetentionPolicy { max_age: Duration::from_secs(10), max_bytes: 1000, max_artifacts: 10 },
            now(),
        )
        .unwrap();
    assert_eq!(report.removed, vec![MediaPath::new("old.mp4").unwrap()]);
    assert_eq!(report.retained, vec![MediaPath::new("active.mp4").unwrap()]);
    assert_eq!(report.removed_bytes, 100);
}

#[test]
fn enforces_bytes_and_count_deterministically() {
    let mut retention = MediaRetention::new(10);
    retention.register("tenant-a", "a.mp4", 100, at(10_000 - 3), None).unwrap();
    retention.register("tenant-a", "b.mp4", 200, at(10_000 - 2), None).unwrap();
    retention.register("tenant-a", "c.mp4", 300, at(10_000 - 1), None).unwrap();
    let report = retention
        .plan_cleanup(
            "tenant-a",
            RetentionPolicy { max_age: Duration::from_secs(100), max_bytes: 300, max_artifacts: 2 },
            now(),
        )
        .unwrap();
    assert_eq!(report.removed, vec![MediaPath::new("a.mp4").unwrap(), MediaPath::new("b.mp4").unwrap()]);
    assert_eq!(report.retained, vec![MediaPath::new("c.mp4").unwrap()]);
}

#[test]
fn isolates_scopes_and_validates_registry_inputs() {
    let mut retention = MediaRetention::new(1);
    retention.register("tenant-a", "a.mp4", 1, now(), None).unwrap();
    assert_eq!(
        retention
            .plan_cleanup(
                "tenant-b",
                RetentionPolicy { max_age: Duration::from_secs(1), max_bytes: 1, max_artifacts: 1 },
                now()
            )
            .unwrap()
            .removed
            .len(),
        0
    );
    assert_eq!(retention.register("../bad", "b.mp4", 1, now(), None), Err(RetentionError::InvalidScope));
    assert_eq!(retention.register("tenant-a", "b.mp4", 1, now(), None), Err(RetentionError::TooManyArtifacts));
}

#[test]
fn sorts_by_age_and_checks_inputs() {
    let mut retention = MediaRetention::new(10);
    retention.register("s", "young.mp4", 10, at(9_999), None).unwrap();
    retention.register("s", "old.mp4", 10, at(9_000), None).unwrap();
    let report = retention
        .plan_cleanup("s", RetentionPolicy { max_age: Duration::from_secs(100), max_bytes: 1000, max_artifacts: 1 }, now())
        .unwrap();
    assert_eq!(report.removed, vec![MediaPath::new("old.mp4").unwrap()]);
    assert_eq!(report.retained, vec![MediaPath::new("young.mp4").unwrap()]);
    assert_eq!(retention.register("s", "../x.mp4", 1, now(), None), Err(RetentionError::UnsafePath));
    assert_eq!(retention.register("s", "x.mp4", 0, now(), None), Err(RetentionError::InvalidArtifact));
    assert_eq!(retention.register("s", "x.mp4", 1, now(), Some(String::new())), Err(RetentionError::InvalidArtifact));
    assert_eq!(retention.scopes(), 1);
    assert_eq!(
        retention.plan_cleanup("a/b", RetentionPolicy { max_age: Duration::from_secs(1), max_bytes: 1, max_artifacts: 1 }, now()),
        Err(RetentionError::InvalidScope)
    );
}
