use yaiko::media_snapshot::{serialize_project_snapshot, MediaProjectSnapshot, SnapshotAsset, SnapshotError};

fn sample() -> MediaProjectSnapshot {
    MediaProjectSnapshot {
        project_id: "project-1".into(),
        scope: "tenant-1".into(),
        revision: 4,
        assets: vec![SnapshotAsset { id: "video.mp4".into(), kind: "video".into() }],
        timeline: "timeline-v1".into(),
    }
}

#[test]
fn serializes_deterministic_revisioned_snapshot() {
    let a = serialize_project_snapshot(&sample(), 4, 1024, 4096).unwrap();
    let b = serialize_project_snapshot(&sample(), 4, 1024, 4096).unwrap();
    assert_eq!(a, b);
    assert!(a.json.contains("project-1"));
    assert!(a.json.contains("\"revision\":4"));
    assert_eq!(a.revision, 4);
}

#[test]
fn rejects_invalid_ids_and_bounds() {
    let mut snapshot = sample();
    snapshot.project_id = "../project".into();
    assert_eq!(serialize_project_snapshot(&snapshot, 4, 1024, 4096), Err(SnapshotError::InvalidId));
    let mut snapshot = sample();
    snapshot.assets.push(SnapshotAsset { id: "audio.mp3".into(), kind: "audio".into() });
    assert_eq!(serialize_project_snapshot(&snapshot, 1, 1024, 4096), Err(SnapshotError::TooManyAssets));
    let mut snapshot = sample();
    snapshot.timeline = "x".repeat(10);
    assert_eq!(serialize_project_snapshot(&snapshot, 4, 4, 4096), Err(SnapshotError::TimelineTooLarge));
}

#[test]
fn writes_the_exact_compact_json() {
    let mut snapshot = sample();
    snapshot.assets.push(SnapshotAsset { id: "a\"b".into(), kind: "audio".into() });
    snapshot.timeline = "line\nnext\u{1}\\".into();
    let json = serialize_project_snapshot(&snapshot, 4, 1024, 4096).unwrap().json;
    assert_eq!(
        json,
        "{\"project_id\":\"project-1\",\"scope\":\"tenant-1\",\"revision\":4,\"assets\":[{\"id\":\"video.mp4\",\"kind\":\"video\"},{\"id\":\"a\\\"b\",\"kind\":\"audio\"}],\"timeline\":\"line\\nnext\\u0001\\\\\"}"
    );
}

#[test]
fn enforces_asset_ids_and_json_size() {
    let mut snapshot = sample();
    snapshot.assets[0].kind = String::new();
    assert_eq!(serialize_project_snapshot(&snapshot, 4, 1024, 4096), Err(SnapshotError::InvalidId));
    let mut snapshot = sample();
    snapshot.assets[0].kind = "k".repeat(65);
    assert_eq!(serialize_project_snapshot(&snapshot, 4, 1024, 4096), Err(SnapshotError::InvalidId));
    assert_eq!(serialize_project_snapshot(&sample(), 4, 1024, 20), Err(SnapshotError::MetadataTooLarge));
    assert_eq!(serialize_project_snapshot(&sample(), 4, 1024, 0), Err(SnapshotError::MetadataTooLarge));
    assert_eq!(serialize_project_snapshot(&sample(), 0, 1024, 4096), Err(SnapshotError::TooManyAssets));
    let mut snapshot = sample();
    snapshot.scope = "a/b".into();
    assert_eq!(serialize_project_snapshot(&snapshot, 4, 1024, 4096), Err(SnapshotError::InvalidId));
}

#[test]
fn json_matches_serde_for_awkward_text() {
    let mut snapshot = sample();
    snapshot.timeline = "tab\there \u{8}\u{c}\r é \u{1f} \u{7f}".into();
    let json = serialize_project_snapshot(&snapshot, 4, 1024, 4096).unwrap().json;
    let parsed: serde_json::Value = serde_json::from_str(&json).unwrap();
    assert_eq!(parsed["timeline"], serde_json::Value::String(snapshot.timeline.clone()));
    assert!(json.contains(&serde_json::to_string(&snapshot.timeline).unwrap()));
}
