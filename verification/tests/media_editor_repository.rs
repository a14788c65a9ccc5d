use yaiko::media_editor::EditorError;
use yaiko::media_editor_repository::{
    check_id, check_timeline, plan_add_asset, plan_set_timeline, snapshot_of, StoredProject,
};

fn row(revision: i64, assets: &[&str], timeline: &str) -> Option<StoredProject> {
    Some(StoredProject {
        revision,
        assets: assets.iter().map(|a| a.to_string()).collect(),
        timeline: timeline.to_string(),
    })
}

#[test]
fn adding_assets_bumps_the_revision() {
    let (stored, snap) = plan_add_asset("project-1", "tenant-1", row(0, &[], ""), 0, "video.mp4", 2).unwrap();
    assert_eq!(stored.revision, 1);
    assert_eq!(stored.assets, vec!["video.mp4".to_string()]);
    assert_eq!(snap.revision, 1);
    assert_eq!(snap.project_id, "project-1");
    assert_eq!(snap.assets, stored.assets);
}

#[test]
fn adding_assets_enforces_revision_bounds_and_uniqueness() {
    assert_eq!(plan_add_asset("p", "s", None, 0, "a", 2), Err(EditorError::NotFound));
    assert_eq!(plan_add_asset("p", "s", row(1, &["a"], ""), 0, "b", 2), Err(EditorError::Conflict));
    assert_eq!(plan_add_asset("p", "s", row(2, &["a", "b"], ""), 2, "c", 2), Err(EditorError::TooManyAssets));
    assert_eq!(plan_add_asset("p", "s", row(1, &["a"], ""), 1, "a", 2), Err(EditorError::Conflict));
    assert_eq!(plan_add_asset("p", "s", row(i64::MAX, &[], ""), u64::MAX >> 1, "a", 2), Err(EditorError::Conflict));
}

#[test]
fn replacing_the_timeline_keeps_assets() {
    let (stored, snap) = plan_set_timeline("p", "s", row(1, &["video.mp4"], "old"), 1, "timeline-v1").unwrap();
    assert_eq!(stored.revision, 2);
    assert_eq!(stored.timeline, "timeline-v1");
    assert_eq!(snap.assets, vec!["video.mp4".to_string()]);
    assert_eq!(plan_set_timeline("p", "s", row(1, &[], ""), 0, "t"), Err(EditorError::Conflict));
    assert_eq!(plan_set_timeline("p", "s", None, 0, "t"), Err(EditorError::NotFound));
}

#[test]
fn ids_timelines_and_snapshots() {
    assert_eq!(check_id("project-1"), Ok(()));
    assert_eq!(check_id(""), Err(EditorError::InvalidId));
    assert_eq!(check_id("a/b"), Err(EditorError::InvalidId));
    assert_eq!(check_id(&"x".repeat(129)), Err(EditorError::InvalidId));
    assert_eq!(check_timeline(&"t".repeat(16_384)), Ok(()));
    assert_eq!(check_timeline(&"t".repeat(16_385)), Err(EditorError::TooManyAssets));
    assert_eq!(snapshot_of("p", "other", None), Err(EditorError::NotFound));
    let snap = snapshot_of("p", "s", row(3, &["a"], "tl")).unwrap();
    assert_eq!((snap.revision, snap.timeline.as_str()), (3, "tl"));
}
