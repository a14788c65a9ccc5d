use yaiko::media_editor::{EditorError, MediaEditorStore};

#[test]
fn creates_updates_and_enforces_revisions() {
    let mut store = MediaEditorStore::new(2, 2);
    let created = store.create("project-1", "tenant-1").unwrap();
    let updated = store
        .add_asset("project-1", "tenant-1", created.revision, "video.mp4")
        .unwrap();
    assert_eq!(updated.assets, vec!["video.mp4"]);
    assert_eq!(
        store.add_asset("project-1", "tenant-1", created.revision, "music.mp3"),
        Err(EditorError::Conflict)
    );
    let snapshot = store
        .set_timeline("project-1", "tenant-1", updated.revision, "timeline-v1")
        .unwrap();
    assert_eq!(snapshot.revision, 2);
}

#[test]
fn isolates_scopes_and_bounds_assets_projects() {
    let mut store = MediaEditorStore::new(1, 1);
    let first = store.create("project-1", "tenant-1").unwrap();
    assert_eq!(store.snapshot("project-1", "tenant-2"), Err(EditorError::NotFound));
    let asset = store
        .add_asset("project-1", "tenant-1", first.revision, "video.mp4")
        .unwrap();
    assert_eq!(
        store.add_asset("project-1", "tenant-1", asset.revision, "music.mp3"),
        Err(EditorError::TooManyAssets)
    );
    assert_eq!(store.create("project-2", "tenant-1"), Err(EditorError::Capacity));
}

#[test]
fn snapshot_reads_back_what_was_written() {
    let mut store = MediaEditorStore::new(2, 2);
    let created = store.create("p", "t").unwrap();
    let updated = store.add_asset("p", "t", created.revision, "a.mp4").unwrap();
    let read = store.snapshot("p", "t").unwrap();
    assert_eq!(read, updated);
    assert_eq!(store.create("p", "t"), Err(EditorError::Conflict));
    assert_eq!(store.create("bad/id", "t"), Err(EditorError::InvalidId));
}
