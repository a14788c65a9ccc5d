use yaiko::media_revision::{MediaRevisionStore, RevisionError};

fn store() -> MediaRevisionStore {
    MediaRevisionStore::new(2, 3)
}

#[test]
fn records_diffs_and_rolls_back() {
    let mut store = store();
    store.record("project", "tenant", 1, vec!["video".into()], "timeline-1").unwrap();
    store
        .record(
            "project",
            "tenant",
            2,
            vec!["video", "music"].into_iter().map(String::from).collect(),
            "timeline-2",
        )
        .unwrap();
    let diff = store.diff("project", "tenant", 1, 2).unwrap();
    assert!(diff.assets_changed && diff.timeline_changed);
    let rollback = store.rollback("project", "tenant", 2, 1).unwrap();
    assert_eq!((rollback.revision, rollback.timeline), (3, "timeline-1".to_string()));
}

#[test]
fn enforces_scope_order_retention_and_capacity() {
    let mut store = MediaRevisionStore::new(1, 2);
    store.record("project", "tenant", 1, Vec::new(), "a").unwrap();
    store.record("project", "tenant", 2, Vec::new(), "b").unwrap();
    store.record("project", "tenant", 3, Vec::new(), "c").unwrap();
    assert_eq!(store.get("project", "tenant", 1), Err(RevisionError::RevisionUnavailable));
    assert_eq!(store.record("project", "tenant", 3, Vec::new(), "dup"), Err(RevisionError::Conflict));
    assert_eq!(store.record("other", "tenant", 1, Vec::new(), "x"), Err(RevisionError::Capacity));
    assert_eq!(store.get("project", "other", 3), Err(RevisionError::RevisionUnavailable));
}

#[test]
fn get_reads_back_a_record_and_rollback_copies_the_target() {
    let mut store = store();
    let r1 = store.record("p", "t", 1, vec!["a".into()], "one").unwrap();
    assert_eq!(store.get("p", "t", 1).unwrap(), r1);
    store.record("p", "t", 5, vec!["b".into()], "five").unwrap();
    let back = store.rollback("p", "t", 5, 1).unwrap();
    assert_eq!(back.revision, 6);
    assert_eq!(back.assets, vec!["a".to_string()]);
    assert_eq!(store.rollback("p", "t", 1, 5), Err(RevisionError::Conflict));
    assert_eq!(store.get("q", "t", 1), Err(RevisionError::NotFound));
    assert_eq!(store.record("p", "other", 9, Vec::new(), "x"), Err(RevisionError::Conflict));
    assert_eq!(store.record("p", "t", 0, Vec::new(), "x"), Err(RevisionError::Conflict));
    assert_eq!(store.record("a/b", "t", 1, Vec::new(), "x"), Err(RevisionError::InvalidId));
    let same = store.diff("p", "t", 1, 1).unwrap();
    assert!(!same.assets_changed && !same.timeline_changed);
    assert_eq!(store.len(), 1);
    assert!(!store.is_empty());
}
