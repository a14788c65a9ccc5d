use yaiko::media_progress::{MediaProgressStore, ProgressError};

#[test]
fn publishes_monotonic_events_and_bounded_history() {
    let mut store = MediaProgressStore::new(2, 2);
    let first = store.publish("task-1", 0, "queued", None).unwrap();
    let second = store.publish("task-1", 50, "encoding", Some("half".into())).unwrap();
    let third = store.publish("task-1", 100, "complete", None).unwrap();
    assert_eq!((first.sequence, second.sequence, third.sequence), (0, 1, 2));
    let snapshot = store.snapshot("task-1").unwrap();
    assert_eq!(snapshot.latest, Some(third));
    assert_eq!(snapshot.history.len(), 2);
    assert_eq!(snapshot.history[0].progress, 50);
}

#[test]
fn rejects_invalid_and_decreasing_events() {
    let mut store = MediaProgressStore::new(2, 2);
    assert_eq!(store.publish("task-1", 101, "queued", None), Err(ProgressError::InvalidProgress));
    assert_eq!(store.publish("task-1", 1, "", None), Err(ProgressError::InvalidStage));
    store.publish("task-1", 50, "encoding", None).unwrap();
    assert_eq!(store.publish("task-1", 49, "encoding", None), Err(ProgressError::NonMonotonic));
}

#[test]
fn isolates_tasks_and_bounds_task_capacity() {
    let mut store = MediaProgressStore::new(1, 2);
    store.publish("task-1", 1, "queued", None).unwrap();
    assert_eq!(store.publish("task-2", 1, "queued", None), Err(ProgressError::Capacity));
    assert!(store.snapshot("task-2").unwrap().history.is_empty());
    store.remove("task-1").unwrap();
    assert!(store.is_empty());
}

#[test]
fn equal_progress_is_accepted_and_counts_tasks() {
    let mut store = MediaProgressStore::new(2, 3);
    store.publish("t", 10, "a", None).unwrap();
    store.publish("t", 10, "b", None).unwrap();
    assert_eq!(store.len(), 1);
    assert_eq!(store.snapshot("t").unwrap().history.len(), 2);
}
