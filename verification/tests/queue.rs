use yaiko::queue::{Queue, QueueError, QueueState};

#[test]
fn claims_retries_and_acknowledges() {
    let mut q = Queue::new(2);
    let i = q.enqueue(b"render".to_vec(), 1).unwrap();
    assert_eq!(q.claim().unwrap().id, i.id);
    assert_eq!(q.retry(&i.id).unwrap().state, QueueState::Queued);
    q.claim();
    assert_eq!(q.acknowledge(&i.id).unwrap().state, QueueState::Acknowledged)
}

#[test]
fn dead_letters_and_enforces_bounds() {
    let mut q = Queue::new(1);
    let i = q.enqueue(Vec::new(), 0).unwrap();
    q.claim();
    assert_eq!(q.retry(&i.id).unwrap().state, QueueState::DeadLetter);
    assert!(q.enqueue(Vec::new(), 0).is_err());
    assert!(q.enqueue(Vec::new(), 33).is_err())
}

#[test]
fn names_items_and_orders_them_as_strings() {
    let mut q = Queue::new(20);
    for _ in 0..10 {
        q.enqueue(Vec::new(), 1).unwrap();
    }
    let ids = q.snapshot().into_iter().map(|x| x.id).collect::<Vec<_>>();
    assert_eq!(ids[0], "queue-1");
    assert_eq!(ids[1], "queue-10");
    assert_eq!(ids[2], "queue-2");
    assert_eq!(q.claim().unwrap().id, "queue-1");
    assert_eq!(q.claim().unwrap().id, "queue-10");
    assert_eq!(q.retry("queue-3"), Err(QueueError::InvalidState));
    assert_eq!(q.acknowledge("queue-99"), Err(QueueError::NotFound));
    assert_eq!(Queue::new(1).enqueue(Vec::new(), 33), Err(QueueError::InvalidRetries));
}
