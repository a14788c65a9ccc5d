use yaiko::pubsub::{PubSub, PubSubError};

#[test]
fn publishes_and_polls_in_order() {
    let mut p = PubSub::new(4);
    p.create_channel("media").unwrap();
    p.subscribe("editor", "media").unwrap();
    p.publish("media", b"one".to_vec()).unwrap();
    p.publish("media", b"two".to_vec()).unwrap();
    let msgs = p.poll("editor").unwrap();
    assert_eq!(msgs.len(), 2);
    assert_eq!(msgs[0].sequence, 1)
}

#[test]
fn validates_channel_and_subscriber_lifecycle() {
    let mut p = PubSub::new(1);
    assert!(p.subscribe("x", "missing").is_err());
    p.create_channel("media").unwrap();
    p.subscribe("x", "media").unwrap();
    assert!(p.subscribe("x", "media").is_err());
    p.unsubscribe("x").unwrap();
    assert!(p.poll("x").is_err())
}

#[test]
fn poll_moves_the_cursor_and_capacity_drops_oldest() {
    let mut p = PubSub::new(2);
    p.create_channel("c").unwrap();
    p.subscribe("s", "c").unwrap();
    p.publish("c", b"1".to_vec()).unwrap();
    p.publish("c", b"2".to_vec()).unwrap();
    p.publish("c", b"3".to_vec()).unwrap();
    let msgs = p.poll("s").unwrap();
    assert_eq!(msgs.iter().map(|m| m.sequence).collect::<Vec<_>>(), vec![2, 3]);
    assert!(p.poll("s").unwrap().is_empty());
    assert_eq!(p.publish("bad name", Vec::new()), Err(PubSubError::InvalidName));
    assert_eq!(p.publish("none", Vec::new()), Err(PubSubError::NotFound));
    let mut closed = PubSub::new(0);
    closed.create_channel("c").unwrap();
    assert_eq!(closed.publish("c", Vec::new()), Err(PubSubError::Capacity));
    assert_eq!(p.subscribe("s", "c"), Err(PubSubError::DuplicateSubscriber));
}
