use yaiko::query_client::{QueryClient, QueryClientError};

#[test]
fn sets_gets_stale_and_invalidates() {
    let mut c = QueryClient::new(2);
    c.set("media:1", b"ok".to_vec(), 10, 5).unwrap();
    assert!(c.get("media:1", 15).is_some());
    assert!(c.get("media:1", 16).is_none());
    c.set("media:2", Vec::new(), 1, 2).unwrap();
    assert_eq!(c.invalidate_prefix("media:"), 2)
}

#[test]
fn validates_ttl_keys_and_capacity() {
    let mut c = QueryClient::new(1);
    assert!(c.set("bad key", Vec::new(), 0, 1).is_err());
    assert!(c.set("a", Vec::new(), 0, 0).is_err());
    c.set("a", Vec::new(), 0, 1).unwrap();
    assert!(c.set("b", Vec::new(), 0, 1).is_err())
}

#[test]
fn replaces_values_and_snapshots_in_key_order() {
    let mut c = QueryClient::new(3);
    c.set("b", b"1".to_vec(), 0, 9).unwrap();
    c.set("a", b"2".to_vec(), 0, 9).unwrap();
    c.set("b", b"3".to_vec(), 0, 9).unwrap();
    let snap = c.snapshot();
    assert_eq!(snap.iter().map(|e| e.key.as_str()).collect::<Vec<_>>(), vec!["a", "b"]);
    assert_eq!(c.get("b", 0).unwrap().value, b"3".to_vec());
    assert!(c.invalidate("a"));
    assert!(!c.invalidate("a"));
    assert_eq!(c.set("x y", Vec::new(), 0, 1), Err(QueryClientError::InvalidKey));
    assert_eq!(c.set("x", Vec::new(), 0, 0), Err(QueryClientError::InvalidTtl));
    assert_eq!(c.invalidate_prefix("zzz"), 0);
}
