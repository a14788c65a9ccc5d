use serde_json::Value;
use yaiko::pagination::{CursorCodec, Page, PageRequest, PaginationError};

fn now() -> u64 {
    std::time::SystemTime::now().duration_since(std::time::UNIX_EPOCH).unwrap().as_secs()
}

fn encode(codec: &CursorCodec, value: Value) -> String {
    let mut payload = serde_json::Map::new();
    payload.insert("value".to_string(), value);
    payload.insert("expires_at".to_string(), Value::from(codec.expires_at(now())));
    codec.encode(&serde_json::to_vec(&Value::Object(payload)).unwrap()).unwrap()
}

fn decode(codec: &CursorCodec, cursor: &str) -> Result<Value, PaginationError> {
    let bytes = codec.decode(cursor)?;
    let payload: Value = serde_json::from_slice(&bytes).map_err(|_| PaginationError::InvalidCursor)?;
    let expires = payload.get("expires_at").and_then(Value::as_u64).ok_or(PaginationError::InvalidCursor)?;
    CursorCodec::check_expiry(expires, now())?;
    Ok(payload.get("value").cloned().unwrap_or(Value::Null))
}

#[test]
fn signs_and_decodes_opaque_cursors() {
    let codec = CursorCodec::new(b"secret".to_vec(), 60);
    let cursor = encode(&codec, Value::from("last-id"));
    assert!(!cursor.contains("last-id"));
    assert_eq!(decode(&codec, &cursor).unwrap(), Value::from("last-id"));
}

#[test]
fn rejects_tampering_and_expiry() {
    let codec = CursorCodec::new(b"secret".to_vec(), 60);
    let cursor = encode(&codec, Value::from(42u64));
    let mut tampered = cursor.clone();
    tampered.push('x');
    assert_eq!(decode(&codec, &tampered), Err(PaginationError::InvalidCursor));
    let expired = encode(&CursorCodec::new(b"secret".to_vec(), 0), Value::from(42u64));
    assert_eq!(decode(&codec, &expired), Err(PaginationError::ExpiredCursor));
}

#[test]
fn enforces_limits_and_exposes_page_metadata() {
    assert_eq!(PageRequest::new(0), Err(PaginationError::InvalidLimit));
    assert_eq!(PageRequest::with_bounds(101, 1, 100), Err(PaginationError::InvalidLimit));
    let page = Page::new(vec![1, 2], 2, Some("next".into()));
    assert!(page.has_more);
    assert_eq!(page.next_cursor.as_deref(), Some("next"));
}

#[test]
fn cursor_bytes_round_trip_and_other_secrets_fail() {
    let codec = CursorCodec::new(b"k".to_vec(), 1);
    let cursor = codec.encode(b"payload").unwrap();
    assert_eq!(codec.decode(&cursor).unwrap(), b"payload".to_vec());
    let other = CursorCodec::new(b"other".to_vec(), 1);
    assert_eq!(other.decode(&cursor), Err(PaginationError::InvalidCursor));
    assert_eq!(codec.decode("no-dot"), Err(PaginationError::InvalidCursor));
    assert_eq!(CursorCodec::check_expiry(5, 5), Err(PaginationError::ExpiredCursor));
    assert_eq!(CursorCodec::check_expiry(6, 5), Ok(()));
    assert_eq!(codec.expires_at(u64::MAX), u64::MAX);
    let p = PageRequest::new(10).unwrap().cursor("c");
    assert_eq!(p.cursor.as_deref(), Some("c"));
    assert!(!Page::<u8>::new(Vec::new(), 1, None).has_more);
}
