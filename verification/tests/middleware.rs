use yaiko::middleware::{BodySizeLimit, Cors, ETag, ETagOutcome, Timeout};
use yaiko::time::Duration;

fn sha1_tag(body: &[u8]) -> String {
    format!("\"{}\"", sha1_smol::Sha1::from(body).digest())
}

#[test]
fn cors_preflight_lists_the_configured_headers() {
    let cors = Cors::new().allow_origin("https://app.example").max_age(600);
    let headers = cors.preflight_headers();
    assert_eq!(
        headers,
        vec![
            ("Access-Control-Allow-Origin".to_string(), "https://app.example".to_string()),
            ("Access-Control-Allow-Methods".to_string(), "GET, POST, PUT, DELETE, OPTIONS".to_string()),
            ("Access-Control-Allow-Headers".to_string(), "Content-Type, Authorization".to_string()),
            ("Access-Control-Max-Age".to_string(), "600".to_string()),
        ]
    );
    assert_eq!(cors.origin_header().1, "https://app.example");
    let plain = Cors::default().allow_methods("GET").allow_headers("X-Token");
    let h = plain.preflight_headers();
    assert_eq!(h.len(), 3);
    assert_eq!(h[0].1, "*");
    assert_eq!(h[1].1, "GET");
    assert_eq!(h[2].1, "X-Token");
}

#[test]
fn body_limit_refuses_only_declared_large_bodies() {
    let limit = BodySizeLimit::new(10);
    assert!(limit.exceeds(Some("11")));
    assert!(!limit.exceeds(Some("10")));
    assert!(!limit.exceeds(Some("abc")));
    assert!(!limit.exceeds(None));
    assert!(!limit.exceeds(Some("0")));
}

#[test]
fn timeout_keeps_its_duration() {
    assert_eq!(Timeout::new(Duration::from_millis(250)).duration(), Duration::from_millis(250));
}

#[test]
fn etag_is_the_quoted_sha1_and_answers_matching_revalidation() {
    let body = b"hello";
    let tag = sha1_tag(body);
    assert_eq!(tag, "\"aaf4c61ddcc5e8a2dabede0f3b482cd9aea9434d\"");
    assert_eq!(ETag::decide(None, body), ETagOutcome::Tagged(tag.clone()));
    assert_eq!(ETag::decide(Some(&tag), body), ETagOutcome::NotModified(tag.clone()));
    assert_eq!(ETag::decide(Some("\"other\""), body), ETagOutcome::Tagged(tag));
    assert_eq!(ETag::decide(Some("x"), b""), ETagOutcome::Untagged);
}
