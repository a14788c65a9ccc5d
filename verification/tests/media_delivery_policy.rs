use yaiko::media_delivery_policy::{DeliveryPolicyError, MediaDeliveryPolicy};

#[test]
fn evaluates_allowed_origin_headers_and_filename() {
    let policy =
        MediaDeliveryPolicy::new(vec!["https://editor.example".into()], true, true, true).unwrap();
    let headers = policy
        .evaluate(Some("https://editor.example"), true, Some("../final cut.mp4"))
        .unwrap();
    assert_eq!(headers.allow_origin.as_deref(), Some("https://editor.example"));
    assert!(headers.allow_credentials);
    assert!(headers.accept_ranges);
    assert_eq!(
        headers.content_disposition.as_deref(),
        Some("attachment; filename=\"final_cut.mp4\"")
    );
    assert!(headers.expose_headers.contains(&"ETag".into()));
}

#[test]
fn rejects_denied_origins_ranges_bad_origins_and_wildcard_credentials() {
    let policy =
        MediaDeliveryPolicy::new(vec!["https://editor.example".into()], false, false, false).unwrap();
    assert_eq!(
        policy.evaluate(Some("https://evil.example"), false, None),
        Err(DeliveryPolicyError::OriginDenied)
    );
    assert_eq!(policy.evaluate(None, true, None), Err(DeliveryPolicyError::RangeDenied));
    assert_eq!(
        MediaDeliveryPolicy::new(vec!["*".into()], true, true, false),
        Err(DeliveryPolicyError::WildcardWithCredentials)
    );
    assert_eq!(
        MediaDeliveryPolicy::new(vec!["not-origin".into()], false, true, false),
        Err(DeliveryPolicyError::InvalidOrigin)
    );
}

#[test]
fn sanitizes_and_rejects_unsafe_download_names() {
    let policy = MediaDeliveryPolicy::new(Vec::new(), false, true, false).unwrap();
    assert_eq!(
        policy
            .evaluate(None, false, Some("report final.mp4"))
            .unwrap()
            .content_disposition
            .as_deref(),
        Some("attachment; filename=\"report_final.mp4\"")
    );
    assert_eq!(
        policy.evaluate(None, false, Some("bad\nname.mp4")),
        Err(DeliveryPolicyError::InvalidFilename)
    );
}

#[test]
fn wildcard_origin_allows_any_valid_origin() {
    let policy = MediaDeliveryPolicy::new(vec!["*".into()], false, true, false).unwrap();
    let headers = policy.evaluate(Some("https://a.example"), false, None).unwrap();
    assert_eq!(headers.allow_origin.as_deref(), Some("https://a.example"));
    assert_eq!(headers.expose_headers, vec!["Content-Range".to_string()]);
    assert_eq!(
        policy.evaluate(Some("https://a.example/path"), false, None),
        Err(DeliveryPolicyError::InvalidOrigin)
    );
}
