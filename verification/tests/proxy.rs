use yaiko::proxy::{ProxyError, ProxyMethod, ProxyPolicy};

#[test]
fn builds_safe_forward_request() {
    let p = ProxyPolicy::new("https://api.example.com", 8).unwrap().allow(ProxyMethod::Post);
    let r = p
        .build(
            ProxyMethod::Post,
            "/v1/media",
            vec![("authorization".into(), "Bearer x".into()), ("host".into(), "bad".into())],
            b"x".to_vec(),
        )
        .unwrap();
    assert_eq!(r.headers.len(), 1);
    assert_eq!(p.describe(), "https://api.example.com (max_body=8)")
}

#[test]
fn rejects_unsafe_upstream_method_path_and_body() {
    assert!(ProxyPolicy::new("http://bad", 1).is_err());
    let p = ProxyPolicy::new("https://api.example.com", 1).unwrap();
    assert!(p.build(ProxyMethod::Post, "/x", Vec::new(), Vec::new()).is_err());
    assert!(p.build(ProxyMethod::Get, "/../x", Vec::new(), Vec::new()).is_err());
    assert!(p.build(ProxyMethod::Get, "/x", Vec::new(), b"xx".to_vec()).is_err())
}

#[test]
fn filters_hop_headers_case_insensitively_and_reports_errors() {
    let p = ProxyPolicy::new("https://u", 4).unwrap();
    let r = p
        .build(
            ProxyMethod::Get,
            "/a",
            vec![
                ("Content-Length".into(), "1".into()),
                ("X-Trace".into(), "t".into()),
                ("bad name".into(), "v".into()),
                ("X-Ok".into(), "line\nbreak".into()),
            ],
            Vec::new(),
        )
        .unwrap();
    assert_eq!(r.headers, vec![("X-Trace".to_string(), "t".to_string())]);
    assert_eq!(p.build(ProxyMethod::Delete, "/a", Vec::new(), Vec::new()), Err(ProxyError::MethodNotAllowed));
    assert_eq!(p.build(ProxyMethod::Get, "a", Vec::new(), Vec::new()), Err(ProxyError::InvalidUpstream));
    assert_eq!(p.build(ProxyMethod::Get, "/a", Vec::new(), vec![0; 5]), Err(ProxyError::BodyTooLarge));
    let twice = p.clone().allow(ProxyMethod::Get);
    assert!(twice.build(ProxyMethod::Get, "/a", Vec::new(), Vec::new()).is_ok());
}
