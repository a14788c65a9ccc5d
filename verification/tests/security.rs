use yaiko::security::{CsrfProtection, RateLimiter, SecurityHeaders};
use yaiko::time::Duration;

#[test]
fn security_headers_are_the_hardening_set() {
    let headers = SecurityHeaders::new().headers();
    assert_eq!(headers.len(), 7);
    assert_eq!(headers[0], ("X-Content-Type-Options".to_string(), "nosniff".to_string()));
    assert_eq!(headers[1], ("X-Frame-Options".to_string(), "DENY".to_string()));
    assert!(headers.iter().any(|(k, v)| k == "Strict-Transport-Security" && v.starts_with("max-age=31536000")));
}

#[test]
fn rate_limiter_ignores_spoofed_proxy_headers_by_default() {
    let mut limiter = RateLimiter::new(1, 60);
    let first = limiter.client_key(Some("1.1.1.1"), None, Some("127.0.0.1"));
    assert_eq!(first, "127.0.0.1");
    assert!(limiter.count_request(&first, Duration::from_secs(0)));
    let second = limiter.client_key(Some("8.8.8.8"), None, Some("127.0.0.1"));
    assert!(!limiter.count_request(&second, Duration::from_secs(1)));
    assert_eq!(limiter.retry_after(), "60");
}

#[test]
fn trusted_proxy_headers_choose_the_client() {
    let limiter = RateLimiter::new(1, 60).trust_proxy_headers(true);
    assert_eq!(limiter.client_key(Some(" 1.1.1.1 , 2.2.2.2"), Some("3.3.3.3"), Some("127.0.0.1")), "1.1.1.1");
    assert_eq!(limiter.client_key(Some(" ,2.2.2.2"), Some("3.3.3.3"), Some("127.0.0.1")), "3.3.3.3");
    assert_eq!(limiter.client_key(None, Some(""), Some("127.0.0.1")), "127.0.0.1");
    assert_eq!(limiter.client_key(None, None, None), "unknown");
}

#[test]
fn windows_count_per_client_and_start_over() {
    let mut limiter = RateLimiter::new(2, 10);
    let t = Duration::from_secs;
    assert!(limiter.count_request("a", t(0)));
    assert!(limiter.count_request("a", t(5)));
    assert!(!limiter.count_request("a", t(10)));
    assert!(limiter.count_request("b", t(10)));
    assert!(limiter.count_request("a", t(11)));
    limiter.cleanup(t(30));
    assert!(limiter.count_request("a", t(30)));
}

#[test]
fn csrf_cookie_is_reusable_and_not_httponly() {
    let csrf = CsrfProtection::new();
    assert!(CsrfProtection::is_safe_method("GET"));
    let token = csrf.response_token(csrf.cookie_token(None));
    assert_eq!(token.len(), 36);
    let set_cookie = csrf.set_cookie(&token);
    assert!(!set_cookie.contains("HttpOnly"));
    assert_eq!(set_cookie, format!("csrf_token={token}; Path=/; SameSite=Strict"));
    let cookie = csrf.cookie_token(Some(&set_cookie)).unwrap();
    assert_eq!(cookie, token);
    assert!(!CsrfProtection::is_safe_method("POST"));
    assert!(CsrfProtection::verify(Some(&cookie), Some(&token), None));
    assert_eq!(csrf.response_token(Some(cookie.clone())), cookie);
}

#[test]
fn csrf_rejects_missing_or_mismatched_tokens() {
    let csrf = CsrfProtection::default();
    assert_eq!(csrf.header_name(), "X-CSRF-Token");
    assert_eq!(csrf.form_field_name(), "_csrf");
    assert!(!CsrfProtection::verify(None, Some("t"), None));
    assert!(!CsrfProtection::verify(Some("t"), None, None));
    assert!(!CsrfProtection::verify(Some("t"), Some("u"), Some("t")));
    assert!(CsrfProtection::verify(Some("t"), None, Some("t")));
    assert!(CsrfProtection::reads_form(Some("application/x-www-form-urlencoded; charset=utf-8")));
    assert!(!CsrfProtection::reads_form(Some("application/json")));
    assert!(!CsrfProtection::reads_form(None));
}

#[test]
fn cookie_values_are_found_among_pieces() {
    let csrf = CsrfProtection::new();
    assert_eq!(csrf.cookie_token(Some("a=1; csrf_token=xyz; b=2")), Some("xyz".to_string()));
    assert_eq!(csrf.cookie_token(Some("junk; csrf_token=one=two")), Some("one=two".to_string()));
    assert_eq!(csrf.cookie_token(Some("csrf_tokenx=1")), None);
}
