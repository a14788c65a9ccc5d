use yaiko::rate_limit::RateLimitDecision;
use yaiko::time::Duration;

fn header<'a>(headers: &'a [(String, String)], name: &str) -> Option<&'a str> {
    headers.iter().find(|(k, _)| k == name).map(|(_, v)| v.as_str())
}

#[test]
fn denied_decision_reports_retry_after_in_whole_seconds() {
    let denied = RateLimitDecision { allowed: false, limit: 2, remaining: 0, retry_after: Some(Duration::from_secs(1)) };
    let headers = denied.headers();
    assert_eq!(header(&headers, "Retry-After"), Some("1"));
    assert_eq!(header(&headers, "X-RateLimit-Limit"), Some("2"));
    assert_eq!(header(&headers, "X-RateLimit-Remaining"), Some("0"));
    assert_eq!(headers[0].0, "Retry-After");
}

#[test]
fn short_waits_round_up_to_one_second_and_allowed_has_no_retry() {
    let short = RateLimitDecision { allowed: false, limit: 5, remaining: 0, retry_after: Some(Duration::from_millis(300)) };
    assert_eq!(header(&short.headers(), "Retry-After"), Some("1"));
    let long = RateLimitDecision { allowed: false, limit: 5, remaining: 0, retry_after: Some(Duration::from_millis(2_900)) };
    assert_eq!(header(&long.headers(), "Retry-After"), Some("2"));
    let allowed = RateLimitDecision { allowed: true, limit: 5, remaining: 4, retry_after: None };
    assert_eq!(
        allowed.headers(),
        vec![
            ("X-RateLimit-Limit".to_string(), "5".to_string()),
            ("X-RateLimit-Remaining".to_string(), "4".to_string()),
        ]
    );
}
