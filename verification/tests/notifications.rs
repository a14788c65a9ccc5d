use yaiko::json::{JsonNumber, JsonValue};
use yaiko::notifications::{DeliveryResult, NotificationTemplate, RetryPolicy, TemplateError};
use yaiko::time::Duration;

#[test]
fn renders_subject_text_and_html_templates() {
    let template = NotificationTemplate {
        subject: "Hello {{name}}".into(),
        text: "Welcome, {{name}}".into(),
        html: Some("<strong>{{name}}</strong>".into()),
    };
    let data = JsonValue::Object(vec![("name".to_string(), JsonValue::Str("Ada".to_string()))]);
    let envelope = template.envelope("user@example.com", &data).unwrap();
    assert_eq!(envelope.subject, "Hello Ada");
    assert_eq!(envelope.text, "Welcome, Ada");
    assert_eq!(envelope.html.as_deref(), Some("<strong>Ada</strong>"));
}

#[test]
fn retry_policy_exponentially_backoffs_and_caps() {
    let policy = RetryPolicy {
        max_attempts: 3,
        initial_delay: Duration::from_secs(2),
        max_delay: Duration::from_secs(5),
    };
    assert_eq!(policy.next_delay(0), Some(Duration::from_secs(2)));
    assert_eq!(policy.next_delay(1), Some(Duration::from_secs(4)));
    assert_eq!(policy.next_delay(2), Some(Duration::from_secs(5)));
    assert_eq!(policy.next_delay(3), None);
}

#[test]
fn delivery_results_normalize_success_and_failures() {
    let success = DeliveryResult::Delivered { provider_id: "msg-1".into() };
    let retry = DeliveryResult::RetryableFailure { reason: "timeout".into(), retry_after: Duration::from_secs(10) };
    assert!(success.is_success());
    assert!(!retry.is_success());
    assert_eq!(retry.retry_after(), Some(Duration::from_secs(10)));
}

#[test]
fn large_attempts_saturate_and_defaults_hold() {
    let policy = RetryPolicy { max_attempts: 100, initial_delay: Duration::from_secs(1), max_delay: Duration::from_secs(60) };
    assert_eq!(policy.next_delay(40), Some(Duration::from_secs(60)));
    let d = RetryPolicy::default();
    assert_eq!(d.max_attempts, 5);
    assert_eq!(d.next_delay(1), Some(Duration::from_secs(10)));
    assert_eq!(DeliveryResult::PermanentFailure { reason: "x".into() }.retry_after(), None);
}

#[test]
fn bad_template_is_a_render_error() {
    let template = NotificationTemplate { subject: "{{#if}}".into(), text: "t".into(), html: None };
    assert!(template.render(&JsonValue::Null).is_err());
}

#[test]
fn render_uses_numbers_and_nested_members_and_reports_first_failure() {
    let data = JsonValue::Object(vec![
        ("count".to_string(), JsonValue::Number(JsonNumber::PosInt(3))),
        ("user".to_string(), JsonValue::Object(vec![("name".to_string(), JsonValue::Str("Lin".to_string()))])),
    ]);
    let template = NotificationTemplate { subject: "{{count}} new".into(), text: "for {{user.name}}".into(), html: None };
    let (subject, text, html) = template.render(&data).unwrap();
    assert_eq!(subject, "3 new");
    assert_eq!(text, "for Lin");
    assert_eq!(html, None);
    let broken = NotificationTemplate { subject: "ok".into(), text: "{{#if}}".into(), html: Some("fine".into()) };
    assert!(matches!(broken.render(&data), Err(TemplateError::Render(_))));
    let envelope = template.envelope("a@b.c", &data).unwrap();
    assert_eq!(envelope.to, "a@b.c");
    assert_eq!(envelope.from, None);
    assert_eq!(envelope.idempotency_key, None);
}
