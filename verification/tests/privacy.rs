use yaiko::json::{JsonNumber, JsonValue};
use yaiko::privacy::{PrivacyPolicy, SecretString};

fn obj(entries: Vec<(&str, JsonValue)>) -> JsonValue {
    JsonValue::Object(entries.into_iter().map(|(k, v)| (k.to_string(), v)).collect())
}

fn text(s: &str) -> JsonValue {
    JsonValue::Str(s.to_string())
}

fn at<'a>(v: &'a JsonValue, key: &str) -> &'a JsonValue {
    v.get(key).unwrap()
}

#[test]
fn recursively_redacts_sensitive_json_fields() {
    let policy = PrivacyPolicy::new().replacement("<hidden>");
    let input = obj(vec![
        ("items", JsonValue::Array(vec![obj(vec![("access_token", text("abc"))])])),
        ("user", obj(vec![("email", text("a@example.com")), ("password", text("secret"))])),
    ]);
    let out = policy.redact_json(&input);
    assert_eq!(at(at(&out, "user"), "email"), &text("a@example.com"));
    assert_eq!(at(at(&out, "user"), "password"), &text("<hidden>"));
    let items = at(&out, "items").as_array().unwrap();
    assert_eq!(at(&items[0], "access_token"), &text("<hidden>"));
}

#[test]
fn secret_never_leaks_through_debug_display_or_serialization() {
    let secret = SecretString::new("super-secret");
    assert_eq!(secret.expose(), "super-secret");
    assert_eq!(secret.redacted(), "[REDACTED]");
    assert!(!secret.redacted().contains("super-secret"));
}

#[test]
fn custom_fields_and_maps_are_redacted() {
    let policy = PrivacyPolicy::new().sensitive_field("phone");
    let values = vec![("city".to_string(), "Lagos".to_string()), ("phone".to_string(), "555".to_string())];
    let redacted = policy.redact_map(&values);
    assert_eq!(redacted[1], ("phone".to_string(), "[REDACTED]".to_string()));
    assert_eq!(redacted[0], ("city".to_string(), "Lagos".to_string()));
}

#[test]
fn sensitivity_ignores_case_and_matches_inside_names() {
    let policy = PrivacyPolicy::default();
    assert!(policy.is_sensitive("Authorization"));
    assert!(policy.is_sensitive("X-API_KEY-Header"));
    assert!(policy.is_sensitive("user_password_hash"));
    assert!(!policy.is_sensitive("email"));
    let custom = PrivacyPolicy::new().sensitive_field("PHONE");
    assert!(custom.is_sensitive("mobile_phone"));
}

#[test]
fn other_values_are_kept_as_they_are() {
    let policy = PrivacyPolicy::new();
    let input = JsonValue::Array(vec![
        JsonValue::Null,
        JsonValue::Bool(true),
        JsonValue::Number(JsonNumber::NegInt(-4)),
        JsonValue::Number(JsonNumber::Float("2.5".into())),
        obj(vec![("token", JsonValue::Number(JsonNumber::PosInt(7))), ("nested", obj(vec![("secret", JsonValue::Null)]))]),
    ]);
    let out = policy.redact_json(&input);
    let items = out.as_array().unwrap();
    assert_eq!(items[0], JsonValue::Null);
    assert_eq!(items[1], JsonValue::Bool(true));
    assert_eq!(items[2], JsonValue::Number(JsonNumber::NegInt(-4)));
    assert_eq!(items[3], JsonValue::Number(JsonNumber::Float("2.5".into())));
    assert_eq!(at(&items[4], "token"), &text("[REDACTED]"));
    assert_eq!(at(at(&items[4], "nested"), "secret"), &text("[REDACTED]"));
}

#[test]
fn empty_secret() {
    assert!(SecretString::new("").is_empty());
    assert!(!SecretString::new("x").is_empty());
}
