use yaiko::json::{JsonNumber, JsonValue};
use yaiko::schema_validation::{FieldError, SchemaRule, SchemaValidator, ValidationReport};

fn obj(entries: Vec<(&str, JsonValue)>) -> JsonValue {
    JsonValue::Object(entries.into_iter().map(|(k, v)| (k.to_string(), v)).collect())
}

fn text(s: &str) -> JsonValue {
    JsonValue::Str(s.to_string())
}

#[test]
fn validates_nested_fields_and_collects_structured_errors() {
    let validator = SchemaValidator::new().required("user.name").email("user.email").integer("age");
    let report = validator.validate(&obj(vec![
        ("age", text("old")),
        ("user", obj(vec![("email", text("invalid"))])),
    ]));
    assert!(!report.valid);
    assert!(report.errors.iter().any(|error| error.field == "user.name" && error.code == "required"));
    assert!(report.errors.iter().any(|error| error.field == "user.email" && error.code == "email"));
    assert!(report.errors.iter().any(|error| error.field == "age" && error.code == "integer"));
}

#[test]
fn accepts_valid_values_and_enforces_string_bounds() {
    let validator = SchemaValidator::new().required("name").string_min("name", 2).string_max("name", 5);
    assert!(validator.validate(&obj(vec![("name", text("Ada"))])).valid);
    assert_eq!(validator.validate(&obj(vec![("name", text("A"))])).errors[0].code, "min_length");
}

#[test]
fn serializes_validation_report_for_http_responses() {
    let report = SchemaValidator::new().required("email").validate(&obj(vec![]));
    assert!(!report.valid);
    assert_eq!(report.errors[0].field, "email");
}

#[test]
fn errors_come_in_field_order_with_exact_messages() {
    let validator = SchemaValidator::new().string_max("z", 1).string_min("a", 3).required("m");
    let report = validator.validate(&obj(vec![("a", text("xy")), ("z", text("long"))]));
    assert_eq!(
        report.errors,
        vec![
            FieldError {
                field: "a".into(),
                code: "min_length".into(),
                message: "Must be at least 3 characters".into()
            },
            FieldError { field: "m".into(), code: "required".into(), message: "Field is required".into() },
            FieldError {
                field: "z".into(),
                code: "max_length".into(),
                message: "Must be no more than 1 characters".into()
            },
        ]
    );
}

#[test]
fn null_counts_as_missing_and_integers_are_recognised() {
    let validator = SchemaValidator::new().required("n").integer("n");
    let report = validator.validate(&obj(vec![("n", JsonValue::Null)]));
    assert_eq!(report.errors.iter().map(|e| e.code.as_str()).collect::<Vec<_>>(), vec!["required", "integer"]);
    for number in [JsonNumber::PosInt(3), JsonNumber::NegInt(-3)] {
        assert!(validator.validate(&obj(vec![("n", JsonValue::Number(number))])).valid);
    }
    let float = obj(vec![("n", JsonValue::Number(JsonNumber::Float("1.5".into())))]);
    assert_eq!(validator.validate(&float).errors[0].code, "integer");
}

#[test]
fn string_rules_ignore_other_values_and_missing_fields() {
    let validator = SchemaValidator::new().string_min("s", 5).email("s");
    assert!(validator.validate(&obj(vec![])).valid);
    assert!(validator.validate(&obj(vec![("s", JsonValue::Bool(true))])).valid);
    assert!(validator.validate(&obj(vec![("s", text("a@b.co"))])).valid);
    assert_eq!(validator.validate(&obj(vec![("s", text("ab@cdef"))])).errors[0].code, "email");
}

#[test]
fn paths_through_non_objects_are_missing() {
    let validator = SchemaValidator::new().required("a.b");
    assert!(!validator.validate(&obj(vec![("a", text("x"))])).valid);
    assert!(validator.validate(&obj(vec![("a", obj(vec![("b", JsonValue::Bool(false))]))])).valid);
    let same = SchemaValidator::new().rule("a.b", SchemaRule::Required);
    assert!(!same.validate(&JsonValue::Array(vec![])).valid);
}

#[test]
fn reports_built_from_errors() {
    assert!(ValidationReport::ok().valid);
    assert!(ValidationReport::from_errors(Vec::new()).valid);
    let e = FieldError { field: "f".into(), code: "c".into(), message: "m".into() };
    assert!(!ValidationReport::from_errors(vec![e]).valid);
}
