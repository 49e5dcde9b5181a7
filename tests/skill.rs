use agenthub_runtime::json::{parse_json_text, to_json_text, Json};
use agenthub_runtime::skill::{JsonSchema, SchemaError};

fn json(text: &str) -> Json {
    parse_json_text(text).ok().expect("valid JSON")
}

fn test_schema() -> JsonSchema {
    JsonSchema::new(json(
        r#"{
            "type": "object",
            "required": ["title", "body"],
            "properties": {
                "title": {"type": "string"},
                "body": {"type": "string"}
            }
        }"#,
    ))
}

#[test]
fn validates_required_fields() {
    let s = test_schema();
    let good = json(r#"{"title": "t", "body": "b"}"#);
    assert!(s.validate(&good).is_ok());
    let bad = json(r#"{"title": "t"}"#);
    assert!(s.validate(&bad).is_err());
}

#[test]
fn rejects_unknown_fields() {
    let s = test_schema();
    let bad = json(r#"{"title": "t", "body": "b", "extra": 1}"#);
    assert!(s.validate(&bad).is_err());
}

#[test]
fn strips_unknown() {
    let s = test_schema();
    let mut v = json(r#"{"title": "t", "body": "b", "extra": 1}"#);
    s.strip_unknown_fields(&mut v);
    assert!(v.get("extra").is_none());
    assert!(v.get("title").is_some());
}

#[test]
fn schema_errors_name_the_field() {
    let s = test_schema();
    match s.validate(&json(r#"{"body": "b"}"#)) {
        Err(SchemaError::MissingField(f)) => assert_eq!(f, "title"),
        _ => panic!("expected a missing field"),
    }
    match s.validate(&json(r#"{"title": "t", "body": "b", "zz": 0, "aa": 0}"#)) {
        Err(SchemaError::UnknownField(f)) => assert_eq!(f, "aa"),
        _ => panic!("expected an unknown field"),
    }
    match s.validate(&json("[1, 2]")) {
        Err(e @ SchemaError::TypeMismatch(_)) => assert_eq!(e.message(), "type mismatch: expected object"),
        _ => panic!("expected a type mismatch"),
    }
    assert_eq!(
        SchemaError::MissingField("title".into()).message(),
        "missing required field: title"
    );
}

#[test]
fn schema_without_rules_accepts_anything() {
    let s = JsonSchema::new(json(r#"{"type": "object"}"#));
    assert!(s.validate(&json("3")).is_ok());
    assert!(s.validate(&json(r#"{"x": 1}"#)).is_ok());
    let mut v = json(r#"{"x": 1}"#);
    s.strip_unknown_fields(&mut v);
    assert_eq!(to_json_text(&v), r#"{"x":1}"#);
}

#[test]
fn strip_then_validate_accepts_when_required_present() {
    let s = test_schema();
    let mut v = json(r#"{"title": "t", "body": "b", "extra": 1, "more": [1]}"#);
    s.strip_unknown_fields(&mut v);
    assert!(s.validate(&v).is_ok());
    let mut w = json(r#"{"title": "t", "extra": 1}"#);
    s.strip_unknown_fields(&mut w);
    assert!(s.validate(&w).is_err());
    let mut n = json(r#""text""#);
    s.strip_unknown_fields(&mut n);
    assert_eq!(to_json_text(&n), r#""text""#);
}

#[test]
fn schema_token_estimate() {
    let s = JsonSchema::new(json(r#"{"type": "object"}"#));
    // {"type":"object"} is 17 bytes.
    assert_eq!(s.estimate_tokens(), 4);
}
