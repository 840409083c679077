use timber_rs::parser::LogParser;
use timber_rs::parser::json::JsonLogParser;

#[test]
fn json_test_json_detection() {
    let parser = JsonLogParser::new();

    // Valid JSON logs
    let sample_lines = &[
        r#"{"timestamp":"2025-03-21T14:00:00.123Z","level":"ERROR","message":"Database connection failed"}"#,
        r#"{"time":"2025-03-21T14:01:00.456Z","severity":"WARN","msg":"Slow query detected"}"#,
    ];

    assert!(parser.can_parse(sample_lines));

    // Invalid or non-JSON logs
    let non_json_lines = &[
        "2025-03-21 14:00:00,123 [ERROR] NullPointerException",
        "INFO: Application started at 14:00:00",
    ];

    assert!(!parser.can_parse(non_json_lines));
}

#[test]
fn json_test_json_parsing() {
    let parser = JsonLogParser::new();
    let line = r#"{"timestamp":"2025-03-21T14:00:00.123Z","level":"ERROR","message":"Database connection failed","service":"api","user_id":12345}"#;

    let parsed = parser.parse_line(line);

    assert_eq!(parsed.timestamp, Some("2025-03-21T14:00:00.123Z".to_string()));
    assert_eq!(parsed.level, Some("ERROR".to_string()));
    assert_eq!(parsed.message, Some("Database connection failed".to_string()));

    // Check fields map
    assert!(parsed.fields.contains_key("timestamp"));
    assert!(parsed.fields.contains_key("level"));
    assert!(parsed.fields.contains_key("message"));
    assert!(parsed.fields.contains_key("service"));
    assert!(parsed.fields.contains_key("user_id"));
    assert_eq!(parsed.fields.get("service"), Some(&"api".to_string()));
    assert_eq!(parsed.fields.get("user_id"), Some(&"12345".to_string()));
}

#[test]
fn test_nested_json() {
    let parser = JsonLogParser::new();
    let line = r#"{"timestamp":"2025-03-21T14:00:00.123Z","level":"ERROR","user":{"id":"12345","name":"John"},"context":{"request":{"url":"/api/users"}}}"#;

    let parsed = parser.parse_line(line);

    // Check flattened nested fields
    assert!(parsed.fields.contains_key("user.id"));
    assert!(parsed.fields.contains_key("user.name"));
    assert!(parsed.fields.contains_key("context.request.url"));
    assert_eq!(parsed.fields.get("user.id"), Some(&"12345".to_string()));
    assert_eq!(parsed.fields.get("user.name"), Some(&"John".to_string()));
    assert_eq!(
        parsed.fields.get("context.request.url"),
        Some(&"/api/users".to_string())
    );
}

#[test]
fn test_array_flattening() {
    let parser = JsonLogParser::new();
    let line = r#"{"timestamp":"2025-03-21T14:00:00.123Z","level":"INFO","items":[{"a":"x"},{"b":"y"}]}"#;

    let parsed = parser.parse_line(line);

    assert_eq!(parsed.fields.get("items[0].a"), Some(&"x".to_string()));
    assert_eq!(parsed.fields.get("items[1].b"), Some(&"y".to_string()));
}

#[test]
fn test_json_scalar_rendering() {
    let parser = JsonLogParser::new();
    let line = r#"{"timestamp":"2025-03-21T14:00:00.123Z","level":"WARN","flag":true,"missing":null,"code":7}"#;

    let parsed = parser.parse_line(line);

    assert_eq!(parsed.fields.get("flag"), Some(&"true".to_string()));
    assert_eq!(parsed.fields.get("missing"), Some(&"null".to_string()));
    assert_eq!(parsed.fields.get("code"), Some(&"7".to_string()));
}
