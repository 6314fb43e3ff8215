#![allow(dead_code)]

use nacos_toolkit::local_config::CONFIG_EXTENSIONS;
use nacos_toolkit::{config_candidates, parse_config_content, ConfigError, JsonValue};

fn js(text: &str) -> serde_json::Value {
    serde_json::from_str(text).unwrap()
}

fn from_json(v: &serde_json::Value) -> JsonValue {
    match v {
        serde_json::Value::Null => JsonValue::Null,
        serde_json::Value::Bool(b) => JsonValue::Bool(*b),
        serde_json::Value::Number(n) => JsonValue::Number(n.to_string()),
        serde_json::Value::String(s) => JsonValue::String(s.clone()),
        serde_json::Value::Array(a) => JsonValue::Array(a.iter().map(from_json).collect()),
        serde_json::Value::Object(m) => {
            JsonValue::Object(m.iter().map(|(k, x)| (k.clone(), from_json(x))).collect())
        }
    }
}

fn to_json(v: &JsonValue) -> serde_json::Value {
    match v {
        JsonValue::Null => serde_json::Value::Null,
        JsonValue::Bool(b) => serde_json::Value::Bool(*b),
        JsonValue::Number(t) => serde_json::Value::Number(t.parse().unwrap()),
        JsonValue::String(s) => serde_json::Value::String(s.clone()),
        JsonValue::Array(a) => serde_json::Value::Array(a.iter().map(to_json).collect()),
        JsonValue::Object(es) => {
            serde_json::Value::Object(es.iter().map(|(k, x)| (k.clone(), to_json(x))).collect())
        }
    }
}

fn jv(text: &str) -> JsonValue {
    from_json(&js(text))
}


#[test]
fn candidates_in_priority_order() {
    assert_eq!(config_candidates("app"), vec!["app.json", "app.yaml", "app.yml"]);
    assert_eq!(CONFIG_EXTENSIONS, [".json", ".yaml", ".yml"]);
}

#[test]
fn candidates_of_empty_name() {
    assert_eq!(config_candidates(""), vec![".json", ".yaml", ".yml"]);
}

#[test]
fn parse_json_content() {
    let r = parse_config_content("json", r#"{"name": "test", "port": 8080}"#).unwrap();
    assert_eq!(to_json(&r), js(r#"{"name": "test", "port": 8080}"#));
}

#[test]
fn parse_yaml_content() {
    let r = parse_config_content("yaml", "name: test\nport: 8080").unwrap();
    assert_eq!(to_json(&r), js(r#"{"name": "test", "port": 8080}"#));
}

#[test]
fn parse_yml_content() {
    let r = parse_config_content("yml", "items:\n  - 1\n  - 2\n  - 3").unwrap();
    assert_eq!(to_json(&r), js(r#"{"items": [1, 2, 3]}"#));
}

#[test]
fn extension_case_is_ignored() {
    let r = parse_config_content("JSON", r#"{"key": "value"}"#).unwrap();
    assert_eq!(to_json(&r), js(r#"{"key": "value"}"#));
    let r = parse_config_content("YmL", "key: value").unwrap();
    assert_eq!(to_json(&r), js(r#"{"key": "value"}"#));
}

#[test]
fn unsupported_content_format_raises() {
    let err = parse_config_content("txt", "hello").unwrap_err();
    assert!(err.message().contains("Unsupported"));
    match err {
        ConfigError::UnsupportedFormat(m) => assert_eq!(m, ".txt"),
        other => panic!("unexpected {:?}", other),
    }
    match parse_config_content("", "hello") {
        Err(ConfigError::UnsupportedFormat(m)) => assert_eq!(m, "."),
        other => panic!("unexpected {:?}", other),
    }
}

#[test]
fn parse_errors_are_reported() {
    assert!(matches!(parse_config_content("json", "{bad"), Err(ConfigError::Json(_))));
    assert!(matches!(parse_config_content("yaml", "a: [1"), Err(ConfigError::Yaml(_))));
}

#[test]
fn yaml_content_may_be_scalar() {
    let r = parse_config_content("yaml", "just text").unwrap();
    assert_eq!(to_json(&r), js(r#""just text""#));
}

#[test]
fn error_messages() {
    assert_eq!(
        ConfigError::UnsupportedFormat(".ini".to_string()).message(),
        "Unsupported file format: .ini"
    );
    assert_eq!(ConfigError::Nacos("down".to_string()).message(), "nacos error: down");
    let e = parse_config_content("json", "{bad").unwrap_err();
    assert!(!e.message().is_empty());
    let _ = JsonValue::Null;
}
