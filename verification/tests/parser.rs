#![allow(dead_code)]

use nacos_toolkit::{ConfigParser, JsonValue, NacosParser, RawConfig};

fn js(text: &str) -> serde_json::Value {
    serde_json::from_str(text).unwrap()
}

fn from_json(v: &serde_json::Value) -> JsonValue {
    match v {
        serde_json::Value::Null => JsonValue::Null,
        serde_json::Value::Bool(b) => JsonValue::Bool(*b),
        serde_json::Value::Number(n) => JsonValue::Number(n.to_string()),
        serde_json::Value::String(s) => JsonValue::String(s.clone()),
        serde_json::Value::Array(a) => JsonValue::Array(a.iter().map(from_json).collect()),
        serde_json::Value::Object(m) => {
            JsonValue::Object(m.iter().map(|(k, x)| (k.clone(), from_json(x))).collect())
        }
    }
}

fn to_json(v: &JsonValue) -> serde_json::Value {
    match v {
        JsonValue::Null => serde_json::Value::Null,
        JsonValue::Bool(b) => serde_json::Value::Bool(*b),
        JsonValue::Number(t) => serde_json::Value::Number(t.parse().unwrap()),
        JsonValue::String(s) => serde_json::Value::String(s.clone()),
        JsonValue::Array(a) => serde_json::Value::Array(a.iter().map(to_json).collect()),
        JsonValue::Object(es) => {
            serde_json::Value::Object(es.iter().map(|(k, x)| (k.clone(), to_json(x))).collect())
        }
    }
}

fn jv(text: &str) -> JsonValue {
    from_json(&js(text))
}


#[test]
fn parse_yaml_string() {
    let r = ConfigParser::parse(RawConfig::text("name: test\nport: 8080"), NacosParser::Yaml);
    assert_eq!(to_json(&r), js(r#"{"name": "test", "port": 8080}"#));
}

#[test]
fn parse_json_string() {
    let r = ConfigParser::parse(RawConfig::text(r#"{"name": "test", "port": 8080}"#), NacosParser::Json);
    assert_eq!(to_json(&r), js(r#"{"name": "test", "port": 8080}"#));
}

#[test]
fn parse_json_object() {
    let obj = jv(r#"{"name": "test", "port": 8080}"#);
    let r = ConfigParser::parse(RawConfig::value(&obj), NacosParser::Json);
    assert_eq!(to_json(&r), js(r#"{"name": "test", "port": 8080}"#));
}

#[test]
fn parse_yaml_with_nested() {
    let r = ConfigParser::parse(
        RawConfig::text("server:\n  host: localhost\n  port: 3000"),
        NacosParser::Yaml,
    );
    assert_eq!(to_json(&r), js(r#"{"server": {"host": "localhost", "port": 3000}}"#));
}

#[test]
fn parse_yaml_with_array() {
    let r = ConfigParser::parse(RawConfig::text("items:\n  - a\n  - b\n  - c"), NacosParser::Yaml);
    assert_eq!(to_json(&r), js(r#"{"items": ["a", "b", "c"]}"#));
}

#[test]
fn parse_invalid_yaml_returns_empty() {
    let r = ConfigParser::parse(RawConfig::text(":::invalid"), NacosParser::Yaml);
    assert_eq!(to_json(&r), js("{}"));
}

#[test]
fn parse_invalid_json_returns_empty() {
    let r = ConfigParser::parse(RawConfig::text("{invalid}"), NacosParser::Json);
    assert_eq!(to_json(&r), js("{}"));
}

#[test]
fn nacos_parser_extensions() {
    assert_eq!(NacosParser::Yaml.extension(), ".yml");
    assert_eq!(NacosParser::Json.extension(), ".json");
}

#[test]
fn parse_yaml_scalar_gives_empty_object() {
    let r = ConfigParser::parse(RawConfig::text("just a string"), NacosParser::Yaml);
    assert_eq!(to_json(&r), js("{}"));
    let r = ConfigParser::parse(RawConfig::text("- 1\n- 2"), NacosParser::Yaml);
    assert_eq!(to_json(&r), js("{}"));
}

#[test]
fn parse_json_keeps_non_object_document() {
    let r = ConfigParser::parse(RawConfig::text("[1, 2]"), NacosParser::Json);
    assert_eq!(to_json(&r), js("[1, 2]"));
}

#[test]
fn parse_yaml_value_non_object_gives_empty() {
    let r = ConfigParser::parse(RawConfig::value(&jv("[1]")), NacosParser::Yaml);
    assert_eq!(to_json(&r), js("{}"));
    let r = ConfigParser::parse(RawConfig::from(jv(r#"{"a": 1}"#)), NacosParser::Yaml);
    assert_eq!(to_json(&r), js(r#"{"a": 1}"#));
    let r = ConfigParser::parse(RawConfig::from(String::from("a: 1")), NacosParser::Yaml);
    assert_eq!(to_json(&r), js(r#"{"a": 1}"#));
}
