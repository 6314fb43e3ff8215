#![allow(dead_code)]

use nacos_toolkit::{ConfigMerger, JsonValue};

fn js(text: &str) -> serde_json::Value {
    serde_json::from_str(text).unwrap()
}

fn from_json(v: &serde_json::Value) -> JsonValue {
    match v {
        serde_json::Value::Null => JsonValue::Null,
        serde_json::Value::Bool(b) => JsonValue::Bool(*b),
        serde_json::Value::Number(n) => JsonValue::Number(n.to_string()),
        serde_json::Value::String(s) => JsonValue::String(s.clone()),
        serde_json::Value::Array(a) => JsonValue::Array(a.iter().map(from_json).collect()),
        serde_json::Value::Object(m) => {
            JsonValue::Object(m.iter().map(|(k, x)| (k.clone(), from_json(x))).collect())
        }
    }
}

fn to_json(v: &JsonValue) -> serde_json::Value {
    match v {
        JsonValue::Null => serde_json::Value::Null,
        JsonValue::Bool(b) => serde_json::Value::Bool(*b),
        JsonValue::Number(t) => serde_json::Value::Number(t.parse().unwrap()),
        JsonValue::String(s) => serde_json::Value::String(s.clone()),
        JsonValue::Array(a) => serde_json::Value::Array(a.iter().map(to_json).collect()),
        JsonValue::Object(es) => {
            serde_json::Value::Object(es.iter().map(|(k, x)| (k.clone(), to_json(x))).collect())
        }
    }
}

fn jv(text: &str) -> JsonValue {
    from_json(&js(text))
}


#[test]
fn merge_flat_objects() {
    let r = ConfigMerger::merge(&jv(r#"{"a": 1, "b": 2}"#), Some(&jv(r#"{"b": 3, "c": 4}"#)));
    assert_eq!(to_json(&r), js(r#"{"a": 1, "b": 3, "c": 4}"#));
}

#[test]
fn merge_nested_objects() {
    let r = ConfigMerger::merge(
        &jv(r#"{"server": {"host": "localhost", "port": 3000}}"#),
        Some(&jv(r#"{"server": {"port": 8080}}"#)),
    );
    assert_eq!(to_json(&r), js(r#"{"server": {"host": "localhost", "port": 8080}}"#));
}

#[test]
fn arrays_are_replaced_not_merged() {
    let r = ConfigMerger::merge(&jv(r#"{"items": [1, 2, 3]}"#), Some(&jv(r#"{"items": [4, 5]}"#)));
    assert_eq!(to_json(&r), js(r#"{"items": [4, 5]}"#));
}

#[test]
fn merge_with_none_custom() {
    let r = ConfigMerger::merge(&jv(r#"{"a": 1}"#), None);
    assert_eq!(to_json(&r), js(r#"{"a": 1}"#));
}

#[test]
fn merge_does_not_mutate_originals() {
    let base = jv(r#"{"a": 1, "nested": {"x": 1}}"#);
    let custom = jv(r#"{"nested": {"y": 2}}"#);
    let r = ConfigMerger::merge(&base, Some(&custom));
    assert_eq!(to_json(&r)["nested"], js(r#"{"x": 1, "y": 2}"#));
    assert_eq!(to_json(&base)["nested"], js(r#"{"x": 1}"#));
}

#[test]
fn merge_deeply_nested() {
    let r = ConfigMerger::merge(
        &jv(r#"{"a": {"b": {"c": 1, "d": 2}}}"#),
        Some(&jv(r#"{"a": {"b": {"c": 99}}}"#)),
    );
    assert_eq!(to_json(&r), js(r#"{"a": {"b": {"c": 99, "d": 2}}}"#));
}

#[test]
fn merge_empty_custom() {
    let r = ConfigMerger::merge(&jv(r#"{"a": 1}"#), Some(&jv("{}")));
    assert_eq!(to_json(&r), js(r#"{"a": 1}"#));
}

#[test]
fn merge_empty_base() {
    let r = ConfigMerger::merge(&jv("{}"), Some(&jv(r#"{"a": 1}"#)));
    assert_eq!(to_json(&r), js(r#"{"a": 1}"#));
}

#[test]
fn merge_non_object_custom_replaces() {
    let r = ConfigMerger::merge(&jv(r#"{"a": 1}"#), Some(&jv("[1]")));
    assert_eq!(to_json(&r), js("[1]"));
    let r = ConfigMerger::merge(&jv("5"), Some(&jv(r#"{"a": 1}"#)));
    assert_eq!(to_json(&r), js(r#"{"a": 1}"#));
}

#[test]
fn merge_object_over_scalar_member() {
    let r = ConfigMerger::merge(&jv(r#"{"a": 1}"#), Some(&jv(r#"{"a": {"b": 2}}"#)));
    assert_eq!(to_json(&r), js(r#"{"a": {"b": 2}}"#));
}

#[test]
fn merge_keeps_base_key_order_and_appends_new() {
    let base = JsonValue::Object(vec![
        ("z".to_string(), JsonValue::Number("1".to_string())),
        ("a".to_string(), JsonValue::Number("2".to_string())),
    ]);
    let custom = JsonValue::Object(vec![
        ("m".to_string(), JsonValue::Number("3".to_string())),
        ("z".to_string(), JsonValue::Number("4".to_string())),
    ]);
    match ConfigMerger::merge(&base, Some(&custom)) {
        JsonValue::Object(es) => {
            let keys: Vec<&str> = es.iter().map(|(k, _)| k.as_str()).collect();
            assert_eq!(keys, vec!["z", "a", "m"]);
            assert_eq!(to_json(&es[0].1), js("4"));
        }
        other => panic!("unexpected {:?}", other),
    }
}

#[test]
fn merge_none_keeps_any_base() {
    let r = ConfigMerger::merge(&jv("5"), None);
    assert_eq!(to_json(&r), js("5"));
    let r = ConfigMerger::merge(&jv("[1, 2]"), None);
    assert_eq!(to_json(&r), js("[1, 2]"));
    let r = ConfigMerger::merge(&jv("5"), Some(&jv("{}")));
    assert_eq!(to_json(&r), js("{}"));
}
