#![allow(dead_code)]

use nacos_toolkit::{JsonValue, NacosConfigUtils, NacosParser, RawConfig};

fn js(text: &str) -> serde_json::Value {
    serde_json::from_str(text).unwrap()
}

fn from_json(v: &serde_json::Value) -> JsonValue {
    match v {
        serde_json::Value::Null => JsonValue::Null,
        serde_json::Value::Bool(b) => JsonValue::Bool(*b),
        serde_json::Value::Number(n) => JsonValue::Number(n.to_string()),
        serde_json::Value::String(s) => JsonValue::String(s.clone()),
        serde_json::Value::Array(a) => JsonValue::Array(a.iter().map(from_json).collect()),
        serde_json::Value::Object(m) => {
            JsonValue::Object(m.iter().map(|(k, x)| (k.clone(), from_json(x))).collect())
        }
    }
}

fn to_json(v: &JsonValue) -> serde_json::Value {
    match v {
        JsonValue::Null => serde_json::Value::Null,
        JsonValue::Bool(b) => serde_json::Value::Bool(*b),
        JsonValue::Number(t) => serde_json::Value::Number(t.parse().unwrap()),
        JsonValue::String(s) => serde_json::Value::String(s.clone()),
        JsonValue::Array(a) => serde_json::Value::Array(a.iter().map(to_json).collect()),
        JsonValue::Object(es) => {
            serde_json::Value::Object(es.iter().map(|(k, x)| (k.clone(), to_json(x))).collect())
        }
    }
}

fn jv(text: &str) -> JsonValue {
    from_json(&js(text))
}


#[test]
fn matches_python_on_complex_template_graph() {
    let yaml = r#"
proto: https
host: api.example.com
base: ${proto}://${host}
endpoints:
  - ${base}/users
  - ${base}/orders
nested:
  url: ${base}/v2
cors:
  whitelist: 'http://a.com, http://b.com, http://c.com'
port: 8080
ref: ${nested.url}
"#;
    let r = NacosConfigUtils::process_configuration(
        RawConfig::text(yaml),
        NacosParser::Yaml,
        Some(&jv(r#"{"EXTRA": "x"}"#)),
        None,
    );
    let expected = js(r#"{
        "base": "https://api.example.com",
        "cors": {"whitelist": ["http://a.com", "http://b.com", "http://c.com"]},
        "endpoints": ["https://api.example.com/users", "https://api.example.com/orders"],
        "host": "api.example.com",
        "nested": {"url": "https://api.example.com/v2"},
        "port": 8080,
        "proto": "https",
        "ref": "https://api.example.com/v2"
    }"#);
    assert_eq!(to_json(&r), expected);
}
