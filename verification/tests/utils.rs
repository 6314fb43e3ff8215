#![allow(dead_code)]

use nacos_toolkit::{JsonValue, NacosConfigUtils, NacosParser, RawConfig};

fn js(text: &str) -> serde_json::Value {
    serde_json::from_str(text).unwrap()
}

fn from_json(v: &serde_json::Value) -> JsonValue {
    match v {
        serde_json::Value::Null => JsonValue::Null,
        serde_json::Value::Bool(b) => JsonValue::Bool(*b),
        serde_json::Value::Number(n) => JsonValue::Number(n.to_string()),
        serde_json::Value::String(s) => JsonValue::String(s.clone()),
        serde_json::Value::Array(a) => JsonValue::Array(a.iter().map(from_json).collect()),
        serde_json::Value::Object(m) => {
            JsonValue::Object(m.iter().map(|(k, x)| (k.clone(), from_json(x))).collect())
        }
    }
}

fn to_json(v: &JsonValue) -> serde_json::Value {
    match v {
        JsonValue::Null => serde_json::Value::Null,
        JsonValue::Bool(b) => serde_json::Value::Bool(*b),
        JsonValue::Number(t) => serde_json::Value::Number(t.parse().unwrap()),
        JsonValue::String(s) => serde_json::Value::String(s.clone()),
        JsonValue::Array(a) => serde_json::Value::Array(a.iter().map(to_json).collect()),
        JsonValue::Object(es) => {
            serde_json::Value::Object(es.iter().map(|(k, x)| (k.clone(), to_json(x))).collect())
        }
    }
}

fn jv(text: &str) -> JsonValue {
    from_json(&js(text))
}


fn process(text: &str, fmt: NacosParser, vars: Option<&JsonValue>) -> serde_json::Value {
    to_json(&NacosConfigUtils::process_configuration(RawConfig::text(text), fmt, vars, None))
}

// ---- get_nested_property ----

#[test]
fn get_simple_key() {
    let r = NacosConfigUtils::get_nested_property(&jv(r#"{"a": 1}"#), "a");
    assert_eq!(r.map(|v| to_json(&v)), Some(js("1")));
}

#[test]
fn get_nested_key() {
    let r = NacosConfigUtils::get_nested_property(&jv(r#"{"a": {"b": 2}}"#), "a.b");
    assert_eq!(r.map(|v| to_json(&v)), Some(js("2")));
}

#[test]
fn get_missing_key() {
    let r = NacosConfigUtils::get_nested_property(&jv(r#"{"a": 1}"#), "b");
    assert!(r.is_none());
}

#[test]
fn get_deeply_nested() {
    let obj = jv(r#"{"a": {"b": {"c": {"d": 42}}}}"#);
    let r = NacosConfigUtils::get_nested_property(&obj, "a.b.c.d");
    assert_eq!(r.map(|v| to_json(&v)), Some(js("42")));
}

#[test]
fn get_none_intermediate() {
    let r = NacosConfigUtils::get_nested_property(&jv(r#"{"a": null}"#), "a.b");
    assert!(r.is_none());
}

#[test]
fn get_null_leaf_is_none() {
    let r = NacosConfigUtils::get_nested_property(&jv(r#"{"a": {"b": null}}"#), "a.b");
    assert!(r.is_none());
    let r = NacosConfigUtils::get_nested_property(&jv(r#"{"a": 5}"#), "a.b");
    assert!(r.is_none());
}

// ---- set_nested_property ----

#[test]
fn set_simple() {
    let mut obj = jv("{}");
    NacosConfigUtils::set_nested_property(&mut obj, "a", jv("1"));
    assert_eq!(to_json(&obj), js(r#"{"a": 1}"#));
}

#[test]
fn set_nested() {
    let mut obj = jv("{}");
    NacosConfigUtils::set_nested_property(&mut obj, "a.b", jv("2"));
    assert_eq!(to_json(&obj), js(r#"{"a": {"b": 2}}"#));
}

#[test]
fn set_overwrite_existing() {
    let mut obj = jv(r#"{"a": {"b": 1}}"#);
    NacosConfigUtils::set_nested_property(&mut obj, "a.b", jv("99"));
    assert_eq!(to_json(&obj), js(r#"{"a": {"b": 99}}"#));
}

#[test]
fn set_replaces_non_object_intermediate() {
    let mut obj = jv(r#"{"a": 1, "c": true}"#);
    NacosConfigUtils::set_nested_property(&mut obj, "a.b", jv("2"));
    assert_eq!(to_json(&obj), js(r#"{"a": {"b": 2}, "c": true}"#));
}

#[test]
fn set_on_non_object_does_nothing() {
    let mut obj = jv("[1, 2]");
    NacosConfigUtils::set_nested_property(&mut obj, "a", jv("2"));
    assert_eq!(to_json(&obj), js("[1, 2]"));
}

#[test]
fn get_after_set_reads_back() {
    let mut obj = jv(r#"{"x": {"y": 3}, "a": "s"}"#);
    NacosConfigUtils::set_nested_property(&mut obj, "a.b.c", jv(r#"[7]"#));
    let r = NacosConfigUtils::get_nested_property(&obj, "a.b.c");
    assert_eq!(r.map(|v| to_json(&v)), Some(js("[7]")));
    assert_eq!(to_json(&obj)["x"], js(r#"{"y": 3}"#));
}

// ---- convert_string_fields_to_arrays ----

#[test]
fn converts_comma_separated_string() {
    let config = jv(r#"{"cors": {"whitelist": "http://a.com, http://b.com"}}"#);
    let r = NacosConfigUtils::convert_string_fields_to_arrays(config, &["cors.whitelist"]);
    assert_eq!(to_json(&r)["cors"]["whitelist"], js(r#"["http://a.com", "http://b.com"]"#));
}

#[test]
fn no_comma_keeps_string() {
    let config = jv(r#"{"cors": {"whitelist": "http://a.com"}}"#);
    let r = NacosConfigUtils::convert_string_fields_to_arrays(config, &["cors.whitelist"]);
    assert_eq!(to_json(&r)["cors"]["whitelist"], js(r#""http://a.com""#));
}

#[test]
fn already_array_unchanged() {
    let config = jv(r#"{"cors": {"whitelist": ["http://a.com", "http://b.com"]}}"#);
    let r = NacosConfigUtils::convert_string_fields_to_arrays(config, &["cors.whitelist"]);
    assert_eq!(to_json(&r)["cors"]["whitelist"], js(r#"["http://a.com", "http://b.com"]"#));
}

#[test]
fn missing_field_no_error() {
    let config = jv(r#"{"other": "value"}"#);
    let r = NacosConfigUtils::convert_string_fields_to_arrays(config, &["cors.whitelist"]);
    assert_eq!(to_json(&r), js(r#"{"other": "value"}"#));
}

#[test]
fn trims_whitespace() {
    let config = jv(r#"{"tags": "a , b , c"}"#);
    let r = NacosConfigUtils::convert_string_fields_to_arrays(config, &["tags"]);
    assert_eq!(to_json(&r)["tags"], js(r#"["a", "b", "c"]"#));
}

#[test]
fn split_keeps_empty_items() {
    let config = jv(r#"{"tags": ",a,, b ,"}"#);
    let r = NacosConfigUtils::convert_string_fields_to_arrays(config, &["tags"]);
    assert_eq!(to_json(&r)["tags"], js(r#"["", "a", "", "b", ""]"#));
}

#[test]
fn converts_several_fields_in_order() {
    let config = jv(r#"{"a": "1,2", "b": {"c": "x, y"}, "d": "z"}"#);
    let r = NacosConfigUtils::convert_string_fields_to_arrays(config, &["a", "b.c", "d", "e.f"]);
    assert_eq!(
        to_json(&r),
        js(r#"{"a": ["1", "2"], "b": {"c": ["x", "y"]}, "d": "z"}"#)
    );
}

#[test]
fn utils_contains_template() {
    assert!(NacosConfigUtils::contains_template("a ${b} c"));
    assert!(!NacosConfigUtils::contains_template("a ${} c"));
    assert!(!NacosConfigUtils::contains_template("a $b c"));
}

// ---- process_configuration ----

#[test]
fn basic_yaml_processing() {
    let r = process("name: test\nport: 8080", NacosParser::Yaml, None);
    assert_eq!(r, js(r#"{"name": "test", "port": 8080}"#));
}

#[test]
fn yaml_with_template_vars() {
    let r = process("host: ${HOST}\nport: 3000", NacosParser::Yaml, Some(&jv(r#"{"HOST": "localhost"}"#)));
    assert_eq!(r["host"], js(r#""localhost""#));
    assert_eq!(r["port"], js("3000"));
}

#[test]
fn json_processing() {
    let r = process(r#"{"name": "test"}"#, NacosParser::Json, None);
    assert_eq!(r, js(r#"{"name": "test"}"#));
}

#[test]
fn self_referencing_variables() {
    let r = process("host: localhost\nurl: http://${host}:8080", NacosParser::Yaml, None);
    assert_eq!(r["url"], js(r#""http://localhost:8080""#));
}

#[test]
fn default_cors_whitelist_conversion() {
    let r = process("cors:\n  whitelist: 'http://a.com, http://b.com'", NacosParser::Yaml, None);
    assert_eq!(r["cors"]["whitelist"], js(r#"["http://a.com", "http://b.com"]"#));
}

#[test]
fn preserves_yaml_arrays() {
    let yaml = "cors:\n  whitelist:\n    - http://localhost:8000\n    - http://example.com\nlogLevel: info";
    let r = process(yaml, NacosParser::Yaml, None);
    assert_eq!(r["cors"]["whitelist"], js(r#"["http://localhost:8000", "http://example.com"]"#));
    assert_eq!(r["logLevel"], js(r#""info""#));
}

#[test]
fn utils_arrays_with_template_variables() {
    let yaml = "cors:\n  whitelist:\n    - ${BASE_URL}\n    - http://localhost:8000\n    - ${CUSTOM_DOMAIN}";
    let vars = jv(r#"{"BASE_URL": "http://example.com", "CUSTOM_DOMAIN": "http://custom.com"}"#);
    let r = process(yaml, NacosParser::Yaml, Some(&vars));
    assert_eq!(
        r["cors"]["whitelist"],
        js(r#"["http://example.com", "http://localhost:8000", "http://custom.com"]"#)
    );
}

#[test]
fn mixed_types() {
    let yaml = r#"
features:
  apis:
    - name: user
      endpoints: ["/api/user", "/api/profile"]
    - name: auth
      endpoints: ["/api/login", "/api/logout"]
  enabled: true
  count: 42
"#;
    let r = process(yaml, NacosParser::Yaml, None);
    assert_eq!(r["features"]["apis"].as_array().unwrap().len(), 2);
    assert_eq!(r["features"]["apis"][0]["endpoints"], js(r#"["/api/user", "/api/profile"]"#));
    assert_eq!(r["features"]["enabled"], js("true"));
    assert_eq!(r["features"]["count"], js("42"));
}

#[test]
fn real_whitelist_issue() {
    let yaml = "cors:\n  whitelist:\n    - http://web-app-dev.dev1.eks.example.com\n    - http://localhost:8000";
    let r = process(yaml, NacosParser::Yaml, None);
    assert_eq!(
        r["cors"]["whitelist"],
        js(r#"["http://web-app-dev.dev1.eks.example.com", "http://localhost:8000"]"#)
    );
}

#[test]
fn parsed_config_wins_over_external_vars() {
    let r = process("host: inner\nurl: ${host}", NacosParser::Yaml, Some(&jv(r#"{"host": "outer"}"#)));
    assert_eq!(r["url"], js(r#""inner""#));
}

#[test]
fn explicit_convert_fields_replace_default() {
    let r = NacosConfigUtils::process_configuration(
        RawConfig::text("cors:\n  whitelist: 'a, b'\ntags: 'x, y'"),
        NacosParser::Yaml,
        None,
        Some(&["tags"]),
    );
    let r = to_json(&r);
    assert_eq!(r["cors"]["whitelist"], js(r#""a, b""#));
    assert_eq!(r["tags"], js(r#"["x", "y"]"#));
}

#[test]
fn checked_processing_rejects_repeating_cycle() {
    let r = NacosConfigUtils::process_configuration_checked(
        RawConfig::text("a: ${b}\nb: ${a}"),
        NacosParser::Yaml,
        None,
        None,
    );
    assert!(r.is_none());
    let r = NacosConfigUtils::process_configuration_checked(
        RawConfig::text("a: 1\nb: ${a}"),
        NacosParser::Yaml,
        None,
        None,
    );
    assert_eq!(to_json(&r.unwrap()), js(r#"{"a": 1, "b": "1"}"#));
}

// ---- process_and_merge_custom_config ----

#[test]
fn merge_custom_overrides_base() {
    let base = jv(r#"{"host": "localhost", "port": 3000}"#);
    let r = NacosConfigUtils::process_and_merge_custom_config(
        &base,
        RawConfig::text("port: 8080\nnewKey: value"),
        NacosParser::Yaml,
        None,
        None,
    );
    let r = to_json(&r);
    assert_eq!(r["host"], js(r#""localhost""#));
    assert_eq!(r["port"], js("8080"));
    assert_eq!(r["newKey"], js(r#""value""#));
}

#[test]
fn custom_can_use_base_vars() {
    let base = jv(r#"{"host": "localhost", "port": 3000}"#);
    let r = NacosConfigUtils::process_and_merge_custom_config(
        &base,
        RawConfig::text("url: http://${host}:${port}"),
        NacosParser::Yaml,
        None,
        None,
    );
    assert_eq!(to_json(&r)["url"], js(r#""http://localhost:3000""#));
}

#[test]
fn external_vars_available() {
    let base = jv(r#"{"host": "localhost"}"#);
    let r = NacosConfigUtils::process_and_merge_custom_config(
        &base,
        RawConfig::text("env: ${DEPLOY_ENV}"),
        NacosParser::Yaml,
        Some(&jv(r#"{"DEPLOY_ENV": "production"}"#)),
        None,
    );
    assert_eq!(to_json(&r)["env"], js(r#""production""#));
}

#[test]
fn json_custom_config() {
    let base = jv(r#"{"a": 1}"#);
    let r = NacosConfigUtils::process_and_merge_custom_config(
        &base,
        RawConfig::text(r#"{"b": 2}"#),
        NacosParser::Json,
        None,
        None,
    );
    assert_eq!(to_json(&r), js(r#"{"a": 1, "b": 2}"#));
}

#[test]
fn base_wins_over_external_vars_in_custom() {
    let base = jv(r#"{"host": "base"}"#);
    let r = NacosConfigUtils::process_and_merge_custom_config_checked(
        &base,
        RawConfig::text("url: ${host}"),
        NacosParser::Yaml,
        Some(&jv(r#"{"host": "ext"}"#)),
        None,
    );
    assert_eq!(to_json(&r.unwrap())["url"], js(r#""base""#));
}

#[test]
fn merge_configurations_delegates() {
    let r = NacosConfigUtils::merge_configurations(&jv(r#"{"a": 1}"#), Some(&jv(r#"{"b": 2}"#)));
    assert_eq!(to_json(&r), js(r#"{"a": 1, "b": 2}"#));
}

#[test]
fn set_keeps_other_members() {
    let mut obj = jv(r#"{"a": {"b": 1, "keep": true}, "c": [1], "d": "x"}"#);
    NacosConfigUtils::set_nested_property(&mut obj, "a.b.z", jv("2"));
    assert_eq!(
        to_json(&obj),
        js(r#"{"a": {"b": {"z": 2}, "keep": true}, "c": [1], "d": "x"}"#)
    );
}
