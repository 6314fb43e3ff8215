#![allow(dead_code)]

use nacos_toolkit::manager::{determine_format, needs_override};
use nacos_toolkit::{ConfigError, ConfigRef, JsonValue, ManagerCache, NacosConnection, NacosParser};

fn js(text: &str) -> serde_json::Value {
    serde_json::from_str(text).unwrap()
}

fn from_json(v: &serde_json::Value) -> JsonValue {
    match v {
        serde_json::Value::Null => JsonValue::Null,
        serde_json::Value::Bool(b) => JsonValue::Bool(*b),
        serde_json::Value::Number(n) => JsonValue::Number(n.to_string()),
        serde_json::Value::String(s) => JsonValue::String(s.clone()),
        serde_json::Value::Array(a) => JsonValue::Array(a.iter().map(from_json).collect()),
        serde_json::Value::Object(m) => {
            JsonValue::Object(m.iter().map(|(k, x)| (k.clone(), from_json(x))).collect())
        }
    }
}

fn to_json(v: &JsonValue) -> serde_json::Value {
    match v {
        JsonValue::Null => serde_json::Value::Null,
        JsonValue::Bool(b) => serde_json::Value::Bool(*b),
        JsonValue::Number(t) => serde_json::Value::Number(t.parse().unwrap()),
        JsonValue::String(s) => serde_json::Value::String(s.clone()),
        JsonValue::Array(a) => serde_json::Value::Array(a.iter().map(to_json).collect()),
        JsonValue::Object(es) => {
            serde_json::Value::Object(es.iter().map(|(k, x)| (k.clone(), to_json(x))).collect())
        }
    }
}

fn jv(text: &str) -> JsonValue {
    from_json(&js(text))
}


fn contents(items: &[&str]) -> Vec<String> {
    items.iter().map(|s| s.to_string()).collect()
}

fn fetch(cache: &mut ManagerCache, items: &[&str], ns: &str, ovr: Option<(&str, &str)>) -> JsonValue {
    let stage = cache.process_bases(&contents(items), ns).unwrap();
    cache.finish(stage, ovr).unwrap()
}

#[test]
fn processes_last_config_against_all_bases() {
    let mut cache = ManagerCache::new();
    let r = fetch(
        &mut cache,
        &["db_host: mysql-server\ndb_port: \"3306\"", "env: dev1", "host: ${db_host}\nport: 8080"],
        "dev1",
        None,
    );
    let r = to_json(&r);
    assert_eq!(r["host"], js(r#""mysql-server""#));
    assert_eq!(r["port"], js("8080"));
    assert_eq!(r, js(r#"{"host": "mysql-server", "port": 8080}"#));
}

#[test]
fn debug_result_carries_raw() {
    let mut cache = ManagerCache::new();
    let config = fetch(&mut cache, &["key: value", "name: app"], "dev", None);
    let result = cache.result(config, true);
    assert_eq!(to_json(&result.raw.unwrap()), js(r#"{"key": "value", "name": "app"}"#));
    assert_eq!(to_json(&result.config), js(r#"{"name": "app"}"#));
    let config = cache.cached().unwrap();
    assert!(cache.result(config, false).raw.is_none());
}

#[test]
fn cache_holds_processed_config() {
    let mut cache = ManagerCache::new();
    assert!(cache.cached().is_none());
    let r1 = fetch(&mut cache, &["name: app"], "dev", None);
    let r2 = cache.cached().unwrap();
    assert_eq!(to_json(&r1), to_json(&r2));
}

#[test]
fn override_merges_on_top() {
    let mut cache = ManagerCache::new();
    let r = fetch(
        &mut cache,
        &["host: localhost\nport: 3000"],
        "dev",
        Some(("override.yml", "port: 9999\nextra: yes")),
    );
    let r = to_json(&r);
    assert_eq!(r["host"], js(r#""localhost""#));
    assert_eq!(r["port"], js("9999"));
    assert_eq!(r["extra"], js(r#""yes""#));
}

#[test]
fn json_override_parsed_as_json() {
    let mut cache = ManagerCache::new();
    let r = fetch(&mut cache, &["a: 1"], "dev", Some(("o.json", r#"{"b": "${a}"}"#)));
    assert_eq!(to_json(&r), js(r#"{"a": 1, "b": "1"}"#));
}

#[test]
fn deploy_env_is_namespace() {
    let mut cache = ManagerCache::new();
    let r = fetch(&mut cache, &["env: ${DEPLOY_ENV}"], "production", None);
    assert_eq!(to_json(&r)["env"], js(r#""production""#));
}

#[test]
fn clear_resets_both_caches() {
    let mut cache = ManagerCache::new();
    let r1 = fetch(&mut cache, &["name: app"], "dev", None);
    assert_eq!(to_json(&r1)["name"], js(r#""app""#));
    cache.clear();
    assert!(cache.raw_config().is_none());
    assert!(cache.cached().is_none());
    let r2 = fetch(&mut cache, &["name: app2"], "dev", None);
    assert_eq!(to_json(&r2)["name"], js(r#""app2""#));
}

#[test]
fn no_bases_gives_empty_config() {
    let mut cache = ManagerCache::new();
    let r = fetch(&mut cache, &[], "dev", None);
    assert_eq!(to_json(&r), js("{}"));
    assert_eq!(to_json(&cache.raw_config().unwrap()), js("{}"));
}

#[test]
fn cycle_is_reported() {
    let mut cache = ManagerCache::new();
    let r = cache.process_bases(&contents(&["a: ${b}\nb: ${a}"]), "dev");
    assert!(matches!(r, Err(ConfigError::UnresolvedTemplate)));
    let stage = cache.process_bases(&contents(&["a: 1"]), "dev").unwrap();
    let r = cache.finish(stage, Some(("o.yml", "b: ${c}\nc: ${b}")));
    assert!(matches!(r, Err(ConfigError::UnresolvedTemplate)));
    assert!(cache.cached().is_none());
}

#[test]
fn change_updates_cached_members() {
    let mut cache = ManagerCache::new();
    cache.apply_change("a: 1");
    assert!(cache.cached().is_none());
    fetch(&mut cache, &["a: 1\nb: 2"], "dev", None);
    cache.apply_change("b: 3\nc: 4");
    assert_eq!(to_json(&cache.cached().unwrap()), js(r#"{"a": 1, "b": 3, "c": 4}"#));
    cache.apply_change("- not an object");
    assert_eq!(to_json(&cache.cached().unwrap()), js(r#"{"a": 1, "b": 3, "c": 4}"#));
}

#[test]
fn format_by_data_id() {
    assert_eq!(determine_format("app.json"), NacosParser::Json);
    assert_eq!(determine_format("app.yml"), NacosParser::Yaml);
    assert_eq!(determine_format("app.JSON"), NacosParser::Yaml);
    assert_eq!(determine_format("json"), NacosParser::Yaml);
}

#[test]
fn override_needs_data_id() {
    assert!(!needs_override(None));
    assert!(!needs_override(Some(&ConfigRef::new("", "G"))));
    assert!(needs_override(Some(&ConfigRef::new("o.yml", "G"))));
}

#[test]
fn config_ref_and_connection_defaults() {
    let c = ConfigRef::new("app.yml", "DEFAULT_GROUP");
    assert_eq!(c.data_id, "app.yml");
    assert_eq!(c.group, "DEFAULT_GROUP");
    let n = NacosConnection::default();
    assert!(n.server_addr.is_empty() && n.namespace.is_empty());
    assert!(n.username.is_empty() && n.password.is_empty());
    assert!(n.use_grpc);
}

#[test]
fn raw_variables_hold_only_base_keys() {
    let mut cache = ManagerCache::new();
    assert!(cache.raw_config().is_none());
    fetch(&mut cache, &["a: 1", "b: ${DEPLOY_ENV}"], "prod", None);
    let raw = to_json(&cache.raw_config().unwrap());
    assert_eq!(raw, js(r#"{"a": 1, "b": "${DEPLOY_ENV}"}"#));
    assert!(raw.get("DEPLOY_ENV").is_none());
    assert_eq!(to_json(&cache.cached().unwrap()), js(r#"{"b": "prod"}"#));
}

#[test]
fn cache_answers_until_cleared() {
    let mut cache = ManagerCache::new();
    let c = fetch(&mut cache, &["name: app"], "dev", None);
    let _ = cache.process_bases(&contents(&["name: other"]), "dev");
    let _ = cache.raw_config();
    assert_eq!(to_json(&cache.cached().unwrap()), to_json(&c));
    cache.clear();
    assert!(cache.cached().is_none());
}
