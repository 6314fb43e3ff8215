#![allow(dead_code)]

use nacos_toolkit::{JsonValue, TemplateEngine};

fn js(text: &str) -> serde_json::Value {
    serde_json::from_str(text).unwrap()
}

fn from_json(v: &serde_json::Value) -> JsonValue {
    match v {
        serde_json::Value::Null => JsonValue::Null,
        serde_json::Value::Bool(b) => JsonValue::Bool(*b),
        serde_json::Value::Number(n) => JsonValue::Number(n.to_string()),
        serde_json::Value::String(s) => JsonValue::String(s.clone()),
        serde_json::Value::Array(a) => JsonValue::Array(a.iter().map(from_json).collect()),
        serde_json::Value::Object(m) => {
            JsonValue::Object(m.iter().map(|(k, x)| (k.clone(), from_json(x))).collect())
        }
    }
}

fn to_json(v: &JsonValue) -> serde_json::Value {
    match v {
        JsonValue::Null => serde_json::Value::Null,
        JsonValue::Bool(b) => serde_json::Value::Bool(*b),
        JsonValue::Number(t) => serde_json::Value::Number(t.parse().unwrap()),
        JsonValue::String(s) => serde_json::Value::String(s.clone()),
        JsonValue::Array(a) => serde_json::Value::Array(a.iter().map(to_json).collect()),
        JsonValue::Object(es) => {
            serde_json::Value::Object(es.iter().map(|(k, x)| (k.clone(), to_json(x))).collect())
        }
    }
}

fn jv(text: &str) -> JsonValue {
    from_json(&js(text))
}


// ---- contains_template ----

#[test]
fn detects_template_expression() {
    assert!(TemplateEngine::contains_template("${HOST}"));
}

#[test]
fn no_template() {
    assert!(!TemplateEngine::contains_template("just text"));
}

#[test]
fn template_in_mixed_text() {
    assert!(TemplateEngine::contains_template("http://${HOST}:${PORT}"));
}

#[test]
fn empty_string() {
    assert!(!TemplateEngine::contains_template(""));
}

#[test]
fn empty_braces_are_no_template() {
    assert!(!TemplateEngine::contains_template("${}"));
    assert!(TemplateEngine::contains_template("${${a}"));
    assert!(!TemplateEngine::contains_template("${a"));
}

// ---- is_text_only ----

#[test]
fn plain_text_is_text_only() {
    assert!(TemplateEngine::is_text_only(&jv(r#""hello""#)));
}

#[test]
fn non_string_is_text_only() {
    assert!(TemplateEngine::is_text_only(&jv("123")));
}

#[test]
fn template_is_not_text_only() {
    assert!(!TemplateEngine::is_text_only(&jv(r#""${VAR}""#)));
}

#[test]
fn mixed_text_is_not_text_only() {
    assert!(!TemplateEngine::is_text_only(&jv(r#""http://${HOST}""#)));
}

// ---- render_text ----

#[test]
fn simple_variable_substitution() {
    let r = TemplateEngine::render_text("${HOST}", &jv(r#"{"HOST": "localhost"}"#));
    assert_eq!(r, "localhost");
}

#[test]
fn multiple_variables() {
    let r = TemplateEngine::render_text(
        "${HOST}:${PORT}",
        &jv(r#"{"HOST": "localhost", "PORT": "8080"}"#),
    );
    assert_eq!(r, "localhost:8080");
}

#[test]
fn undefined_variable_keeps_original() {
    let r = TemplateEngine::render_text("${UNKNOWN}", &jv("{}"));
    assert_eq!(r, "${UNKNOWN}");
}

#[test]
fn nested_variable_resolution() {
    let ctx = jv(r#"{"URL": "${HOST}:${PORT}", "HOST": "localhost", "PORT": "3000"}"#);
    let r = TemplateEngine::render_text("${URL}", &ctx);
    assert_eq!(r, "localhost:3000");
}

#[test]
fn max_render_depth_prevents_infinite_loop() {
    let ctx = jv(r#"{"A": "${B}", "B": "${A}"}"#);
    let r = TemplateEngine::render_text("${A}", &ctx);
    // Just must terminate and return a string.
    assert!(r.contains("${"));
}

#[test]
fn render_text_scalars_and_containers() {
    let ctx = jv(r#"{"n": 42, "b": true, "z": null, "o": {"x": 1}, "a": [1, "y"]}"#);
    assert_eq!(TemplateEngine::render_text("${n}-${b}", &ctx), "42-true");
    assert_eq!(TemplateEngine::render_text("${z}", &ctx), "${z}");
    assert_eq!(TemplateEngine::render_text("o=${o}", &ctx), r#"o={"x":1}"#);
    assert_eq!(TemplateEngine::render_text("a=${a}", &ctx), r#"a=[1,"y"]"#);
}

#[test]
fn render_text_dot_notation_and_null_step() {
    let ctx = jv(r#"{"redis": {"hostname": "h1"}, "nul": null}"#);
    assert_eq!(TemplateEngine::render_text("${redis.hostname}", &ctx), "h1");
    assert_eq!(TemplateEngine::render_text("${nul.x}", &ctx), "${nul.x}");
}

#[test]
fn render_text_stops_after_five_passes() {
    // Each pass exposes one more level; the sixth level stays unresolved.
    let ctx = jv(
        r#"{"L1": "${L2}", "L2": "${L3}", "L3": "${L4}", "L4": "${L5}", "L5": "${L6}", "L6": "end"}"#,
    );
    assert_eq!(TemplateEngine::render_text("${L1}", &ctx), "${L6}");
    assert_eq!(TemplateEngine::render_text("${L2}", &ctx), "end");
}

// ---- render ----

#[test]
fn render_simple_config() {
    let config = jv(r#"{"host": "${HOST}", "port": "${PORT}"}"#);
    let ctx = jv(r#"{"HOST": "localhost", "PORT": "8080"}"#);
    let r = to_json(&TemplateEngine::render(&config, &ctx));
    assert_eq!(r["host"], js(r#""localhost""#));
    assert_eq!(r["port"], js(r#""8080""#));
}

#[test]
fn render_nested_config() {
    let config = jv(r#"{"server": {"host": "${HOST}", "port": 3000}}"#);
    let ctx = jv(r#"{"HOST": "localhost"}"#);
    let r = to_json(&TemplateEngine::render(&config, &ctx));
    assert_eq!(r["server"]["host"], js(r#""localhost""#));
    assert_eq!(r["server"]["port"], js("3000"));
}

#[test]
fn render_preserves_arrays() {
    let config = jv(r#"{"whitelist": ["http://a.com", "http://b.com"]}"#);
    let r = to_json(&TemplateEngine::render(&config, &jv("{}")));
    assert_eq!(r["whitelist"], js(r#"["http://a.com", "http://b.com"]"#));
}

#[test]
fn render_templates_in_array_items() {
    let config = jv(r#"{"urls": ["${BASE_URL}", "http://localhost"]}"#);
    let ctx = jv(r#"{"BASE_URL": "http://example.com"}"#);
    let r = to_json(&TemplateEngine::render(&config, &ctx));
    assert_eq!(r["urls"], js(r#"["http://example.com", "http://localhost"]"#));
}

#[test]
fn render_objects_in_array() {
    let config = jv(r#"{"apis": [{"url": "${API_HOST}/users"}]}"#);
    let ctx = jv(r#"{"API_HOST": "http://api.com"}"#);
    let r = to_json(&TemplateEngine::render(&config, &ctx));
    assert_eq!(r["apis"][0]["url"], js(r#""http://api.com/users""#));
}

#[test]
fn render_with_nested_template_references() {
    let config = jv(r#"{"full_url": "${URL}"}"#);
    let ctx = jv(r#"{"URL": "${PROTO}://${HOST}", "PROTO": "https", "HOST": "example.com"}"#);
    let r = to_json(&TemplateEngine::render(&config, &ctx));
    assert_eq!(r["full_url"], js(r#""https://example.com""#));
}

#[test]
fn render_preserves_non_string_values() {
    let config = jv(r#"{"enabled": true, "count": 42, "name": "${NAME}"}"#);
    let ctx = jv(r#"{"NAME": "test"}"#);
    let r = to_json(&TemplateEngine::render(&config, &ctx));
    assert_eq!(r["enabled"], js("true"));
    assert_eq!(r["count"], js("42"));
    assert_eq!(r["name"], js(r#""test""#));
}

#[test]
fn render_does_not_mutate_original() {
    let config = jv(r#"{"host": "${HOST}"}"#);
    let ctx = jv(r#"{"HOST": "localhost"}"#);
    let r = to_json(&TemplateEngine::render(&config, &ctx));
    assert_eq!(r["host"], js(r#""localhost""#));
    assert_eq!(to_json(&config)["host"], js(r#""${HOST}""#));
}

#[test]
fn render_enriches_context_with_resolved_params() {
    let config = jv(r#"{"db_url": "${DB_HOST}:${DB_PORT}"}"#);
    let ctx = jv(r#"{"DB_HOST": "mysql-server", "DB_PORT": "3306"}"#);
    let r = to_json(&TemplateEngine::render(&config, &ctx));
    assert_eq!(r["db_url"], js(r#""mysql-server:3306""#));
}

#[test]
fn render_handles_dot_notation_in_context() {
    let config = jv(r#"{"url": "${api.host}"}"#);
    let ctx = jv(r#"{"api": {"host": "http://api.com"}}"#);
    let r = to_json(&TemplateEngine::render(&config, &ctx));
    assert_eq!(r["url"], js(r#""http://api.com""#));
}

// ---- whole-value placeholder: container type preservation ----

#[test]
fn render_account_dict_via_whole_placeholder() {
    let config = jv(r#"{"gcp": {"account": "${platform.gcp.account}"}}"#);
    let ctx = jv(
        r#"{"platform": {"gcp": {"account": {"type": "service_account", "project_id": "bigdata"}}}}"#,
    );
    let r = to_json(&TemplateEngine::render(&config, &ctx));
    assert_eq!(
        r["gcp"]["account"],
        js(r#"{"type": "service_account", "project_id": "bigdata"}"#)
    );
}

#[test]
fn render_list_via_whole_placeholder() {
    let config = jv(r#"{"kb_list": "${platform.kb_list}"}"#);
    let ctx = jv(r#"{"platform": {"kb_list": ["medical", "diagnosis"]}}"#);
    let r = to_json(&TemplateEngine::render(&config, &ctx));
    assert_eq!(r["kb_list"], js(r#"["medical", "diagnosis"]"#));
}

#[test]
fn render_inner_placeholders_of_substituted_dict() {
    let config = jv(r#"{"open_api": "${platform.open_api}"}"#);
    let ctx = jv(
        r#"{"platform": {"open_api": {"base_url": "http://${DEPLOY_ENV}.example.com", "is_action": false}}, "DEPLOY_ENV": "test3"}"#,
    );
    let r = to_json(&TemplateEngine::render(&config, &ctx));
    assert_eq!(r["open_api"]["base_url"], js(r#""http://test3.example.com""#));
    assert_eq!(r["open_api"]["is_action"], js("false"));
}

#[test]
fn render_scalar_whole_placeholder_still_substitutes() {
    let config = jv(r#"{"host": "${platform.host}"}"#);
    let ctx = jv(r#"{"platform": {"host": "localhost"}}"#);
    let r = to_json(&TemplateEngine::render(&config, &ctx));
    assert_eq!(r["host"], js(r#""localhost""#));
}

#[test]
fn render_self_referential_container_terminates() {
    let config = jv(r#"{"x": "${a}"}"#);
    let ctx = jv(r#"{"a": {"inner": "${a}"}}"#);
    let r = to_json(&TemplateEngine::render(&config, &ctx));
    assert!(r["x"].is_object());
}

#[test]
fn render_checked_reports_repeating_chain() {
    let config = jv(r#"{"v": "${a}"}"#);
    let ctx = jv(r#"{"a": "${b}", "b": "${a}"}"#);
    assert!(TemplateEngine::render_checked(&config, &ctx).is_none());
    let ok = TemplateEngine::render_checked(&config, &jv(r#"{"a": "y"}"#)).unwrap();
    assert_eq!(to_json(&ok), js(r#"{"v": "y"}"#));
}

#[test]
fn law_undefined_kept_example() {
    let t = "a ${x} b ${y.z} ${";
    assert_eq!(TemplateEngine::render_text(t, &jv("{}")), t);
    assert_eq!(TemplateEngine::render_text(t, &jv(r#"{"x": null, "y": 1, "q": "w"}"#)), t);
}

#[test]
fn law_plain_text_unchanged_example() {
    let t = "no {placeholders} here $ {";
    assert_eq!(TemplateEngine::render_text(t, &jv(r#"{"placeholders": "x"}"#)), t);
}

#[test]
fn law_render_keeps_shape_example() {
    let config = jv(r#"{"b": 1, "a": "${x}", "c": null}"#);
    let r = TemplateEngine::render(&config, &jv(r#"{"x": "X"}"#));
    match r {
        JsonValue::Object(es) => {
            let keys: Vec<&str> = es.iter().map(|(k, _)| k.as_str()).collect();
            let orig: Vec<String> = match &config {
                JsonValue::Object(o) => o.iter().map(|(k, _)| k.clone()).collect(),
                _ => unreachable!(),
            };
            assert_eq!(keys, orig.iter().map(|s| s.as_str()).collect::<Vec<_>>());
        }
        _ => panic!("not an object"),
    }
}

#[test]
fn plain_config_renders_unchanged() {
    let config = jv(r#"{"a": [1, "x", {"b": null}, [["$"]]], "c": {"d": "e}", "f": true}, "g": "${}"}"#);
    let ctx = jv(r#"{"x": "y", "e": 1}"#);
    let r = TemplateEngine::render(&config, &ctx);
    assert_eq!(to_json(&r), to_json(&config));
}

#[test]
fn render_checked_follows_long_chain() {
    let mut members = vec![("v0".to_string(), JsonValue::String("end".to_string()))];
    for i in 1..400 {
        members.push((format!("v{}", i), JsonValue::String(format!("${{v{}}}", i - 1))));
    }
    let ctx = JsonValue::Object(members);
    let config = jv(r#"{"out": "${v399}"}"#);
    let r = TemplateEngine::render_checked(&config, &ctx).expect("chain settles");
    assert_eq!(to_json(&r), js(r#"{"out": "end"}"#));
}

#[test]
fn render_keeps_array_shape() {
    let config = jv(r#"{"a": ["${x}", 1, null, ["${x}"], {"k": "${x}"}]}"#);
    let r = TemplateEngine::render(&config, &jv(r#"{"x": "v"}"#));
    assert_eq!(to_json(&r), js(r#"{"a": ["v", 1, null, ["${x}"], {"k": "v"}]}"#));
}
