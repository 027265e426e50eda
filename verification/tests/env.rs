use cloudiful_config::env::{apply_env_overrides, env_overrides, key_segments_from, parse_env_value};
use cloudiful_config::json::{key_precedes, merge_json, JsonValue};

fn to_lib(v: &serde_json::Value) -> JsonValue {
    match v {
        serde_json::Value::Null => JsonValue::Null,
        serde_json::Value::Bool(b) => JsonValue::Bool(*b),
        serde_json::Value::Number(n) => JsonValue::Number(n.to_string()),
        serde_json::Value::String(s) => JsonValue::Str(s.clone()),
        serde_json::Value::Array(items) => JsonValue::Array(items.iter().map(to_lib).collect()),
        serde_json::Value::Object(map) => {
            JsonValue::Object(map.iter().map(|(k, v)| (k.clone(), to_lib(v))).collect())
        }
    }
}

fn to_serde(v: &JsonValue) -> serde_json::Value {
    match v {
        JsonValue::Null => serde_json::Value::Null,
        JsonValue::Bool(b) => serde_json::Value::Bool(*b),
        JsonValue::Number(n) => serde_json::from_str(n).unwrap(),
        JsonValue::Str(s) => serde_json::Value::String(s.clone()),
        JsonValue::Array(items) => serde_json::Value::Array(items.iter().map(to_serde).collect()),
        JsonValue::Object(entries) => {
            let mut map = serde_json::Map::new();
            for (k, v) in entries {
                map.insert(k.clone(), to_serde(v));
            }
            serde_json::Value::Object(map)
        }
    }
}

fn json(text: &str) -> serde_json::Value {
    serde_json::from_str(text).unwrap()
}

/// An environment variable as the application layer hands it over: its raw
/// text parsed as JSON when it is JSON.
fn var(name: &str, raw: &str) -> (String, JsonValue) {
    (name.to_string(), parse_env_value(raw.to_string()))
}

fn apply(base: &str, vars: &[(&str, &str)], prefix: &str) -> serde_json::Value {
    let vars: Vec<(String, JsonValue)> = vars.iter().map(|(n, r)| var(n, r)).collect();
    to_serde(&apply_env_overrides(to_lib(&json(base)), vars, prefix))
}

/// The fields that the application's `EnvConf` type reads; any other key is
/// ignored when the document is deserialized into it.
fn env_conf_fields(conf: &serde_json::Value) -> Vec<serde_json::Value> {
    ["host", "port", "debug", "tags", "database"].iter().map(|k| conf[*k].clone()).collect()
}

const ENV_CONF_DEFAULT: &str = r#"{
    "host": "127.0.0.1",
    "port": 8080,
    "debug": false,
    "tags": ["default"],
    "database": {"url": "sqlite:///tmp/default.db", "pool_size": 5}
}"#;

#[test]
fn tests_env_object_override_replaces_scalar_intermediate_node() {
    let merged = apply(
        r#"{"database": "from-default"}"#,
        &[("APP_DATABASE__URL", "\"postgres://override\"")],
        "APP_",
    );
    assert_eq!(merged, json(r#"{"database": {"url": "postgres://override"}}"#));
}

#[test]
fn internal_env_env_object_override_replaces_scalar_intermediate_node() {
    let merged = apply(
        r#"{"database": "from-default"}"#,
        &[("APP_DATABASE__URL", "\"postgres://override\"")],
        "APP_",
    );
    assert_eq!(merged, json(r#"{"database": {"url": "postgres://override"}}"#));
}

#[test]
fn env_only_config_can_use_defaults_as_base() {
    let conf = apply(
        ENV_CONF_DEFAULT,
        &[
            ("APP_HOST", "svc"),
            ("APP_PORT", "9090"),
            ("APP_DEBUG", "true"),
            ("APP_TAGS", "[\"api\",\"edge\"]"),
            ("APP_DATABASE__URL", "postgres://db/service"),
        ],
        "APP_",
    );
    assert_eq!(
        conf,
        json(
            r#"{"host": "svc", "port": 9090, "debug": true, "tags": ["api", "edge"],
                "database": {"url": "postgres://db/service", "pool_size": 5}}"#
        )
    );
}

#[test]
fn env_prefix_overrides_defaults_when_file_is_missing() {
    let conf = apply(
        ENV_CONF_DEFAULT,
        &[
            ("APP_HOST", "svc"),
            ("APP_PORT", "9090"),
            ("APP_DEBUG", "true"),
            ("APP_TAGS", "[\"api\",\"edge\"]"),
            ("APP_DATABASE__URL", "postgres://db/service"),
        ],
        "APP_",
    );
    assert_eq!(
        conf,
        json(
            r#"{"host": "svc", "port": 9090, "debug": true, "tags": ["api", "edge"],
                "database": {"url": "postgres://db/service", "pool_size": 5}}"#
        )
    );
}

#[test]
fn tests_env_invalid_json_falls_back_to_plain_string() {
    let conf = apply(ENV_CONF_DEFAULT, &[("APP_HOST", "{not-json}")], "APP_");
    assert_eq!(conf["host"], json("\"{not-json}\""));
}

#[test]
fn env_public_env_invalid_json_falls_back_to_plain_string() {
    let conf = apply(ENV_CONF_DEFAULT, &[("APP_HOST", "{not-json}")], "APP_");
    assert_eq!(conf["host"], json("\"{not-json}\""));
}

#[test]
fn tests_env_empty_segments_are_ignored() {
    let conf = apply(
        ENV_CONF_DEFAULT,
        &[("APP_", "\"ignored\""), ("APP____", "\"also ignored\"")],
        "APP_",
    );
    assert_eq!(env_conf_fields(&conf), env_conf_fields(&json(ENV_CONF_DEFAULT)));
}

#[test]
fn env_public_env_empty_segments_are_ignored() {
    let conf = apply(
        ENV_CONF_DEFAULT,
        &[("APP_", "\"ignored\""), ("APP____", "\"also ignored\"")],
        "APP_",
    );
    assert_eq!(env_conf_fields(&conf), env_conf_fields(&json(ENV_CONF_DEFAULT)));
}

const FILE_CONF: &str = r#"{
    "host": "from-file",
    "port": 8081,
    "debug": false,
    "tags": ["file"],
    "database": {"url": "postgres://db/file", "pool_size": 10}
}"#;

#[test]
fn tests_env_values_override_file_values() {
    let conf = apply(
        FILE_CONF,
        &[("APP_PORT", "9090"), ("APP_DATABASE__POOL_SIZE", "20"), ("APP_TAGS", "[\"env\"]")],
        "APP_",
    );
    assert_eq!(
        conf,
        json(
            r#"{"host": "from-file", "port": 9090, "debug": false, "tags": ["env"],
                "database": {"url": "postgres://db/file", "pool_size": 20}}"#
        )
    );
}

#[test]
fn env_public_env_values_override_file_values() {
    let conf = apply(
        FILE_CONF,
        &[("APP_PORT", "9090"), ("APP_DATABASE__POOL_SIZE", "20"), ("APP_TAGS", "[\"env\"]")],
        "APP_",
    );
    assert_eq!(
        conf,
        json(
            r#"{"host": "from-file", "port": 9090, "debug": false, "tags": ["env"],
                "database": {"url": "postgres://db/file", "pool_size": 20}}"#
        )
    );
}

#[test]
fn three_underscores_leave_one_for_a_key() {
    let conf = apply(r#"{}"#, &[("APP____", "\"also ignored\"")], "APP_");
    assert_eq!(conf, json(r#"{"_": "also ignored"}"#));
}

#[test]
fn variables_without_the_prefix_change_nothing() {
    let conf = apply(FILE_CONF, &[("OTHER_PORT", "1"), ("PATH", "/usr/bin")], "APP_");
    assert_eq!(conf, json(FILE_CONF));
}

#[test]
fn later_variable_for_the_same_path_wins() {
    let conf = apply(r#"{}"#, &[("APP_A__B", "1"), ("APP_a__b", "2")], "APP_");
    assert_eq!(conf, json(r#"{"a": {"b": 2}}"#));
}

#[test]
fn deeper_variable_replaces_a_scalar_set_earlier() {
    let conf = apply(r#"{}"#, &[("APP_DB", "1"), ("APP_DB__HOST", "\"h\"")], "APP_");
    assert_eq!(conf, json(r#"{"db": {"host": "h"}}"#));
}

#[test]
fn env_overrides_collects_prefixed_variables_only() {
    let vars = vec![var("APP_X", "1"), var("NOPE", "2"), var("APP_Y__Z", "true")];
    let overrides = env_overrides(vars, "APP_");
    assert_eq!(to_serde(&overrides), json(r#"{"x": 1, "y": {"z": true}}"#));
}

#[test]
fn key_segments_split_on_double_underscores_and_lowercase() {
    let key: Vec<char> = "APP_Database__Pool_Size".chars().collect();
    let segs = key_segments_from(&key, 4);
    assert_eq!(segs, vec!["database".to_string(), "pool_size".to_string()]);

    let odd: Vec<char> = "A___B____".chars().collect();
    assert_eq!(key_segments_from(&odd, 0), vec!["a".to_string(), "_b".to_string()]);

    let empty: Vec<char> = "____".chars().collect();
    assert!(key_segments_from(&empty, 0).is_empty());
}

#[test]
fn parse_env_value_keeps_raw_text_when_not_json() {
    assert_eq!(to_serde(&parse_env_value("plain".to_string())), json("\"plain\""));
    assert_eq!(to_serde(&parse_env_value("7".to_string())), json("7"));
    assert_eq!(to_serde(&parse_env_value("{not-json}".to_string())), json("\"{not-json}\""));
    assert_eq!(to_serde(&parse_env_value("[\"a\",1]".to_string())), json("[\"a\",1]"));
}

#[test]
fn merge_replaces_non_objects_and_merges_objects() {
    let merged = merge_json(
        to_lib(&json(r#"{"a": 1, "b": {"c": 2, "d": 3}, "e": [1, 2]}"#)),
        to_lib(&json(r#"{"b": {"c": 20}, "e": [9], "f": null}"#)),
    );
    assert_eq!(
        to_serde(&merged),
        json(r#"{"a": 1, "b": {"c": 20, "d": 3}, "e": [9], "f": null}"#)
    );
    let replaced = merge_json(to_lib(&json(r#"{"a": 1}"#)), to_lib(&json("5")));
    assert_eq!(to_serde(&replaced), json("5"));
}

fn keys(v: &JsonValue) -> Vec<String> {
    match v {
        JsonValue::Object(entries) => entries.iter().map(|(k, _)| k.clone()).collect(),
        _ => Vec::new(),
    }
}

#[test]
fn keys_are_ordered_like_a_sorted_map() {
    assert!(key_precedes("a", "b"));
    assert!(key_precedes("ab", "abc"));
    assert!(key_precedes("", "a"));
    assert!(key_precedes("Z", "a"));
    assert!(key_precedes("z", "é"));
    assert!(!key_precedes("abc", "abc"));
    assert!(!key_precedes("b", "a"));
    assert!(!key_precedes("abc", "ab"));
}

#[test]
fn new_keys_go_where_the_order_puts_them() {
    let merged = merge_json(
        to_lib(&json(r#"{"b": 1, "d": 2}"#)),
        to_lib(&json(r#"{"e": 3, "a": 4, "c": 5}"#)),
    );
    assert_eq!(keys(&merged), vec!["a", "b", "c", "d", "e"]);

    let overrides = env_overrides(vec![var("APP_ZETA", "1"), var("APP_ALPHA", "2"), var("APP_MID__Y", "3"), var("APP_MID__X", "4")], "APP_");
    assert_eq!(keys(&overrides), vec!["alpha", "mid", "zeta"]);
    match &overrides {
        JsonValue::Object(entries) => assert_eq!(keys(&entries[1].1), vec!["x", "y"]),
        _ => unreachable!(),
    }
}

#[test]
fn merging_the_same_overrides_twice_is_merging_once() {
    let base = || to_lib(&json(r#"{"a": 1, "b": {"c": 2, "d": [1]}, "e": "x"}"#));
    let over = || to_lib(&json(r#"{"b": {"c": 20, "f": {"g": null}}, "e": {"h": true}, "z": 0}"#));
    let once = merge_json(base(), over());
    let twice = merge_json(merge_json(base(), over()), over());
    assert_eq!(format!("{once:?}"), format!("{twice:?}"));
}
