use cloudiful_config::document::{parse_config_file, parse_config_value};
use cloudiful_config::error::ErrorKind;
use cloudiful_config::format::FileFormat;
use cloudiful_config::json::JsonValue;
use cloudiful_config::ConfigFormat;

fn to_serde(v: &JsonValue) -> serde_json::Value {
    match v {
        JsonValue::Null => serde_json::Value::Null,
        JsonValue::Bool(b) => serde_json::Value::Bool(*b),
        JsonValue::Number(n) => serde_json::from_str(n).unwrap(),
        JsonValue::Str(s) => serde_json::Value::String(s.clone()),
        JsonValue::Array(items) => serde_json::Value::Array(items.iter().map(to_serde).collect()),
        JsonValue::Object(entries) => {
            let mut map = serde_json::Map::new();
            for (k, v) in entries {
                map.insert(k.clone(), to_serde(v));
            }
            serde_json::Value::Object(map)
        }
    }
}

fn json(text: &str) -> serde_json::Value {
    serde_json::from_str(text).unwrap()
}

#[test]
fn toml_text_becomes_a_json_document() {
    let text = "hello = 32\nname = \"hello\"\nlist = [\"test1\", \"test2\"]\n\n[database]\nurl = \"postgres://db\"\n";
    let value = parse_config_value(text, ConfigFormat::Toml, "stock").unwrap();
    assert_eq!(
        to_serde(&value),
        json(r#"{"hello": 32, "name": "hello", "list": ["test1", "test2"], "database": {"url": "postgres://db"}}"#)
    );
    match &value {
        JsonValue::Object(entries) => {
            let keys: Vec<&str> = entries.iter().map(|(k, _)| k.as_str()).collect();
            assert_eq!(keys, vec!["database", "hello", "list", "name"]);
        }
        _ => unreachable!(),
    }
}

#[test]
fn invalid_content_returns_error_instead_of_panicking() {
    let content = "{\n  \"hello\": 32,\n  \"name\": \"bad\"\n}\n";
    let err = parse_config_file(content, FileFormat::Toml, "/tmp/config.toml").unwrap_err();
    assert_eq!(err.kind(), ErrorKind::InvalidData);
    assert!(err.to_string().starts_with("failed to parse TOML config /tmp/config.toml: "));
}

#[test]
fn json_text_and_its_failures() {
    let value = parse_config_value(r#"{"b": [1, null], "a": true}"#, ConfigFormat::Json, "sqlite:app_configs:stock").unwrap();
    assert_eq!(to_serde(&value), json(r#"{"a": true, "b": [1, null]}"#));
    let err = parse_config_value("{oops", ConfigFormat::Json, "sqlite:app_configs:stock").unwrap_err();
    assert_eq!(err.kind(), ErrorKind::InvalidData);
    assert!(err.to_string().starts_with("failed to parse JSON config sqlite:app_configs:stock: "));
}

#[test]
fn jsonc_files_have_their_comments_blanked_first() {
    let text = "{\n  // line\n  \"url\": \"https://example.com/api/*v1*/endpoint\", /* block */\n  \"note\": \"literal // text\"\n}";
    let value = parse_config_file(text, FileFormat::Jsonc, "config.jsonc").unwrap();
    assert_eq!(
        to_serde(&value),
        json(r#"{"url": "https://example.com/api/*v1*/endpoint", "note": "literal // text"}"#)
    );
    let err = parse_config_file("{ // open", FileFormat::Jsonc, "config.jsonc").unwrap_err();
    assert!(err.to_string().starts_with("failed to parse JSONC config config.jsonc: "));
    let err = parse_config_file("// only a comment", FileFormat::Json, "config.json").unwrap_err();
    assert!(err.to_string().starts_with("failed to parse JSON config config.json: "));
}
