use cloudiful_config::error::ErrorKind;
use cloudiful_config::json::JsonValue;
use cloudiful_config::secret::{
    decode_hex_nibble, decode_hex_pair, display_path, keyring_reply, path_error, percent_decode,
    resolve_secret_ref, resolve_secret_refs, resolve_test_secret, KeyringAnswer, KeyringFailure,
    PathSegment, SecretRef,
};

fn to_lib(v: &serde_json::Value) -> JsonValue {
    match v {
        serde_json::Value::Null => JsonValue::Null,
        serde_json::Value::Bool(b) => JsonValue::Bool(*b),
        serde_json::Value::Number(n) => JsonValue::Number(n.to_string()),
        serde_json::Value::String(s) => JsonValue::Str(s.clone()),
        serde_json::Value::Array(items) => JsonValue::Array(items.iter().map(to_lib).collect()),
        serde_json::Value::Object(map) => {
            JsonValue::Object(map.iter().map(|(k, v)| (k.clone(), to_lib(v))).collect())
        }
    }
}

fn to_serde(v: &JsonValue) -> serde_json::Value {
    match v {
        JsonValue::Null => serde_json::Value::Null,
        JsonValue::Bool(b) => serde_json::Value::Bool(*b),
        JsonValue::Number(n) => serde_json::from_str(n).unwrap(),
        JsonValue::Str(s) => serde_json::Value::String(s.clone()),
        JsonValue::Array(items) => serde_json::Value::Array(items.iter().map(to_serde).collect()),
        JsonValue::Object(entries) => {
            let mut map = serde_json::Map::new();
            for (k, v) in entries {
                map.insert(k.clone(), to_serde(v));
            }
            serde_json::Value::Object(map)
        }
    }
}

fn json(text: &str) -> serde_json::Value {
    serde_json::from_str(text).unwrap()
}

fn root() -> Vec<PathSegment> {
    Vec::new()
}

#[test]
fn rejects_missing_query_parameters() {
    let value = json(r#"{"database": {"password": "secret://keyring?service=stock"}}"#);

    let err = resolve_secret_refs(to_lib(&value)).0.unwrap_err();
    assert_eq!(err.kind(), ErrorKind::InvalidInput);
    assert!(err.to_string().contains("missing required parameter user"));
    assert!(err.to_string().contains("database.password"));
}

#[test]
fn rejects_invalid_secret_uri() {
    let value = json(r#"{"password": "secret://keyring"}"#);

    let err = resolve_secret_refs(to_lib(&value)).0.unwrap_err();
    assert_eq!(err.kind(), ErrorKind::InvalidInput);
    assert!(err.to_string().contains("query parameters"));
}

#[test]
fn documents_without_secret_references_are_unchanged() {
    let value = json(r#"{"a": ["x", "secret:/almost", {"b": null}], "c": 1.5, "d": true}"#);
    let resolved = resolve_secret_refs(to_lib(&value)).0.unwrap();
    assert_eq!(to_serde(&resolved), value);
}

#[test]
fn failure_names_the_array_position() {
    let value = json(r#"{"tokens": ["plain", "secret://vault?key=x"]}"#);
    let err = resolve_secret_refs(to_lib(&value)).0.unwrap_err();
    assert_eq!(err.kind(), ErrorKind::InvalidInput);
    assert_eq!(
        err.to_string(),
        "failed to resolve secret at tokens[1]: unsupported secret provider vault"
    );
}

#[test]
fn root_secret_reference_is_named_root() {
    let err = resolve_secret_refs(JsonValue::Str("secret://?x=1".to_string())).0.unwrap_err();
    assert_eq!(
        err.to_string(),
        "failed to resolve secret at <root>: secret provider must not be empty"
    );
}

#[test]
fn keyring_lookup_failure_names_the_path() {
    let value = json(r#"{"database": {"password": "secret://keyring?service=stock&user=db-prod"}}"#);
    match resolve_secret_refs(to_lib(&value)).0 {
        Ok(resolved) => assert!(matches!(&resolved, JsonValue::Object(_))),
        Err(err) => {
            assert!(matches!(err.kind(), ErrorKind::InvalidInput | ErrorKind::NotFound));
            assert!(err.to_string().contains("database.password"));
            assert!(err.to_string().contains("via keyring"));
        }
    }
}

#[test]
fn hex_digits_decode_in_both_cases() {
    assert_eq!(decode_hex_nibble(b'0'), Some(0));
    assert_eq!(decode_hex_nibble(b'9'), Some(9));
    assert_eq!(decode_hex_nibble(b'a'), Some(10));
    assert_eq!(decode_hex_nibble(b'F'), Some(15));
    assert_eq!(decode_hex_nibble(b'g'), None);
    assert_eq!(decode_hex_pair(b'2', b'0'), Some(0x20));
    assert_eq!(decode_hex_pair(b'f', b'F'), Some(0xff));
    assert_eq!(decode_hex_pair(b'x', b'0'), None);
}

#[test]
fn percent_decoding() {
    let path = root();
    assert_eq!(percent_decode("db%2Dprod", &path).unwrap(), "db-prod");
    assert_eq!(percent_decode("a+b", &path).unwrap(), "a b");
    assert_eq!(percent_decode("plain", &path).unwrap(), "plain");
    assert_eq!(percent_decode("caf%C3%A9", &path).unwrap(), "café");
    assert_eq!(percent_decode("é", &path).unwrap(), "é");

    let err = percent_decode("bad%2", &path).unwrap_err();
    assert_eq!(err.kind(), ErrorKind::InvalidInput);
    assert!(err.to_string().contains("invalid percent-encoding in secret reference"));
    let err = percent_decode("%zz", &path).unwrap_err();
    assert!(err.to_string().contains("invalid percent-encoding"));
    let err = percent_decode("%FF", &path).unwrap_err();
    assert!(err.to_string().contains("secret reference contains invalid UTF-8"));
}

#[test]
fn secret_reference_parsing() {
    let path = root();
    let parsed = SecretRef::parse("secret://keyring?service=stock&&user=db%20prod&user=x", &path).unwrap();
    assert_eq!(parsed.provider, "keyring");
    assert_eq!(
        parsed.params,
        vec![
            ("service".to_string(), "stock".to_string()),
            ("user".to_string(), "db prod".to_string()),
            ("user".to_string(), "x".to_string()),
        ]
    );
    assert_eq!(parsed.required_param("user", &path).unwrap(), "x");
    assert_eq!(parsed.required_param("service", &path).unwrap(), "stock");
    let err = parsed.required_param("token", &path).unwrap_err();
    assert_eq!(err.to_string(), "failed to resolve secret at <root>: missing required parameter token");

    let value = SecretRef::parse("secret://p?k=a=b", &path).unwrap();
    assert_eq!(value.params, vec![("k".to_string(), "a=b".to_string())]);

    let empty = SecretRef::parse("secret://p?k=", &path).unwrap();
    assert!(empty.required_param("k", &path).is_err());
}

#[test]
fn malformed_secret_references() {
    let path = root();
    let messages = [
        ("keyring?service=x", "secret reference must start with secret://"),
        ("secret://keyring", "secret reference must include query parameters"),
        ("secret://?service=x", "secret provider must not be empty"),
        ("secret://keyring?service", "secret query parameter must be key=value"),
        ("secret://keyring?=x", "secret query parameter key must not be empty"),
    ];
    for (raw, message) in messages {
        let err = SecretRef::parse(raw, &path).unwrap_err();
        assert_eq!(err.kind(), ErrorKind::InvalidInput);
        assert!(err.to_string().ends_with(message), "{raw}: {}", err.to_string());
    }
}

#[test]
fn unsupported_provider_is_rejected() {
    let path = vec![PathSegment::Field("api".to_string())];
    let err = resolve_secret_ref("secret://vault?key=x", &path).0.unwrap_err();
    assert_eq!(err.kind(), ErrorKind::InvalidInput);
    assert_eq!(err.to_string(), "failed to resolve secret at api: unsupported secret provider vault");
}

#[test]
fn keyring_requires_service_before_user() {
    let path = root();
    let err = resolve_secret_ref("secret://keyring?user=a", &path).0.unwrap_err();
    assert!(err.to_string().ends_with("missing required parameter service"));
    let err = resolve_secret_ref("secret://keyring?service=&user=a", &path).0.unwrap_err();
    assert!(err.to_string().ends_with("missing required parameter service"));
}

#[test]
fn paths_are_displayed_with_dots_and_brackets() {
    assert_eq!(display_path(&root()), "<root>");
    let path = vec![
        PathSegment::Field("database".to_string()),
        PathSegment::Index(12),
        PathSegment::Field("password".to_string()),
    ];
    assert_eq!(display_path(&path), "database[12].password");
    let leading_index = vec![PathSegment::Index(0), PathSegment::Field("x".to_string())];
    assert_eq!(display_path(&leading_index), "[0].x");
    let err = path_error(&path, ErrorKind::NotFound, "gone");
    assert_eq!(err.kind(), ErrorKind::NotFound);
    assert_eq!(err.to_string(), "failed to resolve secret at database[12].password: gone");
}

fn password_path() -> Vec<PathSegment> {
    vec![
        PathSegment::Field("database".to_string()),
        PathSegment::Field("password".to_string()),
    ]
}

#[test]
fn keyring_answer_with_secret_gives_the_secret() {
    let secret = keyring_reply(KeyringAnswer::Found("db-pass".to_string()), &password_path()).unwrap();
    assert_eq!(secret, "db-pass");
}

#[test]
fn keyring_answer_without_entry_is_not_found() {
    let err = keyring_reply(
        KeyringAnswer::LookupFailed(KeyringFailure::NoEntry),
        &password_path(),
    )
    .unwrap_err();
    assert_eq!(err.kind(), ErrorKind::NotFound);
    assert_eq!(
        err.to_string(),
        "failed to resolve secret at database.password: failed to resolve secret via keyring: no entry found"
    );
}

#[test]
fn keyring_answer_with_detailed_failures() {
    let err = keyring_reply(
        KeyringAnswer::LookupFailed(KeyringFailure::TooLong("user".to_string(), 255)),
        &password_path(),
    )
    .unwrap_err();
    assert_eq!(err.kind(), ErrorKind::NotFound);
    assert!(err.to_string().ends_with("via keyring: user exceeds platform limit 255"));

    let err = keyring_reply(
        KeyringAnswer::LookupFailed(KeyringFailure::Invalid("service".to_string(), "empty".to_string())),
        &password_path(),
    )
    .unwrap_err();
    assert!(err.to_string().ends_with("via keyring: invalid service: empty"));
}

#[test]
fn keyring_entry_failure_is_invalid_input() {
    let err = keyring_reply(
        KeyringAnswer::EntryFailed("no storage".to_string()),
        &vec![PathSegment::Field("tokens".to_string()), PathSegment::Index(0)],
    )
    .unwrap_err();
    assert_eq!(err.kind(), ErrorKind::InvalidInput);
    assert_eq!(
        err.to_string(),
        "failed to resolve secret at tokens[0]: failed to construct keyring entry via keyring: no storage"
    );
}

#[test]
fn test_provider_carries_its_own_value() {
    let path = password_path();
    let reference = SecretRef::parse("secret://test?value=db-pass", &path).unwrap();
    assert_eq!(resolve_test_secret(&reference, &path).unwrap(), "db-pass");

    let reference = SecretRef::parse("secret://test?other=x", &path).unwrap();
    let err = resolve_test_secret(&reference, &path).unwrap_err();
    assert_eq!(err.kind(), ErrorKind::InvalidInput);
    assert_eq!(
        err.to_string(),
        "failed to resolve secret at database.password: missing required parameter value"
    );

    let err = resolve_secret_ref("secret://test?value=db-pass", &path).0.unwrap_err();
    assert_eq!(
        err.to_string(),
        "failed to resolve secret at database.password: unsupported secret provider test"
    );
}

#[test]
fn percent_encoding_every_byte_decodes_back() {
    let path = root();
    for text in ["db prod", "naïve/ü?&=%+", ""] {
        let upper: String = text.bytes().map(|b| format!("%{:02X}", b)).collect();
        let lower: String = text.bytes().map(|b| format!("%{:02x}", b)).collect();
        assert_eq!(percent_decode(&upper, &path).unwrap(), text);
        assert_eq!(percent_decode(&lower, &path).unwrap(), text);
    }
}
