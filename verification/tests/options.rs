use cloudiful_config::error::ErrorKind;
use cloudiful_config::json::JsonValue;
use cloudiful_config::{dotenv_outcome, process_config_value, DotenvFailure, DotenvOptions, ReadOptions};

#[test]
fn read_options_builders() {
    let options = ReadOptions::default();
    assert_eq!(options.env_prefix, None);
    assert_eq!(options.dotenv, DotenvOptions::Enabled);

    let options = ReadOptions::with_env_prefix("APP_");
    assert_eq!(options.env_prefix, Some("APP_"));
    assert_eq!(options.dotenv, DotenvOptions::Enabled);

    let options = options.without_dotenv();
    assert_eq!(options.dotenv, DotenvOptions::Disabled);
    assert_eq!(options.env_prefix, Some("APP_"));

    let options = options.with_dotenv_path(".env.local");
    assert_eq!(options.dotenv, DotenvOptions::Path(".env.local"));

    let options = options.with_dotenv();
    assert_eq!(options.dotenv, DotenvOptions::Enabled);
    assert_eq!(options.env_prefix, Some("APP_"));
    assert_eq!(DotenvOptions::default(), DotenvOptions::Enabled);
}

#[test]
fn dotenv_files_and_outcomes() {
    assert_eq!(DotenvOptions::Enabled.file_to_load(), Some(".env"));
    assert_eq!(DotenvOptions::Disabled.file_to_load(), None);
    assert_eq!(DotenvOptions::Path("x.env").file_to_load(), Some("x.env"));

    let missing = DotenvFailure { missing_file: true, detail: "not found".to_string() };
    assert!(dotenv_outcome(DotenvOptions::Enabled, Some(missing)).is_ok());
    assert!(dotenv_outcome(DotenvOptions::Disabled, None).is_ok());

    let missing = DotenvFailure { missing_file: true, detail: "not found".to_string() };
    let err = dotenv_outcome(DotenvOptions::Path("/x/.env.local"), Some(missing)).unwrap_err();
    assert_eq!(err.kind(), ErrorKind::InvalidData);
    assert_eq!(err.to_string(), "failed to load dotenv file /x/.env.local: not found");

    let bad = DotenvFailure { missing_file: false, detail: "line 3".to_string() };
    let err = dotenv_outcome(DotenvOptions::Enabled, Some(bad)).unwrap_err();
    assert_eq!(err.to_string(), "failed to load dotenv file .env: line 3");
}

#[test]
fn processing_applies_overrides_only_with_a_prefix() {
    let config = || {
        JsonValue::Object(vec![("port".to_string(), JsonValue::Number("8080".to_string()))])
    };
    let vars = || vec![("APP_PORT".to_string(), JsonValue::Number("9090".to_string()))];

    let with_prefix = process_config_value(config(), Some("APP_"), vars()).0.unwrap();
    assert_eq!(
        format!("{with_prefix:?}"),
        format!("{:?}", JsonValue::Object(vec![("port".to_string(), JsonValue::Number("9090".to_string()))]))
    );

    let without = process_config_value(config(), None, vars()).0.unwrap();
    assert_eq!(format!("{without:?}"), format!("{:?}", config()));

    let secret = JsonValue::Object(vec![(
        "password".to_string(),
        JsonValue::Str("secret://keyring?service=stock".to_string()),
    )]);
    let err = process_config_value(secret, None, Vec::new()).0.unwrap_err();
    assert!(err.to_string().contains("password"));
}

#[test]
fn first_failing_reference_in_key_order_is_reported() {
    let config = JsonValue::Object(vec![(
        "b".to_string(),
        JsonValue::Str("secret://vault?key=x".to_string()),
    )]);
    let vars = vec![("APP_A".to_string(), JsonValue::Str("secret://keyring".to_string()))];
    let err = process_config_value(config, Some("APP_"), vars).0.unwrap_err();
    assert_eq!(err.kind(), ErrorKind::InvalidInput);
    assert_eq!(
        err.to_string(),
        "failed to resolve secret at a: secret reference must include query parameters"
    );
}

fn object_keys(v: &JsonValue) -> Vec<String> {
    match v {
        JsonValue::Object(entries) => entries.iter().map(|(k, _)| k.clone()).collect(),
        _ => Vec::new(),
    }
}

#[test]
fn processed_documents_keep_their_keys_in_order() {
    let config = JsonValue::Object(vec![(
        "b".to_string(),
        JsonValue::Object(vec![
            ("x".to_string(), JsonValue::Number("1".to_string())),
            ("y".to_string(), JsonValue::Number("2".to_string())),
        ]),
    )]);
    let vars = vec![
        ("APP_B__Z".to_string(), JsonValue::Bool(true)),
        ("APP_A".to_string(), JsonValue::Null),
        ("APP_B__W".to_string(), JsonValue::Bool(false)),
    ];
    let processed = process_config_value(config, Some("APP_"), vars).0.unwrap();
    assert_eq!(object_keys(&processed), vec!["a", "b"]);
    match &processed {
        JsonValue::Object(entries) => assert_eq!(object_keys(&entries[1].1), vec!["w", "x", "y", "z"]),
        _ => unreachable!(),
    }
}

fn secret_config(password: &str) -> JsonValue {
    JsonValue::Object(vec![
        (
            "database".to_string(),
            JsonValue::Object(vec![
                ("password".to_string(), JsonValue::Str(password.to_string())),
                ("user".to_string(), JsonValue::Str("app".to_string())),
            ]),
        ),
        ("tokens".to_string(), JsonValue::Array(vec![JsonValue::Str("plain-token".to_string())])),
    ])
}

#[test]
fn unresolved_secret_in_loaded_config_names_its_path() {
    // The credential store here holds no such secret, so the lookup fails.
    let config = secret_config("secret://keyring?service=stock&user=db-prod");
    let err = process_config_value(config, None, Vec::new()).0.unwrap_err();
    assert!(matches!(err.kind(), ErrorKind::NotFound | ErrorKind::InvalidInput));
    assert!(err.to_string().contains("database.password"), "{}", err.to_string());
    assert!(err.to_string().contains("via keyring"));
}

#[test]
fn secret_set_by_environment_override_is_resolved_after_loading() {
    let config = secret_config("");
    let vars = vec![(
        "APP_DATABASE__PASSWORD".to_string(),
        JsonValue::Str("secret://keyring?service=stock&user=db-prod".to_string()),
    )];
    let err = process_config_value(config, Some("APP_"), vars).0.unwrap_err();
    assert!(matches!(err.kind(), ErrorKind::NotFound | ErrorKind::InvalidInput));
    assert!(err.to_string().contains("database.password"), "{}", err.to_string());
}
