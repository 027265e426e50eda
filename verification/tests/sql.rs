use cloudiful_config::error::ErrorKind;
use cloudiful_config::sql::{sqlite_columns_match, SqlBackend, StoreSettings};
use cloudiful_config::DEFAULT_CONFIG_TABLE;

#[test]
fn sqlite_conflict_detection_rejects_wrong_table_shape() {
    let store = StoreSettings::new(SqlBackend::Sqlite, "stock", Some("bad_configs"));
    // The table description of
    // CREATE TABLE bad_configs (id INTEGER PRIMARY KEY, payload TEXT NOT NULL)
    let columns = vec![("id".to_string(), 1), ("payload".to_string(), 0)];
    let (has_app_name, has_config_json) = sqlite_columns_match(&columns);

    let err = store.check_schema(has_app_name, has_config_json).unwrap_err();

    assert_eq!(err.kind(), ErrorKind::AlreadyExists);
    assert!(err.to_string().contains("expected config schema"));
}

#[test]
fn expected_sqlite_schema_is_accepted() {
    let columns = vec![
        ("app_name".to_string(), 1),
        ("config_json".to_string(), 0),
        ("updated_at".to_string(), 0),
    ];
    assert_eq!(sqlite_columns_match(&columns), (true, true));
    let not_key = vec![("app_name".to_string(), 0), ("config_json".to_string(), 0)];
    assert_eq!(sqlite_columns_match(&not_key), (false, true));
    let store = StoreSettings::new(SqlBackend::Sqlite, "stock", None);
    assert!(store.check_schema(true, true).is_ok());
}

#[test]
fn store_settings_default_table_and_names() {
    let store = StoreSettings::new(SqlBackend::Postgres, "stock", None);
    assert_eq!(store.table_name, DEFAULT_CONFIG_TABLE);
    assert_eq!(store.source_name(), "postgres:app_configs:stock");
    assert_eq!(store.select_statement(), "SELECT config_json FROM app_configs WHERE app_name = $1");
    assert!(store.create_table_statement().starts_with("CREATE TABLE IF NOT EXISTS app_configs ("));
    assert!(store.upsert_statement().starts_with("INSERT INTO app_configs (app_name, config_json)"));
    let err = store.check_schema(true, false).unwrap_err();
    assert_eq!(
        err.to_string(),
        "refusing to use postgres table app_configs because it does not match the expected config schema"
    );

    let sqlite = StoreSettings::new(SqlBackend::Sqlite, "stock", Some("cfg"));
    assert_eq!(sqlite.source_name(), "sqlite:cfg:stock");
    assert_eq!(sqlite.select_statement(), "SELECT config_json FROM cfg WHERE app_name = ?1");
}

#[test]
fn table_names_are_checked_before_use() {
    assert!(StoreSettings::new(SqlBackend::Sqlite, "a", Some("app_configs_2")).validate_identifier().is_ok());
    for bad in ["", "configs;drop", "bad-name", "naïve"] {
        let err = StoreSettings::new(SqlBackend::Postgres, "a", Some(bad)).validate_identifier().unwrap_err();
        assert_eq!(err.kind(), ErrorKind::InvalidInput);
        assert_eq!(err.to_string(), format!("invalid postgres config table name {bad}"));
    }
}

#[test]
fn sqlite_table_description_statement() {
    let settings = StoreSettings::new(SqlBackend::Sqlite, "stock", Some("bad_configs"));
    assert_eq!(settings.table_info_statement(), "PRAGMA table_info(bad_configs)");
}
