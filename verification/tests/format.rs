use cloudiful_config::error::ErrorKind;
use cloudiful_config::format::{
    check_write_type, extension, file_name, infer_file_type, temporary_name, FileFormat, FileType,
};
use cloudiful_config::ConfigFormat;

fn temp_path(file_name: &str) -> String {
    format!("/tmp/config-crate-tests/{file_name}")
}

#[test]
fn save_inferred_rejects_unsupported_extension() {
    let path = temp_path("config.yaml");

    let err = infer_file_type(&path).unwrap_err();

    assert_eq!(err.kind(), ErrorKind::InvalidInput);
    assert!(err.to_string().contains(".toml, .json, or .jsonc"));
}

#[test]
fn save_rejects_mismatched_file_type() {
    let path = temp_path("config.toml");

    let err = check_write_type(&path, FileType::JSON).unwrap_err();

    assert_eq!(err.kind(), ErrorKind::InvalidInput);
    assert!(err.to_string().contains(&path));
    assert!(err.to_string().contains("expects TOML"));
}

#[test]
fn jsonc_paths_are_written_as_json() {
    assert_eq!(infer_file_type("/x/config.jsonc").unwrap(), FileType::JSON);
    assert_eq!(infer_file_type("/x/config.json").unwrap(), FileType::JSON);
    assert_eq!(infer_file_type("config.toml").unwrap(), FileType::TOML);
    assert!(check_write_type("/x/config.jsonc", FileType::JSON).is_ok());
    assert!(check_write_type("/x/config.toml", FileType::TOML).is_ok());
    let err = check_write_type("/x/config.json", FileType::TOML).unwrap_err();
    assert_eq!(
        err.to_string(),
        "refusing to write TOML config to /x/config.json because its extension expects JSON"
    );
}

#[test]
fn extensions_follow_path_syntax() {
    assert_eq!(extension("/a/b/config.toml"), Some("toml".to_string()));
    assert_eq!(extension("archive.tar.gz"), Some("gz".to_string()));
    assert_eq!(extension(".toml"), None);
    assert_eq!(extension("..toml"), Some("toml".to_string()));
    assert_eq!(extension("name."), Some(String::new()));
    assert_eq!(extension("dir.d/file"), None);
    assert_eq!(extension("dir/config.json/"), Some("json".to_string()));
    assert_eq!(extension("dir/config.json/."), Some("json".to_string()));
    assert_eq!(extension(".."), None);
    assert_eq!(file_name("/"), None);
    assert_eq!(file_name("a/b/.."), None);
    assert_eq!(file_name("a/b"), Some("b".to_string()));
}

#[test]
fn formats_by_extension() {
    assert_eq!(FileFormat::from_path("c.jsonc").unwrap(), FileFormat::Jsonc);
    assert_eq!(FileFormat::from_path("c.json").unwrap(), FileFormat::Json);
    assert_eq!(FileFormat::from_path("c.toml").unwrap(), FileFormat::Toml);
    assert_eq!(ConfigFormat::from_path("c.jsonc").unwrap(), ConfigFormat::Json);
    assert_eq!(ConfigFormat::from_path("c.toml").unwrap(), ConfigFormat::Toml);
    let err = ConfigFormat::from_path("/etc/c.TOML").unwrap_err();
    assert_eq!(
        err.to_string(),
        "config file type not supported for /etc/c.TOML (expected .toml, .json, or .jsonc)"
    );
    assert_eq!(FileType::TOML.as_str(), "TOML");
    assert_eq!(FileType::JSON.as_str(), "JSON");
    assert_eq!(FileFormat::Jsonc.write_type(), FileType::JSON);
}

#[test]
fn temporary_name_carries_file_name_process_and_moment() {
    assert_eq!(
        temporary_name("/home/u/.config/stock/config.toml", 42, 1_700_000_000_123_456_789),
        ".config.toml.42.1700000000123456789.tmp"
    );
    assert_eq!(temporary_name("settings.json", 7, 0), ".settings.json.7.0.tmp");
}

#[test]
fn temporary_name_without_file_name_uses_config() {
    assert_eq!(temporary_name("/", 1, 2), ".config.1.2.tmp");
    assert_eq!(temporary_name("a/..", 3, 4), ".config.3.4.tmp");
    assert_eq!(temporary_name("", 5, u128::MAX), format!(".config.5.{}.tmp", u128::MAX));
}
