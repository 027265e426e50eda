use cloudiful_config::error::{ConfigError, ErrorKind};
use cloudiful_config::paths::{
    app_config_path, config_root_from, default_config_path, ends_with_component, env_path_with, join,
    join_windows, macos_config_root_from, validate_app_name, windows_config_root_from,
};

fn some(s: &str) -> Option<String> {
    Some(s.to_string())
}

#[test]
fn read_rejects_empty_app_name() {
    let err = default_config_path("", some("/tmp/xdg"), some("/tmp/home")).unwrap_err();

    assert_eq!(err.kind(), ErrorKind::InvalidInput);
    assert!(err.to_string().contains("must not be empty"));
}

#[test]
fn save_rejects_nested_app_name() {
    let err = default_config_path("demo-app/nested", some("/tmp/xdg"), None).unwrap_err();

    assert_eq!(err.kind(), ErrorKind::InvalidInput);
    assert!(err.to_string().contains("single path component"));
}

#[test]
fn config_root_errors_when_required_environment_is_missing() {
    let err = config_root_from(None, None).unwrap_err();

    assert_eq!(err.kind(), ErrorKind::NotFound);
}

#[test]
fn read_prefers_xdg_config_home() {
    let path = default_config_path("stock", some("/tmp/xdg-home"), None).unwrap();
    assert_eq!(path, "/tmp/xdg-home/stock/config.toml");
    let both = default_config_path("stock", some("/tmp/xdg-home"), some("/home/user")).unwrap();
    assert_eq!(both, "/tmp/xdg-home/stock/config.toml");
}

#[test]
fn read_falls_back_to_home_dot_config() {
    let path = default_config_path("stock", None, some("/home/user")).unwrap();
    assert_eq!(path, "/home/user/.config/stock/config.toml");
    let empty_xdg = default_config_path("stock", some(""), some("/home/user/")).unwrap();
    assert_eq!(empty_xdg, "/home/user/.config/stock/config.toml");
}

#[test]
fn empty_environment_values_count_as_unset() {
    assert_eq!(env_path_with(some("")), None);
    assert_eq!(env_path_with(some("/x")), some("/x"));
    let err = config_root_from(some(""), some("")).unwrap_err();
    assert_eq!(err.kind(), ErrorKind::NotFound);
    assert_eq!(
        err.to_string(),
        "failed to resolve config directory from XDG_CONFIG_HOME or HOME"
    );
}

#[test]
fn app_names_must_be_one_relative_component() {
    assert!(validate_app_name("stock").is_ok());
    assert!(validate_app_name("stock/").is_ok());
    assert!(validate_app_name("stock/.").is_ok());
    assert!(validate_app_name("my.app").is_ok());

    let err = validate_app_name("/etc").unwrap_err();
    assert_eq!(err.kind(), ErrorKind::InvalidInput);
    assert_eq!(err.to_string(), "app name must be relative, got /etc");

    for name in [".", "..", "./stock", "../stock", "a/b", "a//b"] {
        let err = validate_app_name(name).unwrap_err();
        assert_eq!(err.kind(), ErrorKind::InvalidInput);
        assert_eq!(
            err.to_string(),
            format!("app name must be a single path component, got {name}")
        );
    }
}

#[test]
fn joining_paths() {
    assert_eq!(join("/a", "b"), "/a/b");
    assert_eq!(join("/a/", "b"), "/a/b");
    assert_eq!(join("", "b"), "b");
    assert_eq!(join("/a", "/b"), "/b");
}

#[test]
fn macos_root_is_application_support_under_home() {
    let root = macos_config_root_from(some("/Users/me")).unwrap();
    assert_eq!(root, "/Users/me/Library/Application Support");
    assert_eq!(
        app_config_path("stock", Ok(root)).unwrap(),
        "/Users/me/Library/Application Support/stock/config.toml"
    );

    for home in [None, some("")] {
        let err = macos_config_root_from(home).unwrap_err();
        assert_eq!(err.kind(), ErrorKind::NotFound);
        assert_eq!(err.to_string(), "failed to resolve macOS config directory from HOME");
    }
}

#[test]
fn invalid_app_name_is_reported_before_a_missing_root() {
    let missing = ConfigError::new(ErrorKind::NotFound, "no root".to_string());
    let err = app_config_path("a/b", Err(missing)).unwrap_err();
    assert_eq!(err.kind(), ErrorKind::InvalidInput);
    assert_eq!(err.to_string(), "app name must be a single path component, got a/b");

    let missing = ConfigError::new(ErrorKind::NotFound, "no root".to_string());
    let err = app_config_path("stock", Err(missing)).unwrap_err();
    assert_eq!(err.kind(), ErrorKind::NotFound);
    assert_eq!(err.to_string(), "no root");
}

#[test]
fn windows_root_prefers_appdata_as_it_is() {
    let root = windows_config_root_from(some("C:\\Temp\\cfg"), None, None, None).unwrap();
    assert_eq!(root, "C:\\Temp\\cfg");
    assert_eq!(app_config_path("stock", Ok(root)).unwrap(), "C:\\Temp\\cfg/stock/config.toml");
}

#[test]
fn windows_root_falls_back_to_profile_then_home() {
    assert_eq!(
        windows_config_root_from(Some(String::new()), some("C:\\Users\\me"), None, None).unwrap(),
        "C:\\Users\\me\\AppData\\Roaming"
    );
    assert_eq!(
        windows_config_root_from(None, None, some("C:"), some("\\Users\\me")).unwrap(),
        "C:\\Users\\me\\AppData\\Roaming"
    );
    assert_eq!(
        windows_config_root_from(None, None, some("C:"), some("\\Users\\me\\AppData\\Roaming\\")).unwrap(),
        "C:\\Users\\me\\AppData\\Roaming\\"
    );
    let err = windows_config_root_from(None, None, some("C:"), None).unwrap_err();
    assert_eq!(err.kind(), ErrorKind::NotFound);
    assert_eq!(
        err.to_string(),
        "failed to resolve Windows config directory from APPDATA, USERPROFILE, or HOMEDRIVE/HOMEPATH"
    );
}

#[test]
fn windows_path_pieces() {
    assert_eq!(join_windows("C:\\Users", "me"), "C:\\Users\\me");
    assert_eq!(join_windows("C:\\Users\\", "me"), "C:\\Users\\me");
    assert_eq!(join_windows("C:", "me"), "C:me");
    assert_eq!(join_windows("", "me"), "me");
    assert_eq!(join_windows("C:\\x", "D:\\y"), "D:\\y");
    assert!(ends_with_component("C:/a/Roaming/.", "Roaming"));
    assert!(ends_with_component("C:\\a\\Roaming\\", "Roaming"));
    assert!(!ends_with_component("C:\\a\\Roamings", "Roaming"));
    assert!(!ends_with_component("C:\\Roaming\\x", "Roaming"));
}
