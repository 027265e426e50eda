use cloudiful_config::jsonc::strip_jsonc_comments;

#[test]
fn jsonc_comments_are_supported() {
    let content = r#"{
  // line comment
  "hello": 32,
  /* block comment */
  "name": "hello",
  "list": ["test1", "test2"]
}"#;

    let conf: serde_json::Value = serde_json::from_str(&strip_jsonc_comments(content)).unwrap();

    assert_eq!(conf["hello"], serde_json::Value::from(32));
    assert_eq!(conf["name"], serde_json::Value::from("hello"));
}

#[test]
fn jsonc_comment_markers_inside_strings_are_preserved() {
    let content = r#"{
  "url": "https://example.com/api/*v1*/endpoint",
  "note": "literal // text"
}"#;

    let conf: serde_json::Value = serde_json::from_str(&strip_jsonc_comments(content)).unwrap();

    assert_eq!(conf["url"], serde_json::Value::from("https://example.com/api/*v1*/endpoint"));
    assert_eq!(conf["note"], serde_json::Value::from("literal // text"));
}

#[test]
fn stripping_blanks_comments_in_place() {
    assert_eq!(strip_jsonc_comments("a // b\nc"), "a     \nc");
    assert_eq!(strip_jsonc_comments("a /* b\n c */ d"), "a     \n      d");
    assert_eq!(strip_jsonc_comments(r#""\"//" // x"#), r#""\"//"     "#);
    assert_eq!(strip_jsonc_comments("/* open"), "       ");
    assert_eq!(strip_jsonc_comments("{\"k\": 1}"), "{\"k\": 1}");
    let text = "x /* é */ y // ü\nz";
    assert_eq!(strip_jsonc_comments(text).chars().count(), text.chars().count());
}

#[test]
fn blanking_twice_changes_nothing() {
    let texts = [
        "{\n  // a\n  \"k\": \"/* not */\", /* b\n c */ \"v\": 1\n}",
        "a/ /b //c\n/* x */*/",
        r#""\"//\\" // tail"#,
        "/* open // inside",
    ];
    for text in texts {
        let once = strip_jsonc_comments(text);
        assert_eq!(strip_jsonc_comments(&once), once);
    }
}

#[test]
fn text_that_opens_no_comment_is_unchanged() {
    let text = "{\"ratio\": 1 / 2, \"path\": \"/a/b\"} */ x";
    assert_eq!(strip_jsonc_comments(text), text);
}
