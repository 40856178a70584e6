use monowrap::manifest::{get_schema, validate_manifest, validate_manifest_checked, MANIFEST_SCHEMA};

const VALID: &str = r#"{
  "name": "mono",
  "commands": [
    {"alias": "build", "uri": "wrap://ens/build.eth", "args": "0x80"},
    {"alias": "test", "uri": "wrap://ens/test.eth", "args": "0x80", "requires": ["build"]}
  ],
  "dependencies": [
    {"name": "core", "path": "./packages/core"},
    {"name": "app", "path": "./packages/app", "requires": ["core"]}
  ],
  "sub_deps_execute_after": "build"
}"#;

#[test]
fn schema_is_json_with_the_required_fields() {
    let v: serde_json::Value = serde_json::from_str(get_schema()).unwrap();
    assert_eq!(v["id"], "MonowrapManifest");
    assert_eq!(
        v["required"],
        serde_json::Value::Array(vec![
            "name".into(),
            "commands".into(),
            "dependencies".into(),
            "sub_deps_execute_after".into(),
        ])
    );
    assert_eq!(v["definitions"]["command"]["properties"]["alias"]["pattern"], "^[a-zA-Z0-9\\-\\_]+$");
    assert_eq!(get_schema(), MANIFEST_SCHEMA);
}

#[test]
fn a_valid_manifest_passes() {
    assert_eq!(validate_manifest_checked(&VALID.to_string()), Ok(()));
    validate_manifest(&VALID.to_string());
}

#[test]
fn a_missing_field_is_reported_with_its_path() {
    let text = r#"{"name": "mono", "commands": [], "dependencies": []}"#.to_string();
    let err = validate_manifest_checked(&text).unwrap_err();
    assert!(err.starts_with("Validation error: "));
    assert!(err.contains("sub_deps_execute_after"));
    assert!(err.contains("\nInstance path: "));
}

#[test]
fn each_error_is_reported() {
    let text = r#"{
      "name": 3,
      "commands": [{"alias": "bad alias!", "uri": "u", "args": "a"}],
      "dependencies": [],
      "sub_deps_execute_after": "build"
    }"#
    .to_string();
    let err = validate_manifest_checked(&text).unwrap_err();
    assert_eq!(err.matches("Validation error: ").count(), 2);
    assert!(err.contains("Instance path: /name"));
    assert!(err.contains("Instance path: /commands/0/alias"));
}

#[test]
fn an_unknown_field_is_refused() {
    let text = VALID.replace("\"name\": \"mono\",", "\"name\": \"mono\", \"extra\": 1,");
    assert!(validate_manifest_checked(&text).is_err());
}

#[test]
fn text_that_is_not_json_is_refused() {
    let err = validate_manifest_checked(&"not json".to_string()).unwrap_err();
    assert!(!err.starts_with("Validation error"));
    assert!(!err.is_empty());
}
