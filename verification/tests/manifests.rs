use localcodepilot::manifests::{document_script_names, manifest_script_names, JsonValue};

#[test]
fn scripts_are_read_from_the_scripts_member_only() {
    let names = manifest_script_names(
        r#"{"name": "site", "version": 2, "scripts": {"dev": "vite", "build": "vite build"}, "private": true}"#,
    );
    assert_eq!(names, Some(vec!["build".to_string(), "dev".to_string()]));
}

#[test]
fn a_scripts_member_deeper_down_does_not_count() {
    assert_eq!(manifest_script_names(r#"{"config": {"scripts": {"dev": "x"}}}"#), None);
    assert_eq!(manifest_script_names(r#"{"scripts": {}}"#), Some(vec![]));
    assert_eq!(manifest_script_names(r#"{"scripts": [1.5, null, "a"]}"#), None);
}

#[test]
fn script_names_are_read_from_a_parsed_document() {
    let scripts = JsonValue::Object(vec![
        ("dev".to_string(), JsonValue::Text("vite".to_string())),
        ("build".to_string(), JsonValue::Text("vite build".to_string())),
    ]);
    let document = Some(JsonValue::Object(vec![
        ("name".to_string(), JsonValue::Text("site".to_string())),
        ("scripts".to_string(), scripts),
    ]));
    assert_eq!(document_script_names(&document), Some(vec!["dev".to_string(), "build".to_string()]));
    assert_eq!(document_script_names(&Some(JsonValue::Array(vec![]))), None);
    assert_eq!(document_script_names(&None), None);
    let not_object = Some(JsonValue::Object(vec![("scripts".to_string(), JsonValue::Number("1".to_string()))]));
    assert_eq!(document_script_names(&not_object), None);
}
