use localcodepilot::runtimes::RuntimeKind;
use localcodepilot::technologies::TechnologyKind;

#[test]
fn source_extensions_name_runtimes_in_any_case() {
    assert_eq!(RuntimeKind::from_source_extension("rs"), Some(RuntimeKind::Rust));
    assert_eq!(RuntimeKind::from_source_extension("TSX"), Some(RuntimeKind::Node));
    assert_eq!(RuntimeKind::from_source_extension("Mjs"), Some(RuntimeKind::Node));
    assert_eq!(RuntimeKind::from_source_extension("phtml"), Some(RuntimeKind::Php));
    assert_eq!(RuntimeKind::from_source_extension("PYW"), Some(RuntimeKind::Python));
    assert_eq!(RuntimeKind::from_source_extension("toml"), None);
    assert_eq!(RuntimeKind::from_source_extension(""), None);
}

#[test]
fn kinds_have_labels() {
    assert_eq!(RuntimeKind::Php.label(), "PHP");
    assert_eq!(RuntimeKind::Node.label(), "Node");
    assert_eq!(TechnologyKind::TypeScript.label(), "TypeScript");
    assert!(TechnologyKind::React.uses_node_tooling());
    assert!(!TechnologyKind::Laravel.uses_node_tooling());
}
