use localcodepilot::config::{parse_existing_roots, root_lines, serialize_roots};

#[test]
fn serializes_one_root_per_line() {
    let roots = ["first".to_string(), "second".to_string()];
    assert_eq!(serialize_roots(&roots), "first\nsecond");
}

#[test]
fn saved_lines_are_trimmed_and_blank_lines_skipped() {
    assert_eq!(root_lines("  /a \r\n\n\t\n/b c\n"), ["/a", "/b c"]);
    assert!(root_lines("").is_empty());
    assert_eq!(root_lines("/x"), ["/x"]);
}

#[test]
fn saving_and_reading_back_gives_the_same_roots() {
    let roots = ["/home/a".to_string(), "/srv/b c".to_string()];
    assert_eq!(root_lines(&serialize_roots(&roots)), roots);
}

#[test]
fn parses_existing_roots_and_ignores_missing_or_duplicate_paths() {
    let resolved = vec![
        Some("/tmp/root".to_string()),
        Some("/tmp/root".to_string()),
        None,
        Some("/tmp/other".to_string()),
    ];
    assert_eq!(parse_existing_roots(resolved), ["/tmp/root", "/tmp/other"]);
}

#[test]
fn saved_distinct_roots_read_back_unchanged() {
    let roots = vec!["/home/a/code".to_string(), "/srv/projects".to_string()];
    let text = serialize_roots(&roots);
    let resolved: Vec<Option<String>> = root_lines(&text).into_iter().map(Some).collect();
    assert_eq!(parse_existing_roots(resolved), roots);
}
