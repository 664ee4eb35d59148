use localcodepilot::detection::{
    detect_in_directory, enters_module_folder, lists_module_folders, runtime_marker_files,
    FolderListing,
};
use localcodepilot::runtimes::RuntimeKind;

fn listing(files: &[&str], regular: &[&str]) -> FolderListing {
    FolderListing {
        files: files.iter().map(|f| f.to_string()).collect(),
        regular_files: regular.iter().map(|f| f.to_string()).collect(),
    }
}

#[test]
fn detects_multiple_runtimes() {
    let mut found = Vec::new();
    detect_in_directory(&listing(&["Cargo.toml", "package.json"], &["Cargo.toml", "package.json"]), &mut found);
    assert_eq!(found, vec![RuntimeKind::Rust, RuntimeKind::Node]);
}

#[test]
fn detects_php_from_source_files_without_manifest() {
    let mut found = Vec::new();
    detect_in_directory(&listing(&["exercicio1.php"], &["exercicio1.php"]), &mut found);
    assert_eq!(found, vec![RuntimeKind::Php]);
}

#[test]
fn detects_runtime_inside_git_repository_modules() {
    let mut found = Vec::new();
    detect_in_directory(&listing(&[], &[]), &mut found);
    assert!(enters_module_folder("painel-controle"));
    assert!(lists_module_folders(0));
    detect_in_directory(&listing(&["composer.json"], &["composer.json"]), &mut found);
    assert_eq!(found, vec![RuntimeKind::Php]);
}

#[test]
fn manifests_come_before_sources_and_runtimes_are_not_repeated() {
    let mut found = vec![RuntimeKind::Python];
    detect_in_directory(
        &listing(
            &["requirements.txt", "index.php", "main.rs"],
            &["main.rs", "app.JS", ".hidden.py", "notes.", "README", "index.php", "x.tar.py"],
        ),
        &mut found,
    );
    assert_eq!(found, vec![RuntimeKind::Python, RuntimeKind::Php, RuntimeKind::Rust, RuntimeKind::Node]);
}

#[test]
fn module_walk_skips_hidden_and_dependency_folders_in_any_case() {
    assert!(!enters_module_folder(".config"));
    assert!(!enters_module_folder("Node_Modules"));
    assert!(!enters_module_folder("__MACOSX"));
    assert!(enters_module_folder("api"));
    assert!(lists_module_folders(7));
    assert!(!lists_module_folders(8));
    assert_eq!(runtime_marker_files().len(), 7);
}
