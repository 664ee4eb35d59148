use localcodepilot::filesystem::{
    home_project_folder_steps,
    is_skipped_entry, project_markers, unique_existing, FilesystemProjectSource, ScanRoot, ScanStep,
};

fn root(path: &str, is_dir: bool, canonical: Option<&str>) -> ScanRoot {
    ScanRoot { path: path.to_string(), is_dir, canonical: canonical.map(|c| c.to_string()) }
}

#[test]
fn roots_keep_existing_folders_once() {
    let kept = unique_existing(vec![
        root("~/dev", true, Some("/home/u/dev")),
        root("/missing", false, None),
        root("/home/u/dev", true, Some("/home/u/dev")),
        root("/odd", true, None),
        root("/odd", true, None),
        root("/srv", true, Some("/srv")),
    ]);
    assert_eq!(kept, ["~/dev", "/odd", "/srv"]);
}

#[test]
fn skips_dependency_directories() {
    assert!(is_skipped_entry("node_modules"));
    assert!(is_skipped_entry(".git"));
    assert!(is_skipped_entry(".anything"));
    assert!(is_skipped_entry("target"));
    assert!(!is_skipped_entry("Target"));
    assert!(!is_skipped_entry("app"));
    assert_eq!(
        project_markers(),
        ["Cargo.toml", "package.json", "composer.json", "pyproject.toml", "requirements.txt"]
    );
}

#[test]
fn search_steps_follow_the_depth_limit() {
    let source = FilesystemProjectSource::new(vec![root("/w", true, Some("/w"))]);
    assert_eq!(source.roots(), ["/w"]);
    assert_eq!(source.max_depth(), 5);
    assert_eq!(source.step(false, true, true, 0), ScanStep::Skip);
    assert_eq!(source.step(true, false, false, 0), ScanStep::Skip);
    assert_eq!(source.step(true, true, true, 9), ScanStep::RecordProject);
    assert_eq!(source.step(true, true, false, 4), ScanStep::Descend);
    assert_eq!(source.step(true, true, false, 5), ScanStep::Skip);
}

#[test]
fn unresolved_roots_are_compared_as_paths() {
    let kept = unique_existing(vec![root("/w/a", true, None), root("/w/a/", true, None), root("/w/b", true, None)]);
    assert_eq!(kept, vec!["/w/a".to_string(), "/w/b".to_string()]);
}

#[test]
fn home_folders_where_projects_usually_live() {
    let steps = home_project_folder_steps();
    assert_eq!(steps.len(), 7);
    assert_eq!(steps[0], vec!["Projects".to_string()]);
    assert_eq!(steps[5], vec!["OneDrive".to_string(), "Área de Trabalho".to_string(), "projetos".to_string()]);
}
