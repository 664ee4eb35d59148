use localcodepilot::projects::{later_change, watches_folder, Project, ProjectCatalog};
use localcodepilot::runtimes::RuntimeKind;
use localcodepilot::technologies::TechnologyKind;

#[test]
fn catalog_rejects_duplicate_paths() {
    let mut catalog = ProjectCatalog::default();
    let project = Project::new("project".to_string(), vec![RuntimeKind::Rust]);
    assert!(catalog.add(project.clone()));
    assert!(!catalog.add(project));
}

#[test]
fn display_stack_prefers_detected_technologies_over_node() {
    let project = Project::new("project".to_string(), vec![RuntimeKind::Node])
        .with_technologies(vec![TechnologyKind::Vue, TechnologyKind::TypeScript]);

    assert_eq!(project.display_stack(), "Vue + TypeScript");
}

#[test]
fn display_stack_lists_runtimes_and_defaults() {
    let project = Project::new("/tmp/x".to_string(), vec![RuntimeKind::Php, RuntimeKind::Node])
        .with_technologies(vec![TechnologyKind::Laravel]);
    assert_eq!(project.display_stack(), "Laravel + PHP + Node");
    let empty = Project::new("/tmp/x".to_string(), vec![]);
    assert_eq!(empty.display_stack(), "Projeto local");
}

#[test]
fn project_is_named_after_its_folder() {
    assert_eq!(Project::new("/home/dev/painel/".to_string(), vec![]).name, "painel");
    assert_eq!(Project::new("/".to_string(), vec![]).name, "Novo projeto");
    assert_eq!(Project::new("/a/..".to_string(), vec![]).name, "Novo projeto");
}

#[test]
fn search_ignores_case_and_surrounding_space() {
    let mut catalog = ProjectCatalog::default();
    assert!(catalog.add(Project::new("/work/Painel-Controle".to_string(), vec![])));
    assert!(catalog.add(Project::new("/work/site".to_string(), vec![])));
    assert!(catalog.add(Project::new("/srv/ÉCOLE".to_string(), vec![])));
    let names = |query: &str| -> Vec<String> {
        catalog.search(query).iter().map(|p| p.name.clone()).collect()
    };
    assert_eq!(names("  painel "), ["Painel-Controle"]);
    assert_eq!(names("WORK"), ["Painel-Controle", "site"]);
    assert_eq!(names("école"), ["ÉCOLE"]);
    assert_eq!(names("   "), ["Painel-Controle", "site", "ÉCOLE"]);
    assert!(names("missing").is_empty());
}

#[test]
fn change_search_skips_hidden_dependency_and_deep_folders() {
    assert!(watches_folder("src", 0));
    assert!(watches_folder("src", 7));
    assert!(!watches_folder("src", 8));
    assert!(!watches_folder(".cache", 1));
    assert!(!watches_folder("node_modules", 1));
    assert!(!watches_folder("__macosx", 1));
    assert!(watches_folder("Target", 1));
    assert_eq!(later_change(None, 5), Some(5));
    assert_eq!(later_change(Some(9), 5), Some(9));
    assert_eq!(later_change(Some(-3), 5), Some(5));
}

#[test]
fn catalog_keeps_order_and_hands_projects_out() {
    let mut catalog = ProjectCatalog::default();
    assert!(catalog.add(Project::new("/a".to_string(), vec![])));
    assert!(catalog.add(Project::new("/b".to_string(), vec![])));
    assert!(!catalog.add(Project::new("/a".to_string(), vec![RuntimeKind::Python])));
    assert_eq!(catalog.projects().len(), 2);
    let projects = catalog.into_projects();
    assert_eq!(projects[0].path, "/a");
    assert!(projects[0].runtimes.is_empty());
    assert_eq!(projects[1].path, "/b");
}

#[test]
fn shows_runtime_hides_node_behind_node_tooling() {
    let plain = Project::new("/p".to_string(), vec![RuntimeKind::Node]);
    assert!(plain.shows_runtime(RuntimeKind::Node));
    let vue = plain.clone().with_technologies(vec![TechnologyKind::Vue]);
    assert!(!vue.shows_runtime(RuntimeKind::Node));
    assert!(vue.shows_runtime(RuntimeKind::Php));
    let laravel = plain.with_technologies(vec![TechnologyKind::Laravel]);
    assert!(laravel.shows_runtime(RuntimeKind::Node));
}

#[test]
fn folders_are_compared_as_paths() {
    let mut catalog = localcodepilot::projects::ProjectCatalog::default();
    assert!(catalog.add(Project::new("/w/x".to_string(), vec![RuntimeKind::Rust])));
    assert!(!catalog.add(Project::new("/w/x/".to_string(), vec![RuntimeKind::Rust])));
    assert!(!catalog.add(Project::new("/w//./x".to_string(), vec![RuntimeKind::Rust])));
    assert!(catalog.add(Project::new("/w/y".to_string(), vec![RuntimeKind::Rust])));
    assert_eq!(catalog.projects().len(), 2);
}
