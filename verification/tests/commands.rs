use localcodepilot::commands::{command_marker_files, detect_processes_in_directory, push_process, ProjectFolder};
use localcodepilot::manifests::{manifest_script_names, runnable_scripts};
use localcodepilot::processes::{ProcessState, ProjectProcess};
use localcodepilot::projects::Project;
use localcodepilot::runtimes::RuntimeKind;

fn folder(path: &str, files: &[&str], package: Option<&str>, composer: Option<&str>) -> ProjectFolder {
    ProjectFolder {
        path: path.to_string(),
        files: files.iter().map(|f| f.to_string()).collect(),
        package_scripts: package.and_then(manifest_script_names),
        composer_scripts: composer.and_then(manifest_script_names),
    }
}

fn command_lines(processes: &[ProjectProcess]) -> Vec<String> {
    processes.iter().map(ProjectProcess::command_line).collect()
}

#[test]
fn detects_node_and_composer_scripts() {
    let project = Project::new("/w/site".to_string(), vec![RuntimeKind::Node, RuntimeKind::Php]);
    let mut processes = Vec::new();
    detect_processes_in_directory(
        &project,
        &folder(
            "/w/site",
            &["package.json", "composer.json"],
            Some(r#"{"scripts":{"dev":"vite","test":"vitest","predev":"prepare"}}"#),
            Some(r#"{"scripts":{"serve":"php -S localhost:8000","post-install":"setup"}}"#),
        ),
        &mut processes,
    );
    assert_eq!(command_lines(&processes), ["npm run dev", "npm run test", "composer run-script serve"]);
}

#[test]
fn detects_common_rust_php_and_python_commands() {
    let project = Project::new("/w/all".to_string(), vec![]);
    let mut processes = Vec::new();
    detect_processes_in_directory(
        &project,
        &folder("/w/all", &["Cargo.toml", "artisan", "manage.py"], None, None),
        &mut processes,
    );
    assert_eq!(
        command_lines(&processes),
        ["cargo run", "php artisan serve", "python manage.py runserver"]
    );
}

#[test]
fn detects_commands_in_git_repository_modules() {
    let project = Project::new("/w/repo".to_string(), vec![RuntimeKind::Php]);
    let mut processes = Vec::new();
    detect_processes_in_directory(&project, &folder("/w/repo", &[], None, None), &mut processes);
    detect_processes_in_directory(
        &project,
        &folder("/w/repo/painel-controle", &["artisan"], None, None),
        &mut processes,
    );
    assert_eq!(processes.len(), 1);
    assert_eq!(processes[0].command_line(), "php artisan serve");
    assert_eq!(processes[0].working_directory, "/w/repo/painel-controle");
}

#[test]
fn processes_carry_their_project_and_an_id() {
    let project = Project::new("/w/app".to_string(), vec![]);
    let mut processes = Vec::new();
    detect_processes_in_directory(
        &project,
        &folder("/w/app", &["index.php", "main.py", "app.py"], None, None),
        &mut processes,
    );
    assert_eq!(
        command_lines(&processes),
        ["php -S localhost:8000", "python main.py", "python app.py"]
    );
    let first = &processes[0];
    assert_eq!(first.id, "/w/app::php -S localhost:8000");
    assert_eq!(first.name, "Servidor PHP");
    assert_eq!(first.project_name, "app");
    assert_eq!(first.project_path, "/w/app");
    assert_eq!(first.state, ProcessState::Stopped);
    assert_eq!(first.process_id, None);
    push_process(&mut processes, &project, "/w/app/sub", "x", "make", vec![]);
    assert_eq!(processes[3].id, "/w/app/sub::make");
}

#[test]
fn manifests_without_a_scripts_object_offer_nothing() {
    assert_eq!(manifest_script_names("{}"), None);
    assert_eq!(manifest_script_names("not json"), None);
    assert_eq!(manifest_script_names("[1, 2]"), None);
    assert_eq!(manifest_script_names(r#"{"scripts": "dev"}"#), None);
    assert_eq!(
        manifest_script_names(r#"{"scripts": {"b": "1", "a": "2"}}"#),
        Some(vec!["a".to_string(), "b".to_string()])
    );
}

#[test]
fn hooks_and_odd_names_are_not_offered() {
    let names: Vec<String> = ["watch", "prepare", "postinstall", "lint:fix", "build prod", "Dev", "a.b", "ünicode", "e-2_e"]
        .iter()
        .map(|s| s.to_string())
        .collect();
    assert_eq!(runnable_scripts(&names), ["Dev", "a.b", "e-2_e", "lint:fix", "watch"]);
}

#[test]
fn command_markers_are_the_files_that_commands_depend_on() {
    assert_eq!(
        command_marker_files(),
        ["Cargo.toml", "artisan", "index.php", "wp-config.php", "manage.py", "main.py", "app.py"]
    );
}
