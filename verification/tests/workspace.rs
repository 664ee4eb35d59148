use localcodepilot::processes::{ProcessState, ProjectProcess};
use localcodepilot::projects::Project;
use localcodepilot::workspace::{
    add_scan_root, begin_start, find_process, process_control, ProcessControl, grid_notice, project_commands, push_log_line, remove_scan_root,
    settle_process, update_process, visible_projects, GridNotice, Page,
};

fn project(path: &str, modified_at: Option<i128>) -> Project {
    let mut project = Project::new(path.to_string(), vec![]);
    project.modified_at = modified_at;
    project
}

fn process(id: &str) -> ProjectProcess {
    ProjectProcess {
        id: id.to_string(),
        project_name: "p".to_string(),
        project_path: "/p".to_string(),
        working_directory: "/p".to_string(),
        name: id.to_string(),
        program: "x".to_string(),
        args: vec![],
        state: ProcessState::Stopped,
        process_id: None,
    }
}

#[test]
fn pages_have_titles() {
    assert_eq!(Page::Overview.title(), "Visão geral");
    assert_eq!(Page::Settings.title(), "Configurações");
    assert_eq!(Page::Processes.title(), "Processos");
}

#[test]
fn scan_roots_are_added_once_and_removed() {
    let mut roots = vec!["/a".to_string()];
    assert!(add_scan_root(&mut roots, "/b".to_string()));
    assert!(!add_scan_root(&mut roots, "/a".to_string()));
    assert!(add_scan_root(&mut roots, "/c".to_string()));
    remove_scan_root(&mut roots, "/b");
    assert_eq!(roots, ["/a", "/c"]);
    remove_scan_root(&mut roots, "/missing");
    assert_eq!(roots, ["/a", "/c"]);
}

#[test]
fn grid_shows_matching_projects_newest_first() {
    let projects = vec![
        project("/w/alpha", Some(10)),
        project("/w/beta", None),
        project("/w/gamma", Some(30)),
        project("/x/delta", Some(10)),
        project("/w/eps", Some(-5)),
    ];
    assert_eq!(visible_projects(&projects, "", None), [2, 0, 3, 4, 1]);
    assert_eq!(visible_projects(&projects, "  /W/ ", None), [2, 0, 4, 1]);
    assert_eq!(visible_projects(&projects, "", Some(3)), [2, 0, 3]);
    assert_eq!(visible_projects(&projects, "zzz", Some(3)), Vec::<usize>::new());
}

#[test]
fn process_states_change_one_at_a_time() {
    let mut processes = vec![process("a"), process("b"), process("b")];
    assert_eq!(find_process(&processes, "b"), Some(1));
    assert_eq!(find_process(&processes, "c"), None);
    update_process(&mut processes, 1, ProcessState::Running, Some(42));
    assert_eq!(processes[1].state, ProcessState::Running);
    assert_eq!(processes[1].process_id, Some(42));
    assert_eq!(processes[2].state, ProcessState::Stopped);
    assert!(settle_process(&mut processes, "b", ProcessState::Failed));
    assert_eq!(processes[1].state, ProcessState::Failed);
    assert_eq!(processes[1].process_id, None);
    assert!(!settle_process(&mut processes, "z", ProcessState::Failed));
}

#[test]
fn command_output_keeps_the_latest_lines() {
    let mut logs = Vec::new();
    for i in 0..505 {
        push_log_line(&mut logs, format!("line {i}"));
    }
    assert_eq!(logs.len(), 500);
    assert_eq!(logs[0], "line 5");
    assert_eq!(logs[499], "line 504");
}

#[test]
fn scan_roots_are_compared_as_paths() {
    let mut roots = vec!["/home/a/code".to_string()];
    assert!(!add_scan_root(&mut roots, "/home/a/code/".to_string()));
    assert!(add_scan_root(&mut roots, "/home/a/other".to_string()));
    remove_scan_root(&mut roots, "/home/a//code/.");
    assert_eq!(roots, vec!["/home/a/other".to_string()]);
}

#[test]
fn an_empty_grid_says_why() {
    assert_eq!(grid_notice(true, "api"), GridNotice::Searching);
    assert_eq!(grid_notice(false, "  api "), GridNotice::NoMatch);
    assert_eq!(grid_notice(false, "   "), GridNotice::NoProjects);
}

#[test]
fn commands_are_grouped_by_project_folder() {
    let mut other = process("b");
    other.project_path = "/q".to_string();
    let mut slash = process("c");
    slash.project_path = "/p/".to_string();
    let processes = vec![process("a"), other, slash];
    assert_eq!(project_commands(&processes, "/p"), vec![0, 2]);
    assert_eq!(project_commands(&processes, "/q"), vec![1]);
}

#[test]
fn starting_marks_the_command_unless_it_still_runs() {
    let mut processes = vec![process("a"), process("b")];
    assert_eq!(begin_start(&mut processes, "b", true), None);
    assert_eq!(processes[1].state, ProcessState::Stopped);
    assert_eq!(begin_start(&mut processes, "zz", false), None);
    assert_eq!(begin_start(&mut processes, "b", false), Some(1));
    assert_eq!(processes[1].state, ProcessState::Starting);
    assert_eq!(processes[0].state, ProcessState::Stopped);
}

#[test]
fn each_state_gets_its_control() {
    assert_eq!(process_control(ProcessState::Running), ProcessControl::Stop);
    assert_eq!(process_control(ProcessState::Starting), ProcessControl::Wait);
    assert_eq!(process_control(ProcessState::Stopped), ProcessControl::Start);
    assert_eq!(process_control(ProcessState::Failed), ProcessControl::Start);
}
