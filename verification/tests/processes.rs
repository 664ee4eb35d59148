use localcodepilot::processes::{command_line_of, ProcessState, ProjectProcess};
use localcodepilot::services::ServiceKind;

fn process(program: &str, args: &[&str]) -> ProjectProcess {
    ProjectProcess {
        id: "id".to_string(),
        project_name: "p".to_string(),
        project_path: "/p".to_string(),
        working_directory: "/p".to_string(),
        name: "n".to_string(),
        program: program.to_string(),
        args: args.iter().map(|a| a.to_string()).collect(),
        state: ProcessState::Stopped,
        process_id: None,
    }
}

#[test]
fn command_line_joins_program_and_arguments() {
    assert_eq!(process("npm", &["run", "dev"]).command_line(), "npm run dev");
    assert_eq!(process("cargo", &[]).command_line(), "cargo");
    assert_eq!(
        command_line_of(&"php".to_string(), &vec!["-S".to_string(), "localhost:8000".to_string()]),
        "php -S localhost:8000"
    );
}

#[test]
fn states_have_labels_and_exits_settle() {
    assert_eq!(ProcessState::Stopped.label(), "Parado");
    assert_eq!(ProcessState::Starting.label(), "Iniciando");
    assert_eq!(ProcessState::Running.label(), "Executando");
    assert_eq!(ProcessState::Failed.label(), "Falhou");
    assert_eq!(ProcessState::after_exit(true), ProcessState::Stopped);
    assert_eq!(ProcessState::after_exit(false), ProcessState::Failed);
}

#[test]
fn services_listen_on_their_default_ports() {
    assert_eq!(ServiceKind::Mysql.default_port().value(), 3306);
    assert_eq!(ServiceKind::Postgresql.default_port().value(), 5432);
    assert_eq!(ServiceKind::Redis.default_port().value(), 6379);
}
