//! The commands that can run in the folders of a project.
use vstd::prelude::*;

use crate::detection::names;
use crate::manifests::{runnable_scripts, runnable_scripts_spec};
use crate::processes::{command_line_of, command_line_spec, texts, ProcessState, ProjectProcess};
use crate::projects::Project;
use crate::text::{chars_equal, chars_of};

verus! {

/// What the detection of commands needs to know of a folder.
#[derive(Debug, Clone, PartialEq, Eq)]
pub struct ProjectFolder {
    /// The folder, as text.
    pub path: String,
    /// The names of its entries that are files, symbolic links followed.
    pub files: Vec<String>,
    /// The scripts that its `package.json` declares, when it declares any (see
    /// `manifest_script_names`).
    pub package_scripts: Option<Vec<String>>,
    /// The scripts that its `composer.json` declares, when it declares any.
    pub composer_scripts: Option<Vec<String>>,
}

/// A command to offer: its name, its program and its arguments.
pub type CommandPlan = (Seq<char>, Seq<char>, Seq<Seq<char>>);

/// Whether the folder holds a file named `name`.
pub open spec fn folder_has(folder: ProjectFolder, name: Seq<char>) -> bool {
    names(folder.files@).contains(name)
}

/// The file names whose presence the commands of a folder depend on (see `folder_commands`).
pub open spec fn command_marker_names() -> Seq<Seq<char>> {
    seq![
        "Cargo.toml"@,
        "artisan"@,
        "index.php"@,
        "wp-config.php"@,
        "manage.py"@,
        "main.py"@,
        "app.py"@,
    ]
}

/// The file names whose presence the commands of a folder depend on, for the caller to look
/// up in the folder.
pub fn command_marker_files() -> (r: Vec<String>)
    ensures
        names(r@) == command_marker_names(),
{
    let r = vec![
        String::from_str("Cargo.toml"),
        String::from_str("artisan"),
        String::from_str("index.php"),
        String::from_str("wp-config.php"),
        String::from_str("manage.py"),
        String::from_str("main.py"),
        String::from_str("app.py"),
    ];
    assert(names(r@) =~= command_marker_names());
    r
}

/// `cargo run` where there is a `Cargo.toml`.
pub open spec fn cargo_commands(folder: ProjectFolder) -> Seq<CommandPlan> {
    if folder_has(folder, "Cargo.toml"@) {
        seq![("Executar projeto"@, "cargo"@, seq!["run"@])]
    } else {
        seq![]
    }
}

/// `program prefix.. name` for each runnable script of a manifest, sorted by name.
pub open spec fn script_commands(
    scripts: Option<Vec<String>>,
    program: Seq<char>,
    prefix: Seq<Seq<char>>,
) -> Seq<CommandPlan> {
    match scripts {
        Some(list) => runnable_scripts_spec(texts(list@)).map_values(
            |n: Seq<char>| (n, program, prefix.push(n)),
        ),
        None => seq![],
    }
}

/// The Laravel server where there is an `artisan` file, else the built-in PHP server where
/// there is an `index.php` or a `wp-config.php`.
pub open spec fn php_commands(folder: ProjectFolder) -> Seq<CommandPlan> {
    if folder_has(folder, "artisan"@) {
        seq![("Servidor Laravel"@, "php"@, seq!["artisan"@, "serve"@])]
    } else if folder_has(folder, "index.php"@) || folder_has(folder, "wp-config.php"@) {
        seq![("Servidor PHP"@, "php"@, seq!["-S"@, "localhost:8000"@])]
    } else {
        seq![]
    }
}

/// The Django server where there is a `manage.py`, then `main.py` and `app.py` where they
/// are.
pub open spec fn python_commands(folder: ProjectFolder) -> Seq<CommandPlan> {
    (if folder_has(folder, "manage.py"@) {
        seq![("Servidor Django"@, "python"@, seq!["manage.py"@, "runserver"@])]
    } else {
        seq![]
    }) + (if folder_has(folder, "main.py"@) {
        seq![("Executar main.py"@, "python"@, seq!["main.py"@])]
    } else {
        seq![]
    }) + (if folder_has(folder, "app.py"@) {
        seq![("Executar app.py"@, "python"@, seq!["app.py"@])]
    } else {
        seq![]
    })
}

/// The commands offered for a folder, in order: Rust, npm scripts, Composer scripts, PHP,
/// Python.
pub open spec fn folder_commands(folder: ProjectFolder) -> Seq<CommandPlan> {
    cargo_commands(folder) + script_commands(folder.package_scripts, "npm"@, seq!["run"@])
        + script_commands(folder.composer_scripts, "composer"@, seq!["run-script"@]) + php_commands(
        folder,
    ) + python_commands(folder)
}

/// Whether `p` is the stopped process of `project` that runs `plan` in `directory`; its id
/// is the folder and the command line joined by `::`.
pub open spec fn is_process_for(
    p: ProjectProcess,
    project: Project,
    directory: Seq<char>,
    plan: CommandPlan,
) -> bool {
    &&& p.id@ == directory + "::"@ + command_line_spec(plan.1, plan.2)
    &&& p.project_name@ == project.name@
    &&& p.project_path@ == project.path@
    &&& p.working_directory@ == directory
    &&& p.name@ == plan.0
    &&& p.program@ == plan.1
    &&& texts(p.args@) == plan.2
    &&& p.state == ProcessState::Stopped
    &&& p.process_id is None
}

/// Whether `after` is `before` followed by the processes of `project` for `plans` in
/// `directory`.
pub open spec fn appends_processes(
    before: Seq<ProjectProcess>,
    after: Seq<ProjectProcess>,
    project: Project,
    directory: Seq<char>,
    plans: Seq<CommandPlan>,
) -> bool {
    &&& after.len() == before.len() + plans.len()
    &&& forall|i: int| 0 <= i < before.len() ==> #[trigger] after[i] == before[i]
    &&& forall|k: int|
        0 <= k < plans.len() ==> is_process_for(
            #[trigger] after[before.len() + k],
            project,
            directory,
            plans[k],
        )
}

proof fn lemma_appends_chain(
    a: Seq<ProjectProcess>,
    b: Seq<ProjectProcess>,
    c: Seq<ProjectProcess>,
    project: Project,
    directory: Seq<char>,
    p1: Seq<CommandPlan>,
    p2: Seq<CommandPlan>,
)
    requires
        appends_processes(a, b, project, directory, p1),
        appends_processes(b, c, project, directory, p2),
    ensures
        appends_processes(a, c, project, directory, p1 + p2),
{
    assert forall|k: int| 0 <= k < (p1 + p2).len() implies is_process_for(
        #[trigger] c[a.len() + k],
        project,
        directory,
        (p1 + p2)[k],
    ) by {
        if k < p1.len() {
            assert(c[a.len() + k] == b[a.len() + k]);
        } else {
            assert(c[a.len() + k] == c[b.len() + (k - p1.len())]);
        }
    }
}

/// Appends to `processes` the stopped process of `project` that runs `program` with `args`
/// in `working_directory`, named `name`; its id is the folder and the command line joined by
/// `::`.
pub fn push_process(
    processes: &mut Vec<ProjectProcess>,
    project: &Project,
    working_directory: &str,
    name: &str,
    program: &str,
    args: Vec<String>,
)
    ensures
        appends_processes(
            old(processes)@,
            final(processes)@,
            *project,
            working_directory@,
            seq![(name@, program@, texts(args@))],
        ),
{
    let program_text = String::from_str(program);
    let command = command_line_of(&program_text, &args);
    let mut id = String::from_str(working_directory);
    id.append("::");
    id.append(command.as_str());
    proof {
        reveal_strlit("::");
    }
    let ghost before = processes@;
    processes.push(
        ProjectProcess {
            id,
            project_name: project.name.clone(),
            project_path: project.path.clone(),
            working_directory: String::from_str(working_directory),
            name: String::from_str(name),
            program: program_text,
            args,
            state: ProcessState::Stopped,
            process_id: None,
        },
    );
    assert(processes@[before.len() as int] == processes@.last());
}

/// Whether the folder holds a file named `name`.
fn has_file(folder: &ProjectFolder, name: &str) -> (r: bool)
    ensures
        r == folder_has(*folder, name@),
{
    let n = chars_of(name);
    let mut i: usize = 0;
    while i < folder.files.len()
        invariant
            i <= folder.files@.len(),
            n@ == name@,
            forall|j: int| 0 <= j < i ==> #[trigger] names(folder.files@)[j] != name@,
        decreases folder.files@.len() - i,
    {
        if chars_equal(&chars_of(folder.files[i].as_str()), &n) {
            assert(names(folder.files@)[i as int] == name@);
            return true;
        }
        i = i + 1;
    }
    false
}

/// Strings made from `parts`.
fn strings(parts: &[&str]) -> (r: Vec<String>)
    ensures
        texts(r@) == parts@.map_values(|p: &str| p@),
{
    let mut r: Vec<String> = Vec::new();
    let mut i: usize = 0;
    while i < parts.len()
        invariant
            i <= parts@.len(),
            texts(r@) == parts@.map_values(|p: &str| p@).take(i as int),
        decreases parts@.len() - i,
    {
        let part = String::from_str(parts[i]);
        let ghost before = r@;
        r.push(part);
        assert(r@ == before.push(part));
        assert(part@ == parts@[i as int]@);
        assert(texts(r@) =~= texts(before).push(part@));
        let ghost views = parts@.map_values(|p: &str| p@);
        assert(views[i as int] == parts@[i as int]@);
        assert(views.take(i + 1) =~= views.take(i as int).push(views[i as int]));
        assert(texts(r@) =~= parts@.map_values(|p: &str| p@).take(i + 1));
        i = i + 1;
    }
    assert(parts@.map_values(|p: &str| p@).take(parts@.len() as int) =~= parts@.map_values(
        |p: &str| p@,
    ));
    r
}

/// Appends the processes for the runnable scripts of a manifest: `program prefix.. name`
/// for each, sorted by name.
fn push_script_processes(
    processes: &mut Vec<ProjectProcess>,
    project: &Project,
    directory: &str,
    scripts: &Option<Vec<String>>,
    program: &str,
    prefix: &str,
)
    ensures
        appends_processes(
            old(processes)@,
            final(processes)@,
            *project,
            directory@,
            script_commands(*scripts, program@, seq![prefix@]),
        ),
{
    let ghost plans = script_commands(*scripts, program@, seq![prefix@]);
    match scripts {
        None => {
            assert(final(processes)@ =~= old(processes)@);
        },
        Some(list) => {
            let selected = runnable_scripts(list);
            let ghost start = processes@;
            let mut i: usize = 0;
            while i < selected.len()
                invariant
                    i <= selected@.len(),
                    plans == texts(selected@).map_values(
                        |n: Seq<char>| (n, program@, seq![prefix@].push(n)),
                    ),
                    appends_processes(start, processes@, *project, directory@, plans.take(i as int)),
                decreases selected@.len() - i,
            {
                let name = &selected[i];
                let args = strings(&[prefix, name.as_str()]);
                let ghost mid = processes@;
                proof {
                    assert(texts(args@) =~= seq![prefix@, name@]);
                    assert(seq![prefix@].push(name@) =~= seq![prefix@, name@]);
                }
                push_process(processes, project, directory, name.as_str(), program, args);
                proof {
                    lemma_appends_chain(
                        start,
                        mid,
                        processes@,
                        *project,
                        directory@,
                        plans.take(i as int),
                        seq![(name@, program@, seq![prefix@, name@])],
                    );
                    assert(plans.take(i as int) + seq![(name@, program@, seq![prefix@, name@])]
                        =~= plans.take(i + 1));
                }
                i = i + 1;
            }
            assert(plans.take(selected@.len() as int) =~= plans);
        },
    }
}

/// Appends to `processes` the commands that `folder` offers (see `folder_commands`), as
/// stopped processes of `project` running in the folder.
pub fn detect_processes_in_directory(
    project: &Project,
    folder: &ProjectFolder,
    processes: &mut Vec<ProjectProcess>,
)
    ensures
        appends_processes(
            old(processes)@,
            final(processes)@,
            *project,
            folder.path@,
            folder_commands(*folder),
        ),
{
    let directory = folder.path.as_str();
    let ghost p0 = processes@;
    if has_file(folder, "Cargo.toml") {
        let args = strings(&["run"]);
        assert(texts(args@) =~= seq!["run"@]);
        push_process(processes, project, directory, "Executar projeto", "cargo", args);
    }
    let ghost p1 = processes@;
    push_script_processes(processes, project, directory, &folder.package_scripts, "npm", "run");
    let ghost p2 = processes@;
    push_script_processes(
        processes,
        project,
        directory,
        &folder.composer_scripts,
        "composer",
        "run-script",
    );
    let ghost p3 = processes@;
    if has_file(folder, "artisan") {
        let args = strings(&["artisan", "serve"]);
        assert(texts(args@) =~= seq!["artisan"@, "serve"@]);
        push_process(processes, project, directory, "Servidor Laravel", "php", args);
    } else if has_file(folder, "index.php") || has_file(folder, "wp-config.php") {
        let args = strings(&["-S", "localhost:8000"]);
        assert(texts(args@) =~= seq!["-S"@, "localhost:8000"@]);
        push_process(processes, project, directory, "Servidor PHP", "php", args);
    }
    let ghost p4 = processes@;
    if has_file(folder, "manage.py") {
        let args = strings(&["manage.py", "runserver"]);
        assert(texts(args@) =~= seq!["manage.py"@, "runserver"@]);
        push_process(processes, project, directory, "Servidor Django", "python", args);
    }
    let ghost p5 = processes@;
    if has_file(folder, "main.py") {
        let args = strings(&["main.py"]);
        assert(texts(args@) =~= seq!["main.py"@]);
        push_process(processes, project, directory, "Executar main.py", "python", args);
    }
    let ghost p6 = processes@;
    if has_file(folder, "app.py") {
        let args = strings(&["app.py"]);
        assert(texts(args@) =~= seq!["app.py"@]);
        push_process(processes, project, directory, "Executar app.py", "python", args);
    }
    proof {
        let f = *folder;
        let pr = *project;
        let d = folder.path@;
        let py1 = if folder_has(f, "manage.py"@) {
            seq![("Servidor Django"@, "python"@, seq!["manage.py"@, "runserver"@])]
        } else {
            seq![]
        };
        let py2 = if folder_has(f, "main.py"@) {
            seq![("Executar main.py"@, "python"@, seq!["main.py"@])]
        } else {
            seq![]
        };
        let py3 = if folder_has(f, "app.py"@) {
            seq![("Executar app.py"@, "python"@, seq!["app.py"@])]
        } else {
            seq![]
        };
        assert(appends_processes(p0, p1, pr, d, cargo_commands(f)));
        assert(appends_processes(p3, p4, pr, d, php_commands(f)));
        assert(appends_processes(p4, p5, pr, d, py1));
        assert(appends_processes(p5, p6, pr, d, py2));
        assert(appends_processes(p6, processes@, pr, d, py3));
        let s1 = script_commands(f.package_scripts, "npm"@, seq!["run"@]);
        let s2 = script_commands(f.composer_scripts, "composer"@, seq!["run-script"@]);
        lemma_appends_chain(p0, p1, p2, pr, d, cargo_commands(f), s1);
        lemma_appends_chain(p0, p2, p3, pr, d, cargo_commands(f) + s1, s2);
        lemma_appends_chain(p0, p3, p4, pr, d, cargo_commands(f) + s1 + s2, php_commands(f));
        lemma_appends_chain(p4, p5, p6, pr, d, py1, py2);
        lemma_appends_chain(p4, p6, processes@, pr, d, py1 + py2, py3);
        lemma_appends_chain(
            p0,
            p4,
            processes@,
            pr,
            d,
            cargo_commands(f) + s1 + s2 + php_commands(f),
            py1 + py2 + py3,
        );
        assert(cargo_commands(f) + s1 + s2 + php_commands(f) + (py1 + py2 + py3) =~= folder_commands(
            f,
        ));
    }
}

} // verus!
