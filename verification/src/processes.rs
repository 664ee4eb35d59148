//! Commands that run inside a project, and their state.
use vstd::prelude::*;

use crate::text::join_spec;

verus! {

/// Where a process is in its life.
#[derive(Debug, Clone, Copy, PartialEq, Eq, Structural)]
pub enum ProcessState {
    Stopped,
    Starting,
    Running,
    Failed,
}

/// A process started and watched by the application.
#[derive(Debug, Clone, PartialEq, Eq)]
pub struct ManagedProcess {
    pub id: String,
    pub command: String,
    pub state: ProcessState,
    pub process_id: Option<u32>,
}

/// A command that can be run inside a project.
#[derive(Debug, Clone, PartialEq, Eq)]
pub struct ProjectProcess {
    pub id: String,
    pub project_name: String,
    /// The folder of the project, as text.
    pub project_path: String,
    /// The folder the command runs in, as text.
    pub working_directory: String,
    pub name: String,
    pub program: String,
    pub args: Vec<String>,
    pub state: ProcessState,
    pub process_id: Option<u32>,
}

/// The texts of a list of strings.
pub open spec fn texts(strings: Seq<String>) -> Seq<Seq<char>> {
    strings.map_values(|s: String| s@)
}

/// A command as one line: the program, then its arguments, separated by single spaces.
pub open spec fn command_line_spec(program: Seq<char>, args: Seq<Seq<char>>) -> Seq<char> {
    join_spec(seq![program] + args, seq![' '])
}

/// The word under which a process state is shown.
pub open spec fn state_label(state: ProcessState) -> Seq<char> {
    match state {
        ProcessState::Stopped => "Parado"@,
        ProcessState::Starting => "Iniciando"@,
        ProcessState::Running => "Executando"@,
        ProcessState::Failed => "Falhou"@,
    }
}

impl ProcessState {
    /// The word under which this state is shown: "Parado", "Iniciando", "Executando" or
    /// "Falhou".
    pub fn label(self) -> (r: &'static str)
        ensures
            r@ == state_label(self),
    {
        match self {
            ProcessState::Stopped => "Parado",
            ProcessState::Starting => "Iniciando",
            ProcessState::Running => "Executando",
            ProcessState::Failed => "Falhou",
        }
    }

    /// The state of a process that has ended: stopped when it ended well, failed otherwise.
    pub fn after_exit(success: bool) -> (r: ProcessState)
        ensures
            r == if success {
                ProcessState::Stopped
            } else {
                ProcessState::Failed
            },
    {
        if success {
            ProcessState::Stopped
        } else {
            ProcessState::Failed
        }
    }
}

impl ProjectProcess {
    /// The program and its arguments separated by single spaces, such as `npm run dev`.
    pub fn command_line(&self) -> (r: String)
        ensures
            r@ == command_line_spec(self.program@, texts(self.args@)),
    {
        command_line_of(&self.program, &self.args)
    }
}

/// `program` and `args` separated by single spaces.
pub fn command_line_of(program: &String, args: &Vec<String>) -> (r: String)
    ensures
        r@ == command_line_spec(program@, texts(args@)),
{
    let ghost words = seq![program@] + texts(args@);
    let mut line = program.clone();
    proof {
        reveal_strlit(" ");
        assert(words.take(1) =~= seq![program@]);
    }
    let mut i: usize = 0;
    while i < args.len()
        invariant
            i <= args@.len(),
            words == seq![program@] + texts(args@),
            words.len() == args@.len() + 1,
            " "@ == seq![' '],
            line@ == join_spec(words.take(i + 1), seq![' ']),
        decreases args@.len() - i,
    {
        assert(words.take(i + 2).drop_last() =~= words.take(i + 1));
        assert(words[i + 1] == args@[i as int]@);
        line.append(" ");
        line.append(args[i].as_str());
        i = i + 1;
    }
    assert(words.take(args@.len() + 1 as int) =~= words);
    line
}

} // verus!
