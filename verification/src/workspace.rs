//! The decisions of the desktop workspace: its pages, the folders it searches, the order of
//! the project grid and the life of the commands it starts.
use vstd::prelude::*;

use crate::paths::{same_path, same_path_chars};
use crate::processes::{texts, ProcessState, ProjectProcess};
use crate::projects::{matches_query, normalized_query, project_matches, Project};
use crate::text::{chars_equal, chars_of, string_of, trim_chars, trim_spec};

verus! {

broadcast use vstd::seq_lib::group_to_multiset_ensures;

/// A page of the desktop application.
#[derive(Debug, Clone, Copy, PartialEq, Eq, Structural)]
pub enum Page {
    Overview,
    Projects,
    Processes,
    Plugins,
    Settings,
}

/// The title of a page.
pub open spec fn page_title(page: Page) -> Seq<char> {
    match page {
        Page::Overview => "Visão geral"@,
        Page::Projects => "Projetos"@,
        Page::Processes => "Processos"@,
        Page::Plugins => "Plugins"@,
        Page::Settings => "Configurações"@,
    }
}

impl Page {
    /// The title of this page.
    pub fn title(self) -> (r: &'static str)
        ensures
            r@ == page_title(self),
    {
        match self {
            Page::Overview => "Visão geral",
            Page::Projects => "Projetos",
            Page::Processes => "Processos",
            Page::Plugins => "Plugins",
            Page::Settings => "Configurações",
        }
    }
}

/// Whether one of `roots` is the folder `path`, compared as paths (see `same_path`).
pub open spec fn holds_path(roots: Seq<Seq<char>>, path: Seq<char>) -> bool {
    exists|j: int| 0 <= j < roots.len() && same_path(#[trigger] roots[j], path)
}

/// Adds `path` to the searched folders unless it is there already, compared as a path;
/// says whether it was added.
pub fn add_scan_root(roots: &mut Vec<String>, path: String) -> (added: bool)
    ensures
        added == !holds_path(texts(old(roots)@), path@),
        added ==> texts(final(roots)@) == texts(old(roots)@).push(path@),
        !added ==> final(roots)@ == old(roots)@,
{
    let p = chars_of(path.as_str());
    let mut i: usize = 0;
    while i < roots.len()
        invariant
            i <= roots@.len(),
            p@ == path@,
            forall|j: int| 0 <= j < i ==> !same_path(#[trigger] texts(roots@)[j], path@),
        decreases roots@.len() - i,
    {
        if same_path_chars(&chars_of(roots[i].as_str()), &p) {
            assert(same_path(texts(roots@)[i as int], path@));
            return false;
        }
        i = i + 1;
    }
    let ghost before = texts(roots@);
    roots.push(path);
    assert(texts(roots@) =~= before.push(path@));
    true
}

/// Removes the folder `path`, compared as a path, from the searched folders; the others keep
/// their order.
pub fn remove_scan_root(roots: &mut Vec<String>, path: &str)
    ensures
        texts(final(roots)@) == texts(old(roots)@).filter(|r: Seq<char>| !same_path(r, path@)),
{
    let ghost all = texts(roots@);
    let ghost keep = |r: Seq<char>| !same_path(r, path@);
    let p = chars_of(path);
    let mut kept: Vec<String> = Vec::new();
    let mut rest: Vec<String> = Vec::new();
    std::mem::swap(&mut rest, roots);
    let ghost initial = rest@;
    let mut i: usize = 0;
    while i < rest.len()
        invariant
            i <= rest@.len(),
            rest@ == initial,
            all == texts(initial),
            keep == (|r: Seq<char>| !same_path(r, path@)),
            p@ == path@,
            texts(kept@) == all.take(i as int).filter(keep),
        decreases rest@.len() - i,
    {
        proof {
            assert(all.take(i + 1).drop_last() =~= all.take(i as int));
            reveal(Seq::filter);
        }
        assert(all[i as int] == rest@[i as int]@);
        let ghost before = texts(kept@);
        if !same_path_chars(&chars_of(rest[i].as_str()), &p) {
            kept.push(rest[i].clone());
            assert(texts(kept@) =~= before.push(all[i as int]));
        }
        i = i + 1;
    }
    assert(all.take(all.len() as int) =~= all);
    *roots = kept;
}

/// Whether the change time `a` is earlier than `b`; no time counts as the earliest.
pub open spec fn earlier(a: Option<i128>, b: Option<i128>) -> bool {
    match (a, b) {
        (None, Some(_)) => true,
        (Some(x), Some(y)) => x < y,
        _ => false,
    }
}

/// The order of the project grid on indices of `projects`: the most recently changed first,
/// projects without a known change last, ties in catalog order.
pub open spec fn newest_first(projects: Seq<Project>) -> spec_fn(int, int) -> bool {
    |i: int, j: int|
        earlier(projects[j].modified_at, projects[i].modified_at) || (projects[i].modified_at
            == projects[j].modified_at && i <= j)
}

/// The indices of the projects that match the normalized query `q`, in catalog order.
pub open spec fn matching_indices(projects: Seq<Project>, q: Seq<char>, n: int) -> Seq<int>
    decreases n,
{
    if n <= 0 {
        seq![]
    } else {
        let before = matching_indices(projects, q, n - 1);
        if matches_query(projects[n - 1], q) {
            before.push(n - 1)
        } else {
            before
        }
    }
}

/// The indices of the projects the grid shows for `query`: those that match it, newest
/// first, at most `limit` of them when there is a limit.
pub open spec fn visible_spec(projects: Seq<Project>, query: Seq<char>, limit: Option<usize>) -> Seq<
    int,
> {
    let sorted = matching_indices(projects, normalized_query(query), projects.len() as int).sort_by(
        newest_first(projects),
    );
    match limit {
        Some(l) => if l < sorted.len() {
            sorted.take(l as int)
        } else {
            sorted
        },
        None => sorted,
    }
}

/// `newest_first` orders the indices of a list of projects.
pub proof fn lemma_newest_first_total(projects: Seq<Project>)
    ensures
        vstd::relations::total_ordering(newest_first(projects)),
{
    let leq = newest_first(projects);
    assert forall|a: int, b: int, c: int| #[trigger] leq(a, b) && #[trigger] leq(b, c) implies leq(
        a,
        c,
    ) by {}
    assert forall|a: int, b: int| #[trigger] leq(a, b) && leq(b, a) implies a == b by {}
}

/// Whether the index `i` comes before `j` in the grid.
fn newer_or_same(projects: &[Project], i: usize, j: usize) -> (r: bool)
    requires
        i < projects@.len(),
        j < projects@.len(),
    ensures
        r == newest_first(projects@)(i as int, j as int),
{
    let a = projects[i].modified_at;
    let b = projects[j].modified_at;
    match (a, b) {
        (Some(x), Some(y)) => y < x || (x == y && i <= j),
        (Some(_), None) => true,
        (None, Some(_)) => false,
        (None, None) => i <= j,
    }
}

/// Whether `s` is in the order of the grid.
pub open spec fn grid_sorted(projects: Seq<Project>, s: Seq<int>) -> bool {
    vstd::relations::sorted_by(s, newest_first(projects))
}

/// The indices of the projects the grid shows for `query` (see `visible_spec`): those whose
/// name or folder contains the trimmed, lower-case query, the most recently changed first,
/// at most `limit` of them.
pub fn visible_projects(projects: &[Project], query: &str, limit: Option<usize>) -> (r: Vec<usize>)
    ensures
        r@.map_values(|i: usize| i as int) == visible_spec(projects@, query@, limit),
{
    let trimmed = string_of(&trim_chars(&chars_of(query)));
    let q = chars_of(crate::projects::to_lowercase(trimmed.as_str()).as_str());
    let ghost ps = projects@;
    let ghost leq = newest_first(ps);
    let mut sorted: Vec<usize> = Vec::new();
    let mut i: usize = 0;
    proof {
        lemma_newest_first_total(ps);
    }
    while i < projects.len()
        invariant
            i <= ps.len(),
            ps == projects@,
            leq == newest_first(ps),
            q@ == normalized_query(query@),
            vstd::relations::total_ordering(leq),
            forall|k: int| 0 <= k < sorted@.len() ==> #[trigger] sorted@[k] < i,
            vstd::relations::sorted_by(sorted@.map_values(|x: usize| x as int), leq),
            sorted@.map_values(|x: usize| x as int).to_multiset() == matching_indices(
                ps,
                q@,
                i as int,
            ).to_multiset(),
        decreases ps.len() - i,
    {
        let ghost s = sorted@.map_values(|x: usize| x as int);
        if project_matches(&projects[i], &q) {
            let mut j: usize = 0;
            while j < sorted.len() && newer_or_same(projects, sorted[j], i)
                invariant
                    j <= sorted@.len(),
                    i < ps.len(),
                    ps == projects@,
                    leq == newest_first(ps),
                    s == sorted@.map_values(|x: usize| x as int),
                    forall|k: int| 0 <= k < sorted@.len() ==> #[trigger] sorted@[k] < i,
                    forall|k: int| 0 <= k < j ==> leq(#[trigger] s[k], i as int),
                decreases sorted@.len() - j,
            {
                j = j + 1;
            }
            proof {
                assert forall|a: int, b: int|
                    0 <= a < b < s.len() + 1 implies #[trigger] leq(
                    s.insert(j as int, i as int)[a],
                    s.insert(j as int, i as int)[b],
                ) by {
                    let t = s.insert(j as int, i as int);
                    if b < j {
                        assert(t[a] == s[a] && t[b] == s[b]);
                    } else if b == j {
                        assert(t[a] == s[a]);
                    } else if a < j {
                        assert(t[a] == s[a] && t[b] == s[b - 1]);
                    } else if a == j {
                        assert(t[b] == s[b - 1]);
                        assert(!leq(s[j as int], i as int));
                        assert(leq(s[j as int], s[b - 1]) || b - 1 == j);
                    } else {
                        assert(t[a] == s[a - 1] && t[b] == s[b - 1]);
                    }
                }
                vstd::seq_lib::to_multiset_insert(s, j as int, i as int);
            }
            sorted.insert(j, i);
            assert(sorted@.map_values(|x: usize| x as int) =~= s.insert(j as int, i as int));
        }
        i = i + 1;
    }
    let ghost all = matching_indices(ps, q@, ps.len() as int);
    proof {
        all.lemma_sort_by_ensures(leq);
        vstd::seq_lib::lemma_sorted_unique(
            sorted@.map_values(|x: usize| x as int),
            all.sort_by(leq),
            leq,
        );
    }
    match limit {
        Some(l) => {
            if l < sorted.len() {
                sorted.truncate(l);
                assert(sorted@.map_values(|x: usize| x as int) =~= all.sort_by(leq).take(l as int));
            }
        },
        None => {},
    }
    sorted
}

/// The index of the first process with the id `id`, if any.
pub fn find_process(processes: &[ProjectProcess], id: &str) -> (r: Option<usize>)
    ensures
        match r {
            Some(i) => i < processes@.len() && processes@[i as int].id@ == id@ && forall|j: int|
                0 <= j < i ==> #[trigger] processes@[j].id@ != id@,
            None => forall|j: int| 0 <= j < processes@.len() ==> #[trigger] processes@[j].id@ != id@,
        },
{
    let key = chars_of(id);
    let mut i: usize = 0;
    while i < processes.len()
        invariant
            i <= processes@.len(),
            key@ == id@,
            forall|j: int| 0 <= j < i ==> #[trigger] processes@[j].id@ != id@,
        decreases processes@.len() - i,
    {
        if chars_equal(&chars_of(processes[i].id.as_str()), &key) {
            return Some(i);
        }
        i = i + 1;
    }
    None
}

/// Sets the state and process id of the process at `index`; nothing else changes.
pub fn update_process(
    processes: &mut Vec<ProjectProcess>,
    index: usize,
    state: ProcessState,
    process_id: Option<u32>,
)
    requires
        index < old(processes)@.len(),
    ensures
        final(processes)@ == old(processes)@.update(
            index as int,
            ProjectProcess { state, process_id, ..old(processes)@[index as int] },
        ),
{
    let p = processes.remove(index);
    let updated = ProjectProcess {
        id: p.id,
        project_name: p.project_name,
        project_path: p.project_path,
        working_directory: p.working_directory,
        name: p.name,
        program: p.program,
        args: p.args,
        state,
        process_id,
    };
    processes.insert(index, updated);
    assert(processes@ =~= old(processes)@.update(
        index as int,
        ProjectProcess { state, process_id, ..old(processes)@[index as int] },
    ));
}

/// Sets the first process with the id `id` to `state`, without a process id; says whether
/// there was one.
pub fn settle_process(processes: &mut Vec<ProjectProcess>, id: &str, state: ProcessState) -> (found:
    bool)
    ensures
        match find_first(old(processes)@, id@) {
            Some(i) => found && final(processes)@ == old(processes)@.update(
                i,
                ProjectProcess { state, process_id: None, ..old(processes)@[i] },
            ),
            None => !found && final(processes)@ == old(processes)@,
        },
{
    match find_process(processes.as_slice(), id) {
        Some(i) => {
            proof {
                lemma_find_first(old(processes)@, id@, i as int);
            }
            update_process(processes, i, state, None);
            true
        },
        None => {
            proof {
                lemma_find_first_none(old(processes)@, id@);
            }
            false
        },
    }
}

/// Begins starting the command `id`: marks it `Starting` and gives its index, unless no
/// command has that id or a child started for it still runs (`still_running`); then nothing
/// changes and no index is given. The process id it had is kept.
pub fn begin_start(processes: &mut Vec<ProjectProcess>, id: &str, still_running: bool) -> (r:
    Option<usize>)
    ensures
        match find_first(old(processes)@, id@) {
            Some(i) => if still_running {
                r is None && final(processes)@ == old(processes)@
            } else {
                r == Some(i as usize) && final(processes)@ == old(processes)@.update(
                    i,
                    ProjectProcess { state: ProcessState::Starting, ..old(processes)@[i] },
                )
            },
            None => r is None && final(processes)@ == old(processes)@,
        },
{
    match find_process(processes.as_slice(), id) {
        Some(i) => {
            proof {
                lemma_find_first(old(processes)@, id@, i as int);
            }
            if still_running {
                return None;
            }
            let process_id = processes[i].process_id;
            update_process(processes, i, ProcessState::Starting, process_id);
            assert(processes@[i as int] == ProjectProcess {
                state: ProcessState::Starting,
                ..old(processes)@[i as int]
            });
            Some(i)
        },
        None => {
            proof {
                lemma_find_first_none(old(processes)@, id@);
            }
            None
        },
    }
}

/// The control the processes page offers for a command.
#[derive(Debug, Clone, Copy, PartialEq, Eq, Structural)]
pub enum ProcessControl {
    /// A button that starts the command.
    Start,
    /// A button that stops it.
    Stop,
    /// A disabled button while it starts.
    Wait,
}

/// The control for a command in `state`: stop a running one, wait for one that starts, and
/// start one that is stopped or has failed.
pub open spec fn control_for(state: ProcessState) -> ProcessControl {
    match state {
        ProcessState::Running => ProcessControl::Stop,
        ProcessState::Starting => ProcessControl::Wait,
        ProcessState::Stopped | ProcessState::Failed => ProcessControl::Start,
    }
}

/// The control for a command in `state` (see `control_for`).
pub fn process_control(state: ProcessState) -> (r: ProcessControl)
    ensures
        r == control_for(state),
{
    match state {
        ProcessState::Running => ProcessControl::Stop,
        ProcessState::Starting => ProcessControl::Wait,
        ProcessState::Stopped | ProcessState::Failed => ProcessControl::Start,
    }
}

/// The index of the first process with the id `id`, if any.
pub open spec fn find_first(processes: Seq<ProjectProcess>, id: Seq<char>) -> Option<int> {
    if exists|i: int| 0 <= i < processes.len() && #[trigger] processes[i].id@ == id {
        Some(
            choose|i: int|
                0 <= i < processes.len() && #[trigger] processes[i].id@ == id && forall|j: int|
                    0 <= j < i ==> #[trigger] processes[j].id@ != id,
        )
    } else {
        None
    }
}

proof fn lemma_find_first(processes: Seq<ProjectProcess>, id: Seq<char>, i: int)
    requires
        0 <= i < processes.len(),
        processes[i].id@ == id,
        forall|j: int| 0 <= j < i ==> #[trigger] processes[j].id@ != id,
    ensures
        find_first(processes, id) == Some(i),
{
    let c = choose|c: int|
        0 <= c < processes.len() && #[trigger] processes[c].id@ == id && forall|j: int|
            0 <= j < c ==> #[trigger] processes[j].id@ != id;
    assert(0 <= c < processes.len() && processes[c].id@ == id && forall|j: int|
        0 <= j < c ==> #[trigger] processes[j].id@ != id);
    if c < i {
        assert(processes[c].id@ != id);
    } else if c > i {
        assert(processes[i].id@ != id);
    }
}

proof fn lemma_find_first_none(processes: Seq<ProjectProcess>, id: Seq<char>)
    requires
        forall|j: int| 0 <= j < processes.len() ==> #[trigger] processes[j].id@ != id,
    ensures
        find_first(processes, id) is None,
{
}

/// How many output lines of a command are kept.
pub open spec fn log_capacity() -> nat {
    500
}

/// What the project grid says when it shows no project.
#[derive(Debug, Clone, Copy, PartialEq, Eq, Structural)]
pub enum GridNotice {
    /// The search of the machine is still running.
    Searching,
    /// The search text matches no project.
    NoMatch,
    /// No project was found.
    NoProjects,
}

/// The notice of an empty grid: the search of the machine comes first, then a search text
/// that is not blank.
pub open spec fn grid_notice_spec(searching: bool, query: Seq<char>) -> GridNotice {
    if searching {
        GridNotice::Searching
    } else if trim_spec(query).len() > 0 {
        GridNotice::NoMatch
    } else {
        GridNotice::NoProjects
    }
}

/// The notice of an empty grid (see `grid_notice_spec`).
pub fn grid_notice(searching: bool, query: &str) -> (r: GridNotice)
    ensures
        r == grid_notice_spec(searching, query@),
{
    if searching {
        GridNotice::Searching
    } else if trim_chars(&chars_of(query)).len() > 0 {
        GridNotice::NoMatch
    } else {
        GridNotice::NoProjects
    }
}

/// The indices of the commands of `processes`, among the first `n`, that belong to the
/// project in the folder `path` (compared as paths), in order.
pub open spec fn commands_of(processes: Seq<ProjectProcess>, path: Seq<char>, n: int) -> Seq<int>
    decreases n,
{
    if n <= 0 {
        seq![]
    } else {
        let before = commands_of(processes, path, n - 1);
        if same_path(processes[n - 1].project_path@, path) {
            before.push(n - 1)
        } else {
            before
        }
    }
}

/// The indices of the commands that belong to the project in the folder `path`, in order:
/// the group the processes page shows under that project.
pub fn project_commands(processes: &[ProjectProcess], path: &str) -> (r: Vec<usize>)
    ensures
        r@.map_values(|i: usize| i as int) == commands_of(processes@, path@, processes@.len() as int),
{
    let p = chars_of(path);
    let mut r: Vec<usize> = Vec::new();
    let mut i: usize = 0;
    while i < processes.len()
        invariant
            i <= processes@.len(),
            p@ == path@,
            r@.map_values(|k: usize| k as int) == commands_of(processes@, path@, i as int),
        decreases processes@.len() - i,
    {
        let ghost before = r@.map_values(|k: usize| k as int);
        if same_path_chars(&chars_of(processes[i].project_path.as_str()), &p) {
            r.push(i);
            assert(r@.map_values(|k: usize| k as int) =~= before.push(i as int));
        }
        i = i + 1;
    }
    r
}

/// The kept output of a command after one more line: the line is added at the end, and the
/// oldest line goes when more than the capacity would be kept.
pub open spec fn with_log_line(logs: Seq<Seq<char>>, line: Seq<char>) -> Seq<Seq<char>> {
    let pushed = logs.push(line);
    if pushed.len() > log_capacity() {
        pushed.drop_first()
    } else {
        pushed
    }
}

/// Adds an output line of a command to its kept output (see `with_log_line`).
pub fn push_log_line(logs: &mut Vec<String>, line: String)
    ensures
        texts(final(logs)@) == with_log_line(texts(old(logs)@), line@),
{
    let ghost before = texts(logs@);
    logs.push(line);
    assert(texts(logs@) =~= before.push(line@));
    if logs.len() > 500 {
        let ghost pushed = texts(logs@);
        logs.remove(0);
        assert(texts(logs@) =~= pushed.drop_first());
    }
}

/// The kept output never grows past its capacity, and its last line is the newest.
pub proof fn lemma_log_stays_bounded(logs: Seq<Seq<char>>, line: Seq<char>)
    requires
        logs.len() <= log_capacity(),
    ensures
        with_log_line(logs, line).len() <= log_capacity(),
        with_log_line(logs, line).last() == line,
{
}

/// The kept output after the lines `lines`, one after another (see `with_log_line`).
pub open spec fn with_log_lines(logs: Seq<Seq<char>>, lines: Seq<Seq<char>>) -> Seq<Seq<char>>
    decreases lines.len(),
{
    if lines.len() == 0 {
        logs
    } else {
        with_log_line(with_log_lines(logs, lines.drop_last()), lines.last())
    }
}

/// The last `n` lines of `all`, or all of them when there are no more than `n`.
pub open spec fn last_lines(all: Seq<Seq<char>>, n: nat) -> Seq<Seq<char>> {
    if all.len() <= n {
        all
    } else {
        all.skip(all.len() - n)
    }
}

/// After any number of lines, the kept output is the newest lines, as many as fit: the last
/// ones of the earlier output followed by the new lines.
pub proof fn lemma_log_keeps_newest(logs: Seq<Seq<char>>, lines: Seq<Seq<char>>)
    requires
        logs.len() <= log_capacity(),
    ensures
        with_log_lines(logs, lines) == last_lines(logs + lines, log_capacity()),
    decreases lines.len(),
{
    if lines.len() == 0 {
        assert(logs + lines =~= logs);
    } else {
        let t = logs + lines.drop_last();
        let x = lines.last();
        lemma_log_keeps_newest(logs, lines.drop_last());
        assert(logs + lines =~= t.push(x));
        let prev = last_lines(t, log_capacity());
        let all = t.push(x);
        if t.len() < log_capacity() {
            assert(with_log_line(prev, x) =~= last_lines(all, log_capacity()));
        } else {
            assert(prev.push(x).len() > log_capacity());
            assert(prev.push(x).drop_first() =~= all.skip(all.len() - log_capacity()));
        }
    }
}

/// A removed folder is no longer searched.
pub proof fn lemma_removed_root_absent(roots: Seq<Seq<char>>, path: Seq<char>)
    ensures
        !holds_path(roots.filter(|r: Seq<char>| !same_path(r, path)), path),
{
    let kept = roots.filter(|r: Seq<char>| !same_path(r, path));
    assert forall|i: int| 0 <= i < kept.len() implies !same_path(#[trigger] kept[i], path) by {
        roots.lemma_filter_pred(|r: Seq<char>| !same_path(r, path), i);
    }
}

/// The grid shows only projects that match the query, the more recently changed before the
/// others.
pub proof fn lemma_grid_order(projects: Seq<Project>, query: Seq<char>, limit: Option<usize>)
    ensures
        forall|i: int|
            0 <= i < visible_spec(projects, query, limit).len() ==> {
                let k = #[trigger] visible_spec(projects, query, limit)[i];
                0 <= k < projects.len() && matches_query(projects[k], normalized_query(query))
            },
        forall|a: int, b: int|
            0 <= a < b < visible_spec(projects, query, limit).len() ==> !earlier(
                projects[visible_spec(projects, query, limit)[a]].modified_at,
                projects[visible_spec(projects, query, limit)[b]].modified_at,
            ),
{
    let leq = newest_first(projects);
    let all = matching_indices(projects, normalized_query(query), projects.len() as int);
    lemma_newest_first_total(projects);
    all.lemma_sort_by_ensures(leq);
    let sorted = all.sort_by(leq);
    let v = visible_spec(projects, query, limit);
    assert forall|a: int, b: int| 0 <= a < b < v.len() implies !earlier(
        projects[v[a]].modified_at,
        projects[v[b]].modified_at,
    ) by {
        assert(v[a] == sorted[a] && v[b] == sorted[b]);
        assert(leq(sorted[a], sorted[b]));
    }
    lemma_matching_indices_match(projects, normalized_query(query), projects.len() as int);
    assert forall|i: int| 0 <= i < v.len() implies {
        let k = #[trigger] v[i];
        0 <= k < projects.len() && matches_query(projects[k], normalized_query(query))
    } by {
        assert(v[i] == sorted[i]);
        assert(sorted.contains(sorted[i]));
        assert(all.contains(sorted[i]));
    }
}

/// The matching indices are indices of matching projects.
proof fn lemma_matching_indices_match(projects: Seq<Project>, q: Seq<char>, n: int)
    requires
        n <= projects.len(),
    ensures
        forall|i: int|
            0 <= i < matching_indices(projects, q, n).len() ==> {
                let k = #[trigger] matching_indices(projects, q, n)[i];
                0 <= k < n && matches_query(projects[k], q)
            },
    decreases n,
{
    if n > 0 {
        lemma_matching_indices_match(projects, q, n - 1);
        let before = matching_indices(projects, q, n - 1);
        let m = matching_indices(projects, q, n);
        assert forall|i: int| 0 <= i < m.len() implies {
            let k = #[trigger] m[i];
            0 <= k < n && matches_query(projects[k], q)
        } by {
            if i < before.len() {
                assert(m[i] == before[i]);
            }
        }
    }
}

} // verus!
