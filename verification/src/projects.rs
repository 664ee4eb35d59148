//! Projects found on the machine and the catalog that holds them.
use vstd::prelude::*;

use crate::paths::{paths_equal, same_path};
use crate::runtimes::{runtime_label, RuntimeKind};
use crate::technologies::{node_tooling, technology_label, TechnologyKind};
use crate::text::{ascii_lower, chars_of, contains_chars, contains_text, join_spec, trim_chars, trim_spec};

verus! {

/// What `Path::file_name` gives for `path`: its last component, or nothing when the path
/// ends in `..` or is a root.
pub uninterp spec fn path_file_name(path: Seq<char>) -> Option<Seq<char>>;

/// The last component of `path`, through `std::path::Path::file_name`. Claims only that the
/// result is `path_file_name` of the path (the component is text, since the path is).
#[verifier::external_body]
fn file_name_of(path: &str) -> (r: Option<String>)
    ensures
        match r {
            Some(name) => path_file_name(path@) == Some(name@),
            None => path_file_name(path@) is None,
        },
{
    std::path::Path::new(path).file_name().and_then(|name| name.to_str()).map(
        |name| name.to_string(),
    )
}

/// What `str::to_lowercase` gives for `s`: the full Unicode lower-case mapping.
pub uninterp spec fn unicode_lowercase(s: Seq<char>) -> Seq<char>;

/// `s.to_lowercase()`. Claims that the result is `unicode_lowercase` of `s`, that the empty
/// text stays empty (the function maps each character in turn), and that ASCII text gets the
/// ASCII lower case (the Unicode mapping of an ASCII character is its ASCII lower case).
#[verifier::external_body]
pub(crate) fn to_lowercase(s: &str) -> (r: String)
    ensures
        r@ == unicode_lowercase(s@),
        s@.len() == 0 ==> r@.len() == 0,
        (forall|i: int| 0 <= i < s@.len() ==> (#[trigger] s@[i] as u32) < 128) ==> r@
            == ascii_lower(s@),
{
    s.to_lowercase()
}

/// The name given to a project whose folder has no name: "Novo projeto".
pub open spec fn unnamed_project() -> Seq<char> {
    seq!['N', 'o', 'v', 'o', ' ', 'p', 'r', 'o', 'j', 'e', 't', 'o']
}

/// The name of a project whose folder has the last component `file_name`.
pub open spec fn project_name(file_name: Option<Seq<char>>) -> Seq<char> {
    match file_name {
        Some(name) => name,
        None => unnamed_project(),
    }
}

/// A development project: a folder on the machine and what it is built with.
#[derive(Debug, Clone, PartialEq, Eq)]
pub struct Project {
    pub name: String,
    /// The folder of the project, as text.
    pub path: String,
    pub runtimes: Vec<RuntimeKind>,
    pub technologies: Vec<TechnologyKind>,
    /// When a file of the project last changed, in nanoseconds since the Unix epoch.
    pub modified_at: Option<i128>,
}

/// Whether a project built with `technologies` shows `runtime` among its labels: Node is
/// left out when a technology already runs through the Node tool chain.
pub open spec fn shows_runtime_spec(runtime: RuntimeKind, technologies: Seq<TechnologyKind>) -> bool {
    runtime != RuntimeKind::Node || !(exists|i: int|
        0 <= i < technologies.len() && node_tooling(#[trigger] technologies[i]))
}

/// Which runtimes a project shows: every runtime but Node always; Node is hidden exactly
/// when one of the technologies, at any position, uses Node tooling (Vue, React,
/// TypeScript, JavaScript), and shown when none does.
pub proof fn lemma_node_hidden_by_tooling(runtime: RuntimeKind, technologies: Seq<TechnologyKind>)
    ensures
        runtime != RuntimeKind::Node ==> shows_runtime_spec(runtime, technologies),
        forall|i: int|
            0 <= i < technologies.len() && (technologies[i] == TechnologyKind::Vue
                || technologies[i] == TechnologyKind::React || technologies[i]
                == TechnologyKind::TypeScript || technologies[i] == TechnologyKind::JavaScript)
                ==> !shows_runtime_spec(RuntimeKind::Node, technologies),
        (forall|i: int| 0 <= i < technologies.len() ==> technologies[i] == TechnologyKind::Laravel)
            ==> shows_runtime_spec(RuntimeKind::Node, technologies),
{
    assert forall|i: int|
        0 <= i < technologies.len() && (technologies[i] == TechnologyKind::Vue || technologies[i]
            == TechnologyKind::React || technologies[i] == TechnologyKind::TypeScript
            || technologies[i] == TechnologyKind::JavaScript) implies !shows_runtime_spec(
        RuntimeKind::Node,
        technologies,
    ) by {
        assert(node_tooling(technologies[i]));
    }
}

/// The runtimes of `runtimes` that are shown next to `technologies`, in order.
pub open spec fn shown_runtimes(runtimes: Seq<RuntimeKind>, technologies: Seq<TechnologyKind>) -> Seq<
    RuntimeKind,
>
    decreases runtimes.len(),
{
    if runtimes.len() == 0 {
        seq![]
    } else {
        let before = shown_runtimes(runtimes.drop_last(), technologies);
        if shows_runtime_spec(runtimes.last(), technologies) {
            before.push(runtimes.last())
        } else {
            before
        }
    }
}

/// The labels of a project: its technologies, then the runtimes it shows.
pub open spec fn stack_labels(runtimes: Seq<RuntimeKind>, technologies: Seq<TechnologyKind>) -> Seq<
    Seq<char>,
> {
    technologies.map_values(|t: TechnologyKind| technology_label(t)) + shown_runtimes(
        runtimes,
        technologies,
    ).map_values(|r: RuntimeKind| runtime_label(r))
}

/// " + "
pub open spec fn stack_separator() -> Seq<char> {
    seq![' ', '+', ' ']
}

/// "Projeto local": what a project with no known technology or runtime shows.
pub open spec fn plain_project_label() -> Seq<char> {
    seq!['P', 'r', 'o', 'j', 'e', 't', 'o', ' ', 'l', 'o', 'c', 'a', 'l']
}

/// The one-line description of a project's stack.
pub open spec fn display_stack_spec(runtimes: Seq<RuntimeKind>, technologies: Seq<TechnologyKind>) -> Seq<
    char,
> {
    let labels = stack_labels(runtimes, technologies);
    if labels.len() == 0 {
        plain_project_label()
    } else {
        join_spec(labels, stack_separator())
    }
}

/// The name of a project from the last component of its folder, or "Novo projeto" when
/// there is none.
pub fn project_name_from(file_name: Option<String>) -> (r: String)
    ensures
        r@ == project_name(
            match file_name {
                Some(name) => Some(name@),
                None => None,
            },
        ),
{
    match file_name {
        Some(name) => name,
        None => {
            proof {
                reveal_strlit("Novo projeto");
            }
            String::from_str("Novo projeto")
        },
    }
}

impl Project {
    /// A project in the folder `path` with the given runtimes, named after the folder, with
    /// no technology and no modification time yet.
    pub fn new(path: String, runtimes: Vec<RuntimeKind>) -> (r: Self)
        ensures
            r.name@ == project_name(path_file_name(path@)),
            r.path == path,
            r.runtimes == runtimes,
            r.technologies@ == Seq::<TechnologyKind>::empty(),
            r.modified_at is None,
    {
        let name = project_name_from(file_name_of(path.as_str()));
        Project { name, path, runtimes, technologies: Vec::new(), modified_at: None }
    }

    /// This project with `technologies` in place of its technologies.
    pub fn with_technologies(self, technologies: Vec<TechnologyKind>) -> (r: Self)
        ensures
            r == (Project { technologies, ..self }),
    {
        let mut project = self;
        project.technologies = technologies;
        project
    }

    /// Whether this project shows `runtime` among its labels: Node is left out when one of
    /// its technologies already runs through the Node tool chain.
    pub fn shows_runtime(&self, runtime: RuntimeKind) -> (r: bool)
        ensures
            r == shows_runtime_spec(runtime, self.technologies@),
    {
        if runtime != RuntimeKind::Node {
            return true;
        }
        let mut i: usize = 0;
        while i < self.technologies.len()
            invariant
                i <= self.technologies@.len(),
                runtime == RuntimeKind::Node,
                forall|j: int| 0 <= j < i ==> !node_tooling(#[trigger] self.technologies@[j]),
            decreases self.technologies@.len() - i,
        {
            if self.technologies[i].uses_node_tooling() {
                assert(node_tooling(self.technologies@[i as int]));
                return false;
            }
            i = i + 1;
        }
        true
    }

    /// The technologies and shown runtimes of this project joined by " + ", such as
    /// "Vue + TypeScript", or "Projeto local" when there are none.
    pub fn display_stack(&self) -> (r: String)
        ensures
            r@ == display_stack_spec(self.runtimes@, self.technologies@),
    {
        let ghost techs = self.technologies@;
        let ghost labels = stack_labels(self.runtimes@, techs);
        let ghost tech_labels = techs.map_values(|t: TechnologyKind| technology_label(t));
        proof {
            reveal_strlit(" + ");
        }
        let mut text = String::new();
        let mut any = false;
        let mut i: usize = 0;
        while i < self.technologies.len()
            invariant
                i <= techs.len(),
                techs == self.technologies@,
                tech_labels == techs.map_values(|t: TechnologyKind| technology_label(t)),
                " + "@ == stack_separator(),
                any == (i > 0),
                text@ == join_spec(tech_labels.take(i as int), stack_separator()),
            decreases techs.len() - i,
        {
            let label = self.technologies[i].label();
            proof {
                lemma_join_push(tech_labels.take(i as int), stack_separator(), label@);
                assert(tech_labels.take(i + 1) =~= tech_labels.take(i as int).push(label@));
            }
            if any {
                text.append(" + ");
            }
            text.append(label);
            any = true;
            i = i + 1;
        }
        assert(tech_labels.take(techs.len() as int) =~= tech_labels);
        let ghost mut shown: Seq<RuntimeKind> = seq![];
        let mut k: usize = 0;
        while k < self.runtimes.len()
            invariant
                k <= self.runtimes@.len(),
                techs == self.technologies@,
                tech_labels == techs.map_values(|t: TechnologyKind| technology_label(t)),
                " + "@ == stack_separator(),
                shown == shown_runtimes(self.runtimes@.take(k as int), techs),
                any == (tech_labels.len() + shown.len() > 0),
                text@ == join_spec(
                    tech_labels + shown.map_values(|r: RuntimeKind| runtime_label(r)),
                    stack_separator(),
                ),
            decreases self.runtimes@.len() - k,
        {
            let runtime = self.runtimes[k];
            let ghost all = tech_labels + shown.map_values(|r: RuntimeKind| runtime_label(r));
            assert(self.runtimes@.take(k + 1).drop_last() =~= self.runtimes@.take(k as int));
            if self.shows_runtime(runtime) {
                let label = runtime.label();
                proof {
                    lemma_join_push(all, stack_separator(), label@);
                    assert(tech_labels + shown.push(runtime).map_values(
                        |r: RuntimeKind| runtime_label(r),
                    ) =~= all.push(label@));
                    shown = shown.push(runtime);
                }
                if any {
                    text.append(" + ");
                }
                text.append(label);
                any = true;
            }
            k = k + 1;
        }
        assert(self.runtimes@.take(self.runtimes@.len() as int) =~= self.runtimes@);
        if !any {
            proof {
                reveal_strlit("Projeto local");
            }
            String::from_str("Projeto local")
        } else {
            text
        }
    }
}

/// Joining one more text: the separator comes between the old texts and the new one.
pub proof fn lemma_join_push(items: Seq<Seq<char>>, sep: Seq<char>, item: Seq<char>)
    ensures
        join_spec(items.push(item), sep) == if items.len() == 0 {
            item
        } else {
            join_spec(items, sep) + sep + item
        },
{
    assert(items.push(item).drop_last() =~= items);
    if items.len() == 0 {
        assert(items.push(item) =~= seq![item]);
    }
}

/// Whether no two of `projects` are in the same folder, their paths compared by components
/// (see `same_path`).
pub open spec fn has_distinct_paths(projects: Seq<Project>) -> bool {
    forall|i: int, j: int|
        0 <= i < projects.len() && 0 <= j < projects.len() && i != j ==> !same_path(
            #[trigger] projects[i].path@,
            #[trigger] projects[j].path@,
        )
}

/// Whether `projects` holds a project in the folder `path`.
pub open spec fn has_project_at(projects: Seq<Project>, path: Seq<char>) -> bool {
    exists|i: int| 0 <= i < projects.len() && same_path(#[trigger] projects[i].path@, path)
}

/// The projects found on the machine, each folder at most once, in the order they were
/// added.
#[derive(Debug)]
pub struct ProjectCatalog {
    projects: Vec<Project>,
}

impl View for ProjectCatalog {
    type V = Seq<Project>;

    closed spec fn view(&self) -> Seq<Project> {
        self.projects@
    }
}

impl Default for ProjectCatalog {
    /// The empty catalog.
    fn default() -> (r: Self)
        ensures
            r@ == Seq::<Project>::empty(),
    {
        ProjectCatalog { projects: Vec::new() }
    }
}

/// The search text a query stands for: trimmed and lower case.
pub open spec fn normalized_query(query: Seq<char>) -> Seq<char> {
    unicode_lowercase(trim_spec(query))
}

/// Whether `project` matches the normalized query `q`: an empty query matches everything,
/// otherwise the query must occur in the lower-case name or folder of the project.
pub open spec fn matches_query(project: Project, q: Seq<char>) -> bool {
    q.len() == 0 || contains_text(unicode_lowercase(project.name@), q) || contains_text(
        unicode_lowercase(project.path@),
        q,
    )
}

/// The projects of `projects` that match `q`, in order.
pub open spec fn matching_projects(projects: Seq<Project>, q: Seq<char>) -> Seq<Project>
    decreases projects.len(),
{
    if projects.len() == 0 {
        seq![]
    } else {
        let before = matching_projects(projects.drop_last(), q);
        if matches_query(projects.last(), q) {
            before.push(projects.last())
        } else {
            before
        }
    }
}

impl ProjectCatalog {
    #[verifier::type_invariant]
    spec fn paths_are_distinct(self) -> bool {
        has_distinct_paths(self.projects@)
    }

    /// The projects, in the order they were added.
    pub fn projects(&self) -> (r: &[Project])
        ensures
            r@ == self@,
            has_distinct_paths(r@),
    {
        proof {
            use_type_invariant(self);
        }
        self.projects.as_slice()
    }

    /// The projects, in the order they were added.
    pub fn into_projects(self) -> (r: Vec<Project>)
        ensures
            r@ == self@,
            has_distinct_paths(r@),
    {
        proof {
            use_type_invariant(&self);
        }
        self.projects
    }

    /// Adds `project` unless the catalog already holds a project in the same folder; says
    /// whether it was added. Folders are compared as paths, by their components
    /// (`same_path`): `x` and `x/` are one folder. A folder reached through a link is told
    /// apart from its target unless the caller gives the resolved (canonical) path.
    pub fn add(&mut self, project: Project) -> (added: bool)
        ensures
            added == !has_project_at(old(self)@, project.path@),
            added ==> final(self)@ == old(self)@.push(project),
            !added ==> final(self)@ == old(self)@,
            has_distinct_paths(final(self)@),
    {
        proof {
            use_type_invariant(&*self);
        }
        let mut i: usize = 0;
        while i < self.projects.len()
            invariant
                i <= self.projects@.len(),
                forall|j: int| 0 <= j < i ==> !same_path(#[trigger] self.projects@[j].path@, project.path@),
                has_distinct_paths(self.projects@),
            decreases self.projects@.len() - i,
        {
            if paths_equal(self.projects[i].path.as_str(), project.path.as_str()) {
                return false;
            }
            i = i + 1;
        }
        let ghost before = self.projects@;
        let mut projects: Vec<Project> = Vec::new();
        std::mem::swap(&mut projects, &mut self.projects);
        projects.push(project);
        assert forall|a: int, b: int|
            0 <= a < projects@.len() && 0 <= b < projects@.len() && a != b implies !same_path(
            #[trigger] projects@[a].path@,
            #[trigger] projects@[b].path@,
        ) by {
            if a < before.len() {
                assert(projects@[a] == before[a]);
            }
            if b < before.len() {
                assert(projects@[b] == before[b]);
            }
        }
        self.projects = projects;
        true
    }

    /// The projects whose name or folder contains `query`, ignoring letter case and the white
    /// space around the query; a blank query finds every project. Catalog order is kept.
    pub fn search(&self, query: &str) -> (r: Vec<&Project>)
        ensures
            r@.map_values(|p: &Project| *p) == matching_projects(self@, normalized_query(query@)),
            trim_spec(query@).len() == 0 ==> r@.map_values(|p: &Project| *p) == self@,
    {
        let trimmed = string_of_chars(&trim_chars(&chars_of(query)));
        let q = chars_of(to_lowercase(trimmed.as_str()).as_str());
        let mut found: Vec<&Project> = Vec::new();
        let mut i: usize = 0;
        while i < self.projects.len()
            invariant
                i <= self.projects@.len(),
                q@ == normalized_query(query@),
                found@.map_values(|p: &Project| *p) == matching_projects(
                    self.projects@.take(i as int),
                    q@,
                ),
            decreases self.projects@.len() - i,
        {
            let project = &self.projects[i];
            let ghost before = found@.map_values(|p: &Project| *p);
            assert(self.projects@.take(i + 1).drop_last() =~= self.projects@.take(i as int));
            if project_matches(project, &q) {
                found.push(project);
                assert(found@.map_values(|p: &Project| *p) =~= before.push(*project));
            }
            i = i + 1;
        }
        assert(self.projects@.take(self.projects@.len() as int) =~= self.projects@);
        proof {
            if trim_spec(query@).len() == 0 {
                lemma_empty_query_matches_all(self.projects@, q@);
            }
        }
        found
    }
}

/// The string made of `chars`.
fn string_of_chars(chars: &Vec<char>) -> (r: String)
    ensures
        r@ == chars@,
{
    crate::text::string_of(chars.as_slice())
}

/// Whether `project` matches the normalized query `q` (see `matches_query`).
pub fn project_matches(project: &Project, q: &Vec<char>) -> (r: bool)
    ensures
        r == matches_query(*project, q@),
{
    let name = chars_of(to_lowercase(project.name.as_str()).as_str());
    let path = chars_of(to_lowercase(project.path.as_str()).as_str());
    lowered_matches(&name, &path, q)
}

/// Whether a project with the lower-case name `name` and lower-case folder `path` matches
/// the normalized query `q`: an empty query matches everything, otherwise the query must
/// occur in the name or in the folder.
pub fn lowered_matches(name: &[char], path: &[char], q: &[char]) -> (r: bool)
    ensures
        r == (q@.len() == 0 || contains_text(name@, q@) || contains_text(path@, q@)),
{
    q.len() == 0 || contains_chars(name, q) || contains_chars(path, q)
}

/// Whether `project` matches the search text `query`, as `ProjectCatalog::search` decides.
pub fn matches_search(project: &Project, query: &str) -> (r: bool)
    ensures
        r == matches_query(*project, normalized_query(query@)),
{
    let trimmed = string_of_chars(&trim_chars(&chars_of(query)));
    let q = chars_of(to_lowercase(trimmed.as_str()).as_str());
    project_matches(project, &q)
}

/// A project that was added is in the catalog, so adding a project in the same folder again
/// is refused.
pub proof fn lemma_added_project_refused_again(before: Seq<Project>, project: Project, again: Project)
    requires
        same_path(again.path@, project.path@),
    ensures
        has_project_at(before.push(project), again.path@),
{
    assert(before.push(project)[before.len() as int] == project);
}

/// The projects that adding `projects` one after another to the catalog `start` leaves: each
/// is appended, in call order, unless the catalog already holds one in the same folder.
pub open spec fn after_adds(start: Seq<Project>, projects: Seq<Project>) -> Seq<Project>
    decreases projects.len(),
{
    if projects.len() == 0 {
        start
    } else {
        let before = after_adds(start, projects.drop_last());
        let p = projects.last();
        if has_project_at(before, p.path@) {
            before
        } else {
            before.push(p)
        }
    }
}

/// A series of `add` calls: one more call after the series leaves the series with that
/// project, and it is added exactly when no earlier project of the series holds its folder.
pub proof fn lemma_add_continues_series(
    start: Seq<Project>,
    projects: Seq<Project>,
    project: Project,
    added: bool,
    after: Seq<Project>,
)
    requires
        added == !has_project_at(after_adds(start, projects), project.path@),
        added ==> after == after_adds(start, projects).push(project),
        !added ==> after == after_adds(start, projects),
    ensures
        after == after_adds(start, projects.push(project)),
{
    assert(projects.push(project).drop_last() =~= projects);
}

/// The empty search text matches every project, in catalog order.
pub proof fn lemma_empty_query_matches_all(projects: Seq<Project>, q: Seq<char>)
    requires
        q.len() == 0,
    ensures
        matching_projects(projects, q) == projects,
    decreases projects.len(),
{
    if projects.len() > 0 {
        lemma_empty_query_matches_all(projects.drop_last(), q);
        assert(projects.drop_last().push(projects.last()) =~= projects);
    }
}

/// The names of folders that the search for the latest change never enters besides hidden
/// ones: version control, dependencies, build output, virtual environments and archive
/// leftovers.
pub open spec fn unwatched_folder_names() -> Seq<Seq<char>> {
    seq![
        ".git"@,
        "node_modules"@,
        "target"@,
        "vendor"@,
        "dist"@,
        "build"@,
        ".venv"@,
        "venv"@,
        "_macosx"@,
        "__macosx"@,
    ]
}

/// How deep below the project folder the search for the latest change looks.
pub open spec fn change_depth_limit() -> usize {
    8
}

/// Whether the search for the latest change of a project enters the folder `name` found at
/// `depth` below the project folder.
pub open spec fn watches_folder_spec(name: Seq<char>, depth: usize) -> bool {
    depth < change_depth_limit() && !(name.len() > 0 && name[0] == '.')
        && !unwatched_folder_names().contains(name)
}

/// Whether the search for the latest change of a project enters the folder `name` found at
/// `depth` below the project folder: not too deep, not hidden, not a dependency or build
/// folder.
pub fn watches_folder(name: &str, depth: usize) -> (r: bool)
    ensures
        r == watches_folder_spec(name@, depth),
{
    if depth >= 8 {
        return false;
    }
    let n = chars_of(name);
    if n.len() > 0 && n[0] == '.' {
        return false;
    }
    let skipped: Vec<Vec<char>> = vec![
        chars_of(".git"),
        chars_of("node_modules"),
        chars_of("target"),
        chars_of("vendor"),
        chars_of("dist"),
        chars_of("build"),
        chars_of(".venv"),
        chars_of("venv"),
        chars_of("_macosx"),
        chars_of("__macosx"),
    ];
    let ghost views = skipped@.map_values(|v: Vec<char>| v@);
    assert(views =~= unwatched_folder_names());
    let mut i: usize = 0;
    while i < skipped.len()
        invariant
            i <= skipped@.len(),
            views == skipped@.map_values(|v: Vec<char>| v@),
            views == unwatched_folder_names(),
            n@ == name@,
            forall|j: int| 0 <= j < i ==> #[trigger] views[j] != n@,
        decreases skipped@.len() - i,
    {
        if crate::text::chars_equal(&skipped[i], &n) {
            assert(views[i as int] == n@);
            return false;
        }
        i = i + 1;
    }
    true
}

/// The latest of a change time known so far and another one.
pub fn later_change(latest: Option<i128>, modified: i128) -> (r: Option<i128>)
    ensures
        r == Some(
            match latest {
                Some(current) => if current > modified {
                    current
                } else {
                    modified
                },
                None => modified,
            },
        ),
{
    match latest {
        Some(current) => if current > modified {
            Some(current)
        } else {
            Some(modified)
        },
        None => Some(modified),
    }
}

} // verus!
