//! The rules of the search for project folders under a set of root folders.
use vstd::prelude::*;

use crate::paths::{same_path, same_path_chars};
use crate::text::{chars_equal, chars_of};

verus! {

/// What the file system says about a folder offered as a root of the search.
#[derive(Debug, Clone, PartialEq, Eq)]
pub struct ScanRoot {
    /// The folder as it was given.
    pub path: String,
    /// Whether it is an existing folder.
    pub is_dir: bool,
    /// Its canonical form, when it could be resolved.
    pub canonical: Option<String>,
}

/// The path by which roots are told apart: the canonical form, or the path as given. Two
/// roots are the same folder when these paths are the same (see `same_path`).
pub open spec fn root_key(root: ScanRoot) -> Seq<char> {
    match root.canonical {
        Some(c) => c@,
        None => root.path@,
    }
}

/// The roots of `roots` that are kept: existing folders, each folder once (the first of the
/// roots that resolve to it), in order.
pub open spec fn kept_roots(roots: Seq<ScanRoot>) -> Seq<ScanRoot>
    decreases roots.len(),
{
    if roots.len() == 0 {
        seq![]
    } else {
        let before = kept_roots(roots.drop_last());
        let r = roots.last();
        if r.is_dir && !(exists|i: int|
            0 <= i < before.len() && same_path(root_key(#[trigger] before[i]), root_key(r))) {
            before.push(r)
        } else {
            before
        }
    }
}

/// Whether every one of `roots` is an existing folder and no two are the same folder.
pub open spec fn distinct_existing(roots: Seq<ScanRoot>) -> bool {
    &&& forall|i: int| 0 <= i < roots.len() ==> (#[trigger] roots[i]).is_dir
    &&& forall|i: int, j: int|
        0 <= i < j < roots.len() ==> !same_path(root_key(#[trigger] roots[i]), root_key(#[trigger] roots[j]))
}

/// The kept roots are existing folders, each once.
proof fn lemma_kept_roots_distinct(roots: Seq<ScanRoot>)
    ensures
        distinct_existing(kept_roots(roots)),
    decreases roots.len(),
{
    if roots.len() > 0 {
        lemma_kept_roots_distinct(roots.drop_last());
        let before = kept_roots(roots.drop_last());
        let r = roots.last();
        if r.is_dir && !(exists|i: int|
            0 <= i < before.len() && same_path(root_key(#[trigger] before[i]), root_key(r))) {
            let after = before.push(r);
            assert forall|i: int, j: int| 0 <= i < j < after.len() implies !same_path(
                root_key(#[trigger] after[i]),
                root_key(#[trigger] after[j]),
            ) by {
                assert(after[i] == before[i]);
                if j < before.len() {
                    assert(after[j] == before[j]);
                }
            }
            assert forall|i: int| 0 <= i < after.len() implies (#[trigger] after[i]).is_dir by {
                if i < before.len() {
                    assert(after[i] == before[i]);
                }
            }
        }
    }
}

/// Roots that are existing folders, each once, are all kept.
proof fn lemma_kept_roots_of_distinct(roots: Seq<ScanRoot>)
    requires
        distinct_existing(roots),
    ensures
        kept_roots(roots) == roots,
    decreases roots.len(),
{
    if roots.len() > 0 {
        let front = roots.drop_last();
        assert forall|i: int, j: int| 0 <= i < j < front.len() implies !same_path(
            root_key(#[trigger] front[i]),
            root_key(#[trigger] front[j]),
        ) by {
            assert(front[i] == roots[i] && front[j] == roots[j]);
        }
        assert forall|i: int| 0 <= i < front.len() implies (#[trigger] front[i]).is_dir by {
            assert(front[i] == roots[i]);
        }
        lemma_kept_roots_of_distinct(front);
        let r = roots.last();
        assert(roots[roots.len() - 1].is_dir);
        assert(!(exists|i: int| 0 <= i < front.len() && same_path(root_key(#[trigger] front[i]), root_key(r)))) by {
            if exists|i: int| 0 <= i < front.len() && same_path(root_key(#[trigger] front[i]), root_key(r)) {
                let i = choose|i: int| 0 <= i < front.len() && same_path(root_key(#[trigger] front[i]), root_key(r));
                assert(front[i] == roots[i]);
                assert(!same_path(root_key(roots[i]), root_key(roots[roots.len() - 1])));
            }
        }
        assert(front.push(r) =~= roots);
    }
}

/// Keeping the roots twice keeps what keeping them once keeps: the roots of a search, given
/// again with what the file system says of them unchanged, give the same search.
pub proof fn lemma_kept_roots_idempotent(roots: Seq<ScanRoot>)
    ensures
        kept_roots(kept_roots(roots)) == kept_roots(roots),
{
    lemma_kept_roots_distinct(roots);
    lemma_kept_roots_of_distinct(kept_roots(roots));
}

/// The paths, as given, of the roots that are kept (see `kept_roots`).
pub fn unique_existing(roots: Vec<ScanRoot>) -> (r: Vec<String>)
    ensures
        r@.len() == kept_roots(roots@).len(),
        forall|i: int| 0 <= i < r@.len() ==> #[trigger] r@[i]@ == kept_roots(roots@)[i].path@,
{
    let ghost all = roots@;
    let mut kept: Vec<String> = Vec::new();
    let mut keys: Vec<Vec<char>> = Vec::new();
    let mut i: usize = 0;
    while i < roots.len()
        invariant
            i <= all.len(),
            all == roots@,
            kept@.len() == kept_roots(all.take(i as int)).len(),
            keys@.len() == kept@.len(),
            forall|j: int|
                0 <= j < kept@.len() ==> #[trigger] kept@[j]@ == kept_roots(all.take(i as int))[j].path@,
            forall|j: int|
                0 <= j < keys@.len() ==> #[trigger] keys@[j]@ == root_key(
                    kept_roots(all.take(i as int))[j],
                ),
        decreases all.len() - i,
    {
        let root = &roots[i];
        assert(all.take(i + 1).drop_last() =~= all.take(i as int));
        let ghost before = kept_roots(all.take(i as int));
        if root.is_dir {
            let key = match &root.canonical {
                Some(c) => chars_of(c.as_str()),
                None => chars_of(root.path.as_str()),
            };
            let mut seen = false;
            let mut k: usize = 0;
            while k < keys.len()
                invariant
                    k <= keys@.len(),
                    seen == (exists|j: int| 0 <= j < k && same_path(#[trigger] keys@[j]@, key@)),
                decreases keys@.len() - k,
            {
                if same_path_chars(&keys[k], &key) {
                    seen = true;
                }
                k = k + 1;
            }
            proof {
                assert(seen == (exists|j: int|
                    0 <= j < before.len() && same_path(root_key(#[trigger] before[j]), root_key(all[i as int])))) by {
                    if seen {
                        let j = choose|j: int| 0 <= j < keys@.len() && same_path(#[trigger] keys@[j]@, key@);
                        assert(same_path(root_key(before[j]), root_key(all[i as int])));
                    }
                    if exists|j: int|
                        0 <= j < before.len() && same_path(root_key(#[trigger] before[j]), root_key(all[i as int])) {
                        let j = choose|j: int|
                            0 <= j < before.len() && same_path(root_key(#[trigger] before[j]), root_key(all[i as int]));
                        assert(same_path(keys@[j]@, key@));
                    }
                }
            }
            if !seen {
                kept.push(root.path.clone());
                keys.push(key);
            }
        }
        i = i + 1;
    }
    assert(all.take(all.len() as int) =~= all);
    kept
}

/// The folders under the home folder where projects usually live, each as its path
/// components below the home folder.
pub open spec fn home_project_folders() -> Seq<Seq<Seq<char>>> {
    seq![
        seq!["Projects"@],
        seq!["Projetos"@],
        seq!["dev"@],
        seq!["code"@],
        seq!["workspace"@],
        seq!["OneDrive"@, "Área de Trabalho"@, "projetos"@],
        seq!["OneDrive"@, "Desktop"@, "projects"@],
    ]
}

/// The folders under the home folder where projects usually live (see
/// `home_project_folders`), for the caller to join to the home folder in order.
pub fn home_project_folder_steps() -> (r: Vec<Vec<String>>)
    ensures
        r@.map_values(|steps: Vec<String>| steps@.map_values(|s: String| s@))
            == home_project_folders(),
{
    let r = vec![
        vec![String::from_str("Projects")],
        vec![String::from_str("Projetos")],
        vec![String::from_str("dev")],
        vec![String::from_str("code")],
        vec![String::from_str("workspace")],
        vec![
            String::from_str("OneDrive"),
            String::from_str("Área de Trabalho"),
            String::from_str("projetos"),
        ],
        vec![
            String::from_str("OneDrive"),
            String::from_str("Desktop"),
            String::from_str("projects"),
        ],
    ];
    assert(r@.map_values(|steps: Vec<String>| steps@.map_values(|s: String| s@))
        =~~= home_project_folders());
    r
}

/// The file names that mark a folder as a project.
pub open spec fn project_marker_names() -> Seq<Seq<char>> {
    seq![
        "Cargo.toml"@,
        "package.json"@,
        "composer.json"@,
        "pyproject.toml"@,
        "requirements.txt"@,
    ]
}

/// The names of folders that the search never enters besides hidden ones: version control,
/// editor settings, dependencies, build output and virtual environments.
pub open spec fn skipped_folder_names() -> Seq<Seq<char>> {
    seq![
        seq!['.', 'g', 'i', 't'],
        seq!['.', 'i', 'd', 'e', 'a'],
        seq!['.', 'v', 's', 'c', 'o', 'd', 'e'],
        seq!['n', 'o', 'd', 'e', '_', 'm', 'o', 'd', 'u', 'l', 'e', 's'],
        seq!['t', 'a', 'r', 'g', 'e', 't'],
        seq!['v', 'e', 'n', 'd', 'o', 'r'],
        seq!['d', 'i', 's', 't'],
        seq!['b', 'u', 'i', 'l', 'd'],
        seq!['.', 'v', 'e', 'n', 'v'],
        seq!['v', 'e', 'n', 'v'],
    ]
}

/// Whether the search skips a folder entry named `name`: hidden names (starting with a
/// dot) and the skipped folder names.
pub open spec fn skips_entry(name: Seq<char>) -> bool {
    (name.len() > 0 && name[0] == '.') || skipped_folder_names().contains(name)
}

/// The search never enters a hidden folder (`.git`, `.idea`, `.vscode`, `.venv`, ...) nor
/// a dependency or build folder: `node_modules`, `target`, `vendor`, `dist`, `build` and
/// `venv` are skipped wherever they stand.
pub proof fn lemma_dependency_folders_skipped(name: Seq<char>)
    ensures
        name.len() > 0 && name[0] == '.' ==> skips_entry(name),
        name == seq!['.', 'g', 'i', 't'] || name == seq!['.', 'i', 'd', 'e', 'a'] || name == seq![
            '.',
            'v',
            's',
            'c',
            'o',
            'd',
            'e',
        ] || name == seq!['.', 'v', 'e', 'n', 'v'] ==> skips_entry(name),
        name == seq!['n', 'o', 'd', 'e', '_', 'm', 'o', 'd', 'u', 'l', 'e', 's'] ==> skips_entry(
            name,
        ),
        name == seq!['t', 'a', 'r', 'g', 'e', 't'] ==> skips_entry(name),
        name == seq!['v', 'e', 'n', 'd', 'o', 'r'] ==> skips_entry(name),
        name == seq!['d', 'i', 's', 't'] ==> skips_entry(name),
        name == seq!['b', 'u', 'i', 'l', 'd'] ==> skips_entry(name),
        name == seq!['v', 'e', 'n', 'v'] ==> skips_entry(name),
{
    let names = skipped_folder_names();
    assert(names[3] == seq!['n', 'o', 'd', 'e', '_', 'm', 'o', 'd', 'u', 'l', 'e', 's']);
    assert(names[4] == seq!['t', 'a', 'r', 'g', 'e', 't']);
    assert(names[5] == seq!['v', 'e', 'n', 'd', 'o', 'r']);
    assert(names[6] == seq!['d', 'i', 's', 't']);
    assert(names[7] == seq!['b', 'u', 'i', 'l', 'd']);
    assert(names[9] == seq!['v', 'e', 'n', 'v']);
}

/// The file names that mark a folder as a project, in the order they are tried.
pub fn project_markers() -> (r: Vec<String>)
    ensures
        r@.map_values(|s: String| s@) == project_marker_names(),
{
    let r = vec![
        String::from_str("Cargo.toml"),
        String::from_str("package.json"),
        String::from_str("composer.json"),
        String::from_str("pyproject.toml"),
        String::from_str("requirements.txt"),
    ];
    assert(r@.map_values(|s: String| s@) =~= project_marker_names());
    r
}

/// Whether the search skips the folder entry `name` (see `skips_entry`).
pub fn is_skipped_entry(name: &str) -> (r: bool)
    ensures
        r == skips_entry(name@),
{
    let n = chars_of(name);
    if n.len() > 0 && n[0] == '.' {
        return true;
    }
    let names: Vec<Vec<char>> = vec![
        vec!['.', 'g', 'i', 't'],
        vec!['.', 'i', 'd', 'e', 'a'],
        vec!['.', 'v', 's', 'c', 'o', 'd', 'e'],
        vec!['n', 'o', 'd', 'e', '_', 'm', 'o', 'd', 'u', 'l', 'e', 's'],
        vec!['t', 'a', 'r', 'g', 'e', 't'],
        vec!['v', 'e', 'n', 'd', 'o', 'r'],
        vec!['d', 'i', 's', 't'],
        vec!['b', 'u', 'i', 'l', 'd'],
        vec!['.', 'v', 'e', 'n', 'v'],
        vec!['v', 'e', 'n', 'v'],
    ];
    let ghost views = names@.map_values(|v: Vec<char>| v@);
    assert(views =~= skipped_folder_names());
    let mut i: usize = 0;
    while i < names.len()
        invariant
            i <= names@.len(),
            views == names@.map_values(|v: Vec<char>| v@),
            views == skipped_folder_names(),
            n@ == name@,
            forall|j: int| 0 <= j < i ==> #[trigger] views[j] != n@,
        decreases names@.len() - i,
    {
        if chars_equal(&names[i], &n) {
            assert(views[i as int] == n@);
            return true;
        }
        i = i + 1;
    }
    false
}

/// What the search does with a folder taken from its queue.
#[derive(Debug, Clone, Copy, PartialEq, Eq, Structural)]
pub enum ScanStep {
    /// Leave it: seen before, not a folder, or too deep to look inside.
    Skip,
    /// It is a project: record it and do not look inside.
    RecordProject,
    /// Look inside it for more folders.
    Descend,
}

/// The step the search takes for a folder at `depth`, given whether it is seen for the first
/// time, whether it is a folder and whether it holds a project marker file.
pub open spec fn scan_step_spec(
    first_visit: bool,
    is_dir: bool,
    has_marker: bool,
    depth: usize,
    max_depth: usize,
) -> ScanStep {
    if !first_visit || !is_dir {
        ScanStep::Skip
    } else if has_marker {
        ScanStep::RecordProject
    } else if depth >= max_depth {
        ScanStep::Skip
    } else {
        ScanStep::Descend
    }
}

/// A search for project folders under a set of roots, down to a fixed depth.
#[derive(Debug, Clone)]
pub struct FilesystemProjectSource {
    roots: Vec<String>,
    max_depth: usize,
}

impl FilesystemProjectSource {
    /// A search under the existing folders among `roots`, each once (see `unique_existing`),
    /// five levels deep.
    pub fn new(roots: Vec<ScanRoot>) -> (r: Self)
        ensures
            r.roots_view().len() == kept_roots(roots@).len(),
            forall|i: int|
                0 <= i < r.roots_view().len() ==> #[trigger] r.roots_view()[i] == kept_roots(
                    roots@,
                )[i].path@,
            r.depth_limit() == 5,
    {
        let kept = unique_existing(roots);
        let r = Self { roots: kept, max_depth: 5 };
        r
    }

    /// The root folders, as text.
    pub closed spec fn roots_view(&self) -> Seq<Seq<char>> {
        self.roots@.map_values(|s: String| s@)
    }

    /// How many levels below a root the search looks.
    pub closed spec fn depth_limit(&self) -> usize {
        self.max_depth
    }

    /// The root folders of the search.
    pub fn roots(&self) -> (r: &[String])
        ensures
            r@.map_values(|s: String| s@) == self.roots_view(),
    {
        self.roots.as_slice()
    }

    /// How many levels below a root the search looks.
    pub fn max_depth(&self) -> (r: usize)
        ensures
            r == self.depth_limit(),
    {
        self.max_depth
    }

    /// The step the search takes for a folder at `depth`: a folder seen before or that is
    /// not a folder is skipped, a folder with a project marker file is a project, a folder
    /// at the depth limit is not entered, any other is searched.
    pub fn step(&self, first_visit: bool, is_dir: bool, has_marker: bool, depth: usize) -> (r:
        ScanStep)
        ensures
            r == scan_step_spec(first_visit, is_dir, has_marker, depth, self.depth_limit()),
    {
        if !first_visit || !is_dir {
            ScanStep::Skip
        } else if has_marker {
            ScanStep::RecordProject
        } else if depth >= self.max_depth {
            ScanStep::Skip
        } else {
            ScanStep::Descend
        }
    }
}

} // verus!
