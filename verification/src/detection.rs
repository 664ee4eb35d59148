//! Detection of the runtimes a folder uses and of the commands that can run in it, from what
//! the folder holds.
use vstd::prelude::*;

use crate::ports::last_index_of;
use crate::runtimes::{runtime_for_source_extension, RuntimeKind};
use crate::text::{ascii_lower, ascii_lowercase, chars_equal, chars_of, slice_chars};

verus! {

/// The names of the entries of a folder, as the detection needs them.
#[derive(Debug, Clone, PartialEq, Eq)]
pub struct FolderListing {
    /// The entries that are files, symbolic links followed.
    pub files: Vec<String>,
    /// The entries that are regular files themselves, in listing order.
    pub regular_files: Vec<String>,
}

/// The texts of a list of strings.
pub open spec fn names(strings: Seq<String>) -> Seq<Seq<char>> {
    strings.map_values(|s: String| s@)
}

/// The manifest files that show a runtime, in the order they are tried.
pub open spec fn runtime_markers() -> Seq<(Seq<char>, RuntimeKind)> {
    seq![
        ("Cargo.toml"@, RuntimeKind::Rust),
        ("package.json"@, RuntimeKind::Node),
        ("composer.json"@, RuntimeKind::Php),
        ("index.php"@, RuntimeKind::Php),
        ("wp-config.php"@, RuntimeKind::Php),
        ("pyproject.toml"@, RuntimeKind::Python),
        ("requirements.txt"@, RuntimeKind::Python),
    ]
}

/// `found` with `runtime` added at the end unless it is there already.
pub open spec fn with_runtime(found: Seq<RuntimeKind>, runtime: RuntimeKind) -> Seq<RuntimeKind> {
    if found.contains(runtime) {
        found
    } else {
        found.push(runtime)
    }
}

/// `found` after the markers of `markers` that are among `files`, in order.
pub open spec fn after_markers(
    found: Seq<RuntimeKind>,
    markers: Seq<(Seq<char>, RuntimeKind)>,
    files: Seq<Seq<char>>,
) -> Seq<RuntimeKind>
    decreases markers.len(),
{
    if markers.len() == 0 {
        found
    } else {
        let before = after_markers(found, markers.drop_last(), files);
        if files.contains(markers.last().0) {
            with_runtime(before, markers.last().1)
        } else {
            before
        }
    }
}

/// The extension of a file name, as `Path::extension` gives it: the text after the last
/// dot, unless there is no dot or the only dot starts the name.
pub open spec fn extension_of(name: Seq<char>) -> Option<Seq<char>> {
    let dot = last_index_of(name, '.', name.len() as int);
    if dot <= 0 {
        None
    } else {
        Some(name.skip(dot + 1))
    }
}

/// The extension of a file name is the text after its last dot, when something stands
/// before that dot: a name made of a non-empty stem, a dot and a text without a dot has that
/// text as extension, so its runtime is the one of that text.
pub proof fn lemma_extension_after_last_dot(stem: Seq<char>, e: Seq<char>)
    requires
        stem.len() > 0,
        !e.contains('.'),
    ensures
        extension_of(stem + seq!['.'] + e) == Some(e),
        source_runtime(stem + seq!['.'] + e) == runtime_for_source_extension(e),
{
    let name = stem + seq!['.'] + e;
    assert forall|j: int| stem.len() < j < name.len() implies name[j] != '.' by {
        assert(name[j] == e[j - stem.len() - 1]);
        if e[j - stem.len() - 1] == '.' {
            assert(e.contains('.'));
        }
    }
    crate::ports::lemma_last_index_is(name, '.', name.len() as int, stem.len() as int);
    assert(name.skip(stem.len() + 1int) =~= e);
}

/// A name with no dot after its first character has no extension (`Path::extension` of
/// `Makefile` or `.env`).
pub proof fn lemma_no_extension(name: Seq<char>)
    requires
        forall|j: int| 0 < j < name.len() ==> name[j] != '.',
    ensures
        extension_of(name) is None,
        source_runtime(name) is None,
{
    lemma_last_index_below(name, name.len() as int);
}

proof fn lemma_last_index_below(name: Seq<char>, to: int)
    requires
        0 <= to <= name.len(),
        forall|j: int| 0 < j < name.len() ==> name[j] != '.',
    ensures
        last_index_of(name, '.', to) <= 0,
    decreases to,
{
    if to > 1 {
        assert(name[to - 1] != '.');
        lemma_last_index_below(name, to - 1);
    } else if to == 1 {
        assert(last_index_of(name, '.', 0) == -1);
    }
}

/// The runtime that the source file `name` is written for, if any.
pub open spec fn source_runtime(name: Seq<char>) -> Option<RuntimeKind> {
    match extension_of(name) {
        Some(e) => runtime_for_source_extension(e),
        None => None,
    }
}

/// `found` after the source files `files`, in order.
pub open spec fn after_sources(found: Seq<RuntimeKind>, files: Seq<Seq<char>>) -> Seq<RuntimeKind>
    decreases files.len(),
{
    if files.len() == 0 {
        found
    } else {
        let before = after_sources(found, files.drop_last());
        match source_runtime(files.last()) {
            Some(runtime) => with_runtime(before, runtime),
            None => before,
        }
    }
}

/// `found` after a folder: first the runtimes of its manifest files, then those of its
/// source files, each runtime once.
pub open spec fn after_folder(found: Seq<RuntimeKind>, listing: FolderListing) -> Seq<RuntimeKind> {
    after_sources(
        after_markers(found, runtime_markers(), names(listing.files@)),
        names(listing.regular_files@),
    )
}

fn marker_list() -> (r: Vec<(String, RuntimeKind)>)
    ensures
        r@.map_values(|m: (String, RuntimeKind)| (m.0@, m.1)) == runtime_markers(),
{
    let r = vec![
        (String::from_str("Cargo.toml"), RuntimeKind::Rust),
        (String::from_str("package.json"), RuntimeKind::Node),
        (String::from_str("composer.json"), RuntimeKind::Php),
        (String::from_str("index.php"), RuntimeKind::Php),
        (String::from_str("wp-config.php"), RuntimeKind::Php),
        (String::from_str("pyproject.toml"), RuntimeKind::Python),
        (String::from_str("requirements.txt"), RuntimeKind::Python),
    ];
    assert(r@.map_values(|m: (String, RuntimeKind)| (m.0@, m.1)) =~= runtime_markers());
    r
}

/// The manifest file names that show a runtime, in the order they are tried.
pub fn runtime_marker_files() -> (r: Vec<String>)
    ensures
        names(r@) == runtime_markers().map_values(|m: (Seq<char>, RuntimeKind)| m.0),
{
    let r = vec![
        String::from_str("Cargo.toml"),
        String::from_str("package.json"),
        String::from_str("composer.json"),
        String::from_str("index.php"),
        String::from_str("wp-config.php"),
        String::from_str("pyproject.toml"),
        String::from_str("requirements.txt"),
    ];
    assert(names(r@) =~= runtime_markers().map_values(|m: (Seq<char>, RuntimeKind)| m.0));
    r
}

/// Whether `list` holds the text `name`.
fn has_name(list: &Vec<String>, name: &str) -> (r: bool)
    ensures
        r == names(list@).contains(name@),
{
    let n = chars_of(name);
    let mut i: usize = 0;
    while i < list.len()
        invariant
            i <= list@.len(),
            n@ == name@,
            forall|j: int| 0 <= j < i ==> #[trigger] names(list@)[j] != name@,
        decreases list@.len() - i,
    {
        if chars_equal(&chars_of(list[i].as_str()), &n) {
            assert(names(list@)[i as int] == name@);
            return true;
        }
        i = i + 1;
    }
    false
}

/// Adds `runtime` to `found` unless it is there already.
fn add_runtime(found: &mut Vec<RuntimeKind>, runtime: RuntimeKind)
    ensures
        final(found)@ == with_runtime(old(found)@, runtime),
{
    let mut i: usize = 0;
    while i < found.len()
        invariant
            i <= found@.len(),
            forall|j: int| 0 <= j < i ==> found@[j] != runtime,
        decreases found@.len() - i,
    {
        if found[i] == runtime {
            assert(found@[i as int] == runtime);
            return;
        }
        i = i + 1;
    }
    found.push(runtime);
}

/// The extension of a file name (see `extension_of`).
fn extension(name: &[char]) -> (r: Option<Vec<char>>)
    ensures
        match r {
            Some(e) => extension_of(name@) == Some(e@),
            None => extension_of(name@) is None,
        },
{
    let mut k = name.len();
    while k > 0 && name[k - 1] != '.'
        invariant
            k <= name@.len(),
            last_index_of(name@, '.', name@.len() as int) == last_index_of(name@, '.', k as int),
        decreases k,
    {
        k = k - 1;
    }
    if k <= 1 {
        None
    } else {
        let e = slice_chars(name, k, name.len());
        assert(e@ =~= name@.skip(k as int));
        Some(e)
    }
}

/// Records in `found` the runtimes that a folder shows (see `after_folder`): first those of
/// its manifest files, then those of its source files, each runtime once.
pub fn detect_in_directory(listing: &FolderListing, found: &mut Vec<RuntimeKind>)
    ensures
        final(found)@ == after_folder(old(found)@, *listing),
{
    let markers = marker_list();
    let ghost start = found@;
    let ghost files = names(listing.files@);
    let mut i: usize = 0;
    while i < markers.len()
        invariant
            i <= markers@.len(),
            markers@.map_values(|m: (String, RuntimeKind)| (m.0@, m.1)) == runtime_markers(),
            files == names(listing.files@),
            found@ == after_markers(start, runtime_markers().take(i as int), files),
        decreases markers@.len() - i,
    {
        assert(runtime_markers().take(i + 1).drop_last() =~= runtime_markers().take(i as int));
        assert(runtime_markers()[i as int] == (markers@[i as int].0@, markers@[i as int].1));
        if has_name(&listing.files, markers[i].0.as_str()) {
            add_runtime(found, markers[i].1);
        }
        i = i + 1;
    }
    assert(runtime_markers().take(7) =~= runtime_markers());
    let ghost middle = found@;
    let ghost sources = names(listing.regular_files@);
    let mut k: usize = 0;
    while k < listing.regular_files.len()
        invariant
            k <= sources.len(),
            sources == names(listing.regular_files@),
            found@ == after_sources(middle, sources.take(k as int)),
        decreases sources.len() - k,
    {
        assert(sources.take(k + 1).drop_last() =~= sources.take(k as int));
        let name = chars_of(listing.regular_files[k].as_str());
        match extension(&name) {
            Some(e) => {
                let rt = source_extension_runtime(&e);
                match rt {
                    Some(runtime) => add_runtime(found, runtime),
                    None => {},
                }
            },
            None => {},
        }
        k = k + 1;
    }
    assert(sources.take(sources.len() as int) =~= sources);
}

/// The runtime for a file extension, whatever its letter case.
fn source_extension_runtime(e: &Vec<char>) -> (r: Option<RuntimeKind>)
    ensures
        r == runtime_for_source_extension(e@),
{
    RuntimeKind::from_source_extension(crate::text::string_of(e.as_slice()).as_str())
}

/// The names of module folders that the walk through a repository never enters besides
/// hidden ones, compared without regard to ASCII letter case.
pub open spec fn skipped_module_names() -> Seq<Seq<char>> {
    seq![
        ".git"@,
        "node_modules"@,
        "target"@,
        "vendor"@,
        "dist"@,
        "build"@,
        ".venv"@,
        "venv"@,
        "_macosx"@,
        "__macosx"@,
    ]
}

/// Whether the walk through a repository enters a folder named `name`: not hidden, and not
/// one of the skipped names in any letter case.
pub open spec fn enters_module_spec(name: Seq<char>) -> bool {
    !(name.len() > 0 && name[0] == '.') && !(exists|i: int|
        0 <= i < skipped_module_names().len() && ascii_lower(#[trigger] skipped_module_names()[i])
            == ascii_lower(name))
}

/// How deep below the repository folder the walk looks for modules.
pub open spec fn module_depth_limit() -> usize {
    8
}

/// Whether the walk through a repository enters a folder named `name` (see
/// `enters_module_spec`).
pub fn enters_module_folder(name: &str) -> (r: bool)
    ensures
        r == enters_module_spec(name@),
{
    let n = chars_of(name);
    if n.len() > 0 && n[0] == '.' {
        return false;
    }
    let lowered = ascii_lowercase(&n);
    let skipped: Vec<Vec<char>> = vec![
        chars_of(".git"),
        chars_of("node_modules"),
        chars_of("target"),
        chars_of("vendor"),
        chars_of("dist"),
        chars_of("build"),
        chars_of(".venv"),
        chars_of("venv"),
        chars_of("_macosx"),
        chars_of("__macosx"),
    ];
    let ghost views = skipped@.map_values(|v: Vec<char>| v@);
    assert(views =~= skipped_module_names());
    let mut i: usize = 0;
    while i < skipped.len()
        invariant
            i <= skipped@.len(),
            views == skipped@.map_values(|v: Vec<char>| v@),
            views == skipped_module_names(),
            lowered@ == ascii_lower(name@),
            forall|j: int| 0 <= j < i ==> ascii_lower(#[trigger] views[j]) != ascii_lower(name@),
        decreases skipped@.len() - i,
    {
        let other = ascii_lowercase(&skipped[i]);
        if chars_equal(&other, &lowered) {
            assert(ascii_lower(views[i as int]) == ascii_lower(name@));
            return false;
        }
        i = i + 1;
    }
    true
}

/// Whether the walk looks for module folders inside a folder at `depth` below the repository
/// folder.
pub fn lists_module_folders(depth: usize) -> (r: bool)
    ensures
        r == (depth < module_depth_limit()),
{
    depth < 8
}

/// Each runtime is recorded once: a folder adds only runtimes not found before.
pub proof fn lemma_after_folder_distinct(found: Seq<RuntimeKind>, listing: FolderListing)
    requires
        found.no_duplicates(),
    ensures
        after_folder(found, listing).no_duplicates(),
{
    lemma_after_markers_distinct(found, runtime_markers(), names(listing.files@));
    lemma_after_sources_distinct(
        after_markers(found, runtime_markers(), names(listing.files@)),
        names(listing.regular_files@),
    );
}

proof fn lemma_with_runtime_distinct(found: Seq<RuntimeKind>, runtime: RuntimeKind)
    requires
        found.no_duplicates(),
    ensures
        with_runtime(found, runtime).no_duplicates(),
{
}

proof fn lemma_after_markers_distinct(
    found: Seq<RuntimeKind>,
    markers: Seq<(Seq<char>, RuntimeKind)>,
    files: Seq<Seq<char>>,
)
    requires
        found.no_duplicates(),
    ensures
        after_markers(found, markers, files).no_duplicates(),
    decreases markers.len(),
{
    if markers.len() > 0 {
        lemma_after_markers_distinct(found, markers.drop_last(), files);
        lemma_with_runtime_distinct(
            after_markers(found, markers.drop_last(), files),
            markers.last().1,
        );
    }
}

proof fn lemma_after_sources_distinct(found: Seq<RuntimeKind>, files: Seq<Seq<char>>)
    requires
        found.no_duplicates(),
    ensures
        after_sources(found, files).no_duplicates(),
    decreases files.len(),
{
    if files.len() > 0 {
        lemma_after_sources_distinct(found, files.drop_last());
        if let Some(runtime) = source_runtime(files.last()) {
            lemma_with_runtime_distinct(after_sources(found, files.drop_last()), runtime);
        }
    }
}

} // verus!
