//! The saved list of folders to search for projects: one folder per line.
use vstd::prelude::*;

use crate::paths::{same_path, same_path_chars};
use crate::ports::index_of;
use crate::processes::texts;
use crate::text::{chars_of, join_spec, slice_chars, string_of, trim_chars, trim_spec};

verus! {

/// The folder names written in `contents`: each line with the white space around it
/// removed, blank lines left out, in order.
pub open spec fn root_lines_spec(contents: Seq<char>) -> Seq<Seq<char>>
    decreases contents.len(),
{
    let k = index_of(contents, '\n', 0);
    let first = trim_spec(contents.take(k));
    let rest = if 0 <= k < contents.len() {
        proof {
            lemma_index_of_bounds(contents, '\n', 0);
        }
        root_lines_spec(contents.skip(k + 1))
    } else {
        seq![]
    };
    if first.len() > 0 {
        seq![first] + rest
    } else {
        rest
    }
}

/// `index_of` finds an index at or after where it starts, or the length.
pub proof fn lemma_index_of_bounds(s: Seq<char>, c: char, from: int)
    requires
        0 <= from <= s.len(),
    ensures
        from <= index_of(s, c, from) <= s.len(),
        index_of(s, c, from) < s.len() ==> s[index_of(s, c, from)] == c,
        forall|j: int| from <= j < index_of(s, c, from) ==> s[j] != c,
    decreases s.len() - from,
{
    if from < s.len() && s[from] != c {
        lemma_index_of_bounds(s, c, from + 1);
    }
}

/// The first `c` of `s` is at `k` when none comes before it.
pub proof fn lemma_index_of_first(s: Seq<char>, c: char, k: int)
    requires
        0 <= k <= s.len(),
        forall|j: int| 0 <= j < k ==> s[j] != c,
        k < s.len() ==> s[k] == c,
    ensures
        index_of(s, c, 0) == k,
{
    lemma_index_of_bounds(s, c, 0);
}

/// The folder names written in `contents`, one per line (see `root_lines_spec`).
pub fn root_lines(contents: &str) -> (r: Vec<String>)
    ensures
        texts(r@) == root_lines_spec(contents@),
{
    let s = chars_of(contents);
    let mut lines: Vec<String> = Vec::new();
    let mut start: usize = 0;
    let mut i: usize = 0;
    assert(s@.skip(0) =~= s@);
    while i < s.len()
        invariant
            start <= i <= s@.len(),
            root_lines_spec(s@) == texts(lines@) + root_lines_spec(s@.skip(start as int)),
            forall|j: int| start <= j < i ==> s@[j] != '\n',
        decreases s@.len() - i,
    {
        if s[i] == '\n' {
            let ghost rest = s@.skip(start as int);
            proof {
                lemma_index_of_first(rest, '\n', i - start);
                assert(rest.take(i - start) =~= s@.subrange(start as int, i as int));
                assert(rest.skip(i - start + 1) =~= s@.skip(i + 1));
            }
            let line = trim_chars(&slice_chars(&s, start, i));
            if line.len() > 0 {
                lines.push(string_of(&line));
            }
            proof {
                assert(texts(lines@) + root_lines_spec(s@.skip(i + 1)) =~= root_lines_spec(s@));
            }
            start = i + 1;
        }
        i = i + 1;
    }
    let ghost rest = s@.skip(start as int);
    proof {
        lemma_index_of_first(rest, '\n', rest.len() as int);
        assert(rest.take(rest.len() as int) =~= s@.subrange(start as int, s@.len() as int));
    }
    let line = trim_chars(&slice_chars(&s, start, s.len()));
    if line.len() > 0 {
        lines.push(string_of(&line));
    }
    assert(texts(lines@) =~= root_lines_spec(s@));
    lines
}

/// The canonical folders among the resolutions of the saved lines, each once (compared as
/// paths, see `same_path`), in order: a line that names no existing folder, or that could
/// not be resolved, has no resolution.
pub open spec fn distinct_roots_spec(resolved: Seq<Option<Seq<char>>>) -> Seq<Seq<char>>
    decreases resolved.len(),
{
    if resolved.len() == 0 {
        seq![]
    } else {
        let before = distinct_roots_spec(resolved.drop_last());
        match resolved.last() {
            Some(path) => if exists|j: int|
                0 <= j < before.len() && same_path(#[trigger] before[j], path) {
                before
            } else {
                before.push(path)
            },
            None => before,
        }
    }
}

/// The texts of optional strings.
pub open spec fn optional_texts(values: Seq<Option<String>>) -> Seq<Option<Seq<char>>> {
    values.map_values(
        |v: Option<String>|
            match v {
                Some(s) => Some(s@),
                None => None,
            },
    )
}

/// The saved folders that still exist, from the canonical form of each saved line (`None`
/// for a line that names no existing folder): each folder once, in order.
pub fn parse_existing_roots(resolved: Vec<Option<String>>) -> (r: Vec<String>)
    ensures
        texts(r@) == distinct_roots_spec(optional_texts(resolved@)),
{
    let ghost all = optional_texts(resolved@);
    let mut roots: Vec<String> = Vec::new();
    let mut i: usize = 0;
    while i < resolved.len()
        invariant
            i <= resolved@.len(),
            all == optional_texts(resolved@),
            texts(roots@) == distinct_roots_spec(all.take(i as int)),
        decreases resolved@.len() - i,
    {
        assert(all.take(i + 1).drop_last() =~= all.take(i as int));
        match &resolved[i] {
            Some(path) => {
                let p = chars_of(path.as_str());
                let mut seen = false;
                let mut k: usize = 0;
                while k < roots.len()
                    invariant
                        k <= roots@.len(),
                        p@ == path@,
                        seen == (exists|j: int| 0 <= j < k && same_path(#[trigger] texts(roots@)[j], path@)),
                    decreases roots@.len() - k,
                {
                    if same_path_chars(&chars_of(roots[k].as_str()), &p) {
                        assert(same_path(texts(roots@)[k as int], path@));
                        seen = true;
                    }
                    k = k + 1;
                }
                if !seen {
                    let ghost before = texts(roots@);
                    roots.push(path.clone());
                    assert(texts(roots@) =~= before.push(path@));
                }
            },
            None => {},
        }
        i = i + 1;
    }
    assert(all.take(all.len() as int) =~= all);
    roots
}

/// The saved text for a list of folders: one folder per line.
pub fn serialize_roots(roots: &[String]) -> (r: String)
    ensures
        r@ == join_spec(texts(roots@), seq!['\n']),
{
    let mut text = String::new();
    let ghost all = texts(roots@);
    proof {
        reveal_strlit("\n");
        assert(all.take(0) =~= Seq::<Seq<char>>::empty());
    }
    let mut i: usize = 0;
    while i < roots.len()
        invariant
            i <= roots@.len(),
            all == texts(roots@),
            "\n"@ == seq!['\n'],
            text@ == join_spec(all.take(i as int), seq!['\n']),
        decreases roots@.len() - i,
    {
        proof {
            crate::projects::lemma_join_push(all.take(i as int), seq!['\n'], roots@[i as int]@);
            assert(all.take(i + 1) =~= all.take(i as int).push(roots@[i as int]@));
        }
        if i > 0 {
            text.append("\n");
        }
        text.append(roots[i].as_str());
        i = i + 1;
    }
    assert(all.take(all.len() as int) =~= all);
    text
}

/// Whether `root` can be saved on a line of its own and read back unchanged: it is not
/// blank, has no line break and no white space around it.
pub open spec fn is_savable_root(root: Seq<char>) -> bool {
    &&& root.len() > 0
    &&& trim_spec(root) == root
    &&& !root.contains('\n')
}

/// Whether no two of `roots` are the same folder (see `same_path`).
pub open spec fn distinct_folders(roots: Seq<Seq<char>>) -> bool {
    forall|i: int, j: int|
        0 <= i < j < roots.len() ==> !same_path(#[trigger] roots[i], #[trigger] roots[j])
}

/// Folders that each resolve to themselves and are all different come back unchanged.
pub proof fn lemma_distinct_roots_keeps_distinct(roots: Seq<Seq<char>>)
    requires
        distinct_folders(roots),
    ensures
        distinct_roots_spec(roots.map_values(|r: Seq<char>| Some(r))) == roots,
    decreases roots.len(),
{
    let resolved = roots.map_values(|r: Seq<char>| Some(r));
    if roots.len() > 0 {
        let front = roots.drop_last();
        assert(resolved.drop_last() =~= front.map_values(|r: Seq<char>| Some(r)));
        assert forall|i: int, j: int| 0 <= i < j < front.len() implies !same_path(
            #[trigger] front[i],
            #[trigger] front[j],
        ) by {
            assert(front[i] == roots[i] && front[j] == roots[j]);
        }
        lemma_distinct_roots_keeps_distinct(front);
        let last = roots.last();
        assert(resolved.last() == Some(last));
        assert(!(exists|j: int| 0 <= j < front.len() && same_path(#[trigger] front[j], last))) by {
            if exists|j: int| 0 <= j < front.len() && same_path(#[trigger] front[j], last) {
                let j = choose|j: int| 0 <= j < front.len() && same_path(#[trigger] front[j], last);
                assert(front[j] == roots[j]);
                assert(!same_path(roots[j], roots[roots.len() - 1]));
            }
        }
        assert(front.push(last) =~= roots);
    }
}

/// Saving folders and reading them back gives the same folders, when each can be saved on a
/// line of its own, no two are the same folder, and each line resolves to the folder it names
/// (as a canonical path does).
pub proof fn lemma_saved_roots_read_back(roots: Seq<Seq<char>>)
    requires
        forall|i: int| 0 <= i < roots.len() ==> is_savable_root(#[trigger] roots[i]),
        distinct_folders(roots),
    ensures
        distinct_roots_spec(
            root_lines_spec(join_spec(roots, seq!['\n'])).map_values(|r: Seq<char>| Some(r)),
        ) == roots,
{
    lemma_roots_round_trip(roots);
    lemma_distinct_roots_keeps_distinct(roots);
}

/// Joining with a separator, seen from the front: the first text, the separator, the rest.
pub proof fn lemma_join_front(items: Seq<Seq<char>>, sep: Seq<char>)
    requires
        items.len() >= 2,
    ensures
        join_spec(items, sep) == items[0] + sep + join_spec(items.drop_first(), sep),
    decreases items.len(),
{
    if items.len() == 2 {
        assert(items.drop_last() =~= seq![items[0]]);
        assert(items.drop_first() =~= seq![items[1]]);
        assert(join_spec(items.drop_last(), sep) == items[0]);
        assert(join_spec(items.drop_first(), sep) == items[1]);
        assert(items.last() == items[1]);
    } else {
        lemma_join_front(items.drop_last(), sep);
        let mid = items.drop_first().drop_last();
        assert(items.drop_last().drop_first() =~= mid);
        assert(items.drop_first().last() == items.last());
        assert(items.drop_last()[0] == items[0]);
        assert(join_spec(items, sep) == join_spec(items.drop_last(), sep) + sep + items.last());
        assert(join_spec(items.drop_first(), sep) == join_spec(mid, sep) + sep + items.last());
        assert(join_spec(items, sep) =~= items[0] + sep + (join_spec(mid, sep) + sep + items.last()));
    }
}

/// Saving folders and reading the saved text back gives the same folders, when each can be
/// saved on a line of its own.
pub proof fn lemma_roots_round_trip(roots: Seq<Seq<char>>)
    requires
        forall|i: int| 0 <= i < roots.len() ==> is_savable_root(#[trigger] roots[i]),
    ensures
        root_lines_spec(join_spec(roots, seq!['\n'])) == roots,
    decreases roots.len(),
{
    if roots.len() == 0 {
        let s = join_spec(roots, seq!['\n']);
        lemma_index_of_first(s, '\n', 0);
        assert(trim_spec(s.take(0)) =~= Seq::<char>::empty());
    } else if roots.len() == 1 {
        let s = join_spec(roots, seq!['\n']);
        let r = roots[0];
        assert(s == r);
        assert forall|j: int| 0 <= j < r.len() implies r[j] != '\n' by {
            if r[j] == '\n' {
                assert(r.contains('\n'));
            }
        }
        lemma_index_of_first(s, '\n', s.len() as int);
        assert(s.take(s.len() as int) =~= s);
        assert(seq![r] =~= roots);
    } else {
        let rest = roots.drop_first();
        assert forall|i: int| 0 <= i < rest.len() implies is_savable_root(#[trigger] rest[i]) by {
            assert(rest[i] == roots[i + 1]);
        }
        lemma_roots_round_trip(rest);
        lemma_join_front(roots, seq!['\n']);
        let r = roots[0];
        let tail = join_spec(rest, seq!['\n']);
        let s = join_spec(roots, seq!['\n']);
        assert(s == r + seq!['\n'] + tail);
        assert forall|j: int| 0 <= j < r.len() implies s[j] != '\n' by {
            assert(s[j] == r[j]);
            if r[j] == '\n' {
                assert(r.contains('\n'));
            }
        }
        assert(s[r.len() as int] == '\n');
        lemma_index_of_first(s, '\n', r.len() as int);
        assert(s.take(r.len() as int) =~= r);
        assert(s.skip(r.len() + 1 as int) =~= tail);
        assert(seq![r] + rest =~= roots);
    }
}

} // verus!
