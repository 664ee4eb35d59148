//! Folders compared as paths: by their components, as `std::path::Path` compares them on
//! `/`-separated systems (repeated and trailing separators and inner `.` do not count).
use vstd::prelude::*;

use crate::text::{chars_equal, chars_of, slice_chars};

verus! {

/// The index of the last `/` in `s`, or -1 when there is none.
pub open spec fn last_slash(s: Seq<char>) -> int
    decreases s.len(),
{
    if s.len() == 0 {
        -1
    } else if s.last() == '/' {
        s.len() - 1
    } else {
        last_slash(s.drop_last())
    }
}

/// `last_slash` is -1 or the index of a `/`, and no `/` follows it.
pub proof fn lemma_last_slash(s: Seq<char>)
    ensures
        -1 <= last_slash(s) < s.len(),
        last_slash(s) >= 0 ==> s[last_slash(s)] == '/',
        forall|j: int| last_slash(s) < j < s.len() ==> s[j] != '/',
    decreases s.len(),
{
    if s.len() > 0 && s.last() != '/' {
        lemma_last_slash(s.drop_last());
        assert forall|j: int| last_slash(s) < j < s.len() implies s[j] != '/' by {
            if j < s.len() - 1 {
                assert(s.drop_last()[j] == s[j]);
            }
        }
    }
}

/// `k` is the last slash of `s` when `s[k]` is a slash (or `k` is -1) and none follows.
pub proof fn lemma_last_slash_is(s: Seq<char>, k: int)
    requires
        -1 <= k < s.len(),
        k >= 0 ==> s[k] == '/',
        forall|j: int| k < j < s.len() ==> s[j] != '/',
    ensures
        last_slash(s) == k,
    decreases s.len(),
{
    if s.len() > 0 && k < s.len() - 1 {
        lemma_last_slash_is(s.drop_last(), k);
    }
}

/// Whether a text between separators names a folder step: not empty and not `.`.
pub open spec fn is_step(segment: Seq<char>) -> bool {
    segment.len() > 0 && segment != seq!['.']
}

/// The folder steps of `s`: the texts between `/` separators that are not empty and not
/// `.`, in order.
pub open spec fn path_steps(s: Seq<char>) -> Seq<Seq<char>>
    decreases s.len(),
{
    if s.len() == 0 {
        seq![]
    } else {
        let k = last_slash(s);
        proof {
            lemma_last_slash(s);
        }
        let tail = s.subrange(k + 1, s.len() as int);
        let before = if k < 0 {
            seq![]
        } else {
            path_steps(s.take(k))
        };
        if is_step(tail) {
            before.push(tail)
        } else {
            before
        }
    }
}

/// Whether `s` starts at the root: its first character is `/`.
pub open spec fn is_rooted(s: Seq<char>) -> bool {
    s.len() > 0 && s[0] == '/'
}

/// Whether `s` starts with the current folder `.` (alone or followed by `/`).
pub open spec fn starts_at_current(s: Seq<char>) -> bool {
    s.len() > 0 && s[0] == '.' && (s.len() == 1 || s[1] == '/')
}

/// The components of the path `s`: the root `/` when it starts at the root, a leading `.`
/// when it starts at the current folder, then its folder steps.
pub open spec fn path_components(s: Seq<char>) -> Seq<Seq<char>> {
    (if is_rooted(s) {
        seq![seq!['/']]
    } else {
        seq![]
    }) + (if starts_at_current(s) {
        seq![seq!['.']]
    } else {
        seq![]
    }) + path_steps(s)
}

/// Whether `a` and `b` name the same path: their components are equal.
pub open spec fn same_path(a: Seq<char>, b: Seq<char>) -> bool {
    path_components(a) == path_components(b)
}

/// The folder steps of `s`, computed.
fn steps_of(s: &[char]) -> (r: Vec<Vec<char>>)
    ensures
        r@.map_values(|v: Vec<char>| v@) == path_steps(s@),
{
    let mut r: Vec<Vec<char>> = Vec::new();
    let mut start: usize = 0;
    let mut i: usize = 0;
    while i < s.len()
        invariant
            start <= i <= s@.len(),
            start > 0 ==> s@[start - 1] == '/',
            forall|j: int| start <= j < i ==> s@[j] != '/',
            r@.map_values(|v: Vec<char>| v@) == (if start == 0 {
                seq![]
            } else {
                path_steps(s@.take(start - 1))
            }),
        decreases s@.len() - i,
    {
        if s[i] == '/' {
            let segment = slice_chars(s, start, i);
            let ghost t = s@.take(i as int);
            proof {
                if i > 0 {
                    lemma_last_slash_is(t, start - 1);
                    if start > 0 {
                        assert(t.take(start - 1) =~= s@.take(start - 1));
                    }
                    assert(t.subrange(start as int, i as int) =~= segment@);
                } else {
                    assert(t.len() == 0);
                }
            }
            if segment.len() > 0 && !(segment.len() == 1 && segment[0] == '.') {
                let ghost before = r@.map_values(|v: Vec<char>| v@);
                r.push(segment);
                assert(r@.map_values(|v: Vec<char>| v@) =~= before.push(segment@));
            } else {
                assert(segment@ == seq!['.'] || segment@.len() == 0);
            }
            assert(path_steps(t) == path_steps(s@.take(i as int)));
            start = i + 1;
            assert(s@.take(start - 1) =~= t);
        }
        i = i + 1;
    }
    let segment = slice_chars(s, start, s.len());
    proof {
        if s@.len() > 0 {
            lemma_last_slash_is(s@, start - 1);
            assert(s@.subrange(start as int, s@.len() as int) =~= segment@);
        }
    }
    if segment.len() > 0 && !(segment.len() == 1 && segment[0] == '.') {
        let ghost before = r@.map_values(|v: Vec<char>| v@);
        r.push(segment);
        assert(r@.map_values(|v: Vec<char>| v@) =~= before.push(segment@));
    } else {
        assert(segment@ == seq!['.'] || segment@.len() == 0);
    }
    r
}

/// The components of the path `s`, computed.
fn components_of(s: &[char]) -> (r: Vec<Vec<char>>)
    ensures
        r@.map_values(|v: Vec<char>| v@) == path_components(s@),
{
    let ghost front = (if is_rooted(s@) {
        seq![seq!['/']]
    } else {
        seq![]
    }) + (if starts_at_current(s@) {
        seq![seq!['.']]
    } else {
        seq![]
    });
    let mut r: Vec<Vec<char>> = Vec::new();
    let rooted = s.len() > 0 && s[0] == '/';
    if rooted {
        let root = vec!['/'];
        assert(root@ =~= seq!['/']);
        r.push(root);
        assert(r@.map_values(|v: Vec<char>| v@) =~= front);
    } else if s.len() > 0 && s[0] == '.' && (s.len() == 1 || s[1] == '/') {
        let current = vec!['.'];
        assert(current@ =~= seq!['.']);
        r.push(current);
        assert(r@.map_values(|v: Vec<char>| v@) =~= front);
    } else {
        assert(r@.map_values(|v: Vec<char>| v@) =~= front);
    }
    let steps = steps_of(s);
    let mut i: usize = 0;
    while i < steps.len()
        invariant
            i <= steps@.len(),
            r@.map_values(|v: Vec<char>| v@) == front + steps@.map_values(|v: Vec<char>| v@).take(
                i as int,
            ),
        decreases steps@.len() - i,
    {
        let step = slice_chars(&steps[i], 0, steps[i].len());
        let ghost before = r@.map_values(|v: Vec<char>| v@);
        r.push(step);
        assert(step@ =~= steps@[i as int]@);
        assert(r@.map_values(|v: Vec<char>| v@) =~= before.push(step@));
        assert(steps@.map_values(|v: Vec<char>| v@).take(i + 1) =~= steps@.map_values(
            |v: Vec<char>| v@,
        ).take(i as int).push(steps@[i as int]@));
        i = i + 1;
    }
    assert(steps@.map_values(|v: Vec<char>| v@).take(steps@.len() as int) =~= steps@.map_values(
        |v: Vec<char>| v@,
    ));
    r
}

/// Whether the paths `a` and `b` are the same (see `same_path`).
pub fn same_path_chars(a: &[char], b: &[char]) -> (r: bool)
    ensures
        r == same_path(a@, b@),
{
    let ca = components_of(a);
    let cb = components_of(b);
    let ghost va = ca@.map_values(|v: Vec<char>| v@);
    let ghost vb = cb@.map_values(|v: Vec<char>| v@);
    if ca.len() != cb.len() {
        assert(va.len() != vb.len());
        return false;
    }
    let mut i: usize = 0;
    while i < ca.len()
        invariant
            i <= ca@.len(),
            ca@.len() == cb@.len(),
            va == ca@.map_values(|v: Vec<char>| v@),
            vb == cb@.map_values(|v: Vec<char>| v@),
            va == path_components(a@),
            vb == path_components(b@),
            forall|j: int| 0 <= j < i ==> va[j] == vb[j],
        decreases ca@.len() - i,
    {
        if !chars_equal(&ca[i], &cb[i]) {
            assert(va[i as int] != vb[i as int]);
            return false;
        }
        i = i + 1;
    }
    assert(va =~= vb);
    true
}

/// Whether the paths `a` and `b` are the same (see `same_path`).
pub fn paths_equal(a: &str, b: &str) -> (r: bool)
    ensures
        r == same_path(a@, b@),
{
    same_path_chars(&chars_of(a), &chars_of(b))
}

} // verus!
