//! Environment variables of a project: a map from names to values, kept in name order.
use vstd::prelude::*;

use crate::text::{
    chars_equal, chars_of, lemma_text_less_irreflexive, lemma_text_less_total,
    lemma_text_less_transitive, text_less, text_less_exec,
};

verus! {

/// Whether the names of `entries` are in strictly increasing order (so each occurs once).
pub open spec fn names_increasing(entries: Seq<(Seq<char>, Seq<char>)>) -> bool {
    forall|i: int, j: int|
        0 <= i < j < entries.len() ==> text_less(#[trigger] entries[i].0, #[trigger] entries[j].0)
}

/// Whether the variable `name` is set in `entries`.
pub open spec fn has_name(entries: Seq<(Seq<char>, Seq<char>)>, name: Seq<char>) -> bool {
    exists|i: int| 0 <= i < entries.len() && #[trigger] entries[i].0 == name
}

/// An index of `entries` at which the variable `name` stands, if there is one.
pub open spec fn index_of_name(entries: Seq<(Seq<char>, Seq<char>)>, name: Seq<char>) -> int {
    choose|i: int| 0 <= i < entries.len() && #[trigger] entries[i].0 == name
}

/// The value of the variable `name` in `entries`, if it is set.
pub open spec fn lookup(entries: Seq<(Seq<char>, Seq<char>)>, name: Seq<char>) -> Option<Seq<char>> {
    if has_name(entries, name) {
        Some(entries[index_of_name(entries, name)].1)
    } else {
        None
    }
}

/// In entries with increasing names, the value of a name is the one next to it.
pub proof fn lemma_lookup_at(entries: Seq<(Seq<char>, Seq<char>)>, i: int)
    requires
        names_increasing(entries),
        0 <= i < entries.len(),
    ensures
        lookup(entries, entries[i].0) == Some(entries[i].1),
{
    let name = entries[i].0;
    assert(exists|j: int| 0 <= j < entries.len() && #[trigger] entries[j].0 == name);
    let c = index_of_name(entries, name);
    assert(0 <= c < entries.len() && entries[c].0 == name);
    if c != i {
        lemma_text_less_irreflexive(name);
        if c < i {
            assert(text_less(entries[c].0, entries[i].0));
        } else {
            assert(text_less(entries[i].0, entries[c].0));
        }
    }
}

/// In entries with increasing names, a name that stands nowhere has no value.
proof fn lemma_lookup_none(entries: Seq<(Seq<char>, Seq<char>)>, name: Seq<char>)
    requires
        forall|i: int| 0 <= i < entries.len() ==> #[trigger] entries[i].0 != name,
    ensures
        lookup(entries, name) is None,
{
}

/// Without its last entry, entries with increasing names keep the values of every other
/// name, and the last name has none.
proof fn lemma_lookup_drop_last(entries: Seq<(Seq<char>, Seq<char>)>, name: Seq<char>)
    requires
        names_increasing(entries),
        entries.len() > 0,
    ensures
        names_increasing(entries.drop_last()),
        name != entries.last().0 ==> lookup(entries.drop_last(), name) == lookup(entries, name),
        name == entries.last().0 ==> lookup(entries.drop_last(), name) is None,
{
    let d = entries.drop_last();
    let last = entries.len() - 1;
    assert forall|i: int, j: int| 0 <= i < j < d.len() implies text_less(
        #[trigger] d[i].0,
        #[trigger] d[j].0,
    ) by {
        assert(d[i] == entries[i] && d[j] == entries[j]);
    }
    if has_name(d, name) {
        let i = choose|i: int| 0 <= i < d.len() && #[trigger] d[i].0 == name;
        assert(d[i] == entries[i]);
        lemma_lookup_at(d, i);
        lemma_lookup_at(entries, i);
        if name == entries.last().0 {
            assert(text_less(entries[i].0, entries[last].0));
            lemma_text_less_irreflexive(name);
        }
    } else {
        lemma_lookup_none(d, name);
        if name != entries.last().0 {
            assert forall|i: int| 0 <= i < entries.len() implies #[trigger] entries[i].0 != name by {
                if i < last {
                    assert(d[i] == entries[i]);
                }
            }
            lemma_lookup_none(entries, name);
        }
    }
}

/// Entries with increasing names are fixed by the values they give: two such entry lists that
/// give every name the same value are equal.
pub proof fn lemma_entries_fixed_by_lookups(
    a: Seq<(Seq<char>, Seq<char>)>,
    b: Seq<(Seq<char>, Seq<char>)>,
)
    requires
        names_increasing(a),
        names_increasing(b),
        forall|name: Seq<char>| #[trigger] lookup(a, name) == lookup(b, name),
    ensures
        a == b,
    decreases a.len() + b.len(),
{
    if a.len() == 0 || b.len() == 0 {
        if a.len() > 0 {
            lemma_lookup_at(a, 0);
            lemma_lookup_none(b, a[0].0);
            assert(lookup(a, a[0].0) == lookup(b, a[0].0));
        } else if b.len() > 0 {
            lemma_lookup_at(b, 0);
            lemma_lookup_none(a, b[0].0);
            assert(lookup(a, b[0].0) == lookup(b, b[0].0));
        }
        assert(a =~= b);
    } else {
        let la = a.len() - 1;
        let lb = b.len() - 1;
        let x = a[la].0;
        let y = b[lb].0;
        lemma_lookup_at(a, la);
        lemma_lookup_at(b, lb);
        assert(lookup(b, x) == lookup(a, x));
        assert(lookup(a, y) == lookup(b, y));
        assert(has_name(b, x));
        assert(has_name(a, y));
        let j = choose|j: int| 0 <= j < b.len() && #[trigger] b[j].0 == x;
        let i = choose|i: int| 0 <= i < a.len() && #[trigger] a[i].0 == y;
        lemma_text_less_irreflexive(x);
        lemma_text_less_irreflexive(y);
        if j < lb {
            assert(text_less(x, y));
            if i < la {
                assert(text_less(y, x));
                lemma_text_less_transitive(x, y, x);
            }
        }
        if i < la {
            assert(text_less(y, x));
            if j < lb {
                lemma_text_less_transitive(x, y, x);
            }
        }
        assert(x == y);
        lemma_lookup_at(b, lb);
        assert(a[la].1 == b[lb].1);
        assert forall|name: Seq<char>| #[trigger] lookup(a.drop_last(), name) == lookup(
            b.drop_last(),
            name,
        ) by {
            lemma_lookup_drop_last(a, name);
            lemma_lookup_drop_last(b, name);
        }
        lemma_lookup_drop_last(a, x);
        lemma_lookup_drop_last(b, x);
        lemma_entries_fixed_by_lookups(a.drop_last(), b.drop_last());
        assert(a =~= a.drop_last().push(a[la]));
        assert(b =~= b.drop_last().push(b[lb]));
    }
}

/// Whether `after` is `before` with the variable `key` set to `value`: `key` has that
/// value, every other name keeps its value, and the names stay in increasing order.
pub open spec fn is_set_of(
    before: Seq<(Seq<char>, Seq<char>)>,
    after: Seq<(Seq<char>, Seq<char>)>,
    key: Seq<char>,
    value: Seq<char>,
) -> bool {
    &&& lookup(after, key) == Some(value)
    &&& forall|name: Seq<char>| name != key ==> #[trigger] lookup(after, name) == lookup(before, name)
    &&& names_increasing(after)
}

/// Setting two different variables gives the same variables in either order.
pub proof fn lemma_sets_commute(
    start: Seq<(Seq<char>, Seq<char>)>,
    first_a: Seq<(Seq<char>, Seq<char>)>,
    both_ab: Seq<(Seq<char>, Seq<char>)>,
    first_b: Seq<(Seq<char>, Seq<char>)>,
    both_ba: Seq<(Seq<char>, Seq<char>)>,
    ka: Seq<char>,
    va: Seq<char>,
    kb: Seq<char>,
    vb: Seq<char>,
)
    requires
        ka != kb,
        is_set_of(start, first_a, ka, va),
        is_set_of(first_a, both_ab, kb, vb),
        is_set_of(start, first_b, kb, vb),
        is_set_of(first_b, both_ba, ka, va),
    ensures
        both_ab == both_ba,
{
    assert forall|name: Seq<char>| #[trigger] lookup(both_ab, name) == lookup(both_ba, name) by {
        if name != ka && name != kb {
            assert(lookup(both_ab, name) == lookup(first_a, name));
            assert(lookup(both_ba, name) == lookup(first_b, name));
        } else if name == ka {
            assert(lookup(both_ab, name) == lookup(first_a, name));
        } else {
            assert(lookup(both_ba, name) == lookup(first_b, name));
        }
    }
    lemma_entries_fixed_by_lookups(both_ab, both_ba);
}

/// Setting a variable twice leaves what setting it to the second value alone leaves: the
/// last write wins.
pub proof fn lemma_last_set_wins(
    start: Seq<(Seq<char>, Seq<char>)>,
    once: Seq<(Seq<char>, Seq<char>)>,
    twice: Seq<(Seq<char>, Seq<char>)>,
    direct: Seq<(Seq<char>, Seq<char>)>,
    key: Seq<char>,
    first: Seq<char>,
    second: Seq<char>,
)
    requires
        is_set_of(start, once, key, first),
        is_set_of(once, twice, key, second),
        is_set_of(start, direct, key, second),
    ensures
        twice == direct,
{
    assert forall|name: Seq<char>| #[trigger] lookup(twice, name) == lookup(direct, name) by {
        if name != key {
            assert(lookup(twice, name) == lookup(once, name));
        }
    }
    lemma_entries_fixed_by_lookups(twice, direct);
}

/// The views of the entries: names and values as texts.
pub open spec fn entry_views(entries: Seq<(String, String)>) -> Seq<(Seq<char>, Seq<char>)> {
    entries.map_values(|e: (String, String)| (e.0@, e.1@))
}

/// A set of environment variables.
#[derive(Debug, PartialEq, Eq)]
pub struct Environment {
    values: Vec<(String, String)>,
}

impl View for Environment {
    /// The variables as (name, value) pairs in name order.
    type V = Seq<(Seq<char>, Seq<char>)>;

    closed spec fn view(&self) -> Seq<(Seq<char>, Seq<char>)> {
        entry_views(self.values@)
    }
}

impl Default for Environment {
    /// No variable set.
    fn default() -> (r: Self)
        ensures
            r@ == Seq::<(Seq<char>, Seq<char>)>::empty(),
    {
        let r = Environment { values: Vec::new() };
        assert(entry_views(r.values@) =~= Seq::<(Seq<char>, Seq<char>)>::empty());
        r
    }
}

impl Clone for Environment {
    /// The same variables with the same values.
    fn clone(&self) -> (r: Self)
        ensures
            r@ == self@,
    {
        proof {
            use_type_invariant(self);
        }
        let mut values: Vec<(String, String)> = Vec::new();
        let mut i: usize = 0;
        while i < self.values.len()
            invariant
                i <= self.values@.len(),
                names_increasing(entry_views(self.values@)),
                entry_views(values@) == entry_views(self.values@).take(i as int),
            decreases self.values@.len() - i,
        {
            let name = self.values[i].0.clone();
            let value = self.values[i].1.clone();
            assert(name@ == self.values@[i as int].0@);
            assert(value@ == self.values@[i as int].1@);
            let ghost before = values@;
            values.push((name, value));
            assert(values@ == before.push((name, value)));
            assert(entry_views(values@) =~= entry_views(before).push((name@, value@)));
            assert(entry_views(values@) =~= entry_views(self.values@).take(i + 1));
            i = i + 1;
        }
        assert(entry_views(self.values@).take(self.values@.len() as int) =~= entry_views(
            self.values@,
        ));
        Environment { values }
    }
}

impl Environment {
    #[verifier::type_invariant]
    spec fn names_in_order(self) -> bool {
        names_increasing(entry_views(self.values@))
    }

    /// Sets the variable `key` to `value`, replacing any earlier value; the other variables
    /// keep theirs.
    pub fn set(&mut self, key: String, value: String)
        ensures
            is_set_of(old(self)@, final(self)@, key@, value@),
    {
        proof {
            use_type_invariant(&*self);
        }
        let ghost k = key@;
        let ghost v = value@;
        let key_chars = chars_of(key.as_str());
        let mut values: Vec<(String, String)> = Vec::new();
        std::mem::swap(&mut values, &mut self.values);
        let ghost e = entry_views(values@);
        let mut i: usize = 0;
        while i < values.len() && text_less_exec(&chars_of(values[i].0.as_str()), &key_chars)
            invariant
                i <= values@.len(),
                e == entry_views(values@),
                names_increasing(e),
                key_chars@ == k,
                forall|j: int| 0 <= j < i ==> text_less(#[trigger] e[j].0, k),
            decreases values@.len() - i,
        {
            i = i + 1;
        }
        if i < values.len() && chars_equal(&chars_of(values[i].0.as_str()), &key_chars) {
            values.set(i, (key, value));
            let ghost e2 = entry_views(values@);
            assert(e2 =~= e.update(i as int, (k, v)));
            proof {
                assert forall|a: int, b: int| 0 <= a < b < e2.len() implies text_less(
                    #[trigger] e2[a].0,
                    #[trigger] e2[b].0,
                ) by {
                    assert(e2[a].0 == e[a].0);
                    assert(e2[b].0 == e[b].0);
                }
                lemma_lookup_at(e2, i as int);
                assert forall|name: Seq<char>| name != k implies #[trigger] lookup(e2, name)
                    == lookup(e, name) by {
                    if exists|j: int| 0 <= j < e.len() && #[trigger] e[j].0 == name {
                        let j = choose|j: int| 0 <= j < e.len() && #[trigger] e[j].0 == name;
                        lemma_lookup_at(e, j);
                        lemma_lookup_at(e2, j);
                    } else {
                        assert(!exists|j: int| 0 <= j < e2.len() && #[trigger] e2[j].0 == name) by {
                            if exists|j: int| 0 <= j < e2.len() && #[trigger] e2[j].0 == name {
                                let j = choose|j: int| 0 <= j < e2.len() && #[trigger] e2[j].0 == name;
                                assert(e[j].0 == name);
                            }
                        }
                    }
                }
            }
        } else {
            proof {
                if i < e.len() {
                    lemma_text_less_total(e[i as int].0, k);
                }
            }
            values.insert(i, (key, value));
            let ghost e2 = entry_views(values@);
            assert(e2 =~= e.insert(i as int, (k, v)));
            proof {
                assert forall|a: int, b: int| 0 <= a < b < e2.len() implies text_less(
                    #[trigger] e2[a].0,
                    #[trigger] e2[b].0,
                ) by {
                    if b < i {
                    } else if a < i && b == i {
                    } else if a < i && b > i {
                        assert(e2[b] == e[b - 1]);
                        if b - 1 > i {
                            assert(text_less(e[i as int].0, e[b - 1].0));
                            lemma_text_less_transitive(k, e[i as int].0, e[b - 1].0);
                        }
                        lemma_text_less_transitive(e2[a].0, k, e2[b].0);
                    } else if a == i {
                        assert(e2[b] == e[b - 1]);
                        if b - 1 > i {
                            assert(text_less(e[i as int].0, e[b - 1].0));
                            lemma_text_less_transitive(k, e[i as int].0, e[b - 1].0);
                        }
                    } else {
                        assert(e2[a] == e[a - 1]);
                        assert(e2[b] == e[b - 1]);
                    }
                }
                lemma_lookup_at(e2, i as int);
                assert forall|name: Seq<char>| name != k implies #[trigger] lookup(e2, name)
                    == lookup(e, name) by {
                    if exists|j: int| 0 <= j < e.len() && #[trigger] e[j].0 == name {
                        let j = choose|j: int| 0 <= j < e.len() && #[trigger] e[j].0 == name;
                        lemma_lookup_at(e, j);
                        if j < i {
                            lemma_lookup_at(e2, j);
                        } else {
                            assert(e2[j + 1] == e[j]);
                            lemma_lookup_at(e2, j + 1);
                        }
                    } else {
                        assert(!exists|j: int| 0 <= j < e2.len() && #[trigger] e2[j].0 == name) by {
                            if exists|j: int| 0 <= j < e2.len() && #[trigger] e2[j].0 == name {
                                let j = choose|j: int| 0 <= j < e2.len() && #[trigger] e2[j].0 == name;
                                if j < i {
                                    assert(e[j].0 == name);
                                } else if j > i {
                                    assert(e[j - 1].0 == name);
                                }
                            }
                        }
                    }
                }
            }
        }
        self.values = values;
    }

    /// The value of the variable `key`, if it is set.
    pub fn get(&self, key: &str) -> (r: Option<&str>)
        ensures
            match r {
                Some(value) => lookup(self@, key@) == Some(value@),
                None => lookup(self@, key@) is None,
            },
    {
        proof {
            use_type_invariant(self);
        }
        let key_chars = chars_of(key);
        let ghost e = self@;
        let mut i: usize = 0;
        while i < self.values.len()
            invariant
                i <= self.values@.len(),
                e == entry_views(self.values@),
                names_increasing(e),
                key_chars@ == key@,
                forall|j: int| 0 <= j < i ==> #[trigger] e[j].0 != key@,
            decreases self.values@.len() - i,
        {
            if chars_equal(&chars_of(self.values[i].0.as_str()), &key_chars) {
                proof {
                    lemma_lookup_at(e, i as int);
                }
                return Some(self.values[i].1.as_str());
            }
            i = i + 1;
        }
        None
    }

    /// The variables as (name, value) pairs in name order.
    pub fn values(&self) -> (r: &[(String, String)])
        ensures
            entry_views(r@) == self@,
            names_increasing(self@),
    {
        proof {
            use_type_invariant(self);
        }
        self.values.as_slice()
    }
}

} // verus!
