//! The scripts that `package.json` and `composer.json` declare.
use vstd::prelude::*;

use crate::processes::texts;
use crate::text::{
    chars_equal, chars_of, has_prefix, lemma_text_leq_total_ordering, lemma_text_less_total,
    lemma_text_less_transitive, starts_with, text_leq, text_less, text_less_exec, text_order,
};

verus! {

broadcast use vstd::seq_lib::group_to_multiset_ensures;

/// A JSON value (`serde_json::Value`); opaque here, it is only turned into a `JsonValue`.
#[verifier::external_type_specification]
#[verifier::external_body]
pub struct ExJsonValue(serde_json::Value);

/// A JSON value: the value of `serde_json::Value` as plain data. Numbers are kept as their
/// JSON text; the members of an object are in the order in which `serde_json` keeps them.
#[derive(Debug, PartialEq, Eq)]
pub enum JsonValue {
    Null,
    Bool(bool),
    Number(String),
    Text(String),
    Array(Vec<JsonValue>),
    Object(Vec<(String, JsonValue)>),
}

/// The document that `serde_json::from_str::<serde_json::Value>` reads from `text`, as a
/// `JsonValue`; `None` when it refuses the text.
pub uninterp spec fn json_document(text: Seq<char>) -> Option<JsonValue>;

/// `serde_json::from_str::<serde_json::Value>`, its result turned into a `JsonValue`: the
/// document `text` holds, or `None` when the text is not JSON. Claims that the result is the
/// one that `json_document` names for the text; what the parser makes of a text is not
/// stated.
#[verifier::external_body]
fn parse_json(text: &str) -> (r: Option<JsonValue>)
    ensures
        r == json_document(text@),
{
    serde_json::from_str::<serde_json::Value>(text).ok().map(json_value_from)
}

/// Turns a `serde_json::Value` into the `JsonValue` of the same variant, field for field
/// (a number by `Number`'s text). Used by `parse_json` alone; claims nothing by itself.
#[verifier::external_body]
fn json_value_from(value: serde_json::Value) -> JsonValue {
    match value {
        serde_json::Value::Null => JsonValue::Null,
        serde_json::Value::Bool(b) => JsonValue::Bool(b),
        serde_json::Value::Number(n) => JsonValue::Number(n.to_string()),
        serde_json::Value::String(s) => JsonValue::Text(s),
        serde_json::Value::Array(items) => JsonValue::Array(items.into_iter().map(json_value_from).collect()),
        serde_json::Value::Object(fields) => JsonValue::Object(
            fields.into_iter().map(|(name, item)| (name, json_value_from(item))).collect(),
        ),
    }
}

/// The value of the member named `key` among the members `fields` of an object: the first
/// member of that name, if there is one.
pub open spec fn member(fields: Seq<(String, JsonValue)>, key: Seq<char>) -> Option<JsonValue>
    decreases fields.len(),
{
    if fields.len() == 0 {
        None
    } else if fields[0].0@ == key {
        Some(fields[0].1)
    } else {
        member(fields.drop_first(), key)
    }
}

/// The names of the scripts that a manifest `document` declares: the member names of its
/// `scripts` object, in order; `None` when there is no document, it is not an object, or
/// its `scripts` member is missing or not an object.
pub open spec fn manifest_scripts(document: Option<JsonValue>) -> Option<Seq<Seq<char>>> {
    match document {
        Some(JsonValue::Object(fields)) => match member(fields@, "scripts"@) {
            Some(JsonValue::Object(scripts)) => Some(
                scripts@.map_values(|m: (String, JsonValue)| m.0@),
            ),
            _ => None,
        },
        _ => None,
    }
}

/// The names of the members of an object, in order.
fn member_names(fields: &Vec<(String, JsonValue)>) -> (r: Vec<String>)
    ensures
        texts(r@) == fields@.map_values(|m: (String, JsonValue)| m.0@),
{
    let mut names: Vec<String> = Vec::new();
    let mut j: usize = 0;
    while j < fields.len()
        invariant
            j <= fields@.len(),
            texts(names@) == fields@.map_values(|m: (String, JsonValue)| m.0@).take(j as int),
        decreases fields@.len() - j,
    {
        let ghost before = texts(names@);
        names.push(fields[j].0.clone());
        assert(texts(names@) =~= before.push(fields@[j as int].0@));
        assert(fields@.map_values(|m: (String, JsonValue)| m.0@).take(j + 1) =~= fields@.map_values(
            |m: (String, JsonValue)| m.0@,
        ).take(j as int).push(fields@[j as int].0@));
        j = j + 1;
    }
    assert(fields@.map_values(|m: (String, JsonValue)| m.0@).take(fields@.len() as int)
        =~= fields@.map_values(|m: (String, JsonValue)| m.0@));
    names
}

/// The names of the scripts that the manifest `document` declares (see
/// `manifest_scripts`).
pub fn document_script_names(document: &Option<JsonValue>) -> (r: Option<Vec<String>>)
    ensures
        match r {
            Some(names) => manifest_scripts(*document) == Some(texts(names@)),
            None => manifest_scripts(*document) is None,
        },
{
    let fields = match document {
        Some(JsonValue::Object(fields)) => fields,
        _ => return None,
    };
    let key = chars_of("scripts");
    let mut i: usize = 0;
    assert(fields@.skip(0) =~= fields@);
    while i < fields.len()
        invariant
            i <= fields@.len(),
            key@ == "scripts"@,
            *document matches Some(JsonValue::Object(f)) && f@ == fields@,
            member(fields@, key@) == member(fields@.skip(i as int), key@),
        decreases fields@.len() - i,
    {
        assert(fields@.skip(i as int)[0] == fields@[i as int]);
        if chars_equal(&chars_of(fields[i].0.as_str()), &key) {
            let scripts = match &fields[i].1 {
                JsonValue::Object(scripts) => scripts,
                _ => return None,
            };
            let names = member_names(scripts);
            return Some(names);
        }
        assert(fields@.skip(i as int).drop_first() =~= fields@.skip(i + 1));
        i = i + 1;
    }
    None
}

/// The names of the scripts that the manifest `contents` declares (see `manifest_scripts`).
pub fn manifest_script_names(contents: &str) -> (r: Option<Vec<String>>)
    ensures
        match r {
            Some(names) => manifest_scripts(json_document(contents@)) == Some(texts(names@)),
            None => manifest_scripts(json_document(contents@)) is None,
        },
{
    let document = parse_json(contents);
    document_script_names(&document)
}

/// The characters a runnable script name is made of: ASCII letters and digits, `-`, `_`,
/// `:` and `.`.
pub open spec fn is_script_char(c: char) -> bool {
    ('a' <= c && c <= 'z') || ('A' <= c && c <= 'Z') || ('0' <= c && c <= '9') || c == '-' || c
        == '_' || c == ':' || c == '.'
}

/// Whether a script is offered as a command: not a `pre`/`post` hook, and its name is made
/// of script characters only.
pub open spec fn is_runnable_script(name: Seq<char>) -> bool {
    &&& !has_prefix(name, "pre"@)
    &&& !has_prefix(name, "post"@)
    &&& forall|i: int| 0 <= i < name.len() ==> is_script_char(#[trigger] name[i])
}

/// The runnable scripts among `names`, in the order of `String`.
pub open spec fn runnable_scripts_spec(names: Seq<Seq<char>>) -> Seq<Seq<char>> {
    names.filter(|n: Seq<char>| is_runnable_script(n)).sort_by(text_order())
}

/// Whether the script `name` is offered as a command (see `is_runnable_script`).
fn is_runnable(name: &String) -> (r: bool)
    ensures
        r == is_runnable_script(name@),
{
    let n = chars_of(name.as_str());
    let pre = chars_of("pre");
    let post = chars_of("post");
    if starts_with(&n, &pre) || starts_with(&n, &post) {
        return false;
    }
    let mut i: usize = 0;
    while i < n.len()
        invariant
            i <= n@.len(),
            n@ == name@,
            forall|j: int| 0 <= j < i ==> is_script_char(#[trigger] n@[j]),
        decreases n@.len() - i,
    {
        let c = n[i];
        if !(('a' <= c && c <= 'z') || ('A' <= c && c <= 'Z') || ('0' <= c && c <= '9') || c == '-'
            || c == '_' || c == ':' || c == '.') {
            return false;
        }
        i = i + 1;
    }
    true
}

/// Whether `s` is in the order of `String`.
pub open spec fn texts_sorted(s: Seq<Seq<char>>) -> bool {
    forall|a: int, b: int| 0 <= a < b < s.len() ==> text_leq(#[trigger] s[a], #[trigger] s[b])
}

/// Putting `x` before the first text that is greater than it keeps a sorted sequence sorted.
proof fn lemma_insert_sorted(s: Seq<Seq<char>>, j: int, x: Seq<char>)
    requires
        texts_sorted(s),
        0 <= j <= s.len(),
        forall|k: int| 0 <= k < j ==> !text_less(x, #[trigger] s[k]),
        j < s.len() ==> text_less(x, s[j]),
    ensures
        texts_sorted(s.insert(j, x)),
{
    let t = s.insert(j, x);
    assert forall|a: int, b: int| 0 <= a < b < t.len() implies text_leq(#[trigger] t[a], #[trigger] t[b]) by {
        if b < j {
            assert(t[a] == s[a] && t[b] == s[b]);
        } else if b == j {
            assert(t[a] == s[a]);
            assert(!text_less(x, s[a]));
            lemma_text_less_total(x, s[a]);
        } else if a < j {
            assert(t[a] == s[a] && t[b] == s[b - 1]);
            assert(text_leq(s[a], s[b - 1]));
        } else if a == j {
            assert(t[b] == s[b - 1]);
            if b - 1 > j {
                assert(text_leq(s[j], s[b - 1]));
                if s[j] != s[b - 1] {
                    lemma_text_less_transitive(x, s[j], s[b - 1]);
                }
            }
        } else {
            assert(t[a] == s[a - 1] && t[b] == s[b - 1]);
        }
    }
}

/// The runnable scripts among `names`, sorted (see `runnable_scripts_spec`).
pub fn runnable_scripts(names: &Vec<String>) -> (r: Vec<String>)
    ensures
        texts(r@) == runnable_scripts_spec(texts(names@)),
{
    let ghost all = texts(names@);
    let ghost pred = |n: Seq<char>| is_runnable_script(n);
    let mut sorted: Vec<String> = Vec::new();
    let mut i: usize = 0;
    while i < names.len()
        invariant
            i <= names@.len(),
            all == texts(names@),
            pred == (|n: Seq<char>| is_runnable_script(n)),
            texts_sorted(texts(sorted@)),
            texts(sorted@).to_multiset() == all.take(i as int).filter(pred).to_multiset(),
        decreases names@.len() - i,
    {
        let ghost before = all.take(i as int).filter(pred);
        proof {
            assert(all.take(i + 1).drop_last() =~= all.take(i as int));
            reveal(Seq::filter);
        }
        assert(all[i as int] == names@[i as int]@);
        if is_runnable(&names[i]) {
            let x = names[i].clone();
            let xc = chars_of(x.as_str());
            let mut j: usize = 0;
            while j < sorted.len() && !text_less_exec(&xc, &chars_of(sorted[j].as_str()))
                invariant
                    j <= sorted@.len(),
                    xc@ == x@,
                    forall|k: int| 0 <= k < j ==> !text_less(x@, #[trigger] texts(sorted@)[k]),
                decreases sorted@.len() - j,
            {
                j = j + 1;
            }
            let ghost s = texts(sorted@);
            proof {
                lemma_insert_sorted(s, j as int, x@);
                vstd::seq_lib::to_multiset_insert(s, j as int, x@);
            }
            sorted.insert(j, x);
            assert(texts(sorted@) =~= s.insert(j as int, x@));
            assert(all.take(i + 1).filter(pred) == before.push(x@));
        } else {
            assert(all.take(i + 1).filter(pred) == before);
        }
        i = i + 1;
    }
    assert(all.take(all.len() as int) =~= all);
    proof {
        lemma_text_leq_total_ordering();
        all.filter(pred).lemma_sort_by_ensures(text_order());
        assert(vstd::relations::sorted_by(texts(sorted@), text_order()));
        vstd::seq_lib::lemma_sorted_unique(
            texts(sorted@),
            all.filter(pred).sort_by(text_order()),
            text_order(),
        );
    }
    sorted
}

} // verus!
