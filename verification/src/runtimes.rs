//! The language runtimes a project can use.
use vstd::prelude::*;

use crate::text::{ascii_lower, ascii_lowercase, chars_equal, chars_of};

verus! {

/// A language runtime.
#[derive(Debug, Clone, Copy, PartialEq, Eq, Structural, Hash)]
pub enum RuntimeKind {
    Rust,
    Node,
    Php,
    Python,
}

/// The runtime that source files with the (lower-case) extension `e` are written for.
pub open spec fn runtime_for_extension(e: Seq<char>) -> Option<RuntimeKind> {
    if e == seq!['r', 's'] {
        Some(RuntimeKind::Rust)
    } else if e == seq!['j', 's'] || e == seq!['j', 's', 'x'] || e == seq!['m', 'j', 's'] || e
        == seq!['c', 'j', 's'] || e == seq!['t', 's'] || e == seq!['t', 's', 'x'] {
        Some(RuntimeKind::Node)
    } else if e == seq!['p', 'h', 'p'] || e == seq!['p', 'h', 't', 'm', 'l'] {
        Some(RuntimeKind::Php)
    } else if e == seq!['p', 'y'] || e == seq!['p', 'y', 'w'] {
        Some(RuntimeKind::Python)
    } else {
        None
    }
}

/// The runtime for a file extension, whatever its letter case.
pub open spec fn runtime_for_source_extension(e: Seq<char>) -> Option<RuntimeKind> {
    runtime_for_extension(ascii_lower(e))
}

/// The name under which a runtime is shown.
pub open spec fn runtime_label(kind: RuntimeKind) -> Seq<char> {
    match kind {
        RuntimeKind::Rust => seq!['R', 'u', 's', 't'],
        RuntimeKind::Node => seq!['N', 'o', 'd', 'e'],
        RuntimeKind::Php => seq!['P', 'H', 'P'],
        RuntimeKind::Python => seq!['P', 'y', 't', 'h', 'o', 'n'],
    }
}

impl RuntimeKind {
    /// The runtime that source files with this extension (`rs`, `ts`, `php`, `py`, ...) are
    /// written for; the letter case of the extension does not matter.
    pub fn from_source_extension(extension: &str) -> (r: Option<Self>)
        ensures
            r == runtime_for_source_extension(extension@),
    {
        let e = ascii_lowercase(&chars_of(extension));
        if chars_equal(&e, &['r', 's']) {
            Some(RuntimeKind::Rust)
        } else if chars_equal(&e, &['j', 's']) || chars_equal(&e, &['j', 's', 'x']) || chars_equal(
            &e,
            &['m', 'j', 's'],
        ) || chars_equal(&e, &['c', 'j', 's']) || chars_equal(&e, &['t', 's']) || chars_equal(
            &e,
            &['t', 's', 'x'],
        ) {
            Some(RuntimeKind::Node)
        } else if chars_equal(&e, &['p', 'h', 'p']) || chars_equal(&e, &['p', 'h', 't', 'm', 'l']) {
            Some(RuntimeKind::Php)
        } else if chars_equal(&e, &['p', 'y']) || chars_equal(&e, &['p', 'y', 'w']) {
            Some(RuntimeKind::Python)
        } else {
            None
        }
    }

    /// The name under which this runtime is shown (`Rust`, `Node`, `PHP`, `Python`).
    pub fn label(self) -> (r: &'static str)
        ensures
            r@ == runtime_label(self),
    {
        match self {
            RuntimeKind::Rust => {
                proof {
                    reveal_strlit("Rust");
                }
                "Rust"
            },
            RuntimeKind::Node => {
                proof {
                    reveal_strlit("Node");
                }
                "Node"
            },
            RuntimeKind::Php => {
                proof {
                    reveal_strlit("PHP");
                }
                "PHP"
            },
            RuntimeKind::Python => {
                proof {
                    reveal_strlit("Python");
                }
                "Python"
            },
        }
    }
}

/// An installed runtime and its version, when known.
#[derive(Debug, Clone, PartialEq, Eq)]
pub struct Runtime {
    pub kind: RuntimeKind,
    pub version: Option<String>,
}

/// Lower-casing twice changes nothing more than lower-casing once.
pub proof fn lemma_ascii_lower_idempotent(s: Seq<char>)
    ensures
        ascii_lower(ascii_lower(s)) == ascii_lower(s),
{
    assert(ascii_lower(ascii_lower(s)) =~= ascii_lower(s));
}

/// The source extensions and their runtimes, whatever the letter case: `rs` is Rust; `js`,
/// `jsx`, `mjs`, `cjs`, `ts` and `tsx` are Node; `php` and `phtml` are PHP; `py` and `pyw`
/// are Python; every other extension names no runtime.
pub proof fn lemma_source_extension_runtimes(e: Seq<char>)
    ensures
        ascii_lower(e) == seq!['r', 's'] ==> runtime_for_source_extension(e) == Some(
            RuntimeKind::Rust,
        ),
        ascii_lower(e) == seq!['j', 's'] || ascii_lower(e) == seq!['j', 's', 'x'] || ascii_lower(e)
            == seq!['m', 'j', 's'] || ascii_lower(e) == seq!['c', 'j', 's'] || ascii_lower(e)
            == seq!['t', 's'] || ascii_lower(e) == seq!['t', 's', 'x'] ==> runtime_for_source_extension(
            e,
        ) == Some(RuntimeKind::Node),
        ascii_lower(e) == seq!['p', 'h', 'p'] || ascii_lower(e) == seq!['p', 'h', 't', 'm', 'l']
            ==> runtime_for_source_extension(e) == Some(RuntimeKind::Php),
        ascii_lower(e) == seq!['p', 'y'] || ascii_lower(e) == seq!['p', 'y', 'w']
            ==> runtime_for_source_extension(e) == Some(RuntimeKind::Python),
        !(ascii_lower(e) == seq!['r', 's'] || ascii_lower(e) == seq!['j', 's'] || ascii_lower(e)
            == seq!['j', 's', 'x'] || ascii_lower(e) == seq!['m', 'j', 's'] || ascii_lower(e)
            == seq!['c', 'j', 's'] || ascii_lower(e) == seq!['t', 's'] || ascii_lower(e)
            == seq!['t', 's', 'x'] || ascii_lower(e) == seq!['p', 'h', 'p'] || ascii_lower(e)
            == seq!['p', 'h', 't', 'm', 'l'] || ascii_lower(e) == seq!['p', 'y'] || ascii_lower(e)
            == seq!['p', 'y', 'w']) ==> runtime_for_source_extension(e) is None,
{
}

/// The runtime of an extension does not depend on its letter case: an extension and its
/// lower-case form name the same runtime.
pub proof fn lemma_extension_case_insensitive(e: Seq<char>)
    ensures
        runtime_for_source_extension(e) == runtime_for_source_extension(ascii_lower(e)),
{
    lemma_ascii_lower_idempotent(e);
}

} // verus!
