//! Frameworks and languages recognised in a project.
use vstd::prelude::*;

verus! {

/// A framework or language a project is built with.
#[derive(Debug, Clone, Copy, PartialEq, Eq, Structural, Hash)]
pub enum TechnologyKind {
    Laravel,
    Vue,
    React,
    TypeScript,
    JavaScript,
}

/// Whether projects built with `kind` run through the Node tool chain.
pub open spec fn node_tooling(kind: TechnologyKind) -> bool {
    match kind {
        TechnologyKind::Vue | TechnologyKind::React | TechnologyKind::TypeScript
        | TechnologyKind::JavaScript => true,
        TechnologyKind::Laravel => false,
    }
}

/// The name under which a technology is shown.
pub open spec fn technology_label(kind: TechnologyKind) -> Seq<char> {
    match kind {
        TechnologyKind::Laravel => seq!['L', 'a', 'r', 'a', 'v', 'e', 'l'],
        TechnologyKind::Vue => seq!['V', 'u', 'e'],
        TechnologyKind::React => seq!['R', 'e', 'a', 'c', 't'],
        TechnologyKind::TypeScript => seq![
            'T',
            'y',
            'p',
            'e',
            'S',
            'c',
            'r',
            'i',
            'p',
            't',
        ],
        TechnologyKind::JavaScript => seq![
            'J',
            'a',
            'v',
            'a',
            'S',
            'c',
            'r',
            'i',
            'p',
            't',
        ],
    }
}

impl TechnologyKind {
    /// Whether projects built with this technology run through the Node tool chain
    /// (everything but Laravel).
    pub fn uses_node_tooling(self) -> (r: bool)
        ensures
            r == node_tooling(self),
    {
        match self {
            TechnologyKind::Vue | TechnologyKind::React | TechnologyKind::TypeScript
            | TechnologyKind::JavaScript => true,
            TechnologyKind::Laravel => false,
        }
    }

    /// The name under which this technology is shown.
    pub fn label(self) -> (r: &'static str)
        ensures
            r@ == technology_label(self),
    {
        match self {
            TechnologyKind::Laravel => {
                proof {
                    reveal_strlit("Laravel");
                }
                "Laravel"
            },
            TechnologyKind::Vue => {
                proof {
                    reveal_strlit("Vue");
                }
                "Vue"
            },
            TechnologyKind::React => {
                proof {
                    reveal_strlit("React");
                }
                "React"
            },
            TechnologyKind::TypeScript => {
                proof {
                    reveal_strlit("TypeScript");
                }
                "TypeScript"
            },
            TechnologyKind::JavaScript => {
                proof {
                    reveal_strlit("JavaScript");
                }
                "JavaScript"
            },
        }
    }
}

} // verus!
