//! Supported source languages and their file-extension catalog.
use vstd::prelude::*;

use crate::text::str_eq;

verus! {

/// A source language the analyzer understands.
#[derive(Debug, Clone, Copy, PartialEq, Eq, Structural, Hash, PartialOrd, Ord)]
pub enum LangId {
    Python,
    JavaScript,
    TypeScript,
    Tsx,
    C,
    Cpp,
    Rust,
    Go,
    Ruby,
}

/// Every language, in catalog order.
pub open spec fn spec_all_languages() -> Seq<LangId> {
    seq![
        LangId::Python,
        LangId::JavaScript,
        LangId::TypeScript,
        LangId::Tsx,
        LangId::C,
        LangId::Cpp,
        LangId::Rust,
        LangId::Go,
        LangId::Ruby,
    ]
}

impl LangId {
    /// Canonical lower-case name of the language.
    pub open spec fn spec_name(self) -> Seq<char> {
        match self {
            LangId::Python => "python"@,
            LangId::JavaScript => "javascript"@,
            LangId::TypeScript => "typescript"@,
            LangId::Tsx => "tsx"@,
            LangId::C => "c"@,
            LangId::Cpp => "cpp"@,
            LangId::Rust => "rust"@,
            LangId::Go => "go"@,
            LangId::Ruby => "ruby"@,
        }
    }

    /// File extensions (lower case, without the dot) that belong to the language.
    pub open spec fn spec_extensions(self) -> Seq<Seq<char>> {
        match self {
            LangId::Python => seq!["py"@, "pyi"@],
            LangId::JavaScript => seq!["js"@, "mjs"@, "cjs"@, "jsx"@],
            LangId::TypeScript => seq!["ts"@, "cts"@, "mts"@],
            LangId::Tsx => seq!["tsx"@],
            LangId::C => seq!["c"@, "h"@],
            LangId::Cpp => seq!["cc"@, "cpp"@, "cxx"@, "hpp"@, "hh"@, "hxx"@],
            LangId::Rust => seq!["rs"@],
            LangId::Go => seq!["go"@],
            LangId::Ruby => seq!["rb"@],
        }
    }

    /// A symbol declared without a visibility is public: in every language
    /// but Rust, whose items are private unless marked `pub`.
    pub open spec fn spec_public_by_default(self) -> bool {
        self != LangId::Rust
    }

    /// Whether a symbol declared without a visibility is public (see
    /// [`LangId::spec_public_by_default`]).
    pub fn public_by_default(self) -> (r: bool)
        ensures
            r == self.spec_public_by_default(),
    {
        !matches!(self, LangId::Rust)
    }

    /// Canonical lower-case name of the language.
    pub fn as_str(self) -> (r: &'static str)
        ensures
            r@ == self.spec_name(),
    {
        match self {
            LangId::Python => "python",
            LangId::JavaScript => "javascript",
            LangId::TypeScript => "typescript",
            LangId::Tsx => "tsx",
            LangId::C => "c",
            LangId::Cpp => "cpp",
            LangId::Rust => "rust",
            LangId::Go => "go",
            LangId::Ruby => "ruby",
        }
    }

    /// Every language, in catalog order.
    pub fn all() -> (r: Vec<LangId>)
        ensures
            r@ == spec_all_languages(),
    {
        vec![
            LangId::Python,
            LangId::JavaScript,
            LangId::TypeScript,
            LangId::Tsx,
            LangId::C,
            LangId::Cpp,
            LangId::Rust,
            LangId::Go,
            LangId::Ruby,
        ]
    }

    /// The extension catalog of the language.
    pub fn extensions(self) -> (r: Vec<&'static str>)
        ensures
            r@.len() == self.spec_extensions().len(),
            forall|i: int| 0 <= i < r@.len() ==> #[trigger] r@[i]@ == self.spec_extensions()[i],
    {
        match self {
            LangId::Python => vec!["py", "pyi"],
            LangId::JavaScript => vec!["js", "mjs", "cjs", "jsx"],
            LangId::TypeScript => vec!["ts", "cts", "mts"],
            LangId::Tsx => vec!["tsx"],
            LangId::C => vec!["c", "h"],
            LangId::Cpp => vec!["cc", "cpp", "cxx", "hpp", "hh", "hxx"],
            LangId::Rust => vec!["rs"],
            LangId::Go => vec!["go"],
            LangId::Ruby => vec!["rb"],
        }
    }

    /// The language whose canonical name is exactly `name`.
    pub fn from_name(name: &str) -> (r: Option<LangId>)
        ensures
            r == spec_language_named(name@),
    {
        let all = LangId::all();
        let mut i: usize = 0;
        while i < all.len()
            invariant
                all@ == spec_all_languages(),
                0 <= i <= all@.len(),
                forall|j: int| 0 <= j < i ==> (#[trigger] all@[j]).spec_name() != name@,
            decreases all@.len() - i,
        {
            let lang = all[i];
            if str_eq(lang.as_str(), name) {
                proof { lemma_language_named_found(name@, i as int); }
                return Some(lang);
            }
            i = i + 1;
        }
        proof { lemma_language_named_absent(name@); }
        None
    }
}

/// The first language of the catalog whose name is `name`.
pub open spec fn spec_language_named(name: Seq<char>) -> Option<LangId> {
    if exists|i: int| 0 <= i < 9 && (#[trigger] spec_all_languages()[i]).spec_name() == name {
        Some(spec_all_languages()[choose|i: int| 0 <= i < 9 && (#[trigger] spec_all_languages()[i]).spec_name() == name])
    } else {
        None
    }
}

proof fn lemma_names_distinct()
    ensures
        forall|i: int, j: int| 0 <= i < 9 && 0 <= j < 9 && i != j ==>
            (#[trigger] spec_all_languages()[i]).spec_name() != (#[trigger] spec_all_languages()[j]).spec_name(),
{
    reveal_strlit("python");
    reveal_strlit("javascript");
    reveal_strlit("typescript");
    reveal_strlit("tsx");
    reveal_strlit("c");
    reveal_strlit("cpp");
    reveal_strlit("rust");
    reveal_strlit("go");
    reveal_strlit("ruby");
    assert forall|i: int, j: int| 0 <= i < 9 && 0 <= j < 9 && i != j implies
        (#[trigger] spec_all_languages()[i]).spec_name() != (#[trigger] spec_all_languages()[j]).spec_name() by {
        let a = spec_all_languages()[i].spec_name();
        let b = spec_all_languages()[j].spec_name();
        if a == b {
            assert(a.len() == b.len());
            assert(a[0] == b[0]);
            if a.len() > 1 { assert(a[1] == b[1]); }
            if a.len() > 2 { assert(a[2] == b[2]); }
        }
    }
}

proof fn lemma_language_named_found(name: Seq<char>, i: int)
    requires
        0 <= i < 9,
        spec_all_languages()[i].spec_name() == name,
    ensures
        spec_language_named(name) == Some(spec_all_languages()[i]),
{
    lemma_names_distinct();
}

proof fn lemma_language_named_absent(name: Seq<char>)
    requires
        forall|j: int| 0 <= j < 9 ==> (#[trigger] spec_all_languages()[j]).spec_name() != name,
    ensures
        spec_language_named(name) == None::<LangId>,
{
}

} // verus!
