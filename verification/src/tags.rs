//! MetaCall loader tags.
use vstd::prelude::*;

use crate::lang::LangId;
use crate::text::{ascii_lower, ascii_lower_seq, chars_eq_str, chars_of, is_space, leading_space, lower_chars, trailing_space, trim_chars, trim_seq};

verus! {

/// Canonical MetaCall loader tag of a language.
pub open spec fn spec_metacall_tag(lang: LangId) -> Seq<char> {
    match lang {
        LangId::Python => "py"@,
        LangId::JavaScript => "node"@,
        LangId::TypeScript | LangId::Tsx => "ts"@,
        LangId::C | LangId::Cpp => "c"@,
        LangId::Rust => "rs"@,
        LangId::Go => "go"@,
        LangId::Ruby => "rb"@,
    }
}

/// Language of a normalized (trimmed, lower-case) tag or port alias.
pub open spec fn spec_tag_language(tag: Seq<char>) -> Option<LangId> {
    if tag == "py"@ || tag == "python"@ {
        Some(LangId::Python)
    } else if tag == "node"@ || tag == "nodejs"@ || tag == "js"@ || tag == "mjs"@ || tag == "cjs"@ {
        Some(LangId::JavaScript)
    } else if tag == "ts"@ || tag == "typescript"@ || tag == "tsx"@ || tag == "jsx"@ {
        Some(LangId::TypeScript)
    } else if tag == "c"@ {
        Some(LangId::C)
    } else if tag == "cpp"@ || tag == "cxx"@ || tag == "cc"@ || tag == "c++"@ {
        Some(LangId::Cpp)
    } else if tag == "rs"@ || tag == "rust"@ {
        Some(LangId::Rust)
    } else if tag == "go"@ || tag == "golang"@ {
        Some(LangId::Go)
    } else if tag == "rb"@ || tag == "ruby"@ {
        Some(LangId::Ruby)
    } else {
        None
    }
}

/// Language of a raw tag: trimmed, ASCII lower-cased, then looked up.
pub open spec fn spec_from_metacall_tag(tag: Seq<char>) -> Option<LangId> {
    spec_tag_language(ascii_lower_seq(trim_seq(tag)))
}

/// The language a tag of `lang` resolves back to: C++ shares the `c` loader
/// and TSX the `ts` loader.
pub open spec fn spec_tag_home(lang: LangId) -> LangId {
    match lang {
        LangId::Tsx => LangId::TypeScript,
        LangId::Cpp => LangId::C,
        other => other,
    }
}

/// Canonical MetaCall loader tag for a language.
///
/// C and C++ share the `c` loader (libclang). Go has no loader yet; the tag
/// stays stable for manifests and [`has_loader`] reports the gap.
pub fn metacall_tag(lang: LangId) -> (r: &'static str)
    ensures
        r@ == spec_metacall_tag(lang),
{
    match lang {
        LangId::Python => "py",
        LangId::JavaScript => "node",
        LangId::TypeScript | LangId::Tsx => "ts",
        LangId::C | LangId::Cpp => "c",
        LangId::Rust => "rs",
        LangId::Go => "go",
        LangId::Ruby => "rb",
    }
}

/// Reports whether MetaCall ships a loader for this language.
pub fn has_loader(lang: LangId) -> (r: bool)
    ensures
        r == (lang != LangId::Go),
{
    !matches!(lang, LangId::Go)
}

/// Resolves a MetaCall tag or port alias to a language.
///
/// The mapping is not symmetric for C++: [`metacall_tag`] maps `Cpp` to
/// `"c"`, and `"c"` resolves to `C`. Use the `"cpp"` alias to recover `Cpp`.
pub fn from_metacall_tag(tag: &str) -> (r: Option<LangId>)
    ensures
        r == spec_from_metacall_tag(tag@),
{
    let raw = chars_of(tag);
    let trimmed = trim_chars(raw.as_slice());
    let t = lower_chars(trimmed.as_slice());
    let t = t.as_slice();
    if chars_eq_str(t, "py") || chars_eq_str(t, "python") {
        Some(LangId::Python)
    } else if chars_eq_str(t, "node") || chars_eq_str(t, "nodejs") || chars_eq_str(t, "js")
        || chars_eq_str(t, "mjs") || chars_eq_str(t, "cjs") {
        Some(LangId::JavaScript)
    } else if chars_eq_str(t, "ts") || chars_eq_str(t, "typescript") || chars_eq_str(t, "tsx")
        || chars_eq_str(t, "jsx") {
        Some(LangId::TypeScript)
    } else if chars_eq_str(t, "c") {
        Some(LangId::C)
    } else if chars_eq_str(t, "cpp") || chars_eq_str(t, "cxx") || chars_eq_str(t, "cc")
        || chars_eq_str(t, "c++") {
        Some(LangId::Cpp)
    } else if chars_eq_str(t, "rs") || chars_eq_str(t, "rust") {
        Some(LangId::Rust)
    } else if chars_eq_str(t, "go") || chars_eq_str(t, "golang") {
        Some(LangId::Go)
    } else if chars_eq_str(t, "rb") || chars_eq_str(t, "ruby") {
        Some(LangId::Ruby)
    } else {
        None
    }
}

/// Round trip of the tags: the canonical tag of a language resolves back to
/// that language, except that C++ resolves to C and TSX to TypeScript, which
/// share their loader tag.
pub proof fn lemma_tag_round_trip(lang: LangId)
    ensures
        spec_from_metacall_tag(spec_metacall_tag(lang)) == Some(spec_tag_home(lang)),
{
    reveal_strlit("py");
    reveal_strlit("python");
    reveal_strlit("node");
    reveal_strlit("nodejs");
    reveal_strlit("js");
    reveal_strlit("mjs");
    reveal_strlit("cjs");
    reveal_strlit("ts");
    reveal_strlit("typescript");
    reveal_strlit("tsx");
    reveal_strlit("jsx");
    reveal_strlit("c");
    reveal_strlit("cpp");
    reveal_strlit("cxx");
    reveal_strlit("cc");
    reveal_strlit("c++");
    reveal_strlit("rs");
    reveal_strlit("rust");
    reveal_strlit("go");
    reveal_strlit("golang");
    reveal_strlit("rb");
    reveal_strlit("ruby");
    let t = spec_metacall_tag(lang);
    assert(crate::text::leading_space(t) == 0);
    assert(t.skip(0) =~= t);
    assert(crate::text::trailing_space(t) == 0);
    assert(t.take(t.len() as int) =~= t);
    assert(trim_seq(t) =~= t);
    assert(ascii_lower_seq(t) =~= t);
}

/// Leading white space stops at the first other character.
proof fn lemma_leading_stops(s: Seq<char>)
    ensures
        leading_space(s) <= s.len(),
        leading_space(s) < s.len() ==> !is_space(s[leading_space(s) as int]),
    decreases s.len(),
{
    if s.len() > 0 && is_space(s[0]) {
        lemma_leading_stops(s.drop_first());
        let l = leading_space(s.drop_first());
        if l < s.drop_first().len() {
            assert(s.drop_first()[l as int] == s[l as int + 1]);
        }
    }
}

/// Trailing white space stops at the last other character.
proof fn lemma_trailing_stops(s: Seq<char>)
    ensures
        trailing_space(s) <= s.len(),
        trailing_space(s) < s.len() ==> !is_space(s[s.len() - trailing_space(s) - 1]),
    decreases s.len(),
{
    if s.len() > 0 && is_space(s.last()) {
        lemma_trailing_stops(s.drop_last());
        let k = trailing_space(s.drop_last());
        if k < s.drop_last().len() {
            assert(s.drop_last()[s.drop_last().len() - k - 1] == s[s.len() - (k as int + 1) - 1]);
        }
    }
}

/// ASCII lower-casing keeps white space and is idempotent.
proof fn lemma_ascii_lower_char(c: char)
    ensures
        is_space(ascii_lower(c)) == is_space(c),
        ascii_lower(ascii_lower(c)) == ascii_lower(c),
{
    if 'A' <= c && c <= 'Z' {
        assert((c as u32) + 32 >= 'a' as u32 && (c as u32) + 32 <= 'z' as u32);
    }
}

/// A raw tag resolves as its trimmed, ASCII lower-cased spelling does:
/// parsing normalizes every string the same way.
pub proof fn lemma_tag_normalizes(t: Seq<char>)
    ensures
        spec_from_metacall_tag(t) == spec_from_metacall_tag(ascii_lower_seq(trim_seq(t))),
{
    let l = leading_space(t);
    lemma_leading_stops(t);
    let rest = t.skip(l as int);
    lemma_trailing_stops(rest);
    let w = trim_seq(t);
    let u = ascii_lower_seq(w);
    assert forall|i: int| 0 <= i < u.len() implies #[trigger] u[i] == ascii_lower(w[i])
        && is_space(u[i]) == is_space(w[i]) && ascii_lower(u[i]) == u[i] by {
        lemma_ascii_lower_char(w[i]);
    }
    if u.len() > 0 {
        assert(w[0] == rest[0] && rest[0] == t[l as int]);
        assert(!is_space(u[0]));
        assert(w[w.len() - 1] == rest[rest.len() - trailing_space(rest) - 1]);
        assert(!is_space(u[u.len() - 1]));
        assert(leading_space(u) == 0);
        assert(trailing_space(u) == 0);
    } else {
        assert(leading_space(u) == 0);
        assert(trailing_space(u) == 0);
    }
    assert(trim_seq(u) =~= u);
    assert(ascii_lower_seq(u) =~= u);
}

} // verus!
