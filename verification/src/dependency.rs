//! External dependencies: the package, version and source a lockfile or a
//! manifest gives for an import that leaves the project.
use vstd::prelude::*;

use crate::assoc::{keys_distinct, latest};
use crate::edge::{EdgeData, EdgeKind};
use crate::graph::CodeGraph;
use crate::lang::LangId;
use crate::model::FileId;
use crate::pod::{Pod, PodPartition};
use crate::node::{DependencySource, ExternalClassification, ExternalNode, NodeData};
use crate::config::opt_view;
use crate::text::{
    chars_eq, chars_of, contains_text, has_substring, is_space, is_space_char, lines, lines_of, piece_views, push_str, separator, split_by,
    split_chars, str_eq, string_from, string_list_views, string_of, words, words_of, Separator,
};

verus! {

/// One resolved dependency of a pod.
#[derive(Debug, Clone)]
pub struct DependencyEntry {
    pub name: String,
    pub version: Option<String>,
    pub language: LangId,
    pub source: DependencySource,
}

impl DependencyEntry {
    /// A field-for-field copy.
    pub fn duplicate(&self) -> (r: DependencyEntry)
        ensures
            r == *self,
    {
        DependencyEntry {
            name: self.name.clone(),
            version: match &self.version {
                Some(v) => Some(v.clone()),
                None => None,
            },
            language: self.language,
            source: self.source,
        }
    }
}

/// A copy of a list of entries.
pub fn duplicate_entries(entries: &Vec<DependencyEntry>) -> (r: Vec<DependencyEntry>)
    ensures
        r@ == entries@,
{
    let mut out: Vec<DependencyEntry> = Vec::new();
    let mut i: usize = 0;
    while i < entries.len()
        invariant
            0 <= i <= entries@.len(),
            out@ == entries@.take(i as int),
        decreases entries@.len() - i,
    {
        out.push(entries[i].duplicate());
        proof { assert(out@ =~= entries@.take(i + 1)); }
        i = i + 1;
    }
    proof { assert(entries@.take(i as int) =~= entries@); }
    out
}

/// A class of characters the scanners trim.
#[derive(Debug, Clone, Copy, PartialEq, Eq, Structural)]
pub enum Trim {
    /// `-`, the list marker of a lockfile line.
    Dash,
    /// `"`.
    Quote,
    /// `v`, the prefix of a Go version.
    LowerV,
    /// White space.
    Space,
    /// `'` and `"`, the quotes around an import specifier.
    ImportQuote,
    /// `<`, `>` and `"`, the delimiters of a C include.
    IncludeDelimiter,
}

/// `c` belongs to the class.
pub open spec fn in_class(k: Trim, c: char) -> bool {
    match k {
        Trim::Dash => c == '-',
        Trim::Quote => c == '"',
        Trim::LowerV => c == 'v',
        Trim::Space => is_space(c),
        Trim::ImportQuote => c == '\'' || c == '"',
        Trim::IncludeDelimiter => c == '<' || c == '>' || c == '"',
    }
}

fn is_in_class(k: Trim, c: char) -> (r: bool)
    ensures
        r == in_class(k, c),
{
    match k {
        Trim::Dash => c == '-',
        Trim::Quote => c == '"',
        Trim::LowerV => c == 'v',
        Trim::Space => is_space_char(c),
        Trim::ImportQuote => c == '\'' || c == '"',
        Trim::IncludeDelimiter => c == '<' || c == '>' || c == '"',
    }
}

/// Number of leading characters of the class.
pub open spec fn lead(s: Seq<char>, k: Trim) -> nat
    decreases s.len(),
{
    if s.len() > 0 && in_class(k, s[0]) {
        1 + lead(s.drop_first(), k)
    } else {
        0
    }
}

/// Number of trailing characters of the class.
pub open spec fn trail(s: Seq<char>, k: Trim) -> nat
    decreases s.len(),
{
    if s.len() > 0 && in_class(k, s.last()) {
        1 + trail(s.drop_last(), k)
    } else {
        0
    }
}

/// `str::trim_start_matches` for a class.
pub open spec fn trim_start_class(s: Seq<char>, k: Trim) -> Seq<char> {
    s.skip(lead(s, k) as int)
}

/// `str::trim_matches` for a class.
pub open spec fn trim_class(s: Seq<char>, k: Trim) -> Seq<char> {
    let r = trim_start_class(s, k);
    r.take(r.len() - trail(r, k))
}

proof fn lemma_lead(s: Seq<char>, k: Trim, i: int)
    requires
        0 <= i <= s.len(),
        forall|j: int| 0 <= j < i ==> in_class(k, #[trigger] s[j]),
        i == s.len() || !in_class(k, s[i]),
    ensures
        lead(s, k) == i,
    decreases i,
{
    if i > 0 {
        assert forall|j: int| 0 <= j < i - 1 implies in_class(k, #[trigger] s.drop_first()[j]) by {
            assert(s.drop_first()[j] == s[j + 1]);
        }
        if i - 1 < s.drop_first().len() {
            assert(s.drop_first()[i - 1] == s[i]);
        }
        lemma_lead(s.drop_first(), k, i - 1);
    }
}

proof fn lemma_trail(s: Seq<char>, k: Trim, n: int)
    requires
        0 <= n <= s.len(),
        forall|j: int| s.len() - n <= j < s.len() ==> in_class(k, #[trigger] s[j]),
        n == s.len() || !in_class(k, s[s.len() - n - 1]),
    ensures
        trail(s, k) == n,
    decreases n,
{
    if n > 0 {
        let d = s.drop_last();
        assert forall|j: int| d.len() - (n - 1) <= j < d.len() implies in_class(k, #[trigger] d[j]) by {
            assert(d[j] == s[j]);
        }
        if n - 1 < d.len() {
            assert(d[d.len() - (n - 1) - 1] == s[s.len() - n - 1]);
        }
        lemma_trail(d, k, n - 1);
    }
}

/// Drops the leading characters of a class (see [`trim_start_class`]).
pub fn trim_start_of(s: &[char], k: Trim) -> (r: Vec<char>)
    ensures
        r@ == trim_start_class(s@, k),
{
    let n = s.len();
    let mut start: usize = 0;
    while start < n && is_in_class(k, s[start])
        invariant
            n == s@.len(),
            0 <= start <= n,
            forall|j: int| 0 <= j < start ==> in_class(k, #[trigger] s@[j]),
        decreases n - start,
    {
        start = start + 1;
    }
    proof { lemma_lead(s@, k, start as int); }
    let mut out: Vec<char> = Vec::new();
    let mut i: usize = start;
    while i < n
        invariant
            n == s@.len(),
            0 <= start <= i <= n,
            out@ =~= s@.subrange(start as int, i as int),
        decreases n - i,
    {
        out.push(s[i]);
        i = i + 1;
    }
    out
}

/// Drops the leading and trailing characters of a class (see
/// [`trim_class`]).
pub fn trim_of(s: &[char], k: Trim) -> (r: Vec<char>)
    ensures
        r@ == trim_class(s@, k),
{
    let rest = trim_start_of(s, k);
    let n = rest.len();
    let mut end: usize = n;
    while end > 0 && is_in_class(k, rest[end - 1])
        invariant
            n == rest@.len(),
            0 <= end <= n,
            forall|j: int| end <= j < n ==> in_class(k, #[trigger] rest@[j]),
        decreases end,
    {
        end = end - 1;
    }
    proof { lemma_trail(rest@, k, (n - end) as int); }
    let mut out: Vec<char> = Vec::new();
    let mut i: usize = 0;
    while i < end
        invariant
            0 <= i <= end <= n,
            n == rest@.len(),
            out@ =~= rest@.take(i as int),
        decreases end - i,
    {
        out.push(rest[i]);
        i = i + 1;
    }
    out
}

/// `p` begins `s`.
pub fn starts_with_chars(s: &[char], p: &str) -> (r: bool)
    ensures
        r == p@.is_prefix_of(s@),
{
    let b = chars_of(p);
    if b.len() > s.len() {
        return false;
    }
    let mut i: usize = 0;
    while i < b.len()
        invariant
            b@ == p@,
            b@.len() <= s@.len(),
            0 <= i <= b@.len(),
            forall|k: int| 0 <= k < i ==> s@[k] == b@[k],
        decreases b@.len() - i,
    {
        if s[i] != b[i] {
            return false;
        }
        i = i + 1;
    }
    true
}

fn skip_chars(s: &[char], n: usize) -> (r: Vec<char>)
    requires
        n <= s@.len(),
    ensures
        r@ == s@.skip(n as int),
{
    let mut out: Vec<char> = Vec::new();
    let mut i: usize = n;
    while i < s.len()
        invariant
            n <= i <= s@.len(),
            out@ =~= s@.subrange(n as int, i as int),
        decreases s@.len() - i,
    {
        out.push(s[i]);
        i = i + 1;
    }
    out
}

/// The line of a lockfile entry, trimmed, without its list marker.
pub open spec fn entry_line(line: Seq<char>) -> Seq<char> {
    trim_class(trim_start_class(trim_class(line, Trim::Space), Trim::Dash), Trim::Space)
}

/// The tokens of an entry line.
pub open spec fn entry_tokens(line: Seq<char>) -> Seq<Seq<char>> {
    split_by(entry_line(line), separator(Separator::EntryDelimiter))
}

/// A version range mark after a package name (`name@1`, `name^1`, ...).
pub open spec fn is_range_mark(c: char) -> bool {
    c == '@' || c == '^' || c == '~' || c == '>'
}

/// A token names the package: exactly, or followed by a range mark.
pub open spec fn token_names(t: Seq<char>, package: Seq<char>) -> bool {
    trim_class(t, Trim::Space) == package || (package.is_prefix_of(trim_class(t, Trim::Space)) && trim_class(t, Trim::Space).len()
        > package.len() && is_range_mark(trim_class(t, Trim::Space)[package.len() as int]))
}

/// The line names exactly this entry, in any lockfile grammar:
/// `name = "x"`, `x==1.2.3`, `"x": {`, `x (1.2.3)`, `"x@^1.2.3":`.
pub open spec fn spec_names_entry(line: Seq<char>, package: Seq<char>) -> bool {
    exists|i: int| 0 <= i < entry_tokens(line).len() && token_names(#[trigger] entry_tokens(line)[i], package)
}

/// Whether the line names the package's entry (see [`spec_names_entry`]).
pub fn names_entry(line: &str, package: &str) -> (r: bool)
    ensures
        r == spec_names_entry(line@, package@),
{
    let cs = chars_of(line);
    let a = trim_of(cs.as_slice(), Trim::Space);
    let b = trim_start_of(a.as_slice(), Trim::Dash);
    let t = trim_of(b.as_slice(), Trim::Space);
    let tokens = split_chars(t.as_slice(), Separator::EntryDelimiter);
    let p = chars_of(package);
    let mut i: usize = 0;
    while i < tokens.len()
        invariant
            0 <= i <= tokens@.len(),
            p@ == package@,
            piece_views(tokens@) == entry_tokens(line@),
            forall|j: int| 0 <= j < i ==> !token_names(#[trigger] entry_tokens(line@)[j], package@),
        decreases tokens@.len() - i,
    {
        let tok = trim_of(tokens[i].as_slice(), Trim::Space);
        proof { assert(entry_tokens(line@)[i as int] == tokens@[i as int]@); }
        if chars_eq(tok.as_slice(), p.as_slice()) {
            return true;
        }
        if tok.len() > p.len() {
            let mut same = true;
            let mut k: usize = 0;
            while k < p.len()
                invariant
                    0 <= k <= p@.len(),
                    p@.len() < tok@.len(),
                    same == (forall|q: int| 0 <= q < k ==> tok@[q] == p@[q]),
                decreases p@.len() - k,
            {
                if tok[k] != p[k] {
                    same = false;
                }
                k = k + 1;
            }
            let c = tok[p.len()];
            if same && (c == '@' || c == '^' || c == '~' || c == '>') {
                proof { assert(p@ =~= tok@.take(p@.len() as int)); }
                return true;
            }
            proof {
                if p@.is_prefix_of(tok@) {
                    assert forall|q: int| 0 <= q < p@.len() implies tok@[q] == p@[q] by {
                        assert(tok@.take(p@.len() as int)[q] == tok@[q]);
                    }
                }
            }
        }
        i = i + 1;
    }
    false
}

/// The digits of a version: ASCII digits.
pub open spec fn is_digit(c: char) -> bool {
    '0' <= c && c <= '9'
}

/// The end of the run of digits and dots that starts at `i`.
pub open spec fn run_end(s: Seq<char>, i: int) -> int
    decreases s.len() - i,
{
    if 0 <= i < s.len() && (is_digit(s[i]) || s[i] == '.') {
        run_end(s, i + 1)
    } else {
        i
    }
}

/// The number of dots.
pub open spec fn dots(s: Seq<char>) -> nat
    decreases s.len(),
{
    if s.len() == 0 {
        0
    } else {
        dots(s.drop_last()) + if s.last() == '.' { 1nat } else { 0nat }
    }
}

proof fn lemma_run_end(s: Seq<char>, i: int)
    requires
        0 <= i <= s.len(),
    ensures
        i <= run_end(s, i) <= s.len(),
    decreases s.len() - i,
{
    if i < s.len() && (is_digit(s[i]) || s[i] == '.') {
        lemma_run_end(s, i + 1);
    }
}

/// The first run of digits and dots, from `i` on, that begins with a digit
/// and holds at least two dots.
pub open spec fn semver_from(s: Seq<char>, i: int) -> Option<Seq<char>>
    decreases s.len() - i,
{
    if i < 0 || i >= s.len() {
        None
    } else if is_digit(s[i]) {
        let j = run_end(s, i + 1);
        if i < j && j <= s.len() {
            if dots(s.subrange(i, j)) >= 2 {
                Some(s.subrange(i, j))
            } else {
                semver_from(s, j)
            }
        } else {
            None
        }
    } else {
        semver_from(s, i + 1)
    }
}

/// The first semver-like substring of a line.
pub open spec fn spec_extract_semver(line: Seq<char>) -> Option<Seq<char>> {
    semver_from(line, 0)
}

/// The first semver-like substring (see [`spec_extract_semver`]).
pub fn extract_semver(line: &[char]) -> (r: Option<Vec<char>>)
    ensures
        match r {
            Some(v) => spec_extract_semver(line@) == Some(v@),
            None => spec_extract_semver(line@) is None,
        },
{
    let n = line.len();
    let mut i: usize = 0;
    while i < n
        invariant
            n == line@.len(),
            0 <= i <= n,
            semver_from(line@, 0) == semver_from(line@, i as int),
        decreases n - i,
    {
        let c = line[i];
        if '0' <= c && c <= '9' {
            let mut version: Vec<char> = Vec::new();
            version.push(c);
            let mut dot_count: usize = 0;
            let mut j: usize = i + 1;
            proof {
                assert(version@ =~= line@.subrange(i as int, i + 1));
                assert(line@.subrange(i as int, i + 1).drop_last() =~= Seq::<char>::empty());
                assert(line@.subrange(i as int, i + 1).last() == c);
                assert(dots(Seq::<char>::empty()) == 0);
                assert(dots(line@.subrange(i as int, i + 1)) == 0);
            }
            while j < n && (('0' <= line[j] && line[j] <= '9') || line[j] == '.')
                invariant
                    n == line@.len(),
                    i < j <= n,
                    version@ =~= line@.subrange(i as int, j as int),
                    dot_count == dots(line@.subrange(i as int, j as int)),
                    run_end(line@, i + 1) == run_end(line@, j as int),
                    dot_count <= j - i,
                decreases n - j,
            {
                proof {
                    assert(line@.subrange(i as int, j + 1).drop_last() =~= line@.subrange(i as int, j as int));
                    assert(line@.subrange(i as int, j + 1).last() == line@[j as int]);
                }
                if line[j] == '.' {
                    dot_count = dot_count + 1;
                }
                version.push(line[j]);
                j = j + 1;
            }
            proof { lemma_run_end(line@, j as int); }
            if dot_count >= 2 {
                return Some(version);
            }
            proof { lemma_run_end(line@, i + 1); }
            i = j;
        } else {
            i = i + 1;
        }
    }
    None
}

/// A `version = "x.y.z"` style assignment, whatever the surrounding
/// syntax: the entry line starts with `version`, then, after white space,
/// `=`, `:` or `"`, and the version is the first semver-like run after.
pub open spec fn spec_version_assignment(line: Seq<char>) -> Option<Seq<char>> {
    let t = entry_line(line);
    if "version"@.is_prefix_of(t) {
        let rest = trim_start_class(t.skip(7), Trim::Space);
        if rest.len() > 0 && (rest[0] == '=' || rest[0] == ':' || rest[0] == '"') {
            spec_extract_semver(rest)
        } else {
            None
        }
    } else {
        None
    }
}

/// The version a line assigns (see [`spec_version_assignment`]).
pub fn version_assignment(line: &str) -> (r: Option<Vec<char>>)
    ensures
        match r {
            Some(v) => spec_version_assignment(line@) == Some(v@),
            None => spec_version_assignment(line@) is None,
        },
{
    proof { reveal_strlit("version"); }
    let cs = chars_of(line);
    let a = trim_of(cs.as_slice(), Trim::Space);
    let b = trim_start_of(a.as_slice(), Trim::Dash);
    let t = trim_of(b.as_slice(), Trim::Space);
    if !starts_with_chars(t.as_slice(), "version") {
        return None;
    }
    let after = skip_chars(t.as_slice(), 7);
    let rest = trim_start_of(after.as_slice(), Trim::Space);
    if rest.len() > 0 && (rest[0] == '=' || rest[0] == ':' || rest[0] == '"') {
        extract_semver(rest.as_slice())
    } else {
        None
    }
}

/// The lockfile scan from line `i`, inside an entry or not: the entry line
/// of the package gives its version when it carries one; otherwise the
/// first `version` assignment of the entry does, until a section header or
/// a blank line closes it.
pub open spec fn lockfile_scan(ls: Seq<Seq<char>>, package: Seq<char>, i: int, inside: bool) -> Option<Seq<char>>
    decreases ls.len() - i,
{
    if i < 0 || i >= ls.len() {
        None
    } else {
        let t = trim_class(ls[i], Trim::Space);
        let open = if "["@.is_prefix_of(t) {
            false
        } else {
            inside
        };
        if spec_names_entry(t, package) {
            match spec_version_assignment(t) {
                Some(v) => Some(v),
                None => if (has_substring(t, "=="@) || has_substring(t, ">="@) || has_substring(t, "~="@)) && spec_extract_semver(t) is Some {
                    spec_extract_semver(t)
                } else {
                    lockfile_scan(ls, package, i + 1, true)
                },
            }
        } else if !open {
            lockfile_scan(ls, package, i + 1, false)
        } else {
            match spec_version_assignment(t) {
                Some(v) => Some(v),
                None => lockfile_scan(ls, package, i + 1, t.len() != 0),
            }
        }
    }
}

/// The version a lockfile gives a package, in any of the lockfile
/// grammars (see [`lockfile_scan`]).
pub open spec fn spec_lockfile_version(content: Seq<char>, package: Seq<char>) -> Option<Seq<char>> {
    lockfile_scan(lines_of(content), package, 0, false)
}

/// Best-effort version of a package in a lockfile's text (see
/// [`spec_lockfile_version`]).
pub fn parse_version_from_lockfile(content: &str, package: &str) -> (r: Option<String>)
    ensures
        opt_view(r) == spec_lockfile_version(content@, package@),
{
    proof {
        reveal_strlit("[");
        reveal_strlit("==");
        reveal_strlit(">=");
        reveal_strlit("~=");
    }
    let ls = lines(content);
    let ghost lv = string_list_views(ls@);
    let mut inside = false;
    let mut i: usize = 0;
    while i < ls.len()
        invariant
            0 <= i <= ls@.len(),
            lv == string_list_views(ls@),
            lv == lines_of(content@),
            spec_lockfile_version(content@, package@) == lockfile_scan(lv, package@, i as int, inside),
        decreases ls@.len() - i,
    {
        let cs = chars_of(ls[i].as_str());
        let t = trim_of(cs.as_slice(), Trim::Space);
        proof {
            assert(lv[i as int] == ls@[i as int]@);
            reveal_strlit("[");
            reveal_strlit("==");
            reveal_strlit(">=");
            reveal_strlit("~=");
        }
        if starts_with_chars(t.as_slice(), "[") {
            inside = false;
        }
        let ts = string_of(t.as_slice());
        if names_entry(ts.as_str(), package) {
            proof {
                assert(entry_line(ts@) == entry_line(t@));
            }
            match version_assignment(ts.as_str()) {
                Some(v) => {
                    return Some(string_of(v.as_slice()));
                },
                None => {},
            }
            if contains_text(ts.as_str(), "==") || contains_text(ts.as_str(), ">=") || contains_text(ts.as_str(), "~=") {
                match extract_semver(t.as_slice()) {
                    Some(v) => {
                        return Some(string_of(v.as_slice()));
                    },
                    None => {},
                }
            }
            inside = true;
            i = i + 1;
            continue;
        }
        if !inside {
            i = i + 1;
            continue;
        }
        match version_assignment(ts.as_str()) {
            Some(v) => {
                return Some(string_of(v.as_slice()));
            },
            None => {},
        }
        if t.len() == 0 {
            inside = false;
        }
        i = i + 1;
    }
    None
}

/// The `Cargo.lock` scan from line `i`: a `name = ` line of the package
/// opens its section, a `[[package]]` header closes it, and the first
/// `version = ` line of the open section gives the version.
pub open spec fn cargo_scan(ls: Seq<Seq<char>>, package: Seq<char>, i: int, inside: bool) -> Option<Seq<char>>
    decreases ls.len() - i,
{
    if i < 0 || i >= ls.len() {
        None
    } else {
        let line = ls[i];
        let closed = if "[[package]]"@.is_prefix_of(trim_start_class(line, Trim::Space)) {
            false
        } else {
            inside
        };
        let open = if "name = "@.is_prefix_of(line) && trim_class(trim_class(line.skip(7), Trim::Space), Trim::Quote) == package {
            true
        } else {
            closed
        };
        if open && "version = "@.is_prefix_of(line) {
            Some(trim_class(trim_class(line.skip(10), Trim::Space), Trim::Quote))
        } else {
            cargo_scan(ls, package, i + 1, open)
        }
    }
}

/// The version `Cargo.lock` gives a package.
pub open spec fn spec_cargo_lock_version(content: Seq<char>, package: Seq<char>) -> Option<Seq<char>> {
    cargo_scan(lines_of(content), package, 0, false)
}

/// The version of a package in a `Cargo.lock` text (see
/// [`spec_cargo_lock_version`]).
pub fn parse_version_from_cargo_lock(content: &str, package: &str) -> (r: Option<String>)
    ensures
        opt_view(r) == spec_cargo_lock_version(content@, package@),
{
    proof {
        reveal_strlit("[[package]]");
        reveal_strlit("name = ");
        reveal_strlit("version = ");
    }
    let ls = lines(content);
    let ghost lv = string_list_views(ls@);
    let p = chars_of(package);
    let mut inside = false;
    let mut i: usize = 0;
    while i < ls.len()
        invariant
            0 <= i <= ls@.len(),
            lv == string_list_views(ls@),
            lv == lines_of(content@),
            p@ == package@,
            spec_cargo_lock_version(content@, package@) == cargo_scan(lv, package@, i as int, inside),
        decreases ls@.len() - i,
    {
        let line = chars_of(ls[i].as_str());
        proof {
            assert(lv[i as int] == ls@[i as int]@);
            reveal_strlit("[[package]]");
            reveal_strlit("name = ");
            reveal_strlit("version = ");
        }
        let start = trim_start_of(line.as_slice(), Trim::Space);
        if starts_with_chars(start.as_slice(), "[[package]]") {
            inside = false;
        }
        if starts_with_chars(line.as_slice(), "name = ") {
            let rest = skip_chars(line.as_slice(), 7);
            let a = trim_of(rest.as_slice(), Trim::Space);
            let name = trim_of(a.as_slice(), Trim::Quote);
            if chars_eq(name.as_slice(), p.as_slice()) {
                inside = true;
            }
        }
        if inside && starts_with_chars(line.as_slice(), "version = ") {
            let rest = skip_chars(line.as_slice(), 10);
            let a = trim_of(rest.as_slice(), Trim::Space);
            let v = trim_of(a.as_slice(), Trim::Quote);
            return Some(string_of(v.as_slice()));
        }
        i = i + 1;
    }
    None
}

/// The `go.sum` scan: the first line whose first word is the module gives
/// its second word.
pub open spec fn go_sum_scan(ls: Seq<Seq<char>>, package: Seq<char>, i: int) -> Option<Seq<char>>
    decreases ls.len() - i,
{
    if i < 0 || i >= ls.len() {
        None
    } else {
        let w = words_of(ls[i]);
        if w.len() >= 2 && w[0] == package {
            Some(w[1])
        } else {
            go_sum_scan(ls, package, i + 1)
        }
    }
}

/// The version `go.sum` gives a module.
pub open spec fn spec_go_sum_version(content: Seq<char>, package: Seq<char>) -> Option<Seq<char>> {
    go_sum_scan(lines_of(content), package, 0)
}

/// The version of a module in a `go.sum` text: the module path must match
/// exactly (see [`spec_go_sum_version`]).
pub fn parse_version_from_go_sum(content: &str, package: &str) -> (r: Option<String>)
    ensures
        opt_view(r) == spec_go_sum_version(content@, package@),
{
    let ls = lines(content);
    let ghost lv = string_list_views(ls@);
    let mut i: usize = 0;
    while i < ls.len()
        invariant
            0 <= i <= ls@.len(),
            lv == string_list_views(ls@),
            lv == lines_of(content@),
            spec_go_sum_version(content@, package@) == go_sum_scan(lv, package@, i as int),
        decreases ls@.len() - i,
    {
        let w = words(ls[i].as_str());
        proof { assert(lv[i as int] == ls@[i as int]@); }
        if w.len() >= 2 && str_eq(w[0].as_str(), package) {
            proof { assert(string_list_views(w@)[1] == w@[1]@); }
            return Some(w[1].clone());
        }
        proof {
            if w@.len() >= 2 {
                assert(string_list_views(w@)[0] == w@[0]@);
            }
        }
        i = i + 1;
    }
    None
}

/// The `go.mod` scan: a `require` line, single or inside a
/// `require ( ... )` block, whose first word is the module gives its second
/// word without the `v` prefix.
pub open spec fn go_mod_scan(ls: Seq<Seq<char>>, module: Seq<char>, i: int, block: bool) -> Option<Seq<char>>
    decreases ls.len() - i,
{
    if i < 0 || i >= ls.len() {
        None
    } else {
        let t = trim_class(ls[i], Trim::Space);
        if "require ("@.is_prefix_of(t) {
            go_mod_scan(ls, module, i + 1, true)
        } else if block && ")"@.is_prefix_of(t) {
            go_mod_scan(ls, module, i + 1, false)
        } else {
            let entry = if "require "@.is_prefix_of(t) {
                Some(t.skip(8))
            } else if block {
                Some(t)
            } else {
                None
            };
            match entry {
                None => go_mod_scan(ls, module, i + 1, block),
                Some(e) => if words_of(e).len() >= 2 && words_of(e)[0] == module {
                    Some(trim_start_class(words_of(e)[1], Trim::LowerV))
                } else {
                    go_mod_scan(ls, module, i + 1, block)
                },
            }
        }
    }
}

/// The version `go.mod` requires a module at.
pub open spec fn spec_go_mod_version(content: Seq<char>, module: Seq<char>) -> Option<Seq<char>> {
    go_mod_scan(lines_of(content), module, 0, false)
}

/// The version a `go.mod` text requires a module at (see
/// [`spec_go_mod_version`]).
pub fn parse_version_from_go_mod(content: &str, module: &str) -> (r: Option<String>)
    ensures
        opt_view(r) == spec_go_mod_version(content@, module@),
{
    proof {
        reveal_strlit("require (");
        reveal_strlit(")");
        reveal_strlit("require ");
    }
    let ls = lines(content);
    let ghost lv = string_list_views(ls@);
    let mut block = false;
    let mut i: usize = 0;
    while i < ls.len()
        invariant
            0 <= i <= ls@.len(),
            lv == string_list_views(ls@),
            lv == lines_of(content@),
            spec_go_mod_version(content@, module@) == go_mod_scan(lv, module@, i as int, block),
        decreases ls@.len() - i,
    {
        let cs = chars_of(ls[i].as_str());
        let t = trim_of(cs.as_slice(), Trim::Space);
        proof {
            assert(lv[i as int] == ls@[i as int]@);
            reveal_strlit("require (");
            reveal_strlit(")");
            reveal_strlit("require ");
        }
        if starts_with_chars(t.as_slice(), "require (") {
            block = true;
            i = i + 1;
            continue;
        }
        if block && starts_with_chars(t.as_slice(), ")") {
            block = false;
            i = i + 1;
            continue;
        }
        let entry: Vec<char> = if starts_with_chars(t.as_slice(), "require ") {
            skip_chars(t.as_slice(), 8)
        } else if block {
            t
        } else {
            i = i + 1;
            continue;
        };
        let es = string_of(entry.as_slice());
        let w = words(es.as_str());
        if w.len() >= 2 && str_eq(w[0].as_str(), module) {
            proof {
                assert(string_list_views(w@)[0] == w@[0]@);
                assert(string_list_views(w@)[1] == w@[1]@);
            }
            let v = chars_of(w[1].as_str());
            let vv = trim_start_of(v.as_slice(), Trim::LowerV);
            return Some(string_of(vv.as_slice()));
        }
        proof {
            if w@.len() >= 2 {
                assert(string_list_views(w@)[0] == w@[0]@);
            }
        }
        i = i + 1;
    }
    None
}

/// The `Gemfile.lock` scan: the first line that reads, after its
/// indentation, `name (version)` gives the version.
pub open spec fn gem_scan(ls: Seq<Seq<char>>, name: Seq<char>, i: int) -> Option<Seq<char>>
    decreases ls.len() - i,
{
    if i < 0 || i >= ls.len() {
        None
    } else {
        let l = trim_start_class(ls[i], Trim::Space);
        let prefix = name + " ("@;
        if prefix.is_prefix_of(l) && l.len() > prefix.len() && l.last() == ')' {
            Some(trim_class(l.subrange(prefix.len() as int, l.len() - 1), Trim::Space))
        } else {
            gem_scan(ls, name, i + 1)
        }
    }
}

/// The version `Gemfile.lock` gives a gem.
pub open spec fn spec_gemfile_lock_version(content: Seq<char>, name: Seq<char>) -> Option<Seq<char>> {
    gem_scan(lines_of(content), name, 0)
}

/// The version of a gem in a `Gemfile.lock` text (see
/// [`spec_gemfile_lock_version`]).
pub fn parse_version_from_gemfile_lock(content: &str, name: &str) -> (r: Option<String>)
    ensures
        opt_view(r) == spec_gemfile_lock_version(content@, name@),
{
    let mut prefix = String::new();
    push_str(&mut prefix, name);
    push_str(&mut prefix, " (");
    let pc = chars_of(prefix.as_str());
    let ls = lines(content);
    let ghost lv = string_list_views(ls@);
    let mut i: usize = 0;
    while i < ls.len()
        invariant
            0 <= i <= ls@.len(),
            lv == string_list_views(ls@),
            lv == lines_of(content@),
            pc@ == name@ + " ("@,
            prefix@ == pc@,
            spec_gemfile_lock_version(content@, name@) == gem_scan(lv, name@, i as int),
        decreases ls@.len() - i,
    {
        let cs = chars_of(ls[i].as_str());
        let l = trim_start_of(cs.as_slice(), Trim::Space);
        proof { assert(lv[i as int] == ls@[i as int]@); }
        if starts_with_chars(l.as_slice(), prefix.as_str()) && l.len() > pc.len() && l[l.len() - 1] == ')' {
            let mut mid: Vec<char> = Vec::new();
            let mut k: usize = pc.len();
            let end = l.len() - 1;
            while k < end
                invariant
                    pc@.len() <= k <= end,
                    end == l@.len() - 1,
                    mid@ =~= l@.subrange(pc@.len() as int, k as int),
                decreases end - k,
            {
                mid.push(l[k]);
                k = k + 1;
            }
            let v = trim_of(mid.as_slice(), Trim::Space);
            proof { assert(mid@ =~= l@.subrange(pc@.len() as int, l@.len() - 1)); }
            return Some(string_of(v.as_slice()));
        }
        i = i + 1;
    }
    None
}

/// The string `serde_json` finds at `content[section][key]`: `None` when the
/// text is not JSON or no string is there.
pub uninterp spec fn json_string_at(content: Seq<char>, section: Seq<char>, key: Seq<char>) -> Option<Seq<char>>;

/// `serde_json::from_str` into a JSON value, then `get(section)`,
/// `get(key)` and `as_str`. The contract names the outcome and claims
/// nothing more of it.
#[verifier::external_body]
fn json_string_member(content: &str, section: &str, key: &str) -> (r: Option<String>)
    ensures
        opt_view(r) == json_string_at(content@, section@, key@),
{
    let value: serde_json::Value = match serde_json::from_str(content) {
        Ok(v) => v,
        Err(_) => return None,
    };
    match value.get(section) {
        Some(entries) => match entries.get(key) {
            Some(v) => v.as_str().map(|s| s.to_string()),
            None => None,
        },
        None => None,
    }
}

/// The version `package.json` gives a package: its string in
/// `dependencies`, else `devDependencies`, else `peerDependencies`.
pub open spec fn spec_package_json_version(content: Seq<char>, package: Seq<char>) -> Option<Seq<char>> {
    match json_string_at(content, "dependencies"@, package) {
        Some(v) => Some(v),
        None => match json_string_at(content, "devDependencies"@, package) {
            Some(v) => Some(v),
            None => json_string_at(content, "peerDependencies"@, package),
        },
    }
}

/// The version of a package in a `package.json` text (see
/// [`spec_package_json_version`]).
pub fn parse_version_from_package_json(content: &str, package: &str) -> (r: Option<String>)
    ensures
        opt_view(r) == spec_package_json_version(content@, package@),
{
    match json_string_member(content, "dependencies", package) {
        Some(v) => Some(v),
        None => match json_string_member(content, "devDependencies", package) {
            Some(v) => Some(v),
            None => json_string_member(content, "peerDependencies", package),
        },
    }
}

/// A file the classification looks at: whether it exists, and its text
/// when it could be read.
#[derive(Debug)]
pub struct FileProbe {
    pub name: String,
    pub exists: bool,
    pub content: Option<String>,
}

/// The probed files of one directory.
#[derive(Debug)]
pub struct DirProbe {
    pub files: Vec<FileProbe>,
}

/// What the classification sees of a project: the root's files and, in
/// listing order, the files of each immediate subdirectory.
#[derive(Debug)]
pub struct ProjectFiles {
    pub root: DirProbe,
    pub subdirs: Vec<DirProbe>,
}

/// The first probe of a name.
pub open spec fn probe_of(d: Seq<FileProbe>, name: Seq<char>) -> Option<FileProbe>
    decreases d.len(),
{
    if d.len() == 0 {
        None
    } else {
        match probe_of(d.drop_last(), name) {
            Some(p) => Some(p),
            None => if d.last().name@ == name {
                Some(d.last())
            } else {
                None
            },
        }
    }
}

/// The file exists in the directory.
pub open spec fn exists_in(d: DirProbe, name: Seq<char>) -> bool {
    probe_of(d.files@, name) matches Some(p) && p.exists
}

/// The text of an existing file, when it could be read.
pub open spec fn content_in(d: DirProbe, name: Seq<char>) -> Option<Seq<char>> {
    match probe_of(d.files@, name) {
        Some(p) => if p.exists {
            opt_view(p.content)
        } else {
            None
        },
        None => None,
    }
}

fn probe<'a>(d: &'a DirProbe, name: &str) -> (r: Option<&'a FileProbe>)
    ensures
        match r {
            Some(p) => probe_of(d.files@, name@) == Some(*p),
            None => probe_of(d.files@, name@) is None,
        },
{
    let mut i: usize = 0;
    while i < d.files.len()
        invariant
            0 <= i <= d.files@.len(),
            probe_of(d.files@.take(i as int), name@) is None,
        decreases d.files@.len() - i,
    {
        proof {
            assert(d.files@.take(i + 1).drop_last() =~= d.files@.take(i as int));
            assert(d.files@.take(i + 1).last() == d.files@[i as int]);
        }
        if str_eq(d.files[i].name.as_str(), name) {
            proof { lemma_probe_prefix(d.files@, name@, i + 1); }
            return Some(&d.files[i]);
        }
        i = i + 1;
    }
    proof { assert(d.files@.take(i as int) =~= d.files@); }
    None
}

proof fn lemma_probe_prefix(d: Seq<FileProbe>, name: Seq<char>, m: int)
    requires
        0 <= m <= d.len(),
        probe_of(d.take(m), name) is Some,
    ensures
        probe_of(d, name) == probe_of(d.take(m), name),
    decreases d.len() - m,
{
    if m == d.len() {
        assert(d.take(m) =~= d);
    } else {
        assert(d.take(m + 1).drop_last() =~= d.take(m));
        lemma_probe_prefix(d, name, m + 1);
    }
}

fn file_exists(d: &DirProbe, name: &str) -> (r: bool)
    ensures
        r == exists_in(*d, name@),
{
    match probe(d, name) {
        Some(p) => p.exists,
        None => false,
    }
}

fn file_content<'a>(d: &'a DirProbe, name: &str) -> (r: Option<&'a String>)
    ensures
        match r {
            Some(c) => content_in(*d, name@) == Some(c@),
            None => content_in(*d, name@) is None,
        },
{
    match probe(d, name) {
        Some(p) => {
            if p.exists {
                match &p.content {
                    Some(c) => Some(c),
                    None => None,
                }
            } else {
                None
            }
        },
        None => None,
    }
}

/// A classification as plain values: classified (package, version,
/// language, source) or unresolved (raw path, reason).
pub open spec fn classification_view(c: ExternalClassification) -> Result<(Seq<char>, Option<Seq<char>>, LangId, DependencySource), (Seq<char>, Seq<char>)> {
    match c {
        ExternalClassification::Classified { package_name, version, language, source } => Ok((package_name@, opt_view(version), language, source)),
        ExternalClassification::Unresolved { raw_path, reason } => Err((raw_path@, reason@)),
    }
}

/// The version a lockfile of the directory gives the package, when the
/// file exists and names it.
pub open spec fn lock_hit(d: DirProbe, file: Seq<char>, raw: Seq<char>) -> Option<Seq<char>> {
    match content_in(d, file) {
        Some(c) => spec_lockfile_version(c, raw),
        None => None,
    }
}

/// The version `package.json` of the directory gives the package.
pub open spec fn package_json_hit(d: DirProbe, raw: Seq<char>) -> Option<Seq<char>> {
    match content_in(d, "package.json"@) {
        Some(c) => spec_package_json_version(c, raw),
        None => None,
    }
}

/// A Python manifest exists in some subdirectory.
pub open spec fn python_manifest_below(subdirs: Seq<DirProbe>) -> bool {
    exists|i: int| 0 <= i < subdirs.len() && (exists_in(#[trigger] subdirs[i], "pyproject.toml"@) || exists_in(subdirs[i], "requirements.txt"@))
}

/// Python: a lockfile that lists the package (`uv.lock`, `poetry.lock`,
/// `Pipfile.lock`), then a manifest at the root (`pyproject.toml`,
/// `requirements.txt`), then one in a subdirectory.
pub open spec fn spec_classify_python(raw: Seq<char>, p: ProjectFiles) -> Result<(Seq<char>, Option<Seq<char>>, LangId, DependencySource), (Seq<char>, Seq<char>)> {
    match lock_hit(p.root, "uv.lock"@, raw) {
        Some(v) => Ok((raw, Some(v), LangId::Python, DependencySource::Lockfile)),
        None => match lock_hit(p.root, "poetry.lock"@, raw) {
            Some(v) => Ok((raw, Some(v), LangId::Python, DependencySource::Lockfile)),
            None => match lock_hit(p.root, "Pipfile.lock"@, raw) {
                Some(v) => Ok((raw, Some(v), LangId::Python, DependencySource::Lockfile)),
                None => if exists_in(p.root, "pyproject.toml"@) || exists_in(p.root, "requirements.txt"@) || python_manifest_below(
                    p.subdirs@,
                ) {
                    Ok((raw, None, LangId::Python, DependencySource::Manifest))
                } else {
                    Err((raw, "no Python lockfile or manifest found"@))
                },
            },
        },
    }
}

/// The first subdirectory answer for a Node.js package: a `package-lock.json`
/// that lists it, else a `package.json`.
pub open spec fn node_below(subdirs: Seq<DirProbe>, raw: Seq<char>, lang: LangId) -> Option<(Seq<char>, Option<Seq<char>>, LangId, DependencySource)>
    decreases subdirs.len(),
{
    if subdirs.len() == 0 {
        None
    } else {
        match node_below(subdirs.drop_last(), raw, lang) {
            Some(r) => Some(r),
            None => {
                let d = subdirs.last();
                match lock_hit(d, "package-lock.json"@, raw) {
                    Some(v) => Some((raw, Some(v), lang, DependencySource::Lockfile)),
                    None => if exists_in(d, "package.json"@) {
                        Some((raw, package_json_hit(d, raw), lang, DependencySource::Manifest))
                    } else {
                        None
                    },
                }
            },
        }
    }
}

/// Node.js: a root lockfile that lists the package (`package-lock.json`,
/// `yarn.lock`, `pnpm-lock.yaml`), then the root `package.json`, then the
/// first subdirectory with a lockfile hit or a `package.json`.
pub open spec fn spec_classify_node_ecosystem(raw: Seq<char>, lang: LangId, p: ProjectFiles) -> Result<(Seq<char>, Option<Seq<char>>, LangId, DependencySource), (Seq<char>, Seq<char>)> {
    match lock_hit(p.root, "package-lock.json"@, raw) {
        Some(v) => Ok((raw, Some(v), lang, DependencySource::Lockfile)),
        None => match lock_hit(p.root, "yarn.lock"@, raw) {
            Some(v) => Ok((raw, Some(v), lang, DependencySource::Lockfile)),
            None => match lock_hit(p.root, "pnpm-lock.yaml"@, raw) {
                Some(v) => Ok((raw, Some(v), lang, DependencySource::Lockfile)),
                None => if exists_in(p.root, "package.json"@) {
                    Ok((raw, package_json_hit(p.root, raw), lang, DependencySource::Manifest))
                } else {
                    match node_below(p.subdirs@, raw, lang) {
                        Some(r) => Ok(r),
                        None => Err((raw, "no Node.js lockfile or package.json found"@)),
                    }
                },
            },
        },
    }
}

/// Rust: `Cargo.lock` (its version of the package, when it lists one), then
/// `Cargo.toml`.
pub open spec fn spec_classify_rust(raw: Seq<char>, p: ProjectFiles) -> Result<(Seq<char>, Option<Seq<char>>, LangId, DependencySource), (Seq<char>, Seq<char>)> {
    if exists_in(p.root, "Cargo.lock"@) {
        Ok((
            raw,
            match content_in(p.root, "Cargo.lock"@) {
                Some(c) => spec_cargo_lock_version(c, raw),
                None => None,
            },
            LangId::Rust,
            DependencySource::Lockfile,
        ))
    } else if exists_in(p.root, "Cargo.toml"@) {
        Ok((raw, None, LangId::Rust, DependencySource::Manifest))
    } else {
        Err((raw, "no Cargo.lock or Cargo.toml found"@))
    }
}

/// Go: a `go.sum` that lists the module, then `go.mod` (its required
/// version).
pub open spec fn spec_classify_go(raw: Seq<char>, p: ProjectFiles) -> Result<(Seq<char>, Option<Seq<char>>, LangId, DependencySource), (Seq<char>, Seq<char>)> {
    match (match content_in(p.root, "go.sum"@) {
        Some(c) => spec_go_sum_version(c, raw),
        None => None,
    }) {
        Some(v) => Ok((raw, Some(v), LangId::Go, DependencySource::Lockfile)),
        None => if exists_in(p.root, "go.mod"@) {
            Ok((
                raw,
                match content_in(p.root, "go.mod"@) {
                    Some(c) => spec_go_mod_version(c, raw),
                    None => None,
                },
                LangId::Go,
                DependencySource::Manifest,
            ))
        } else {
            Err((raw, "no go.sum or go.mod found"@))
        },
    }
}

/// Ruby: `Gemfile.lock` (its version of the gem), then `Gemfile`.
pub open spec fn spec_classify_ruby(raw: Seq<char>, p: ProjectFiles) -> Result<(Seq<char>, Option<Seq<char>>, LangId, DependencySource), (Seq<char>, Seq<char>)> {
    if exists_in(p.root, "Gemfile.lock"@) {
        Ok((
            raw,
            match content_in(p.root, "Gemfile.lock"@) {
                Some(c) => spec_gemfile_lock_version(c, raw),
                None => None,
            },
            LangId::Ruby,
            DependencySource::Lockfile,
        ))
    } else if exists_in(p.root, "Gemfile"@) {
        Ok((raw, None, LangId::Ruby, DependencySource::Manifest))
    } else {
        Err((raw, "no Gemfile.lock or Gemfile found"@))
    }
}

/// C and C++, best effort: a `conanfile.txt` or a `vcpkg.json` manifest.
pub open spec fn spec_classify_c_cpp(raw: Seq<char>, lang: LangId, p: ProjectFiles) -> Result<(Seq<char>, Option<Seq<char>>, LangId, DependencySource), (Seq<char>, Seq<char>)> {
    if exists_in(p.root, "conanfile.txt"@) || exists_in(p.root, "vcpkg.json"@) {
        Ok((raw, None, lang, DependencySource::Manifest))
    } else {
        Err((raw, "no C/C++ manifest convention found (conanfile.txt, vcpkg.json)"@))
    }
}

/// The classification of an external dependency by its language.
pub open spec fn spec_classify_external(e: ExternalNode, p: ProjectFiles) -> Result<(Seq<char>, Option<Seq<char>>, LangId, DependencySource), (Seq<char>, Seq<char>)> {
    match e.language {
        LangId::Python => spec_classify_python(e.raw_path@, p),
        LangId::JavaScript | LangId::TypeScript | LangId::Tsx => spec_classify_node_ecosystem(e.raw_path@, e.language, p),
        LangId::Rust => spec_classify_rust(e.raw_path@, p),
        LangId::Go => spec_classify_go(e.raw_path@, p),
        LangId::Ruby => spec_classify_ruby(e.raw_path@, p),
        LangId::C | LangId::Cpp => spec_classify_c_cpp(e.raw_path@, e.language, p),
    }
}

fn classified(raw: &String, version: Option<String>, language: LangId, source: DependencySource) -> (r: ExternalClassification)
    ensures
        classification_view(r) == Ok::<_, (Seq<char>, Seq<char>)>((raw@, opt_view(version), language, source)),
{
    ExternalClassification::Classified { package_name: raw.clone(), version, language, source }
}

fn unresolved(raw: &String, reason: &str) -> (r: ExternalClassification)
    ensures
        classification_view(r) == Err::<(Seq<char>, Option<Seq<char>>, LangId, DependencySource), _>((raw@, reason@)),
{
    ExternalClassification::Unresolved { raw_path: raw.clone(), reason: string_from(reason) }
}

fn lock_version(d: &DirProbe, file: &str, raw: &str) -> (r: Option<String>)
    ensures
        opt_view(r) == lock_hit(*d, file@, raw@),
{
    match file_content(d, file) {
        Some(c) => parse_version_from_lockfile(c.as_str(), raw),
        None => None,
    }
}

fn package_json_version(d: &DirProbe, raw: &str) -> (r: Option<String>)
    ensures
        opt_view(r) == package_json_hit(*d, raw@),
{
    match file_content(d, "package.json") {
        Some(c) => parse_version_from_package_json(c.as_str(), raw),
        None => None,
    }
}

/// Classifies a Python dependency (see [`spec_classify_python`]).
pub fn classify_python(external: &ExternalNode, project: &ProjectFiles) -> (r: ExternalClassification)
    ensures
        classification_view(r) == spec_classify_python(external.raw_path@, *project),
{
    let raw = &external.raw_path;
    match lock_version(&project.root, "uv.lock", raw.as_str()) {
        Some(v) => {
            return classified(raw, Some(v), LangId::Python, DependencySource::Lockfile);
        },
        None => {},
    }
    match lock_version(&project.root, "poetry.lock", raw.as_str()) {
        Some(v) => {
            return classified(raw, Some(v), LangId::Python, DependencySource::Lockfile);
        },
        None => {},
    }
    match lock_version(&project.root, "Pipfile.lock", raw.as_str()) {
        Some(v) => {
            return classified(raw, Some(v), LangId::Python, DependencySource::Lockfile);
        },
        None => {},
    }
    if file_exists(&project.root, "pyproject.toml") || file_exists(&project.root, "requirements.txt") {
        return classified(raw, None, LangId::Python, DependencySource::Manifest);
    }
    let mut i: usize = 0;
    while i < project.subdirs.len()
        invariant
            0 <= i <= project.subdirs@.len(),
            raw == &external.raw_path,
            lock_hit(project.root, "uv.lock"@, raw@) is None,
            lock_hit(project.root, "poetry.lock"@, raw@) is None,
            lock_hit(project.root, "Pipfile.lock"@, raw@) is None,
            !(exists_in(project.root, "pyproject.toml"@) || exists_in(project.root, "requirements.txt"@)),
            forall|j: int| 0 <= j < i ==> !(exists_in(#[trigger] project.subdirs@[j], "pyproject.toml"@) || exists_in(
                project.subdirs@[j],
                "requirements.txt"@,
            )),
        decreases project.subdirs@.len() - i,
    {
        let d = &project.subdirs[i];
        if file_exists(d, "pyproject.toml") || file_exists(d, "requirements.txt") {
            return classified(raw, None, LangId::Python, DependencySource::Manifest);
        }
        i = i + 1;
    }
    unresolved(raw, "no Python lockfile or manifest found")
}

proof fn lemma_node_below_prefix(subdirs: Seq<DirProbe>, raw: Seq<char>, lang: LangId, m: int)
    requires
        0 <= m <= subdirs.len(),
        node_below(subdirs.take(m), raw, lang) is Some,
    ensures
        node_below(subdirs, raw, lang) == node_below(subdirs.take(m), raw, lang),
    decreases subdirs.len() - m,
{
    if m == subdirs.len() {
        assert(subdirs.take(m) =~= subdirs);
    } else {
        assert(subdirs.take(m + 1).drop_last() =~= subdirs.take(m));
        lemma_node_below_prefix(subdirs, raw, lang, m + 1);
    }
}

/// Classifies a JavaScript or TypeScript dependency (see
/// [`spec_classify_node_ecosystem`]).
pub fn classify_node_ecosystem(external: &ExternalNode, project: &ProjectFiles) -> (r: ExternalClassification)
    ensures
        classification_view(r) == spec_classify_node_ecosystem(external.raw_path@, external.language, *project),
{
    let raw = &external.raw_path;
    let lang = external.language;
    match lock_version(&project.root, "package-lock.json", raw.as_str()) {
        Some(v) => {
            return classified(raw, Some(v), lang, DependencySource::Lockfile);
        },
        None => {},
    }
    match lock_version(&project.root, "yarn.lock", raw.as_str()) {
        Some(v) => {
            return classified(raw, Some(v), lang, DependencySource::Lockfile);
        },
        None => {},
    }
    match lock_version(&project.root, "pnpm-lock.yaml", raw.as_str()) {
        Some(v) => {
            return classified(raw, Some(v), lang, DependencySource::Lockfile);
        },
        None => {},
    }
    if file_exists(&project.root, "package.json") {
        let v = package_json_version(&project.root, raw.as_str());
        return classified(raw, v, lang, DependencySource::Manifest);
    }
    let mut i: usize = 0;
    while i < project.subdirs.len()
        invariant
            0 <= i <= project.subdirs@.len(),
            raw == &external.raw_path,
            lang == external.language,
            lock_hit(project.root, "package-lock.json"@, raw@) is None,
            lock_hit(project.root, "yarn.lock"@, raw@) is None,
            lock_hit(project.root, "pnpm-lock.yaml"@, raw@) is None,
            !exists_in(project.root, "package.json"@),
            node_below(project.subdirs@.take(i as int), raw@, lang) is None,
        decreases project.subdirs@.len() - i,
    {
        proof {
            assert(project.subdirs@.take(i + 1).drop_last() =~= project.subdirs@.take(i as int));
            assert(project.subdirs@.take(i + 1).last() == project.subdirs@[i as int]);
        }
        let d = &project.subdirs[i];
        match lock_version(d, "package-lock.json", raw.as_str()) {
            Some(v) => {
                proof { lemma_node_below_prefix(project.subdirs@, raw@, lang, i + 1); }
                return classified(raw, Some(v), lang, DependencySource::Lockfile);
            },
            None => {},
        }
        if file_exists(d, "package.json") {
            let v = package_json_version(d, raw.as_str());
            proof { lemma_node_below_prefix(project.subdirs@, raw@, lang, i + 1); }
            return classified(raw, v, lang, DependencySource::Manifest);
        }
        i = i + 1;
    }
    proof { assert(project.subdirs@.take(i as int) =~= project.subdirs@); }
    unresolved(raw, "no Node.js lockfile or package.json found")
}

/// Classifies a Rust dependency (see [`spec_classify_rust`]).
pub fn classify_rust(external: &ExternalNode, project: &ProjectFiles) -> (r: ExternalClassification)
    ensures
        classification_view(r) == spec_classify_rust(external.raw_path@, *project),
{
    let raw = &external.raw_path;
    if file_exists(&project.root, "Cargo.lock") {
        let v = match file_content(&project.root, "Cargo.lock") {
            Some(c) => parse_version_from_cargo_lock(c.as_str(), raw.as_str()),
            None => None,
        };
        return classified(raw, v, LangId::Rust, DependencySource::Lockfile);
    }
    if file_exists(&project.root, "Cargo.toml") {
        return classified(raw, None, LangId::Rust, DependencySource::Manifest);
    }
    unresolved(raw, "no Cargo.lock or Cargo.toml found")
}

/// Classifies a Go dependency (see [`spec_classify_go`]).
pub fn classify_go(external: &ExternalNode, project: &ProjectFiles) -> (r: ExternalClassification)
    ensures
        classification_view(r) == spec_classify_go(external.raw_path@, *project),
{
    let raw = &external.raw_path;
    let sum = match file_content(&project.root, "go.sum") {
        Some(c) => parse_version_from_go_sum(c.as_str(), raw.as_str()),
        None => None,
    };
    match sum {
        Some(v) => {
            return classified(raw, Some(v), LangId::Go, DependencySource::Lockfile);
        },
        None => {},
    }
    if file_exists(&project.root, "go.mod") {
        let v = match file_content(&project.root, "go.mod") {
            Some(c) => parse_version_from_go_mod(c.as_str(), raw.as_str()),
            None => None,
        };
        return classified(raw, v, LangId::Go, DependencySource::Manifest);
    }
    unresolved(raw, "no go.sum or go.mod found")
}

/// Classifies a Ruby dependency (see [`spec_classify_ruby`]).
pub fn classify_ruby(external: &ExternalNode, project: &ProjectFiles) -> (r: ExternalClassification)
    ensures
        classification_view(r) == spec_classify_ruby(external.raw_path@, *project),
{
    let raw = &external.raw_path;
    if file_exists(&project.root, "Gemfile.lock") {
        let v = match file_content(&project.root, "Gemfile.lock") {
            Some(c) => parse_version_from_gemfile_lock(c.as_str(), raw.as_str()),
            None => None,
        };
        return classified(raw, v, LangId::Ruby, DependencySource::Lockfile);
    }
    if file_exists(&project.root, "Gemfile") {
        return classified(raw, None, LangId::Ruby, DependencySource::Manifest);
    }
    unresolved(raw, "no Gemfile.lock or Gemfile found")
}

/// Classifies a C or C++ dependency, best effort (see
/// [`spec_classify_c_cpp`]).
pub fn classify_c_cpp_best_effort(external: &ExternalNode, project: &ProjectFiles) -> (r: ExternalClassification)
    ensures
        classification_view(r) == spec_classify_c_cpp(external.raw_path@, external.language, *project),
{
    let raw = &external.raw_path;
    if file_exists(&project.root, "conanfile.txt") || file_exists(&project.root, "vcpkg.json") {
        return classified(raw, None, external.language, DependencySource::Manifest);
    }
    unresolved(raw, "no C/C++ manifest convention found (conanfile.txt, vcpkg.json)")
}

/// Classifies an external dependency by its language; a lockfile wins over
/// a manifest, and a dependency nothing names stays unresolved.
pub fn classify_external(external: &ExternalNode, project: &ProjectFiles) -> (r: ExternalClassification)
    ensures
        classification_view(r) == spec_classify_external(*external, *project),
{
    match external.language {
        LangId::Python => classify_python(external, project),
        LangId::JavaScript | LangId::TypeScript | LangId::Tsx => classify_node_ecosystem(external, project),
        LangId::Rust => classify_rust(external, project),
        LangId::Go => classify_go(external, project),
        LangId::Ruby => classify_ruby(external, project),
        LangId::C | LangId::Cpp => classify_c_cpp_best_effort(external, project),
    }
}

/// The pod of each file, written pod after pod (a later pod wins a lookup).
pub open spec fn pod_entries(pods: Seq<Pod>) -> Seq<(FileId, usize)>
    decreases pods.len(),
{
    if pods.len() == 0 {
        Seq::empty()
    } else {
        pod_entries(pods.drop_last()) + pods.last().files@.map_values(|f: FileId| (f, pods.last().id))
    }
}

/// A dependency entry as plain values.
pub open spec fn dependency_view(d: DependencyEntry) -> (Seq<char>, Option<Seq<char>>, LangId, DependencySource) {
    (d.name@, opt_view(d.version), d.language, d.source)
}

/// The file a node belongs to: a file's own id, a symbol's file.
pub open spec fn owning_file(n: NodeData) -> Option<FileId> {
    match n {
        NodeData::File(f) => Some(f.id),
        NodeData::Symbol(s) => Some(s.file_id),
        _ => None,
    }
}

/// The dependency an edge brings into a pod: an import from a file of the
/// pod (or a symbol of one) to an external dependency that classifies.
pub open spec fn edge_dependency(g: CodeGraph, owners: Seq<(FileId, usize)>, p: ProjectFiles, e: (usize, usize, EdgeData)) -> Option<(usize, (Seq<char>, Option<Seq<char>>, LangId, DependencySource))> {
    if e.2.kind != EdgeKind::Import {
        None
    } else {
        match owning_file(g.nodes()[e.0 as int]) {
            None => None,
            Some(fid) => match latest(owners, fid) {
                None => None,
                Some(pod) => match g.nodes()[e.1 as int] {
                    NodeData::External(x) => match spec_classify_external(x, p) {
                        Ok(c) => Some((pod, c)),
                        Err(_) => None,
                    },
                    _ => None,
                },
            },
        }
    }
}

/// The pod's list with the dependency added, unless the pod lists its name
/// already; a pod seen for the first time gets a list of its own.
pub open spec fn add_dependency(
    acc: Seq<(usize, Seq<(Seq<char>, Option<Seq<char>>, LangId, DependencySource)>)>,
    pod: usize,
    d: (Seq<char>, Option<Seq<char>>, LangId, DependencySource),
) -> Seq<(usize, Seq<(Seq<char>, Option<Seq<char>>, LangId, DependencySource)>)> {
    if exists|i: int| 0 <= i < acc.len() && (#[trigger] acc[i]).0 == pod {
        let i = choose|i: int| 0 <= i < acc.len() && (#[trigger] acc[i]).0 == pod;
        if exists|j: int| 0 <= j < acc[i].1.len() && (#[trigger] acc[i].1[j]).0 == d.0 {
            acc
        } else {
            acc.update(i, (pod, acc[i].1.push(d)))
        }
    } else {
        acc.push((pod, seq![d]))
    }
}

/// The dependencies of the pods, edge after edge.
pub open spec fn dependency_fold(g: CodeGraph, owners: Seq<(FileId, usize)>, p: ProjectFiles, es: Seq<(usize, usize, EdgeData)>) -> Seq<(usize, Seq<(Seq<char>, Option<Seq<char>>, LangId, DependencySource)>)>
    decreases es.len(),
{
    if es.len() == 0 {
        Seq::empty()
    } else {
        let acc = dependency_fold(g, owners, p, es.drop_last());
        match edge_dependency(g, owners, p, es.last()) {
            Some((pod, d)) => add_dependency(acc, pod, d),
            None => acc,
        }
    }
}

/// The dependency lists as plain values.
pub open spec fn dependency_lists_view(v: Seq<(usize, Vec<DependencyEntry>)>) -> Seq<(usize, Seq<(Seq<char>, Option<Seq<char>>, LangId, DependencySource)>)> {
    v.map_values(|e: (usize, Vec<DependencyEntry>)| (e.0, e.1@.map_values(|d: DependencyEntry| dependency_view(d))))
}

fn latest_pod(v: &Vec<(FileId, usize)>, f: FileId) -> (r: Option<usize>)
    ensures
        r == latest(v@, f),
{
    let mut i: usize = v.len();
    proof { assert(v@.take(i as int) =~= v@); }
    while i > 0
        invariant
            0 <= i <= v@.len(),
            latest(v@, f) == latest(v@.take(i as int), f),
        decreases i,
    {
        proof {
            assert(v@.take(i as int).last() == v@[i - 1]);
            assert(v@.take(i as int).drop_last() =~= v@.take(i - 1));
        }
        if v[i - 1].0 == f {
            return Some(v[i - 1].1);
        }
        i = i - 1;
    }
    None
}

/// The dependencies of every pod: the external imports of its files,
/// classified, each package name once, in edge order. Pods come in the
/// order of their first dependency.
pub fn resolve_dependencies(graph: &CodeGraph, partition: &PodPartition, project: &ProjectFiles) -> (r: Vec<(usize, Vec<DependencyEntry>)>)
    requires
        graph.wf(),
    ensures
        dependency_lists_view(r@) == dependency_fold(*graph, pod_entries(partition.pods@), *project, graph.edges()),
        keys_distinct(r@),
{
    // The pod of each file.
    let mut owners: Vec<(FileId, usize)> = Vec::new();
    let mut p: usize = 0;
    while p < partition.pods.len()
        invariant
            0 <= p <= partition.pods@.len(),
            owners@ == pod_entries(partition.pods@.take(p as int)),
        decreases partition.pods@.len() - p,
    {
        proof {
            assert(partition.pods@.take(p + 1).drop_last() =~= partition.pods@.take(p as int));
            assert(partition.pods@.take(p + 1).last() == partition.pods@[p as int]);
        }
        let pod = &partition.pods[p];
        let ghost start = owners@;
        let mut k: usize = 0;
        while k < pod.files.len()
            invariant
                0 <= k <= pod.files@.len(),
                owners@ == start + pod.files@.take(k as int).map_values(|f: FileId| (f, pod.id)),
            decreases pod.files@.len() - k,
        {
            owners.push((pod.files[k], pod.id));
            proof {
                assert(pod.files@.take(k + 1).map_values(|f: FileId| (f, pod.id)) =~= pod.files@.take(k as int).map_values(
                    |f: FileId| (f, pod.id),
                ).push((pod.files@[k as int], pod.id)));
            }
            k = k + 1;
        }
        proof { assert(pod.files@.take(k as int) =~= pod.files@); }
        p = p + 1;
    }
    proof { assert(partition.pods@.take(p as int) =~= partition.pods@); }
    let m = graph.edge_count();
    let mut acc: Vec<(usize, Vec<DependencyEntry>)> = Vec::new();
    let mut i: usize = 0;
    while i < m
        invariant
            graph.wf(),
            m == graph.edges().len(),
            0 <= i <= m,
            owners@ == pod_entries(partition.pods@),
            dependency_lists_view(acc@) == dependency_fold(*graph, owners@, *project, graph.edges().take(i as int)),
            keys_distinct(acc@),
        decreases m - i,
    {
        proof {
            assert(graph.edges().take(i + 1).drop_last() =~= graph.edges().take(i as int));
            assert(graph.edges().take(i + 1).last() == graph.edges()[i as int]);
        }
        let e = graph.edge(i);
        proof { assert(graph.edges()[i as int].0 < graph.nodes().len() && graph.edges()[i as int].1 < graph.nodes().len()); }
        if e.2.kind == EdgeKind::Import {
            let fid = match graph.node(e.0) {
                NodeData::File(f) => Some(f.id),
                NodeData::Symbol(s) => Some(s.file_id),
                _ => None,
            };
            match fid {
                Some(fid) => {
                    match latest_pod(&owners, fid) {
                        Some(pod) => {
                            match graph.node(e.1) {
                                NodeData::External(x) => {
                                    match classify_external(x, project) {
                                        ExternalClassification::Classified { package_name, version, language, source } => {
                                            let entry = DependencyEntry {
                                                name: package_name,
                                                version,
                                                language,
                                                source,
                                            };
                                            add_entry(&mut acc, pod, entry);
                                        },
                                        ExternalClassification::Unresolved { .. } => {},
                                    }
                                },
                                _ => {},
                            }
                        },
                        None => {},
                    }
                },
                None => {},
            }
        }
        i = i + 1;
    }
    proof { assert(graph.edges().take(i as int) =~= graph.edges()); }
    acc
}

fn add_entry(acc: &mut Vec<(usize, Vec<DependencyEntry>)>, pod: usize, entry: DependencyEntry)
    requires
        keys_distinct(old(acc)@),
    ensures
        keys_distinct(final(acc)@),
        dependency_lists_view(final(acc)@) == add_dependency(dependency_lists_view(old(acc)@), pod, dependency_view(entry)),
{
    let ghost a0 = acc@;
    let ghost av = dependency_lists_view(acc@);
    let mut i: usize = 0;
    while i < acc.len()
        invariant
            0 <= i <= acc@.len(),
            acc@ == a0,
            a0 == old(acc)@,
            av == dependency_lists_view(a0),
            keys_distinct(a0),
            forall|j: int| 0 <= j < i ==> (#[trigger] acc@[j]).0 != pod,
        decreases acc@.len() - i,
    {
        if acc[i].0 == pod {
            proof {
                assert(av[i as int].0 == pod);
                let c = choose|q: int| 0 <= q < av.len() && (#[trigger] av[q]).0 == pod;
                assert(av[c].0 == a0[c].0);
                assert(c == i as int);
            }
            let list = &acc[i].1;
            let ghost lv = list@.map_values(|d: DependencyEntry| dependency_view(d));
            proof { assert(av[i as int].1 == lv); }
            let mut k: usize = 0;
            while k < list.len()
                invariant
                    0 <= k <= list@.len(),
                    acc@ == a0,
                    a0 == old(acc)@,
                    av == dependency_lists_view(a0),
                    keys_distinct(a0),
                    i < a0.len(),
                    a0[i as int].0 == pod,
                    *list == a0[i as int].1,
                    lv == list@.map_values(|d: DependencyEntry| dependency_view(d)),
                    av[i as int].1 == lv,
                    forall|j: int| 0 <= j < k ==> (#[trigger] lv[j]).0 != entry.name@,
                decreases list@.len() - k,
            {
                if str_eq(list[k].name.as_str(), entry.name.as_str()) {
                    proof {
                        assert(lv[k as int].0 == entry.name@);
                        assert(av[i as int].0 == pod);
                        let c = choose|q: int| 0 <= q < av.len() && (#[trigger] av[q]).0 == pod;
                        assert(av[c].0 == a0[c].0);
                        assert(c == i as int);
                        assert(av[c].1[k as int].0 == dependency_view(entry).0);
                    }
                    return;
                }
                k = k + 1;
            }
            let mut copy = duplicate_entries(list);
            copy.push(entry);
            acc.set(i, (pod, copy));
            proof {
                assert(av[i as int].0 == pod);
                let c = choose|q: int| 0 <= q < av.len() && (#[trigger] av[q]).0 == pod;
                assert(av[c].0 == a0[c].0);
                assert(c == i as int);
                let want = av.update(i as int, (pod, lv.push(dependency_view(entry))));
                assert(copy@.map_values(|d: DependencyEntry| dependency_view(d)) =~= lv.push(dependency_view(entry)));
                assert forall|q: int| 0 <= q < acc@.len() implies #[trigger] dependency_lists_view(acc@)[q] == want[q] by {
                    if q != i {
                        assert(acc@[q] == a0[q]);
                    }
                }
                assert(dependency_lists_view(acc@) =~= want);
                assert forall|a: int, b: int| 0 <= a < acc@.len() && 0 <= b < acc@.len() && a != b implies (#[trigger] acc@[a]).0 != (#[trigger] acc@[b]).0 by {
                    assert(acc@[a].0 == a0[a].0);
                    assert(acc@[b].0 == a0[b].0);
                }
            }
            return;
        }
        i = i + 1;
    }
    let mut list: Vec<DependencyEntry> = Vec::new();
    list.push(entry);
    acc.push((pod, list));
    proof {
        assert forall|q: int| 0 <= q < av.len() implies (#[trigger] av[q]).0 != pod by {
            assert(av[q].0 == a0[q].0);
        }
        let want = av.push((pod, seq![dependency_view(entry)]));
        assert(list@.map_values(|d: DependencyEntry| dependency_view(d)) =~= seq![dependency_view(entry)]);
        assert forall|q: int| 0 <= q < acc@.len() implies #[trigger] dependency_lists_view(acc@)[q] == want[q] by {
            if q < a0.len() {
                assert(acc@[q] == a0[q]);
            }
        }
        assert(dependency_lists_view(acc@) =~= want);
        assert forall|a: int, b: int| 0 <= a < acc@.len() && 0 <= b < acc@.len() && a != b implies (#[trigger] acc@[a]).0 != (#[trigger] acc@[b]).0 by {
            if a < a0.len() && b < a0.len() {
                assert(acc@[a] == a0[a] && acc@[b] == a0[b]);
            } else if a < a0.len() {
                assert(acc@[a] == a0[a]);
                assert(av[a].0 == a0[a].0);
            } else {
                assert(acc@[b] == a0[b]);
                assert(av[b].0 == a0[b].0);
            }
        }
    }
}

/// The lockfiles and manifests the classification reads, in the root and
/// in each immediate subdirectory.
pub open spec fn spec_probe_names() -> Seq<Seq<char>> {
    seq![
        "uv.lock"@, "poetry.lock"@, "Pipfile.lock"@, "pyproject.toml"@, "requirements.txt"@,
        "package-lock.json"@, "yarn.lock"@, "pnpm-lock.yaml"@, "package.json"@, "Cargo.lock"@,
        "Cargo.toml"@, "go.sum"@, "go.mod"@, "Gemfile.lock"@, "Gemfile"@, "conanfile.txt"@, "vcpkg.json"@
    ]
}

/// The files a [`ProjectFiles`] probe needs (see [`spec_probe_names`]).
pub fn probe_names() -> (r: Vec<&'static str>)
    ensures
        r@.map_values(|x: &str| x@) == spec_probe_names(),
{
    let r = vec![
        "uv.lock", "poetry.lock", "Pipfile.lock", "pyproject.toml", "requirements.txt",
        "package-lock.json", "yarn.lock", "pnpm-lock.yaml", "package.json", "Cargo.lock",
        "Cargo.toml", "go.sum", "go.mod", "Gemfile.lock", "Gemfile", "conanfile.txt", "vcpkg.json",
    ];
    proof {
        assert(r@.map_values(|x: &str| x@) =~= spec_probe_names());
    }
    r
}

} // verus!
