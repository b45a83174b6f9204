//! MetaCall call sites and the rules that classify them.
use vstd::prelude::*;

use crate::lang::LangId;
use crate::model::SourceRange;
use crate::syntax::{deploy_query_matches, query_matches};
use crate::node::clone_opt_string;
use crate::text::{chars_of, has_substring, lowercase, str_eq, string_from, string_of, contains_text, push_str, unicode_lowercase};

verus! {

/// Variant of a MetaCall call site: a load API or a client invocation.
#[derive(Debug, Clone, Copy, PartialEq, Eq, Structural)]
pub enum CallSiteVariant {
    LoadFromFile,
    LoadFromMemory,
    LoadFromPackage,
    LoadFromConfiguration,
    ClientCall,
}

/// One MetaCall load or client call found in a source file.
#[derive(Debug, Clone)]
pub struct CallSite {
    pub source_file: String,
    pub caller_lang: LangId,
    pub variant: CallSiteVariant,
    pub target_lang: Option<String>,
    pub scripts: Vec<String>,
    /// Invocation target function name (`ClientCall` only).
    pub function_name: Option<String>,
    /// True for `metacall_await` and Go `Await`.
    pub is_async: bool,
    /// Argument range of the call, for diagnostics.
    pub source_range: Option<SourceRange>,
    /// Confidence in thousandths.
    pub confidence: u32,
}

impl CallSite {
    /// A load call site: the loaded scripts and, when the source spells one,
    /// the loader tag. A load never carries an invocation target.
    pub fn load(
        source_file: String,
        caller_lang: LangId,
        variant: CallSiteVariant,
        target_lang: Option<String>,
        scripts: Vec<String>,
        source_range: Option<SourceRange>,
        confidence: u32,
    ) -> (r: CallSite)
        ensures
            r.source_file == source_file,
            r.caller_lang == caller_lang,
            r.variant == variant,
            r.target_lang == target_lang,
            r.scripts == scripts,
            r.function_name is None,
            !r.is_async,
            r.source_range == source_range,
            r.confidence == confidence,
    {
        CallSite {
            source_file,
            caller_lang,
            variant,
            target_lang,
            scripts,
            function_name: None,
            is_async: false,
            source_range,
            confidence,
        }
    }

    /// A client invocation: the target name is mandatory and no scripts apply.
    pub fn call(
        source_file: String,
        caller_lang: LangId,
        function_name: String,
        is_async: bool,
        source_range: Option<SourceRange>,
        confidence: u32,
    ) -> (r: CallSite)
        ensures
            r.source_file == source_file,
            r.caller_lang == caller_lang,
            r.variant == CallSiteVariant::ClientCall,
            r.target_lang is None,
            r.scripts@.len() == 0,
            r.function_name == Some(function_name),
            r.is_async == is_async,
            r.source_range == source_range,
            r.confidence == confidence,
    {
        CallSite {
            source_file,
            caller_lang,
            variant: CallSiteVariant::ClientCall,
            target_lang: None,
            scripts: Vec::new(),
            function_name: Some(function_name),
            is_async,
            source_range,
            confidence,
        }
    }

    /// A client invocation whose target name is not visible in the source.
    ///
    /// The site is kept: it still proves the file calls into MetaCall.
    pub fn call_without_target(
        source_file: String,
        caller_lang: LangId,
        is_async: bool,
        source_range: Option<SourceRange>,
        confidence: u32,
    ) -> (r: CallSite)
        ensures
            r.source_file == source_file,
            r.caller_lang == caller_lang,
            r.variant == CallSiteVariant::ClientCall,
            r.target_lang is None,
            r.scripts@.len() == 0,
            r.function_name is None,
            r.is_async == is_async,
            r.source_range == source_range,
            r.confidence == confidence,
    {
        CallSite {
            source_file,
            caller_lang,
            variant: CallSiteVariant::ClientCall,
            target_lang: None,
            scripts: Vec::new(),
            function_name: None,
            is_async,
            source_range,
            confidence,
        }
    }

    /// A field-for-field copy.
    pub fn duplicate(&self) -> (r: CallSite)
        ensures
            site_view(r) == site_view(*self),
    {
        let mut scripts: Vec<String> = Vec::new();
        let mut i: usize = 0;
        while i < self.scripts.len()
            invariant
                0 <= i <= self.scripts@.len(),
                scripts@ == self.scripts@.take(i as int),
            decreases self.scripts@.len() - i,
        {
            scripts.push(self.scripts[i].clone());
            proof { assert(scripts@ =~= self.scripts@.take(i + 1)); }
            i = i + 1;
        }
        proof { assert(self.scripts@.take(i as int) =~= self.scripts@); }
        CallSite {
            source_file: self.source_file.clone(),
            caller_lang: self.caller_lang,
            variant: self.variant,
            target_lang: clone_opt_string(&self.target_lang),
            scripts,
            function_name: clone_opt_string(&self.function_name),
            is_async: self.is_async,
            source_range: self.source_range,
            confidence: self.confidence,
        }
    }
}

/// A syntax tree node as the scanner reads it: kind, source text, whether
/// the grammar names it, range, and all children in order.
#[derive(Debug)]
pub struct SyntaxNode {
    pub kind: String,
    pub text: String,
    pub is_named: bool,
    pub range: SourceRange,
    pub children: Vec<SyntaxNode>,
}

/// One capture of a query match: the capture name and the captured node.
#[derive(Debug)]
pub struct Capture {
    pub name: String,
    pub node: SyntaxNode,
}

/// One match of the deploy query: its captures in order.
#[derive(Debug)]
pub struct QueryMatch {
    pub captures: Vec<Capture>,
}

/// The exact client call names across the ports.
pub open spec fn spec_client_names() -> Seq<Seq<char>> {
    seq![
        "metacall"@, "metacall_await"@, "metacall_await_s"@, "metacall_no_arg"@, "metacall_untyped"@,
        "metacall_untyped_no_arg"@, "metacallfms"@, "metacallfms_await"@, "metacallv"@, "metacallv_s"@,
        "metacallt"@, "metacallt_s"@, "metacall_function"@, "Call"@, "CallUnsafe"@, "Await"@, "AwaitUnsafe"@,
        "LoadFromFile"@, "LoadFromMemory"@, "LoadFromPackage"@
    ]
}

/// The exact client call names across the ports.
pub fn client_names() -> (r: Vec<&'static str>)
    ensures
        r@.map_values(|x: &str| x@) == spec_client_names(),
{
    let r = vec![
        "metacall", "metacall_await", "metacall_await_s", "metacall_no_arg", "metacall_untyped",
        "metacall_untyped_no_arg", "metacallfms", "metacallfms_await", "metacallv", "metacallv_s",
        "metacallt", "metacallt_s", "metacall_function", "Call", "CallUnsafe", "Await", "AwaitUnsafe",
        "LoadFromFile", "LoadFromMemory", "LoadFromPackage",
    ];
    proof {
        assert(r@.map_values(|x: &str| x@) =~= spec_client_names());
    }
    r
}

/// The load variant named by a suffix.
pub open spec fn spec_load_variant(suffix: Seq<char>) -> Option<CallSiteVariant> {
    if suffix == "file"@ || suffix == "single_file"@ {
        Some(CallSiteVariant::LoadFromFile)
    } else if suffix == "memory"@ {
        Some(CallSiteVariant::LoadFromMemory)
    } else if suffix == "package"@ {
        Some(CallSiteVariant::LoadFromPackage)
    } else if suffix == "configuration"@ {
        Some(CallSiteVariant::LoadFromConfiguration)
    } else {
        None
    }
}

/// The load variant named by a suffix.
pub fn load_variant(suffix: &str) -> (r: Option<CallSiteVariant>)
    ensures
        r == spec_load_variant(suffix@),
{
    if str_eq(suffix, "file") || str_eq(suffix, "single_file") {
        Some(CallSiteVariant::LoadFromFile)
    } else if str_eq(suffix, "memory") {
        Some(CallSiteVariant::LoadFromMemory)
    } else if str_eq(suffix, "package") {
        Some(CallSiteVariant::LoadFromPackage)
    } else if str_eq(suffix, "configuration") {
        Some(CallSiteVariant::LoadFromConfiguration)
    } else {
        None
    }
}

/// `s` starts with `p`.
pub open spec fn has_prefix(s: Seq<char>, p: Seq<char>) -> bool {
    p.len() <= s.len() && s.take(p.len() as int) == p
}

/// `str::strip_prefix`.
fn strip_prefix(s: &str, p: &str) -> (r: Option<String>)
    ensures
        r matches Some(t) ==> has_prefix(s@, p@) && t@ == s@.skip(p@.len() as int),
        r is None ==> !has_prefix(s@, p@),
{
    let cs = chars_of(s);
    let cp = chars_of(p);
    if cp.len() > cs.len() {
        return None;
    }
    let mut i: usize = 0;
    while i < cp.len()
        invariant
            cs@ == s@,
            cp@ == p@,
            cp@.len() <= cs@.len(),
            0 <= i <= cp@.len(),
            forall|j: int| 0 <= j < i ==> cs@[j] == cp@[j],
        decreases cp@.len() - i,
    {
        if cs[i] != cp[i] {
            proof { assert(s@.take(p@.len() as int)[i as int] != p@[i as int]); }
            return None;
        }
        i = i + 1;
    }
    proof { assert(s@.take(p@.len() as int) =~= p@); }
    let mut out: Vec<char> = Vec::new();
    let mut k: usize = cp.len();
    while k < cs.len()
        invariant
            cs@ == s@,
            cp@.len() <= k <= cs@.len(),
            out@ == cs@.subrange(cp@.len() as int, k as int),
        decreases cs@.len() - k,
    {
        out.push(cs[k]);
        proof { assert(out@ =~= cs@.subrange(cp@.len() as int, k + 1)); }
        k = k + 1;
    }
    proof { assert(out@ =~= s@.skip(p@.len() as int)); }
    Some(string_of(out.as_slice()))
}

/// The variant a called function name stands for.
pub open spec fn spec_variant_of(s: Seq<char>) -> Option<CallSiteVariant> {
    if has_prefix(s, "metacall_load_from_"@) {
        spec_load_variant(s.skip(19))
    } else if has_prefix(s, "from_"@) {
        spec_load_variant(s.skip(5))
    } else if has_prefix(s, "load_from_"@) {
        spec_load_variant(s.skip(10))
    } else if has_prefix(s, "LoadFrom"@) {
        spec_load_variant(unicode_lowercase(s.skip(8)))
    } else if spec_client_names().contains(s) {
        Some(CallSiteVariant::ClientCall)
    } else {
        None
    }
}

impl CallSiteVariant {
    /// The variant a called function name stands for: a load API by its
    /// suffix, or one of the client call names.
    pub fn from_str(s: &str) -> (r: Option<CallSiteVariant>)
        ensures
            r == spec_variant_of(s@),
    {
        proof {
            reveal_strlit("metacall_load_from_");
            reveal_strlit("from_");
            reveal_strlit("load_from_");
            reveal_strlit("LoadFrom");
        }
        if let Some(suffix) = strip_prefix(s, "metacall_load_from_") {
            return load_variant(suffix.as_str());
        }
        if let Some(suffix) = strip_prefix(s, "from_") {
            return load_variant(suffix.as_str());
        }
        if let Some(suffix) = strip_prefix(s, "load_from_") {
            return load_variant(suffix.as_str());
        }
        if let Some(suffix) = strip_prefix(s, "LoadFrom") {
            let lower = lowercase(suffix.as_str());
            return load_variant(lower.as_str());
        }
        let names = client_names();
        let mut i: usize = 0;
        while i < names.len()
            invariant
                names@.map_values(|x: &str| x@) == spec_client_names(),
                0 <= i <= names@.len(),
                forall|j: int| 0 <= j < i ==> spec_client_names()[j] != s@,
                !has_prefix(s@, "metacall_load_from_"@),
                !has_prefix(s@, "from_"@),
                !has_prefix(s@, "load_from_"@),
                !has_prefix(s@, "LoadFrom"@),
            decreases names@.len() - i,
        {
            if str_eq(names[i], s) {
                proof { assert(spec_client_names()[i as int] == s@); }
                return Some(CallSiteVariant::ClientCall);
            }
            i = i + 1;
        }
        None
    }
}

/// The awaiting client call names.
pub open spec fn spec_is_async_call(name: Seq<char>) -> bool {
    name == "metacall_await"@ || name == "metacall_await_s"@ || name == "metacallfms_await"@ || name == "Await"@
        || name == "AwaitUnsafe"@
}

/// True for the awaiting client calls.
pub fn is_async_call(name: &str) -> (r: bool)
    ensures
        r == spec_is_async_call(name@),
{
    str_eq(name, "metacall_await") || str_eq(name, "metacall_await_s") || str_eq(name, "metacallfms_await") || str_eq(
        name,
        "Await",
    ) || str_eq(name, "AwaitUnsafe")
}

/// A quote character: `"`, `'` or a backtick.
pub open spec fn is_quote(c: char) -> bool {
    c == '"' || c == '\'' || c == '`'
}

/// Number of leading quote characters.
pub open spec fn leading_quotes(s: Seq<char>) -> nat
    decreases s.len(),
{
    if s.len() > 0 && is_quote(s[0]) {
        1 + leading_quotes(s.drop_first())
    } else {
        0
    }
}

/// Number of trailing quote characters.
pub open spec fn trailing_quotes(s: Seq<char>) -> nat
    decreases s.len(),
{
    if s.len() > 0 && is_quote(s.last()) {
        1 + trailing_quotes(s.drop_last())
    } else {
        0
    }
}

/// The text without its leading and trailing quote characters.
pub open spec fn strip_quotes_seq(s: Seq<char>) -> Seq<char> {
    let rest = s.skip(leading_quotes(s) as int);
    rest.take(rest.len() - trailing_quotes(rest))
}

proof fn lemma_leading_quotes(s: Seq<char>, i: int)
    requires
        0 <= i <= s.len(),
        forall|j: int| 0 <= j < i ==> is_quote(#[trigger] s[j]),
        i == s.len() || !is_quote(s[i]),
    ensures
        leading_quotes(s) == i,
    decreases i,
{
    if i > 0 {
        assert forall|j: int| 0 <= j < i - 1 implies is_quote(#[trigger] s.drop_first()[j]) by {
            assert(s.drop_first()[j] == s[j + 1]);
        }
        if i - 1 < s.drop_first().len() {
            assert(s.drop_first()[i - 1] == s[i]);
        }
        lemma_leading_quotes(s.drop_first(), i - 1);
    }
}

proof fn lemma_trailing_quotes(s: Seq<char>, k: int)
    requires
        0 <= k <= s.len(),
        forall|j: int| s.len() - k <= j < s.len() ==> is_quote(#[trigger] s[j]),
        k == s.len() || !is_quote(s[s.len() - k - 1]),
    ensures
        trailing_quotes(s) == k,
    decreases k,
{
    if k > 0 {
        let d = s.drop_last();
        assert forall|j: int| d.len() - (k - 1) <= j < d.len() implies is_quote(#[trigger] d[j]) by {
            assert(d[j] == s[j]);
        }
        if k - 1 < d.len() {
            assert(d[d.len() - (k - 1) - 1] == s[s.len() - k - 1]);
        }
        lemma_trailing_quotes(d, k - 1);
    }
}

/// The text without the quote characters around it.
pub fn strip_quotes(s: &str) -> (r: String)
    ensures
        r@ == strip_quotes_seq(s@),
{
    let cs = chars_of(s);
    let n = cs.len();
    let mut start: usize = 0;
    while start < n && (cs[start] == '"' || cs[start] == '\'' || cs[start] == '`')
        invariant
            cs@ == s@,
            n == cs@.len(),
            0 <= start <= n,
            forall|j: int| 0 <= j < start ==> is_quote(#[trigger] cs@[j]),
        decreases n - start,
    {
        start = start + 1;
    }
    proof { lemma_leading_quotes(cs@, start as int); }
    let mut end: usize = n;
    while end > start && (cs[end - 1] == '"' || cs[end - 1] == '\'' || cs[end - 1] == '`')
        invariant
            cs@ == s@,
            n == cs@.len(),
            0 <= start <= end <= n,
            forall|j: int| end <= j < n ==> is_quote(#[trigger] cs@[j]),
        decreases end,
    {
        end = end - 1;
    }
    let ghost rest = cs@.skip(start as int);
    proof {
        let k = (n - end) as int;
        assert forall|j: int| rest.len() - k <= j < rest.len() implies is_quote(#[trigger] rest[j]) by {
            assert(rest[j] == cs@[j + start]);
        }
        if k < rest.len() {
            assert(rest[rest.len() - k - 1] == cs@[end - 1]);
        }
        lemma_trailing_quotes(rest, k);
    }
    let mut out: Vec<char> = Vec::new();
    let mut i: usize = start;
    while i < end
        invariant
            cs@ == s@,
            0 <= start <= i <= end <= n,
            n == cs@.len(),
            out@ =~= cs@.subrange(start as int, i as int),
        decreases end - i,
    {
        out.push(cs[i]);
        i = i + 1;
    }
    proof { assert(out@ =~= rest.take(rest.len() - (n - end))); }
    string_of(out.as_slice())
}

/// A node kind that is a string literal.
pub open spec fn is_string_kind(kind: Seq<char>) -> bool {
    has_substring(kind, "string"@) || kind == "string_literal"@
}

fn string_kind(kind: &String) -> (r: bool)
    ensures
        r == is_string_kind(kind@),
{
    contains_text(kind.as_str(), "string") || str_eq(kind.as_str(), "string_literal")
}

/// A string node that is static text: no interpolation or template
/// substitution among its children.
pub open spec fn spec_is_plain_string(n: SyntaxNode) -> bool {
    &&& is_string_kind(n.kind@)
    &&& !exists|k: int| 0 <= k < n.children@.len() && ((#[trigger] n.children@[k]).kind@ == "interpolation"@
        || n.children@[k].kind@ == "template_substitution"@)
}

/// True when the string node is static text (see [`spec_is_plain_string`]).
pub fn is_plain_string(node: &SyntaxNode) -> (r: bool)
    ensures
        r == spec_is_plain_string(*node),
{
    if !string_kind(&node.kind) {
        return false;
    }
    let mut i: usize = 0;
    while i < node.children.len()
        invariant
            0 <= i <= node.children@.len(),
            forall|k: int| 0 <= k < i ==> !((#[trigger] node.children@[k]).kind@ == "interpolation"@
                || node.children@[k].kind@ == "template_substitution"@),
        decreases node.children@.len() - i,
    {
        let c = &node.children[i];
        if str_eq(c.kind.as_str(), "interpolation") || str_eq(c.kind.as_str(), "template_substitution") {
            return false;
        }
        i = i + 1;
    }
    true
}

/// The string literals of a node: the node itself when it is one, else
/// those of its named children, in order.
pub open spec fn node_strings(n: SyntaxNode) -> Seq<Seq<char>>
    decreases n, 1nat,
{
    if is_string_kind(n.kind@) {
        seq![strip_quotes_seq(n.text@)]
    } else {
        proof {
            assert(decreases_to!(n => n.children));
            assert(decreases_to!(n.children => n.children@));
        }
        children_strings(n.children@)
    }
}

/// The string literals of the named nodes of a list, in order.
pub open spec fn children_strings(cs: Seq<SyntaxNode>) -> Seq<Seq<char>>
    decreases cs, 0nat,
{
    if cs.len() == 0 {
        Seq::empty()
    } else {
        proof {
            assert(decreases_to!(cs => cs[cs.len() - 1]));
        }
        children_strings(cs.drop_last()) + if cs.last().is_named {
            node_strings(cs.last())
        } else {
            Seq::empty()
        }
    }
}

/// The character views of a list of strings.
pub open spec fn string_views(v: Seq<String>) -> Seq<Seq<char>> {
    v.map_values(|x: String| x@)
}

/// Appends the string literals of a node (see [`node_strings`]).
pub fn collect_strings_recursive(node: &SyntaxNode, scripts: &mut Vec<String>)
    ensures
        string_views(final(scripts)@) == string_views(old(scripts)@) + node_strings(*node),
    decreases node,
{
    if string_kind(&node.kind) {
        let ghost before = scripts@;
        scripts.push(strip_quotes(node.text.as_str()));
        proof {
            assert(string_views(scripts@) =~= string_views(before) + node_strings(*node));
        }
    } else {
        let ghost start = string_views(scripts@);
        let mut i: usize = 0;
        proof {
            assert(node.children@.take(0) =~= Seq::<SyntaxNode>::empty());
            assert(start + children_strings(node.children@.take(0)) =~= start);
        }
        while i < node.children.len()
            invariant
                0 <= i <= node.children@.len(),
                string_views(scripts@) == start + children_strings(node.children@.take(i as int)),
            decreases node.children@.len() - i,
        {
            let c = &node.children[i];
            proof {
                assert(node.children@.take(i + 1).drop_last() =~= node.children@.take(i as int));
                assert(node.children@.take(i + 1).last() == *c);
            }
            if c.is_named {
                proof {
                    assert(decreases_to!(*node => node.children));
                    assert(decreases_to!(node.children => node.children@));
                    assert(decreases_to!(node.children@ => node.children@[i as int]));
                }
                collect_strings_recursive(c, scripts);
            }
            proof {
                assert(start + children_strings(node.children@.take(i + 1)) =~= start + children_strings(node.children@.take(i as int))
                    + (if c.is_named { node_strings(*c) } else { Seq::empty() }));
            }
            i = i + 1;
        }
        proof {
            assert(node.children@.take(i as int) =~= node.children@);
        }
    }
}

/// A call site as plain values.
pub open spec fn site_view(c: CallSite) -> (Seq<char>, LangId, CallSiteVariant, Option<Seq<char>>, Seq<Seq<char>>, Option<Seq<char>>, bool, Option<SourceRange>, u32) {
    (
        c.source_file@,
        c.caller_lang,
        c.variant,
        match c.target_lang {
            Some(t) => Some(t@),
            None => None,
        },
        string_views(c.scripts@),
        match c.function_name {
            Some(f) => Some(f@),
            None => None,
        },
        c.is_async,
        c.source_range,
        c.confidence,
    )
}

/// The node of the last capture of that name.
pub open spec fn last_capture(caps: Seq<Capture>, name: Seq<char>) -> Option<SyntaxNode>
    decreases caps.len(),
{
    if caps.len() == 0 {
        None
    } else if caps.last().name@ == name {
        Some(caps.last().node)
    } else {
        last_capture(caps.drop_last(), name)
    }
}

/// The named children of a node, in order.
pub open spec fn named_children(n: SyntaxNode) -> Seq<SyntaxNode> {
    n.children@.filter(|c: SyntaxNode| c.is_named)
}

/// A node kind that lists several values.
pub open spec fn is_list_kind(k: Seq<char>) -> bool {
    k == "list"@ || k == "array"@ || k == "array_expression"@ || k == "literal_value"@ || k == "composite_literal"@
}

/// The scripts of a load call and whether they are computed.
pub open spec fn load_scripts(nc: Seq<SyntaxNode>) -> (Seq<Seq<char>>, bool) {
    if nc.len() > 1 {
        let n = nc[1];
        if is_list_kind(n.kind@) {
            (node_strings(n), false)
        } else if is_string_kind(n.kind@) {
            (seq![strip_quotes_seq(n.text@)], false)
        } else {
            (seq![n.text@], true)
        }
    } else {
        (Seq::empty(), false)
    }
}

/// The loader tag of a load call and whether it is computed.
pub open spec fn load_tag(nc: Seq<SyntaxNode>) -> (Option<Seq<char>>, bool) {
    if nc.len() > 0 {
        if is_string_kind(nc[0].kind@) {
            (Some(strip_quotes_seq(nc[0].text@)), false)
        } else {
            (Some(nc[0].text@), true)
        }
    } else {
        (None, false)
    }
}

/// The target name of a client call and whether it is computed.
pub open spec fn client_target(nc: Seq<SyntaxNode>) -> (Option<Seq<char>>, bool) {
    if nc.len() > 0 {
        if spec_is_plain_string(nc[0]) {
            (Some(strip_quotes_seq(nc[0].text@)), false)
        } else {
            (Some(nc[0].text@), true)
        }
    } else {
        (None, false)
    }
}

/// The call site of a query match: the called name picks the variant; a
/// client call takes its target from the first argument, a load its tag
/// from the first and its scripts from the second. A computed argument
/// keeps its source text at computed confidence.
pub open spec fn site_of_match(id: LangId, m: QueryMatch, path: Seq<char>) -> Option<(Seq<char>, LangId, CallSiteVariant, Option<Seq<char>>, Seq<Seq<char>>, Option<Seq<char>>, bool, Option<SourceRange>, u32)> {
    match (last_capture(m.captures@, "fn_name"@), last_capture(m.captures@, "args"@)) {
        (Some(f), Some(a)) => match spec_variant_of(f.text@) {
            Some(v) => {
                let nc = named_children(a);
                let is_async = spec_is_async_call(f.text@);
                if v == CallSiteVariant::ClientCall {
                    let t = client_target(nc);
                    Some((path, id, v, None, Seq::empty(), t.0, is_async, Some(a.range),
                        if t.1 { crate::edge::CONFIDENCE_COMPUTED } else { 1000u32 }))
                } else {
                    let tag = load_tag(nc);
                    let sc = load_scripts(nc);
                    Some((path, id, v, tag.0, sc.0, None, false, Some(a.range),
                        if tag.1 || sc.1 { crate::edge::CONFIDENCE_COMPUTED } else { 1000u32 }))
                }
            },
            None => None,
        },
        _ => None,
    }
}

fn find_capture<'a>(caps: &'a Vec<Capture>, name: &str) -> (r: Option<&'a SyntaxNode>)
    ensures
        r matches Some(n) ==> last_capture(caps@, name@) == Some(*n),
        r is None ==> last_capture(caps@, name@) is None,
{
    let mut i: usize = caps.len();
    proof { assert(caps@.take(i as int) =~= caps@); }
    while i > 0
        invariant
            0 <= i <= caps@.len(),
            last_capture(caps@, name@) == last_capture(caps@.take(i as int), name@),
        decreases i,
    {
        proof {
            assert(caps@.take(i as int).last() == caps@[i - 1]);
            assert(caps@.take(i as int).drop_last() =~= caps@.take(i - 1));
        }
        if str_eq(caps[i - 1].name.as_str(), name) {
            return Some(&caps[i - 1].node);
        }
        i = i - 1;
    }
    None
}

fn named_children_of<'a>(n: &'a SyntaxNode) -> (r: Vec<&'a SyntaxNode>)
    ensures
        r@.map_values(|c: &SyntaxNode| *c) == named_children(*n),
{
    let ghost f = |c: SyntaxNode| c.is_named;
    let mut out: Vec<&SyntaxNode> = Vec::new();
    let mut i: usize = 0;
    while i < n.children.len()
        invariant
            f == (|c: SyntaxNode| c.is_named),
            0 <= i <= n.children@.len(),
            out@.map_values(|c: &SyntaxNode| *c) == n.children@.take(i as int).filter(f),
        decreases n.children@.len() - i,
    {
        let c = &n.children[i];
        proof { crate::assoc::lemma_filter_take_step(n.children@, i as int, f); }
        if c.is_named {
            let ghost before = out@;
            out.push(c);
            proof {
                assert(out@.map_values(|c: &SyntaxNode| *c) =~= before.map_values(|c: &SyntaxNode| *c).push(*c));
            }
        }
        i = i + 1;
    }
    proof { assert(n.children@.take(i as int) =~= n.children@); }
    out
}

fn is_list(k: &String) -> (r: bool)
    ensures
        r == is_list_kind(k@),
{
    let s = k.as_str();
    str_eq(s, "list") || str_eq(s, "array") || str_eq(s, "array_expression") || str_eq(s, "literal_value") || str_eq(
        s,
        "composite_literal",
    )
}

/// The call site of one query match (see [`site_of_match`]).
pub fn call_site_of_match(id: LangId, m: &QueryMatch, path: &str) -> (r: Option<CallSite>)
    ensures
        r matches Some(c) ==> site_of_match(id, *m, path@) == Some(site_view(c)),
        r is None ==> site_of_match(id, *m, path@) is None,
{
    proof {
        reveal_strlit("fn_name");
        reveal_strlit("args");
    }
    let f = match find_capture(&m.captures, "fn_name") {
        Some(f) => f,
        None => return None,
    };
    let a = match find_capture(&m.captures, "args") {
        Some(a) => a,
        None => return None,
    };
    let variant = match CallSiteVariant::from_str(f.text.as_str()) {
        Some(v) => v,
        None => return None,
    };
    let is_async = is_async_call(f.text.as_str());
    let nc = named_children_of(a);
    proof {
        assert(nc@.map_values(|c: &SyntaxNode| *c).len() == nc@.len());
    }
    let source_file = string_from(path);
    if variant == CallSiteVariant::ClientCall {
        let mut confidence: u32 = 1000;
        let mut function_name: Option<String> = None;
        if nc.len() > 0 {
            let first = nc[0];
            proof { assert(nc@.map_values(|c: &SyntaxNode| *c)[0] == *first); }
            if is_plain_string(first) {
                function_name = Some(strip_quotes(first.text.as_str()));
            } else {
                function_name = Some(first.text.clone());
                confidence = crate::edge::CONFIDENCE_COMPUTED;
            }
        }
        let site = match function_name {
            Some(name) => CallSite::call(source_file, id, name, is_async, Some(a.range), confidence),
            None => CallSite::call_without_target(source_file, id, is_async, Some(a.range), confidence),
        };
        proof {
            assert(string_views(site.scripts@) =~= Seq::<Seq<char>>::empty());
        }
        Some(site)
    } else {
        let mut confidence: u32 = 1000;
        let mut target_lang: Option<String> = None;
        let mut scripts: Vec<String> = Vec::new();
        if nc.len() > 0 {
            let first = nc[0];
            proof { assert(nc@.map_values(|c: &SyntaxNode| *c)[0] == *first); }
            if string_kind(&first.kind) {
                target_lang = Some(strip_quotes(first.text.as_str()));
            } else {
                target_lang = Some(first.text.clone());
                confidence = crate::edge::CONFIDENCE_COMPUTED;
            }
        }
        proof {
            assert(string_views(scripts@) =~= Seq::<Seq<char>>::empty());
        }
        if nc.len() > 1 {
            let second = nc[1];
            proof { assert(nc@.map_values(|c: &SyntaxNode| *c)[1] == *second); }
            if is_list(&second.kind) {
                collect_strings_recursive(second, &mut scripts);
                proof {
                    assert(string_views(scripts@) =~= node_strings(*second));
                }
            } else if string_kind(&second.kind) {
                scripts.push(strip_quotes(second.text.as_str()));
                proof {
                    assert(string_views(scripts@) =~= seq![strip_quotes_seq(second.text@)]);
                }
            } else {
                scripts.push(second.text.clone());
                confidence = crate::edge::CONFIDENCE_COMPUTED;
                proof {
                    assert(string_views(scripts@) =~= seq![second.text@]);
                }
            }
        }
        let site = CallSite::load(source_file, id, variant, target_lang, scripts, Some(a.range), confidence);
        Some(site)
    }
}

/// The call sites of a file's deploy query matches, in match order.
pub fn scan_matches(id: LangId, matches: &Vec<QueryMatch>, path: &str) -> (r: Vec<CallSite>)
    ensures
        r@.map_values(|c: CallSite| site_view(c)) == sites_of_matches(id, matches@, path@),
{
    let mut out: Vec<CallSite> = Vec::new();
    let mut i: usize = 0;
    while i < matches.len()
        invariant
            0 <= i <= matches@.len(),
            out@.map_values(|c: CallSite| site_view(c)) == sites_of_matches(id, matches@.take(i as int), path@),
        decreases matches@.len() - i,
    {
        proof {
            assert(matches@.take(i + 1).drop_last() =~= matches@.take(i as int));
            assert(matches@.take(i + 1).last() == matches@[i as int]);
        }
        match call_site_of_match(id, &matches[i], path) {
            Some(site) => {
                let ghost before = out@;
                out.push(site);
                proof {
                    assert(out@.map_values(|c: CallSite| site_view(c)) =~= before.map_values(|c: CallSite| site_view(c)).push(
                        site_view(site),
                    ));
                }
            },
            None => {},
        }
        i = i + 1;
    }
    proof { assert(matches@.take(i as int) =~= matches@); }
    out
}

/// The call sites of a list of matches, in order.
pub open spec fn sites_of_matches(id: LangId, ms: Seq<QueryMatch>, path: Seq<char>) -> Seq<(Seq<char>, LangId, CallSiteVariant, Option<Seq<char>>, Seq<Seq<char>>, Option<Seq<char>>, bool, Option<SourceRange>, u32)>
    decreases ms.len(),
{
    if ms.len() == 0 {
        Seq::empty()
    } else {
        let prev = sites_of_matches(id, ms.drop_last(), path);
        match site_of_match(id, ms.last(), path) {
            Some(v) => prev.push(v),
            None => prev,
        }
    }
}

/// `str::replace`: every non-overlapping occurrence of `pat`, left to right,
/// replaced by `rep`.
pub open spec fn replace_all(s: Seq<char>, pat: Seq<char>, rep: Seq<char>) -> Seq<char>
    decreases s.len(),
{
    if s.len() == 0 {
        Seq::empty()
    } else if pat.len() > 0 && has_prefix(s, pat) {
        rep + replace_all(s.skip(pat.len() as int), pat, rep)
    } else {
        seq![s[0]] + replace_all(s.drop_first(), pat, rep)
    }
}

fn matches_at(s: &Vec<char>, i: usize, pat: &Vec<char>) -> (r: bool)
    requires
        i <= s@.len(),
    ensures
        r == has_prefix(s@.skip(i as int), pat@),
{
    let sl = s.len();
    if pat.len() > sl - i {
        return false;
    }
    let mut j: usize = 0;
    while j < pat.len()
        invariant
            sl == s@.len(),
            i + pat@.len() <= s@.len(),
            0 <= j <= pat@.len(),
            forall|k: int| 0 <= k < j ==> s@[i + k] == pat@[k],
        decreases pat@.len() - j,
    {
        let x = s[i + j];
        if x != pat[j] {
            proof { assert(s@.skip(i as int).take(pat@.len() as int)[j as int] != pat@[j as int]); }
            return false;
        }
        j = j + 1;
    }
    proof { assert(s@.skip(i as int).take(pat@.len() as int) =~= pat@); }
    true
}

/// `str::replace` (see [`replace_all`]).
pub fn replace_text(s: &str, pat: &str, rep: &str) -> (r: String)
    ensures
        r@ == replace_all(s@, pat@, rep@),
{
    let cs = chars_of(s);
    let cp = chars_of(pat);
    let mut out = String::new();
    let mut i: usize = 0;
    proof { assert(cs@.skip(0) =~= cs@); }
    while i < cs.len()
        invariant
            cs@ == s@,
            cp@ == pat@,
            0 <= i <= cs@.len(),
            out@ + replace_all(cs@.skip(i as int), pat@, rep@) == replace_all(s@, pat@, rep@),
        decreases cs@.len() - i,
    {
        let t = Ghost(cs@.skip(i as int));
        if cp.len() > 0 && matches_at(&cs, i, &cp) {
            push_str(&mut out, rep);
            proof {
                assert(t@.skip(pat@.len() as int) =~= cs@.skip(i + pat@.len()));
                assert(out@ + replace_all(cs@.skip(i + pat@.len()), pat@, rep@) =~= (out@.subrange(0, out@.len() - rep@.len())) + (rep@ + replace_all(t@.skip(pat@.len() as int), pat@, rep@)));
            }
            i = i + cp.len();
        } else {
            crate::text::push_char(&mut out, cs[i]);
            proof {
                assert(t@.drop_first() =~= cs@.skip(i + 1));
                assert(t@[0] == cs@[i as int]);
            }
            i = i + 1;
        }
    }
    proof { assert(cs@.skip(i as int) =~= Seq::<char>::empty()); }
    out
}

/// The alternatives of the called-name predicate: the client names, then
/// the load API families.
pub open spec fn name_alternatives() -> Seq<Seq<char>> {
    spec_client_names() + seq![
        "metacall_load_from_.*"@,
        "load_from_.*"@,
        "from_(file|single_file|memory|package|configuration)"@,
        "LoadFrom(File|Memory|Package|Configuration)"@
    ]
}

/// The items joined with `|`.
pub open spec fn join_bar(items: Seq<Seq<char>>) -> Seq<char>
    decreases items.len(),
{
    if items.len() == 0 {
        Seq::empty()
    } else if items.len() == 1 {
        items[0]
    } else {
        join_bar(items.drop_last()) + "|"@ + items.last()
    }
}

/// The anchored alternation every deploy query matches called names with.
pub open spec fn spec_name_pattern() -> Seq<char> {
    "^("@ + join_bar(name_alternatives()) + ")$"@
}

/// The called-name pattern of the deploy queries.
pub fn function_name_pattern() -> (r: String)
    ensures
        r@ == spec_name_pattern(),
{
    let names = client_names();
    let extras = vec![
        "metacall_load_from_.*",
        "load_from_.*",
        "from_(file|single_file|memory|package|configuration)",
        "LoadFrom(File|Memory|Package|Configuration)",
    ];
    let ghost all = name_alternatives();
    let mut body = String::new();
    let mut i: usize = 0;
    proof {
        assert(all.take(0) =~= Seq::<Seq<char>>::empty());
    }
    while i < names.len() + extras.len()
        invariant
            names@.map_values(|x: &str| x@) == spec_client_names(),
            extras@.map_values(|x: &str| x@) == seq![
                "metacall_load_from_.*"@,
                "load_from_.*"@,
                "from_(file|single_file|memory|package|configuration)"@,
                "LoadFrom(File|Memory|Package|Configuration)"@
            ],
            all == name_alternatives(),
            all.len() == names@.len() + extras@.len(),
            0 <= i <= all.len(),
            body@ == join_bar(all.take(i as int)),
        decreases all.len() - i,
    {
        let item: &str = if i < names.len() { names[i] } else { extras[i - names.len()] };
        proof {
            if i < names@.len() {
                assert(all[i as int] == spec_client_names()[i as int]);
                assert(names@.map_values(|x: &str| x@)[i as int] == item@);
            } else {
                assert(all[i as int] == extras@.map_values(|x: &str| x@)[i - names@.len()]);
            }
            assert(all.take(i + 1).drop_last() =~= all.take(i as int));
            assert(all.take(i + 1).last() == item@);
        }
        if i > 0 {
            push_str(&mut body, "|");
        }
        push_str(&mut body, item);
        proof {
            if i == 0 {
                assert(all.take(1).len() == 1);
                assert(body@ =~= all.take(1)[0]);
            } else {
                assert(body@ =~= join_bar(all.take(i as int)) + "|"@ + item@);
            }
        }
        i = i + 1;
    }
    proof { assert(all.take(i as int) =~= all); }
    let mut out = String::new();
    push_str(&mut out, "^(");
    push_str(&mut out, body.as_str());
    push_str(&mut out, ")$");
    proof { assert(out@ =~= spec_name_pattern()); }
    out
}

/// A query template with the called-name pattern filled in for `@FN@`.
pub fn deploy_source(template: &str) -> (r: String)
    ensures
        r@ == replace_all(template@, "@FN@"@, spec_name_pattern()),
{
    let pattern = function_name_pattern();
    replace_text(template, "@FN@", pattern.as_str())
}

/// The tree-sitter query template that finds MetaCall calls in a language:
/// it captures the called name as `fn_name` and the argument list as `args`.
pub open spec fn spec_deploy_query_template(id: LangId) -> Seq<char> {
    match id {
        LangId::Python => "(call\n  function: (identifier) @fn_name\n  arguments: (argument_list) @args\n  (#match? @fn_name \"@FN@\"))\n"@,
        LangId::JavaScript | LangId::TypeScript | LangId::Tsx => "(call_expression\n  function: (identifier) @fn_name\n  arguments: (arguments) @args\n  (#match? @fn_name \"@FN@\"))\n"@,
        LangId::C | LangId::Cpp => "(call_expression\n  function: (identifier) @fn_name\n  arguments: (argument_list) @args\n  (#match? @fn_name \"@FN@\"))\n"@,
        LangId::Rust => "(call_expression\n  function: [\n    (scoped_identifier\n        path: (identifier) @mod_name\n        name: (identifier) @fn_name)\n    (scoped_identifier\n        path: (scoped_identifier path: (identifier) @mod_name name: (identifier) @sub_mod)\n        name: (identifier) @fn_name)\n    (identifier) @fn_name\n  ]\n  arguments: (arguments) @args\n  (#match? @fn_name \"@FN@\"))\n"@,
        LangId::Go => "(call_expression\n  function: (selector_expression\n    operand: (identifier) @pkg_name\n    field: (field_identifier) @fn_name)\n  arguments: (argument_list) @args\n  (#match? @pkg_name \"^metacall$\")\n  (#match? @fn_name \"@FN@\"))\n\n(type_conversion_expression\n  (qualified_type\n    (package_identifier) @pkg_name\n    (type_identifier) @fn_name)\n  operand: (_) @args\n  (#match? @pkg_name \"^metacall$\")\n  (#match? @fn_name \"@FN@\"))\n"@,
        LangId::Ruby => "(call\n  method: (identifier) @fn_name\n  arguments: (argument_list) @args\n  (#match? @fn_name \"@FN@\"))\n"@,
    }
}

/// The deploy query template of a language (see [`spec_deploy_query_template`]).
pub fn deploy_query_template(id: LangId) -> (r: &'static str)
    ensures
        r@ == spec_deploy_query_template(id),
{
    match id {
        LangId::Python => "(call\n  function: (identifier) @fn_name\n  arguments: (argument_list) @args\n  (#match? @fn_name \"@FN@\"))\n",
        LangId::JavaScript | LangId::TypeScript | LangId::Tsx => "(call_expression\n  function: (identifier) @fn_name\n  arguments: (arguments) @args\n  (#match? @fn_name \"@FN@\"))\n",
        LangId::C | LangId::Cpp => "(call_expression\n  function: (identifier) @fn_name\n  arguments: (argument_list) @args\n  (#match? @fn_name \"@FN@\"))\n",
        LangId::Rust => "(call_expression\n  function: [\n    (scoped_identifier\n        path: (identifier) @mod_name\n        name: (identifier) @fn_name)\n    (scoped_identifier\n        path: (scoped_identifier path: (identifier) @mod_name name: (identifier) @sub_mod)\n        name: (identifier) @fn_name)\n    (identifier) @fn_name\n  ]\n  arguments: (arguments) @args\n  (#match? @fn_name \"@FN@\"))\n",
        LangId::Go => "(call_expression\n  function: (selector_expression\n    operand: (identifier) @pkg_name\n    field: (field_identifier) @fn_name)\n  arguments: (argument_list) @args\n  (#match? @pkg_name \"^metacall$\")\n  (#match? @fn_name \"@FN@\"))\n\n(type_conversion_expression\n  (qualified_type\n    (package_identifier) @pkg_name\n    (type_identifier) @fn_name)\n  operand: (_) @args\n  (#match? @pkg_name \"^metacall$\")\n  (#match? @fn_name \"@FN@\"))\n",
        LangId::Ruby => "(call\n  method: (identifier) @fn_name\n  arguments: (argument_list) @args\n  (#match? @fn_name \"@FN@\"))\n",
    }
}

/// The deploy query of a language: its template with the called-name
/// pattern filled in.
pub open spec fn spec_deploy_query_source(id: LangId) -> Seq<char> {
    replace_all(spec_deploy_query_template(id), "@FN@"@, spec_name_pattern())
}

/// The deploy query of a language (see [`spec_deploy_query_source`]).
pub fn deploy_query_source(id: LangId) -> (r: String)
    ensures
        r@ == spec_deploy_query_source(id),
{
    deploy_source(deploy_query_template(id))
}

/// The MetaCall call sites of a source file: the matches of its language's
/// deploy query over the parsed source, classified in match order.
pub fn scan_file(id: LangId, source: &[u8], path: &str) -> (r: Vec<CallSite>)
    ensures
        r@.map_values(|c: CallSite| site_view(c)) == sites_of_matches(
            id,
            deploy_query_matches(id, spec_deploy_query_source(id), source@),
            path@,
        ),
{
    let query = deploy_query_source(id);
    let matches = query_matches(id, query.as_str(), source);
    scan_matches(id, &matches, path)
}

proof fn lemma_not_prefixed(s: Seq<char>, q: Seq<char>)
    requires
        s.len() > 0,
        q.len() > 0,
        s[0] != q[0],
    ensures
        !has_prefix(s, q),
{
    if has_prefix(s, q) {
        assert(s.take(q.len() as int)[0] == q[0]);
    }
}

proof fn lemma_load_configuration_only(x: Seq<char>)
    ensures
        spec_load_variant(x) == Some(CallSiteVariant::LoadFromConfiguration) <==> x == "configuration"@,
{
    reveal_strlit("configuration");
    reveal_strlit("file");
    reveal_strlit("single_file");
    reveal_strlit("memory");
    reveal_strlit("package");
    if x == "configuration"@ {
        assert(x.len() == 13);
        assert("file"@.len() == 4);
        assert("single_file"@.len() == 11);
        assert("memory"@.len() == 6);
        assert("package"@.len() == 7);
    }
}

/// A called name is scanned as a load from a configuration file exactly when
/// it is `metacall_load_from_configuration`, `load_from_configuration` or
/// `from_configuration`, or `LoadFrom` followed by a word that lowercases to
/// `configuration`.
pub proof fn lemma_configuration_loads(s: Seq<char>)
    ensures
        spec_variant_of(s) == Some(CallSiteVariant::LoadFromConfiguration) <==> (s
            == "metacall_load_from_configuration"@ || s == "load_from_configuration"@ || s == "from_configuration"@
            || (has_prefix(s, "LoadFrom"@) && unicode_lowercase(s.skip(8)) == "configuration"@)),
{
    reveal_strlit("metacall_load_from_");
    reveal_strlit("from_");
    reveal_strlit("load_from_");
    reveal_strlit("LoadFrom");
    reveal_strlit("configuration");
    reveal_strlit("metacall_load_from_configuration");
    reveal_strlit("load_from_configuration");
    reveal_strlit("from_configuration");
    let m = "metacall_load_from_"@;
    let f = "from_"@;
    let l = "load_from_"@;
    let c = "configuration"@;
    lemma_load_configuration_only(s.skip(19));
    lemma_load_configuration_only(s.skip(5));
    lemma_load_configuration_only(s.skip(10));
    lemma_load_configuration_only(unicode_lowercase(s.skip(8)));
    if s == "metacall_load_from_configuration"@ {
        assert(s.take(19) =~= m);
        assert(s.skip(19) =~= c);
    } else if s == "load_from_configuration"@ {
        lemma_not_prefixed(s, m);
        lemma_not_prefixed(s, f);
        assert(s.take(10) =~= l);
        assert(s.skip(10) =~= c);
    } else if s == "from_configuration"@ {
        assert(!has_prefix(s, m));
        assert(s.take(5) =~= f);
        assert(s.skip(5) =~= c);
    } else if has_prefix(s, "LoadFrom"@) {
        assert(s[0] == s.take(8)[0]);
        lemma_not_prefixed(s, m);
        lemma_not_prefixed(s, f);
        lemma_not_prefixed(s, l);
    } else {
        if has_prefix(s, m) && s.skip(19) == c {
            assert(s =~= s.take(19) + s.skip(19));
            assert(m + c =~= "metacall_load_from_configuration"@);
        }
        if !has_prefix(s, m) && has_prefix(s, f) && s.skip(5) == c {
            assert(s =~= s.take(5) + s.skip(5));
            assert(f + c =~= "from_configuration"@);
        }
        if !has_prefix(s, m) && !has_prefix(s, f) && has_prefix(s, l) && s.skip(10) == c {
            assert(s =~= s.take(10) + s.skip(10));
            assert(l + c =~= "load_from_configuration"@);
        }
    }
}

} // verus!
