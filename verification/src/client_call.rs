//! Client-call resolution: `metacall('fn', ...)` invocations mapped to the
//! symbols they call.
//!
//! A call resolves first against the symbols of the files its source file
//! loads (load-aware), then against every project symbol (global). The
//! confidence ladder is: unique load-aware 1.0, several load-aware 0.8,
//! unique global 0.6, several global 0.5, capped by the site's own
//! confidence (0.4 for a computed name).
use vstd::prelude::*;

use crate::assoc::lookup;
use crate::config::{
    configuration_of, escape_message, invalid_json_message, join_contained, json_configuration, opt_view,
    parse_load_configuration, script_base, spec_join_contained, spec_script_base, LoadConfiguration,
};
use crate::deploy::{read_at, read_view};
use crate::edge::{CONFIDENCE_CLIENT_MULTI_GLOBAL, CONFIDENCE_CLIENT_MULTI_LOAD, CONFIDENCE_CLIENT_UNIQUE_GLOBAL, CONFIDENCE_CLIENT_UNIQUE_LOAD};
use crate::error::{diagnostic_view, Diagnostic, Severity};
use crate::graph::CodeGraph;
use crate::index::{lookup_file_id, ordered_entries, registered_file_ids, registered_paths, lookup_path, entries_below, lemma_resolve_below, path_value, resolve_in, DeployIndex, PathEntry};
use crate::lang::LangId;
use crate::model::{FileExtraction, FileId, SourceRange, Symbol, SymbolId};
use crate::node::NodeData;
use crate::paths::{paths_equal, same_path};
use crate::pod::file_language;
use crate::scanner::{string_views, CallSite, CallSiteVariant};
use crate::tags::{from_metacall_tag, spec_from_metacall_tag};
use crate::text::{push_str, str_eq, string_from};

verus! {

/// One resolved invocation target, with the call site that produced it.
#[derive(Debug, Clone)]
pub struct ResolvedClientCall {
    /// File that holds the call site, as extracted.
    pub source_file: String,
    /// Range of the call site, when the source spelled one.
    pub source_range: Option<SourceRange>,
    /// Symbol the invocation resolves to.
    pub target: SymbolId,
    /// Ladder confidence, in thousandths.
    pub confidence: u32,
}

/// A resolved call as plain values.
pub open spec fn resolved_view(c: ResolvedClientCall) -> (Seq<char>, Option<SourceRange>, SymbolId, u32) {
    (c.source_file@, c.source_range, c.target, c.confidence)
}

/// The language a load tag names, when it names one.
pub open spec fn tag_language(tag: Option<String>) -> Option<LangId> {
    match tag {
        Some(t) => spec_from_metacall_tag(t@),
        None => None,
    }
}

/// The contained configuration file a site loads, when it is a
/// configuration load.
pub open spec fn site_config_file(site: CallSite, root: Seq<char>) -> Option<Seq<char>> {
    if site.variant == CallSiteVariant::LoadFromConfiguration && site.scripts@.len() > 0 {
        spec_join_contained(root, site.scripts@[0]@)
    } else {
        None
    }
}

/// The first of the first `n` sites that loads the configuration file `f`.
pub open spec fn earliest_sharer(sites: Seq<CallSite>, root: Seq<char>, f: Seq<char>, n: int) -> Option<int>
    decreases n,
{
    if n <= 0 {
        None
    } else {
        match earliest_sharer(sites, root, f, n - 1) {
            Some(k) => Some(k),
            None => match site_config_file(sites[n - 1], root) {
                Some(g) => if same_path(g, f) {
                    Some(n - 1)
                } else {
                    None
                },
                None => None,
            },
        }
    }
}

/// The configuration a read gives: its fields, or the failure message.
pub open spec fn config_outcome(read: Option<Result<Seq<u8>, Seq<char>>>) -> Option<Result<(Option<Seq<char>>, Option<Seq<char>>, Seq<Seq<char>>), Seq<char>>> {
    match read {
        None => None,
        Some(Err(m)) => Some(Err(m)),
        Some(Ok(b)) => match json_configuration(b) {
            Ok(d) => Some(Ok(configuration_of(d))),
            Err(e) => Some(Err(invalid_json_message(e))),
        },
    }
}

/// What load site `i` loads, as (language tag, base, scripts), with its
/// warning. A configuration file is read once: every site sharing it sees
/// the outcome of the first site's read, and a failure is reported at the
/// first site only.
pub open spec fn load_of_site(sites: Seq<CallSite>, reads: Seq<Option<Result<Vec<u8>, String>>>, root: Seq<char>, i: int) -> (Option<(Option<LangId>, Seq<char>, Seq<Seq<char>>)>, Seq<(Seq<char>, Severity, Seq<char>, Option<SourceRange>)>) {
    let site = sites[i];
    if site.variant == CallSiteVariant::LoadFromFile {
        (Some((tag_language(site.target_lang), root, string_views(site.scripts@))), Seq::empty())
    } else if site.variant == CallSiteVariant::LoadFromConfiguration && site.scripts@.len() > 0 {
        match spec_join_contained(root, site.scripts@[0]@) {
            None => (None, seq![(site.source_file@, Severity::Warning, escape_message(site.scripts@[0]@), site.source_range)]),
            Some(f) => {
                let first = earliest_sharer(sites, root, f, i + 1)->0;
                match config_outcome(read_at(reads, first)) {
                    None => (None, Seq::empty()),
                    Some(Err(m)) => (None, if first == i {
                        seq![(f, Severity::Warning, m, site.source_range)]
                    } else {
                        Seq::empty()
                    }),
                    Some(Ok(c)) => (
                        Some((
                            match c.0 {
                                Some(id) => spec_from_metacall_tag(id),
                                None => None,
                            },
                            spec_script_base(f, c.1, root),
                            c.2,
                        )),
                        Seq::empty(),
                    ),
                }
            },
        }
    } else {
        (None, Seq::empty())
    }
}

/// The files the scripts of a load resolve to, as (source file, file id,
/// tag) records, in script order.
pub open spec fn script_records(
    g: CodeGraph,
    entries: Seq<(String, usize)>,
    ordered: Seq<PathEntry>,
    source: Seq<char>,
    tag: Option<LangId>,
    base: Seq<char>,
    scripts: Seq<Seq<char>>,
) -> Seq<(Seq<char>, FileId, Option<LangId>)>
    decreases scripts.len(),
{
    if scripts.len() == 0 {
        Seq::empty()
    } else {
        let prev = script_records(g, entries, ordered, source, tag, base, scripts.drop_last());
        match resolve_in(entries, ordered, base, scripts.last(), source) {
            Some(idx) => match g.nodes()[idx as int] {
                NodeData::File(f) => prev.push((source, f.id, tag)),
                _ => prev,
            },
            None => prev,
        }
    }
}

/// The load records and warnings of the first `n` sites.
pub open spec fn load_pass(
    g: CodeGraph,
    entries: Seq<(String, usize)>,
    ordered: Seq<PathEntry>,
    sites: Seq<CallSite>,
    reads: Seq<Option<Result<Vec<u8>, String>>>,
    root: Seq<char>,
    n: int,
) -> (Seq<(Seq<char>, FileId, Option<LangId>)>, Seq<(Seq<char>, Severity, Seq<char>, Option<SourceRange>)>)
    decreases n,
{
    if n <= 0 {
        (Seq::empty(), Seq::empty())
    } else {
        let prev = load_pass(g, entries, ordered, sites, reads, root, n - 1);
        let (load, warnings) = load_of_site(sites, reads, root, n - 1);
        let records = match load {
            Some((tag, base, scripts)) => script_records(g, entries, ordered, sites[n - 1].source_file@, tag, base, scripts),
            None => Seq::empty(),
        };
        (prev.0 + records, prev.1 + warnings)
    }
}

/// The tag of the first record of `fid` loaded by `source`.
pub open spec fn first_load(records: Seq<(Seq<char>, FileId, Option<LangId>)>, source: Seq<char>, fid: FileId) -> Option<Option<LangId>>
    decreases records.len(),
{
    if records.len() == 0 {
        None
    } else {
        match first_load(records.drop_last(), source, fid) {
            Some(t) => Some(t),
            None => if same_path(records.last().0, source) && records.last().1 == fid {
                Some(records.last().2)
            } else {
                None
            },
        }
    }
}

/// `source` loads `fid`: untagged, or tagged with the file's own language.
pub open spec fn loads_file(g: CodeGraph, records: Seq<(Seq<char>, FileId, Option<LangId>)>, source: Seq<char>, fid: FileId) -> bool {
    match first_load(records, source, fid) {
        Some(None) => true,
        Some(Some(t)) => file_language(g, fid) == Some(t),
        None => false,
    }
}

/// The symbols named `name` in one extraction, with its path, in order.
pub open spec fn symbols_named(symbols: Seq<Symbol>, path: Seq<char>, name: Seq<char>) -> Seq<(SymbolId, Seq<char>)>
    decreases symbols.len(),
{
    if symbols.len() == 0 {
        Seq::empty()
    } else {
        let prev = symbols_named(symbols.drop_last(), path, name);
        if symbols.last().name@ == name {
            prev.push((symbols.last().id, path))
        } else {
            prev
        }
    }
}

/// The symbols named `name`, with the path of the extraction that defines
/// them, in extraction order.
pub open spec fn named_symbols(exs: Seq<FileExtraction>, name: Seq<char>) -> Seq<(SymbolId, Seq<char>)>
    decreases exs.len(),
{
    if exs.len() == 0 {
        Seq::empty()
    } else {
        named_symbols(exs.drop_last(), name) + symbols_named(exs.last().symbols@, exs.last().path@, name)
    }
}

/// The load-aware candidates: the named symbols whose file `source` loads.
pub open spec fn load_candidates(
    g: CodeGraph,
    records: Seq<(Seq<char>, FileId, Option<LangId>)>,
    file_ids: Seq<(String, FileId)>,
    source: Seq<char>,
    named: Seq<(SymbolId, Seq<char>)>,
) -> Seq<SymbolId>
    decreases named.len(),
{
    if named.len() == 0 {
        Seq::empty()
    } else {
        let prev = load_candidates(g, records, file_ids, source, named.drop_last());
        match path_value(file_ids, named.last().1) {
            Some(fid) => if loads_file(g, records, source, fid) {
                prev.push(named.last().0)
            } else {
                prev
            },
            None => prev,
        }
    }
}

/// The rung of the confidence ladder.
pub open spec fn ladder(global: bool, count: nat) -> u32 {
    if global {
        if count == 1 {
            CONFIDENCE_CLIENT_UNIQUE_GLOBAL
        } else {
            CONFIDENCE_CLIENT_MULTI_GLOBAL
        }
    } else if count == 1 {
        CONFIDENCE_CLIENT_UNIQUE_LOAD
    } else {
        CONFIDENCE_CLIENT_MULTI_LOAD
    }
}

/// The warning of an invocation whose target resolves to no symbol.
pub open spec fn unresolved_view(site: CallSite, name: Seq<char>) -> (Seq<char>, Severity, Seq<char>, Option<SourceRange>) {
    (site.source_file@, Severity::Warning, "unresolved MetaCall invocation target: '"@ + name + "'"@, site.source_range)
}

/// The candidates that have a symbol node, as resolved calls.
pub open spec fn emitted_calls(g: CodeGraph, site: CallSite, candidates: Seq<SymbolId>, confidence: u32) -> Seq<(Seq<char>, Option<SourceRange>, SymbolId, u32)>
    decreases candidates.len(),
{
    if candidates.len() == 0 {
        Seq::empty()
    } else {
        let prev = emitted_calls(g, site, candidates.drop_last(), confidence);
        if lookup(g.symbol_to_index@, candidates.last()) is Some {
            prev.push((site.source_file@, site.source_range, candidates.last(), confidence))
        } else {
            prev
        }
    }
}

/// The resolved calls and the warning of one client call site: load-aware
/// candidates first, all symbols of the name when there are none; a
/// warning when no candidate has a symbol node.
pub open spec fn client_site_outcome(
    g: CodeGraph,
    entries: Seq<(String, usize)>,
    file_ids: Seq<(String, FileId)>,
    records: Seq<(Seq<char>, FileId, Option<LangId>)>,
    exs: Seq<FileExtraction>,
    site: CallSite,
) -> (Seq<(Seq<char>, Option<SourceRange>, SymbolId, u32)>, Seq<(Seq<char>, Severity, Seq<char>, Option<SourceRange>)>) {
    if site.variant != CallSiteVariant::ClientCall {
        (Seq::empty(), Seq::empty())
    } else {
        match site.function_name {
            None => (Seq::empty(), Seq::empty()),
            Some(name) => if path_value(entries, site.source_file@) is None {
                (Seq::empty(), Seq::empty())
            } else {
                let named = named_symbols(exs, name@);
                let a = load_candidates(g, records, file_ids, site.source_file@, named);
                let global = a.len() == 0;
                let candidates = if global {
                    named.map_values(|e: (SymbolId, Seq<char>)| e.0)
                } else {
                    a
                };
                if candidates.len() == 0 {
                    (Seq::empty(), seq![unresolved_view(site, name@)])
                } else {
                    let base = ladder(global, candidates.len());
                    let confidence = if base <= site.confidence {
                        base
                    } else {
                        site.confidence
                    };
                    let calls = emitted_calls(g, site, candidates, confidence);
                    (calls, if calls.len() == 0 {
                        seq![unresolved_view(site, name@)]
                    } else {
                        Seq::empty()
                    })
                }
            },
        }
    }
}

/// The resolved calls and warnings of the first `n` sites.
pub open spec fn client_pass(
    g: CodeGraph,
    entries: Seq<(String, usize)>,
    file_ids: Seq<(String, FileId)>,
    records: Seq<(Seq<char>, FileId, Option<LangId>)>,
    exs: Seq<FileExtraction>,
    sites: Seq<CallSite>,
    n: int,
) -> (Seq<(Seq<char>, Option<SourceRange>, SymbolId, u32)>, Seq<(Seq<char>, Severity, Seq<char>, Option<SourceRange>)>)
    decreases n,
{
    if n <= 0 {
        (Seq::empty(), Seq::empty())
    } else {
        let prev = client_pass(g, entries, file_ids, records, exs, sites, n - 1);
        let step = client_site_outcome(g, entries, file_ids, records, exs, sites[n - 1]);
        (prev.0 + step.0, prev.1 + step.1)
    }
}

proof fn lemma_earliest_stable(sites: Seq<CallSite>, root: Seq<char>, f: Seq<char>, n: int, m: int)
    requires
        0 <= n <= m,
        earliest_sharer(sites, root, f, n) is Some,
    ensures
        earliest_sharer(sites, root, f, m) == earliest_sharer(sites, root, f, n),
    decreases m - n,
{
    if m > n {
        lemma_earliest_stable(sites, root, f, n, m - 1);
    }
}

fn contained_config_file(site: &CallSite, root: &str) -> (r: Option<String>)
    ensures
        opt_view(r) == site_config_file(*site, root@),
{
    if site.variant == CallSiteVariant::LoadFromConfiguration && site.scripts.len() > 0 {
        join_contained(root, site.scripts[0].as_str())
    } else {
        None
    }
}

/// The first site up to `i` that loads the configuration file `f`.
fn earliest_sharer_of(sites: &Vec<CallSite>, root: &str, f: &str, i: usize) -> (r: usize)
    requires
        i < sites@.len(),
        site_config_file(sites@[i as int], root@) matches Some(g) && same_path(g, f@),
    ensures
        earliest_sharer(sites@, root@, f@, i + 1) == Some(r as int),
        r <= i,
{
    let mut k: usize = 0;
    while k < i
        invariant
            0 <= k <= i < sites@.len(),
            earliest_sharer(sites@, root@, f@, k as int) is None,
        decreases i - k,
    {
        match contained_config_file(&sites[k], root) {
            Some(g) => {
                if paths_equal(g.as_str(), f) {
                    proof { lemma_earliest_stable(sites@, root@, f@, k + 1, i + 1); }
                    return k;
                }
            },
            None => {},
        }
        k = k + 1;
    }
    k
}

/// A load as plain values.
pub open spec fn load_view(l: (Option<LangId>, String, Vec<String>)) -> (Option<LangId>, Seq<char>, Seq<Seq<char>>) {
    (l.0, l.1@, string_views(l.2@))
}

fn copy_strings(v: &Vec<String>) -> (r: Vec<String>)
    ensures
        r@ == v@,
{
    let mut out: Vec<String> = Vec::new();
    let mut i: usize = 0;
    while i < v.len()
        invariant
            0 <= i <= v@.len(),
            out@ == v@.take(i as int),
        decreases v@.len() - i,
    {
        out.push(v[i].clone());
        proof { assert(out@ =~= v@.take(i + 1)); }
        i = i + 1;
    }
    proof { assert(v@.take(i as int) =~= v@); }
    out
}

/// What load site `i` loads (see [`load_of_site`]); its warning is
/// appended to `diagnostics`.
fn load_of(
    sites: &Vec<CallSite>,
    reads: &Vec<Option<Result<Vec<u8>, String>>>,
    root: &str,
    i: usize,
    diagnostics: &mut Vec<Diagnostic>,
) -> (r: Option<(Option<LangId>, String, Vec<String>)>)
    requires
        i < sites@.len(),
    ensures
        match r {
            Some(l) => load_of_site(sites@, reads@, root@, i as int).0 == Some(load_view(l)),
            None => load_of_site(sites@, reads@, root@, i as int).0 is None,
        },
        final(diagnostics)@.map_values(|d: Diagnostic| diagnostic_view(d)) == old(diagnostics)@.map_values(|d: Diagnostic| diagnostic_view(d))
            + load_of_site(sites@, reads@, root@, i as int).1,
{
    let site = &sites[i];
    let ghost d0 = diagnostics@.map_values(|d: Diagnostic| diagnostic_view(d));
    proof { assert(d0 + Seq::empty() =~= d0); }
    if site.variant == CallSiteVariant::LoadFromFile {
        let tag = match &site.target_lang {
            Some(t) => from_metacall_tag(t.as_str()),
            None => None,
        };
        return Some((tag, string_from(root), copy_strings(&site.scripts)));
    }
    if !(site.variant == CallSiteVariant::LoadFromConfiguration && site.scripts.len() > 0) {
        return None;
    }
    let script = &site.scripts[0];
    let f = match join_contained(root, script.as_str()) {
        None => {
            let mut m = String::new();
            push_str(&mut m, "MetaCall configuration escapes the project root: ");
            push_str(&mut m, script.as_str());
            proof { assert(m@ =~= escape_message(script@)); }
            let d = Diagnostic { path: site.source_file.clone(), severity: Severity::Warning, message: m, source_range: site.source_range };
            let ghost before = diagnostics@;
            diagnostics.push(d);
            proof {
                assert(diagnostics@.map_values(|d: Diagnostic| diagnostic_view(d)) =~= before.map_values(|d: Diagnostic| diagnostic_view(d)).push(diagnostic_view(d)));
            }
            return None;
        },
        Some(f) => f,
    };
    let first = earliest_sharer_of(sites, root, f.as_str(), i);
    let parsed: Result<LoadConfiguration, String> = if first < reads.len() {
        match &reads[first] {
            None => {
                return None;
            },
            Some(Err(m)) => Err(m.clone()),
            Some(Ok(bytes)) => parse_load_configuration(bytes.as_slice()),
        }
    } else {
        return None;
    };
    match parsed {
        Err(m) => {
            if first == i {
                let d = Diagnostic { path: f, severity: Severity::Warning, message: m, source_range: site.source_range };
                let ghost before = diagnostics@;
                diagnostics.push(d);
                proof {
                    assert(diagnostics@.map_values(|d: Diagnostic| diagnostic_view(d)) =~= before.map_values(|d: Diagnostic| diagnostic_view(d)).push(diagnostic_view(d)));
                }
            }
            None
        },
        Ok(c) => {
            let tag = match &c.language_id {
                Some(id) => from_metacall_tag(id.as_str()),
                None => None,
            };
            let base = script_base(f.as_str(), &c, root);
            Some((tag, base, c.scripts))
        },
    }
}

/// A load record as plain values.
pub open spec fn record_view(r: (String, FileId, Option<LangId>)) -> (Seq<char>, FileId, Option<LangId>) {
    (r.0@, r.1, r.2)
}

fn push_records(
    graph: &CodeGraph,
    ix: &DeployIndex,
    source: &str,
    tag: Option<LangId>,
    base: &str,
    scripts: &Vec<String>,
    records: &mut Vec<(String, FileId, Option<LangId>)>,
)
    requires
        graph.wf(),
        entries_below(ix.path_to_idx@, ix.ordered@, graph.nodes().len()),
    ensures
        final(records)@.map_values(|r: (String, FileId, Option<LangId>)| record_view(r)) == old(records)@.map_values(
            |r: (String, FileId, Option<LangId>)| record_view(r),
        ) + script_records(*graph, ix.path_to_idx@, ix.ordered@, source@, tag, base@, string_views(scripts@)),
{
    let ghost start = records@.map_values(|r: (String, FileId, Option<LangId>)| record_view(r));
    let mut k: usize = 0;
    proof { assert(start + Seq::empty() =~= start); }
    while k < scripts.len()
        invariant
            graph.wf(),
            entries_below(ix.path_to_idx@, ix.ordered@, graph.nodes().len()),
            0 <= k <= scripts@.len(),
            records@.map_values(|r: (String, FileId, Option<LangId>)| record_view(r)) == start + script_records(
                *graph,
                ix.path_to_idx@,
                ix.ordered@,
                source@,
                tag,
                base@,
                string_views(scripts@.take(k as int)),
            ),
        decreases scripts@.len() - k,
    {
        let script = &scripts[k];
        proof {
            let sv = string_views(scripts@.take(k + 1));
            assert(sv.drop_last() =~= string_views(scripts@.take(k as int)));
            assert(sv.last() == script@);
            lemma_resolve_below(ix.path_to_idx@, ix.ordered@, base@, script@, source@, graph.nodes().len());
        }
        match ix.resolve_script(base, script.as_str(), source) {
            Some(idx) => {
                match graph.node(idx) {
                    NodeData::File(f) => {
                        let r = (string_from(source), f.id, tag);
                        let ghost before = records@;
                        records.push(r);
                        proof {
                            assert(records@.map_values(|r: (String, FileId, Option<LangId>)| record_view(r)) =~= before.map_values(
                                |r: (String, FileId, Option<LangId>)| record_view(r),
                            ).push(record_view(r)));
                        }
                    },
                    _ => {},
                }
            },
            None => {},
        }
        k = k + 1;
    }
    proof { assert(scripts@.take(k as int) =~= scripts@); }
}

fn first_load_of(records: &Vec<(String, FileId, Option<LangId>)>, source: &str, fid: FileId) -> (r: Option<Option<LangId>>)
    ensures
        r == first_load(records@.map_values(|r: (String, FileId, Option<LangId>)| record_view(r)), source@, fid),
{
    let ghost rv = records@.map_values(|r: (String, FileId, Option<LangId>)| record_view(r));
    let mut i: usize = 0;
    while i < records.len()
        invariant
            0 <= i <= records@.len(),
            rv == records@.map_values(|r: (String, FileId, Option<LangId>)| record_view(r)),
            first_load(rv.take(i as int), source@, fid) is None,
        decreases records@.len() - i,
    {
        proof {
            assert(rv.take(i + 1).drop_last() =~= rv.take(i as int));
            assert(rv.take(i + 1).last() == rv[i as int]);
        }
        if records[i].1 == fid && paths_equal(records[i].0.as_str(), source) {
            proof { lemma_first_load_prefix(rv, source@, fid, i + 1); }
            return Some(records[i].2);
        }
        i = i + 1;
    }
    proof { assert(rv.take(i as int) =~= rv); }
    None
}

proof fn lemma_first_load_prefix(records: Seq<(Seq<char>, FileId, Option<LangId>)>, source: Seq<char>, fid: FileId, m: int)
    requires
        0 <= m <= records.len(),
        first_load(records.take(m), source, fid) is Some,
    ensures
        first_load(records, source, fid) == first_load(records.take(m), source, fid),
    decreases records.len() - m,
{
    if m == records.len() {
        assert(records.take(m) =~= records);
    } else {
        assert(records.take(m + 1).drop_last() =~= records.take(m));
        lemma_first_load_prefix(records, source, fid, m + 1);
    }
}

fn loads(graph: &CodeGraph, records: &Vec<(String, FileId, Option<LangId>)>, source: &str, fid: FileId) -> (r: bool)
    requires
        graph.wf(),
    ensures
        r == loads_file(*graph, records@.map_values(|r: (String, FileId, Option<LangId>)| record_view(r)), source@, fid),
{
    match first_load_of(records, source, fid) {
        Some(None) => true,
        Some(Some(t)) => match graph.file_node(fid) {
            Some(f) => f.language == t,
            None => false,
        },
        None => false,
    }
}

/// The symbols of a name in every extraction (see [`named_symbols`]).
fn named_symbols_of(extractions: &Vec<FileExtraction>, name: &str) -> (r: Vec<(SymbolId, String)>)
    ensures
        r@.map_values(|e: (SymbolId, String)| (e.0, e.1@)) == named_symbols(extractions@, name@),
{
    let mut out: Vec<(SymbolId, String)> = Vec::new();
    let mut i: usize = 0;
    while i < extractions.len()
        invariant
            0 <= i <= extractions@.len(),
            out@.map_values(|e: (SymbolId, String)| (e.0, e.1@)) == named_symbols(extractions@.take(i as int), name@),
        decreases extractions@.len() - i,
    {
        proof {
            assert(extractions@.take(i + 1).drop_last() =~= extractions@.take(i as int));
            assert(extractions@.take(i + 1).last() == extractions@[i as int]);
        }
        let x = &extractions[i];
        let ghost start = out@.map_values(|e: (SymbolId, String)| (e.0, e.1@));
        let mut k: usize = 0;
        proof { assert(start + symbols_named(x.symbols@.take(0), x.path@, name@) =~= start); }
        while k < x.symbols.len()
            invariant
                0 <= k <= x.symbols@.len(),
                out@.map_values(|e: (SymbolId, String)| (e.0, e.1@)) == start + symbols_named(x.symbols@.take(k as int), x.path@, name@),
            decreases x.symbols@.len() - k,
        {
            proof {
                assert(x.symbols@.take(k + 1).drop_last() =~= x.symbols@.take(k as int));
                assert(x.symbols@.take(k + 1).last() == x.symbols@[k as int]);
            }
            if str_eq(x.symbols[k].name.as_str(), name) {
                let ghost before = out@;
                out.push((x.symbols[k].id, x.path.clone()));
                proof {
                    assert(out@.map_values(|e: (SymbolId, String)| (e.0, e.1@)) =~= before.map_values(|e: (SymbolId, String)| (e.0, e.1@)).push(
                        (x.symbols@[k as int].id, x.path@),
                    ));
                }
            }
            k = k + 1;
        }
        proof { assert(x.symbols@.take(k as int) =~= x.symbols@); }
        i = i + 1;
    }
    proof { assert(extractions@.take(i as int) =~= extractions@); }
    out
}

fn unresolved_diagnostic(site: &CallSite, name: &str) -> (r: Diagnostic)
    ensures
        diagnostic_view(r) == unresolved_view(*site, name@),
{
    let mut m = String::new();
    push_str(&mut m, "unresolved MetaCall invocation target: '");
    push_str(&mut m, name);
    push_str(&mut m, "'");
    proof { assert(m@ =~= "unresolved MetaCall invocation target: '"@ + name@ + "'"@); }
    Diagnostic { path: site.source_file.clone(), severity: Severity::Warning, message: m, source_range: site.source_range }
}

/// Resolves one client call site (see [`client_site_outcome`]).
fn resolve_client_site(
    graph: &CodeGraph,
    ix: &DeployIndex,
    records: &Vec<(String, FileId, Option<LangId>)>,
    extractions: &Vec<FileExtraction>,
    site: &CallSite,
    resolved: &mut Vec<ResolvedClientCall>,
    diagnostics: &mut Vec<Diagnostic>,
)
    requires
        graph.wf(),
    ensures
        final(resolved)@.map_values(|c: ResolvedClientCall| resolved_view(c)) == old(resolved)@.map_values(|c: ResolvedClientCall| resolved_view(c))
            + client_site_outcome(*graph, ix.path_to_idx@, ix.path_to_file_id@, records@.map_values(|r: (String, FileId, Option<LangId>)| record_view(r)), extractions@, *site).0,
        final(diagnostics)@.map_values(|d: Diagnostic| diagnostic_view(d)) == old(diagnostics)@.map_values(|d: Diagnostic| diagnostic_view(d))
            + client_site_outcome(*graph, ix.path_to_idx@, ix.path_to_file_id@, records@.map_values(|r: (String, FileId, Option<LangId>)| record_view(r)), extractions@, *site).1,
{
    let ghost rv = records@.map_values(|r: (String, FileId, Option<LangId>)| record_view(r));
    let ghost r0 = resolved@.map_values(|c: ResolvedClientCall| resolved_view(c));
    let ghost d0 = diagnostics@.map_values(|d: Diagnostic| diagnostic_view(d));
    proof {
        assert(r0 + Seq::empty() =~= r0);
        assert(d0 + Seq::empty() =~= d0);
    }
    if site.variant != CallSiteVariant::ClientCall {
        return;
    }
    let name = match &site.function_name {
        None => {
            return;
        },
        Some(n) => n,
    };
    if lookup_path(&ix.path_to_idx, site.source_file.as_str()).is_none() {
        return;
    }
    let named = named_symbols_of(extractions, name.as_str());
    let ghost nv = named@.map_values(|e: (SymbolId, String)| (e.0, e.1@));
    // Load-aware candidates.
    let mut candidates: Vec<SymbolId> = Vec::new();
    let mut k: usize = 0;
    while k < named.len()
        invariant
            graph.wf(),
            0 <= k <= named@.len(),
            nv == named@.map_values(|e: (SymbolId, String)| (e.0, e.1@)),
            rv == records@.map_values(|r: (String, FileId, Option<LangId>)| record_view(r)),
            candidates@ == load_candidates(*graph, rv, ix.path_to_file_id@, site.source_file@, nv.take(k as int)),
        decreases named@.len() - k,
    {
        proof {
            assert(nv.take(k + 1).drop_last() =~= nv.take(k as int));
            assert(nv.take(k + 1).last() == nv[k as int]);
        }
        match lookup_file_id(&ix.path_to_file_id, named[k].1.as_str()) {
            Some(fid) => {
                if loads(graph, records, site.source_file.as_str(), fid) {
                    candidates.push(named[k].0);
                }
            },
            None => {},
        }
        k = k + 1;
    }
    proof { assert(nv.take(k as int) =~= nv); }
    let global = candidates.len() == 0;
    if global {
        let mut k: usize = 0;
        while k < named.len()
            invariant
                0 <= k <= named@.len(),
                nv == named@.map_values(|e: (SymbolId, String)| (e.0, e.1@)),
                candidates@ == nv.take(k as int).map_values(|e: (SymbolId, Seq<char>)| e.0),
            decreases named@.len() - k,
        {
            candidates.push(named[k].0);
            proof {
                assert(nv.take(k + 1).map_values(|e: (SymbolId, Seq<char>)| e.0) =~= nv.take(k as int).map_values(
                    |e: (SymbolId, Seq<char>)| e.0,
                ).push(nv[k as int].0));
            }
            k = k + 1;
        }
        proof { assert(nv.take(k as int) =~= nv); }
    }
    if candidates.len() == 0 {
        let d = unresolved_diagnostic(site, name.as_str());
        let ghost before = diagnostics@;
        diagnostics.push(d);
        proof {
            assert(diagnostics@.map_values(|d: Diagnostic| diagnostic_view(d)) =~= before.map_values(|d: Diagnostic| diagnostic_view(d)).push(diagnostic_view(d)));
        }
        return;
    }
    let base: u32 = if global {
        if candidates.len() == 1 {
            CONFIDENCE_CLIENT_UNIQUE_GLOBAL
        } else {
            CONFIDENCE_CLIENT_MULTI_GLOBAL
        }
    } else if candidates.len() == 1 {
        CONFIDENCE_CLIENT_UNIQUE_LOAD
    } else {
        CONFIDENCE_CLIENT_MULTI_LOAD
    };
    let confidence = if base <= site.confidence { base } else { site.confidence };
    let ghost cv = candidates@;
    let mut emitted: usize = 0;
    let mut k: usize = 0;
    while k < candidates.len()
        invariant
            graph.wf(),
            0 <= k <= candidates@.len(),
            cv == candidates@,
            emitted <= k,
            emitted == emitted_calls(*graph, *site, cv.take(k as int), confidence).len(),
            resolved@.map_values(|c: ResolvedClientCall| resolved_view(c)) == r0 + emitted_calls(*graph, *site, cv.take(k as int), confidence),
        decreases candidates@.len() - k,
    {
        proof {
            assert(cv.take(k + 1).drop_last() =~= cv.take(k as int));
            assert(cv.take(k + 1).last() == cv[k as int]);
        }
        let sid = candidates[k];
        if graph.symbol_node_index(sid).is_some() {
            let c = ResolvedClientCall { source_file: site.source_file.clone(), source_range: site.source_range, target: sid, confidence };
            let ghost before = resolved@;
            resolved.push(c);
            proof {
                assert(resolved@.map_values(|c: ResolvedClientCall| resolved_view(c)) =~= before.map_values(|c: ResolvedClientCall| resolved_view(c)).push(
                    resolved_view(c),
                ));
            }
            emitted = emitted + 1;
        }
        k = k + 1;
    }
    proof { assert(cv.take(k as int) =~= cv); }
    if emitted == 0 {
        let d = unresolved_diagnostic(site, name.as_str());
        let ghost before = diagnostics@;
        diagnostics.push(d);
        proof {
            assert(diagnostics@.map_values(|d: Diagnostic| diagnostic_view(d)) =~= before.map_values(|d: Diagnostic| diagnostic_view(d)).push(diagnostic_view(d)));
        }
    }
}

/// Resolves the client call sites to their target symbols.
///
/// The load sites come first: each records the files its source file loads,
/// with the language tag of the load (`reads` holds, at the position of a
/// configuration site, what reading its file gave). Then each client call
/// resolves against the symbols of the loaded files, and against every
/// symbol of the name when none matches. The warnings of the load sites come
/// before those of the calls.
pub fn resolve_sites(
    graph: &CodeGraph,
    extractions: &Vec<FileExtraction>,
    call_sites: &Vec<CallSite>,
    reads: &Vec<Option<Result<Vec<u8>, String>>>,
    root: &str,
    index: &DeployIndex,
) -> (r: (Vec<ResolvedClientCall>, Vec<Diagnostic>))
    requires
        graph.wf(),
        entries_below(index.path_to_idx@, index.ordered@, graph.nodes().len()),
    ensures
        ({
            let loaded = load_pass(*graph, index.path_to_idx@, index.ordered@, call_sites@, reads@, root@, call_sites@.len() as int);
            let calls = client_pass(*graph, index.path_to_idx@, index.path_to_file_id@, loaded.0, extractions@, call_sites@, call_sites@.len() as int);
            &&& r.0@.map_values(|c: ResolvedClientCall| resolved_view(c)) == calls.0
            &&& r.1@.map_values(|d: Diagnostic| diagnostic_view(d)) == loaded.1 + calls.1
        }),
{
    let mut records: Vec<(String, FileId, Option<LangId>)> = Vec::new();
    let mut diagnostics: Vec<Diagnostic> = Vec::new();
    let mut i: usize = 0;
    while i < call_sites.len()
        invariant
            graph.wf(),
            entries_below(index.path_to_idx@, index.ordered@, graph.nodes().len()),
            0 <= i <= call_sites@.len(),
            records@.map_values(|r: (String, FileId, Option<LangId>)| record_view(r)) == load_pass(
                *graph, index.path_to_idx@, index.ordered@, call_sites@, reads@, root@, i as int).0,
            diagnostics@.map_values(|d: Diagnostic| diagnostic_view(d)) == load_pass(
                *graph, index.path_to_idx@, index.ordered@, call_sites@, reads@, root@, i as int).1,
        decreases call_sites@.len() - i,
    {
        let ghost rb = records@.map_values(|r: (String, FileId, Option<LangId>)| record_view(r));
        match load_of(call_sites, reads, root, i, &mut diagnostics) {
            Some((tag, base, scripts)) => {
                push_records(graph, index, call_sites[i].source_file.as_str(), tag, base.as_str(), &scripts, &mut records);
            },
            None => {
                proof { assert(rb + Seq::empty() =~= rb); }
            },
        }
        i = i + 1;
    }
    let ghost loaded = load_pass(*graph, index.path_to_idx@, index.ordered@, call_sites@, reads@, root@, call_sites@.len() as int);
    let ghost rv = records@.map_values(|r: (String, FileId, Option<LangId>)| record_view(r));
    let mut resolved: Vec<ResolvedClientCall> = Vec::new();
    let mut i: usize = 0;
    proof { assert(loaded.1 + Seq::empty() =~= loaded.1); }
    while i < call_sites.len()
        invariant
            graph.wf(),
            0 <= i <= call_sites@.len(),
            rv == records@.map_values(|r: (String, FileId, Option<LangId>)| record_view(r)),
            resolved@.map_values(|c: ResolvedClientCall| resolved_view(c)) == client_pass(
                *graph, index.path_to_idx@, index.path_to_file_id@, rv, extractions@, call_sites@, i as int).0,
            diagnostics@.map_values(|d: Diagnostic| diagnostic_view(d)) == loaded.1 + client_pass(
                *graph, index.path_to_idx@, index.path_to_file_id@, rv, extractions@, call_sites@, i as int).1,
        decreases call_sites@.len() - i,
    {
        resolve_client_site(graph, index, &records, extractions, &call_sites[i], &mut resolved, &mut diagnostics);
        proof {
            let prev = client_pass(*graph, index.path_to_idx@, index.path_to_file_id@, rv, extractions@, call_sites@, i as int);
            let step = client_site_outcome(*graph, index.path_to_idx@, index.path_to_file_id@, rv, extractions@, call_sites@[i as int]);
            assert(loaded.1 + prev.1 + step.1 =~= loaded.1 + (prev.1 + step.1));
        }
        i = i + 1;
    }
    (resolved, diagnostics)
}

/// Both call-edge projections of one resolution pass.
#[derive(Debug)]
pub struct ClientCallProjections {
    /// File node to symbol node, with confidence: deployment needs the
    /// calling file, since a top-level call has no enclosing symbol.
    pub file_edges: Vec<(usize, usize, u32)>,
    /// Symbol to symbol, with confidence: navigation keys on the caller.
    pub symbol_edges: Vec<(SymbolId, SymbolId, u32)>,
    /// One entry per resolved target, in resolution order.
    pub resolved: Vec<ResolvedClientCall>,
    pub diagnostics: Vec<Diagnostic>,
}

/// The width of a symbol's byte range (wrapping, as the subtraction does
/// in a release build).
pub open spec fn span(s: Symbol) -> usize {
    s.source_range.byte_end.wrapping_sub(s.source_range.byte_start)
}

/// The symbol's range holds the call's range.
pub open spec fn encloses(s: Symbol, r: SourceRange) -> bool {
    s.source_range.byte_start <= r.byte_start && r.byte_end <= s.source_range.byte_end
}

/// The first of the narrowest symbols that enclose the range.
pub open spec fn innermost(symbols: Seq<Symbol>, r: SourceRange) -> Option<Symbol>
    decreases symbols.len(),
{
    if symbols.len() == 0 {
        None
    } else {
        let prev = innermost(symbols.drop_last(), r);
        let s = symbols.last();
        if encloses(s, r) {
            match prev {
                Some(b) => if span(s) < span(b) {
                    Some(s)
                } else {
                    Some(b)
                },
                None => Some(s),
            }
        } else {
            prev
        }
    }
}

/// The extraction of a path: the last one of the same path.
pub open spec fn extraction_of(exs: Seq<FileExtraction>, p: Seq<char>) -> Option<FileExtraction>
    decreases exs.len(),
{
    if exs.len() == 0 {
        None
    } else if same_path(exs.last().path@, p) {
        Some(exs.last())
    } else {
        extraction_of(exs.drop_last(), p)
    }
}

/// The symbol that encloses a call: the narrowest enclosing symbol of the
/// call's file, when the call has a range.
pub open spec fn spec_enclosing_symbol(exs: Seq<FileExtraction>, path: Seq<char>, range: Option<SourceRange>) -> Option<SymbolId> {
    match range {
        None => None,
        Some(r) => match extraction_of(exs, path) {
            None => None,
            Some(x) => match innermost(x.symbols@, r) {
                Some(s) => Some(s.id),
                None => None,
            },
        },
    }
}

/// The symbol that encloses a call (see [`spec_enclosing_symbol`]).
pub fn enclosing_symbol(extractions: &Vec<FileExtraction>, path: &str, range: Option<SourceRange>) -> (r: Option<SymbolId>)
    ensures
        r == spec_enclosing_symbol(extractions@, path@, range),
{
    let r = match range {
        None => {
            return None;
        },
        Some(r) => r,
    };
    let mut i: usize = extractions.len();
    proof { assert(extractions@.take(i as int) =~= extractions@); }
    while i > 0
        invariant
            0 <= i <= extractions@.len(),
            range == Some(r),
            extraction_of(extractions@, path@) == extraction_of(extractions@.take(i as int), path@),
        decreases i,
    {
        proof {
            assert(extractions@.take(i as int).last() == extractions@[i - 1]);
            assert(extractions@.take(i as int).drop_last() =~= extractions@.take(i - 1));
        }
        if paths_equal(extractions[i - 1].path.as_str(), path) {
            proof { assert(extraction_of(extractions@.take(i as int), path@) == Some(extractions@[i - 1])); }
            return innermost_of(&extractions[i - 1].symbols, r);
        }
        i = i - 1;
    }
    None
}

/// The id of the first of the narrowest symbols that enclose the range
/// (see [`innermost`]).
pub fn innermost_of(symbols: &Vec<Symbol>, r: SourceRange) -> (res: Option<SymbolId>)
    ensures
        res == match innermost(symbols@, r) {
            Some(s) => Some(s.id),
            None => None::<SymbolId>,
        },
{
    let mut best: Option<usize> = None;
    let mut k: usize = 0;
    while k < symbols.len()
        invariant
            0 <= k <= symbols@.len(),
            match best {
                Some(b) => b < k && innermost(symbols@.take(k as int), r) == Some(symbols@[b as int]),
                None => innermost(symbols@.take(k as int), r) is None,
            },
        decreases symbols@.len() - k,
    {
        proof {
            assert(symbols@.take(k + 1).drop_last() =~= symbols@.take(k as int));
            assert(symbols@.take(k + 1).last() == symbols@[k as int]);
        }
        let s = &symbols[k];
        if s.source_range.byte_start <= r.byte_start && r.byte_end <= s.source_range.byte_end {
            match best {
                Some(b) => {
                    let sb = &symbols[b];
                    if s.source_range.byte_end.wrapping_sub(s.source_range.byte_start) < sb.source_range.byte_end.wrapping_sub(
                        sb.source_range.byte_start,
                    ) {
                        best = Some(k);
                    }
                },
                None => {
                    best = Some(k);
                },
            }
        }
        k = k + 1;
    }
    proof { assert(symbols@.take(k as int) =~= symbols@); }
    match best {
        Some(b) => Some(symbols[b].id),
        None => None,
    }
}

/// The file-to-symbol edges of the resolved calls whose file and target
/// are nodes of the graph, in resolution order.
pub open spec fn file_projection(g: CodeGraph, entries: Seq<(String, usize)>, calls: Seq<(Seq<char>, Option<SourceRange>, SymbolId, u32)>) -> Seq<(usize, usize, u32)>
    decreases calls.len(),
{
    if calls.len() == 0 {
        Seq::empty()
    } else {
        let prev = file_projection(g, entries, calls.drop_last());
        let c = calls.last();
        match (path_value(entries, c.0), lookup(g.symbol_to_index@, c.2)) {
            (Some(caller), Some(target)) => prev.push((caller, target, c.3)),
            _ => prev,
        }
    }
}

/// The symbol-to-symbol edges of the resolved calls that have an
/// enclosing symbol, in resolution order.
pub open spec fn symbol_projection(exs: Seq<FileExtraction>, calls: Seq<(Seq<char>, Option<SourceRange>, SymbolId, u32)>) -> Seq<(SymbolId, SymbolId, u32)>
    decreases calls.len(),
{
    if calls.len() == 0 {
        Seq::empty()
    } else {
        let prev = symbol_projection(exs, calls.drop_last());
        let c = calls.last();
        match spec_enclosing_symbol(exs, c.0, c.1) {
            Some(caller) => prev.push((caller, c.2, c.3)),
            None => prev,
        }
    }
}

/// Resolves the client call sites once and emits both projections, with
/// the lookup index of the graph's registered files.
pub fn resolve_client_call_projections(
    graph: &CodeGraph,
    extractions: &Vec<FileExtraction>,
    call_sites: &Vec<CallSite>,
    reads: &Vec<Option<Result<Vec<u8>, String>>>,
    root: &str,
) -> (r: ClientCallProjections)
    requires
        graph.wf(),
    ensures
        ({
            let entries = registered_paths(*graph);
            let loaded = load_pass(*graph, entries, ordered_entries(entries), call_sites@, reads@, root@, call_sites@.len() as int);
            let calls = client_pass(*graph, entries, registered_file_ids(*graph), loaded.0, extractions@, call_sites@, call_sites@.len() as int);
            &&& r.resolved@.map_values(|c: ResolvedClientCall| resolved_view(c)) == calls.0
            &&& r.diagnostics@.map_values(|d: Diagnostic| diagnostic_view(d)) == loaded.1 + calls.1
            &&& r.file_edges@ == file_projection(*graph, entries, calls.0)
            &&& r.symbol_edges@ == symbol_projection(extractions@, calls.0)
        }),
{
    let index = DeployIndex::build(graph);
    let (resolved, diagnostics) = resolve_sites(graph, extractions, call_sites, reads, root, &index);
    let ghost cv = resolved@.map_values(|c: ResolvedClientCall| resolved_view(c));
    let mut file_edges: Vec<(usize, usize, u32)> = Vec::new();
    let mut symbol_edges: Vec<(SymbolId, SymbolId, u32)> = Vec::new();
    let mut i: usize = 0;
    while i < resolved.len()
        invariant
            graph.wf(),
            0 <= i <= resolved@.len(),
            cv == resolved@.map_values(|c: ResolvedClientCall| resolved_view(c)),
            index.path_to_idx@ == registered_paths(*graph),
            file_edges@ == file_projection(*graph, index.path_to_idx@, cv.take(i as int)),
            symbol_edges@ == symbol_projection(extractions@, cv.take(i as int)),
        decreases resolved@.len() - i,
    {
        proof {
            assert(cv.take(i + 1).drop_last() =~= cv.take(i as int));
            assert(cv.take(i + 1).last() == cv[i as int]);
        }
        let call = &resolved[i];
        match (lookup_path(&index.path_to_idx, call.source_file.as_str()), graph.symbol_node_index(call.target)) {
            (Some(caller), Some(target)) => {
                file_edges.push((caller, target, call.confidence));
            },
            _ => {},
        }
        match enclosing_symbol(extractions, call.source_file.as_str(), call.source_range) {
            Some(caller) => {
                symbol_edges.push((caller, call.target, call.confidence));
            },
            None => {},
        }
        i = i + 1;
    }
    proof { assert(cv.take(i as int) =~= cv); }
    ClientCallProjections { file_edges, symbol_edges, resolved, diagnostics }
}

} // verus!
