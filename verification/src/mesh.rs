//! The Function Mesh annotation: deployment units derived from the strongly
//! connected components, and the cross-language edges between them.
//!
//! A unit is emitted for every component that holds a file or a symbol;
//! components made only of external nodes have nothing to deploy. An edge
//! whose endpoint lies in a component without a unit is anchored to the unit
//! that owns the symbols of one of that component's files.
use vstd::prelude::*;

use crate::analysis::GraphAnalysis;
use crate::assoc::{lemma_lookup_some, lookup};
use crate::edge::EdgeKind;
use crate::graph::CodeGraph;
use crate::lang::LangId;
use crate::model::FileId;
use crate::node::{FileNode, NodeData};
use crate::paths::{file_name, file_name_of, portable, portable_path};
use crate::pg::{graph_edge, graph_edge_count, graph_node, graph_node_count};
use crate::scanner::CallSite;
use crate::scc::{DeployabilityHint, Scc, SccAnalysis};
use crate::tags::{from_metacall_tag, metacall_tag, spec_from_metacall_tag, spec_metacall_tag};
use crate::text::{contains_text, has_substring, str_eq, string_from};

verus! {

/// The mesh annotation of an analysis.
pub struct MeshAnnotation {
    pub version: String,
    pub deployment_units: Vec<DeploymentUnit>,
    pub cross_language_edges: Vec<CrossLanguageEdge>,
    pub stats: MeshStats,
}

/// One deployment unit: the deployable content of one component.
pub struct DeploymentUnit {
    pub id: usize,
    pub symbols: Vec<UnitSymbol>,
    pub is_cross_language: bool,
    pub is_mesh_candidate: bool,
    pub deployability: String,
}

/// A symbol, file or external dependency of a unit.
pub struct UnitSymbol {
    pub name: String,
    pub file: String,
    pub language: String,
    pub kind: String,
}

/// A dependency between units of different languages.
pub struct CrossLanguageEdge {
    pub from_unit: usize,
    pub to_unit: usize,
    pub from_language: String,
    pub to_language: String,
    /// Source file of the call site that explains the edge, when one does.
    pub call_site: Option<String>,
    /// Confidence in thousandths.
    pub confidence: u32,
}

/// Totals of the annotation.
pub struct MeshStats {
    pub total_units: usize,
    pub cross_language_units: usize,
    pub independent_candidates: usize,
    /// Every language tag met, in order of first appearance.
    pub languages: Vec<String>,
}

/// A unit symbol as plain values: name, file, language tag and kind.
pub open spec fn symbol_view(s: UnitSymbol) -> (Seq<char>, Seq<char>, Seq<char>, Seq<char>) {
    (s.name@, s.file@, s.language@, s.kind@)
}

/// A cross-language edge as plain values.
pub open spec fn edge_view(e: CrossLanguageEdge) -> (usize, usize, Seq<char>, Seq<char>, Option<Seq<char>>, u32) {
    (
        e.from_unit,
        e.to_unit,
        e.from_language@,
        e.to_language@,
        match e.call_site {
            Some(s) => Some(s@),
            None => None,
        },
        e.confidence,
    )
}

/// The file node of a symbol's file, when the file is registered.
pub open spec fn file_of_symbol(g: CodeGraph, fid: FileId) -> Option<FileNode> {
    match lookup(g.file_to_index@, fid) {
        Some(i) => match g.nodes()[i as int] {
            NodeData::File(f) => Some(f),
            _ => None,
        },
        None => None,
    }
}

/// The language tag of a node; `unknown` for a symbol of an unregistered
/// file and for data nodes.
pub open spec fn node_language_tag(g: CodeGraph, n: NodeData) -> Seq<char> {
    match n {
        NodeData::Symbol(s) => match file_of_symbol(g, s.file_id) {
            Some(f) => spec_metacall_tag(f.language),
            None => "unknown"@,
        },
        NodeData::File(f) => spec_metacall_tag(f.language),
        NodeData::External(e) => spec_metacall_tag(e.language),
        NodeData::Data(_) => "unknown"@,
    }
}

/// What a node contributes to its unit.
pub open spec fn node_symbol(g: CodeGraph, n: NodeData) -> Option<(Seq<char>, Seq<char>, Seq<char>, Seq<char>)> {
    match n {
        NodeData::Symbol(s) => Some((
            s.name@,
            match file_of_symbol(g, s.file_id) {
                Some(f) => portable(f.path@),
                None => Seq::empty(),
            },
            node_language_tag(g, n),
            s.kind.spec_name(),
        )),
        NodeData::File(f) => Some((portable(f.path@), portable(f.path@), spec_metacall_tag(f.language), "file"@)),
        NodeData::External(e) => Some((e.raw_path@, "external"@, spec_metacall_tag(e.language), "external"@)),
        NodeData::Data(_) => None,
    }
}

/// The unit symbols of a component's nodes, in node order.
pub open spec fn unit_symbols(g: CodeGraph, nodes: Seq<usize>) -> Seq<(Seq<char>, Seq<char>, Seq<char>, Seq<char>)>
    decreases nodes.len(),
{
    if nodes.len() == 0 {
        Seq::empty()
    } else {
        let prev = unit_symbols(g, nodes.drop_last());
        match node_symbol(g, g.nodes()[nodes.last() as int]) {
            Some(s) => prev.push(s),
            None => prev,
        }
    }
}

/// A node with deployable content: a file or a symbol.
pub open spec fn is_real_node(n: NodeData) -> bool {
    n is File || n is Symbol
}

/// Some node of the list is a file or a symbol.
pub open spec fn has_real_node(g: CodeGraph, nodes: Seq<usize>) -> bool {
    exists|k: int| 0 <= k < nodes.len() && is_real_node(g.nodes()[#[trigger] nodes[k] as int])
}

/// Two symbols of the list carry different language tags.
pub open spec fn spans_languages(v: Seq<(Seq<char>, Seq<char>, Seq<char>, Seq<char>)>) -> bool {
    exists|a: int, b: int| 0 <= a < v.len() && 0 <= b < v.len() && (#[trigger] v[a]).2 != (#[trigger] v[b]).2
}

/// The components that get a unit, in order.
pub open spec fn emitted_components(g: CodeGraph, comps: Seq<Scc>) -> Seq<int>
    decreases comps.len(),
{
    if comps.len() == 0 {
        Seq::empty()
    } else {
        let prev = emitted_components(g, comps.drop_last());
        if has_real_node(g, comps.last().nodes@) {
            prev.push(comps.len() - 1)
        } else {
            prev
        }
    }
}

/// Number of components whose symbols span several languages.
pub open spec fn cross_language_components(g: CodeGraph, comps: Seq<Scc>) -> nat
    decreases comps.len(),
{
    if comps.len() == 0 {
        0
    } else {
        cross_language_components(g, comps.drop_last()) + if spans_languages(unit_symbols(g, comps.last().nodes@)) {
            1nat
        } else {
            0nat
        }
    }
}

/// Number of units whose component is independent.
pub open spec fn independent_units(g: CodeGraph, comps: Seq<Scc>) -> nat
    decreases comps.len(),
{
    if comps.len() == 0 {
        0
    } else {
        independent_units(g, comps.drop_last()) + if has_real_node(g, comps.last().nodes@) && comps.last().hint
            == DeployabilityHint::Independent {
            1nat
        } else {
            0nat
        }
    }
}

/// The language tags of all components' symbols, in order.
pub open spec fn all_language_tags(g: CodeGraph, comps: Seq<Scc>) -> Seq<Seq<char>>
    decreases comps.len(),
{
    if comps.len() == 0 {
        Seq::empty()
    } else {
        all_language_tags(g, comps.drop_last()) + unit_symbols(g, comps.last().nodes@).map_values(
            |s: (Seq<char>, Seq<char>, Seq<char>, Seq<char>)| s.2,
        )
    }
}

/// The distinct items of a list, in order of first appearance.
pub open spec fn distinct_in_order(s: Seq<Seq<char>>) -> Seq<Seq<char>>
    decreases s.len(),
{
    if s.len() == 0 {
        Seq::empty()
    } else {
        let prev = distinct_in_order(s.drop_last());
        if prev.contains(s.last()) {
            prev
        } else {
            prev.push(s.last())
        }
    }
}

/// Unit `k` is the unit of the `k`-th emitted component.
pub open spec fn unit_matches(u: DeploymentUnit, g: CodeGraph, comps: Seq<Scc>, k: int) -> bool {
    let c = emitted_components(g, comps)[k];
    let syms = unit_symbols(g, comps[c].nodes@);
    &&& u.id == k
    &&& u.symbols@.map_values(|s: UnitSymbol| symbol_view(s)) == syms
    &&& u.is_cross_language == spans_languages(syms)
    &&& u.is_mesh_candidate == (comps[c].hint == DeployabilityHint::Independent)
    &&& u.deployability@ == comps[c].hint.spec_name()
}

/// The symbols of every unit, in unit order.
pub open spec fn unit_views(g: CodeGraph, comps: Seq<Scc>) -> Seq<Seq<(Seq<char>, Seq<char>, Seq<char>, Seq<char>)>> {
    emitted_components(g, comps).map_values(|c: int| unit_symbols(g, comps[c].nodes@))
}

/// A unit lists a file among its non-external symbols.
pub open spec fn unit_owns_file(syms: Seq<(Seq<char>, Seq<char>, Seq<char>, Seq<char>)>, path: Seq<char>) -> bool {
    exists|k: int| 0 <= k < syms.len() && (#[trigger] syms[k]).3 != "external"@ && syms[k].1 == path
}

/// The last unit owning a file.
pub open spec fn unit_of_file(units: Seq<Seq<(Seq<char>, Seq<char>, Seq<char>, Seq<char>)>>, path: Seq<char>) -> Option<int>
    decreases units.len(),
{
    if units.len() == 0 {
        None
    } else if unit_owns_file(units.last(), path) {
        Some(units.len() - 1)
    } else {
        unit_of_file(units.drop_last(), path)
    }
}

/// A component holds a file node of that portable path.
pub open spec fn component_has_file(g: CodeGraph, nodes: Seq<usize>, path: Seq<char>) -> bool {
    exists|k: int| 0 <= k < nodes.len() && (g.nodes()[#[trigger] nodes[k] as int] matches NodeData::File(f) && portable(f.path@) == path)
}

/// The last component holding a file node of that portable path.
pub open spec fn component_of_file(g: CodeGraph, comps: Seq<Scc>, path: Seq<char>) -> Option<int>
    decreases comps.len(),
{
    if comps.len() == 0 {
        None
    } else if component_has_file(g, comps.last().nodes@, path) {
        Some(comps.len() - 1)
    } else {
        component_of_file(g, comps.drop_last(), path)
    }
}

/// Position of an item in a list (its last occurrence).
pub open spec fn index_in(s: Seq<int>, c: int) -> Option<int>
    decreases s.len(),
{
    if s.len() == 0 {
        None
    } else if s.last() == c {
        Some(s.len() - 1)
    } else {
        index_in(s.drop_last(), c)
    }
}

/// The unit owning one of the files of the nodes: the first file, in node
/// order, that some unit owns.
pub open spec fn first_anchor(g: CodeGraph, units: Seq<Seq<(Seq<char>, Seq<char>, Seq<char>, Seq<char>)>>, nodes: Seq<usize>) -> Option<int>
    decreases nodes.len(),
{
    if nodes.len() == 0 {
        None
    } else {
        match first_anchor(g, units, nodes.drop_last()) {
            Some(u) => Some(u),
            None => match g.nodes()[nodes.last() as int] {
                NodeData::File(f) => unit_of_file(units, portable(f.path@)),
                _ => None,
            },
        }
    }
}

/// The unit of a component: its own, or the one anchoring its files.
pub open spec fn resolve_unit(g: CodeGraph, comps: Seq<Scc>, c: int) -> Option<int> {
    match index_in(emitted_components(g, comps), c) {
        Some(u) => Some(u),
        None => first_anchor(g, unit_views(g, comps), comps[c].nodes@),
    }
}

/// The language a call site's target tag names, as a tag.
pub open spec fn site_target_tag(site: CallSite) -> Option<Seq<char>> {
    match site.target_lang {
        Some(t) => Some(spec_metacall_tag(
            match spec_from_metacall_tag(t@) {
                Some(l) => l,
                None => site.caller_lang,
            },
        )),
        None => None,
    }
}

/// A call site explains an edge from component `u_comp` to node `v` of
/// language `v_lang`: it lies in `u_comp` and targets that language, or it
/// names the target file in one of its scripts.
pub open spec fn site_explains(g: CodeGraph, comps: Seq<Scc>, site: CallSite, u_comp: int, v: usize, v_lang: Seq<char>) -> bool {
    &&& component_of_file(g, comps, portable(site.source_file@)) == Some(u_comp)
    &&& {
        ||| site_target_tag(site) == Some(v_lang)
        ||| (g.nodes()[v as int] matches NodeData::File(f) && {
            let dst = match file_name(f.path@) {
                Some(n) => n,
                None => Seq::empty(),
            };
            exists|k: int| 0 <= k < site.scripts@.len() && (has_substring(#[trigger] site.scripts@[k]@, dst) || has_substring(dst, site.scripts@[k]@))
        })
    }
}

/// The source file of the first call site explaining an edge.
pub open spec fn explaining_site(g: CodeGraph, comps: Seq<Scc>, sites: Seq<CallSite>, u_comp: int, v: usize, v_lang: Seq<char>) -> Option<Seq<char>>
    decreases sites.len(),
{
    if sites.len() == 0 {
        None
    } else {
        match explaining_site(g, comps, sites.drop_last(), u_comp, v, v_lang) {
            Some(p) => Some(p),
            None => if site_explains(g, comps, sites.last(), u_comp, v, v_lang) {
                Some(portable(sites.last().source_file@))
            } else {
                None
            },
        }
    }
}

/// The mesh edge an edge of the graph makes, before deduplication.
pub open spec fn edge_candidate(g: CodeGraph, scc: SccAnalysis, sites: Seq<CallSite>, e: (usize, usize, crate::edge::EdgeData)) -> Option<(usize, usize, Seq<char>, Seq<char>, Option<Seq<char>>, u32)> {
    let comps = scc.components@;
    let n2c = scc.node_to_component@;
    if e.2.kind != EdgeKind::Ownership && e.0 < n2c.len() && e.1 < n2c.len() && n2c[e.0 as int] != n2c[e.1 as int] {
        let uc = n2c[e.0 as int] as int;
        let vc = n2c[e.1 as int] as int;
        let ul = node_language_tag(g, g.nodes()[e.0 as int]);
        let vl = node_language_tag(g, g.nodes()[e.1 as int]);
        match (resolve_unit(g, comps, uc), resolve_unit(g, comps, vc)) {
            (Some(fu), Some(tu)) => if ul != vl && ul != "unknown"@ && vl != "unknown"@ {
                Some((fu as usize, tu as usize, ul, vl, explaining_site(g, comps, sites, uc, e.1, vl), e.2.confidence))
            } else {
                None
            },
            _ => None,
        }
    } else {
        None
    }
}

/// Two mesh edges share units and languages.
pub open spec fn same_mesh_key(
    a: (usize, usize, Seq<char>, Seq<char>, Option<Seq<char>>, u32),
    b: (usize, usize, Seq<char>, Seq<char>, Option<Seq<char>>, u32),
) -> bool {
    a.0 == b.0 && a.1 == b.1 && a.2 == b.2 && a.3 == b.3
}

/// The mesh edges of a list of graph edges: each candidate whose units and
/// languages were not seen before, in edge order.
pub open spec fn mesh_edges(g: CodeGraph, scc: SccAnalysis, sites: Seq<CallSite>, es: Seq<(usize, usize, crate::edge::EdgeData)>) -> Seq<(usize, usize, Seq<char>, Seq<char>, Option<Seq<char>>, u32)>
    decreases es.len(),
{
    if es.len() == 0 {
        Seq::empty()
    } else {
        let prev = mesh_edges(g, scc, sites, es.drop_last());
        match edge_candidate(g, scc, sites, es.last()) {
            Some(c) => if exists|j: int| 0 <= j < prev.len() && same_mesh_key(#[trigger] prev[j], c) {
                prev
            } else {
                prev.push(c)
            },
            None => prev,
        }
    }
}

/// The analysis is consistent: component nodes and node components are in
/// range.
pub open spec fn analysis_in_range(g: CodeGraph, scc: SccAnalysis) -> bool {
    &&& forall|c: int, k: int| 0 <= c < scc.components@.len() && 0 <= k < scc.components@[c].nodes@.len()
        ==> (#[trigger] scc.components@[c].nodes@[k]) < g.nodes().len()
    &&& forall|v: int| 0 <= v < scc.node_to_component@.len() ==> (#[trigger] scc.node_to_component@[v]) < scc.components@.len()
}

/// The file node of a symbol's file.
fn symbol_file<'a>(g: &'a CodeGraph, fid: FileId) -> (r: Option<&'a FileNode>)
    requires
        g.wf(),
    ensures
        r matches Some(f) ==> file_of_symbol(*g, fid) == Some(*f),
        r is None ==> file_of_symbol(*g, fid) is None,
{
    let r = g.file_node(fid);
    proof {
        if lookup(g.file_to_index@, fid) is Some {
            lemma_lookup_some(g.file_to_index@, fid);
            let k = choose|k: int| 0 <= k < g.file_to_index@.len() && (#[trigger] g.file_to_index@[k]).0 == fid
                && g.file_to_index@[k].1 == lookup(g.file_to_index@, fid)->0;
            assert(crate::graph::is_file_node(g.nodes(), g.file_to_index@[k].1, g.file_to_index@[k].0));
        }
    }
    r
}

/// The language tag of a node (see [`node_language_tag`]).
pub fn get_node_language(node: &NodeData, graph: &CodeGraph) -> (r: &'static str)
    requires
        graph.wf(),
    ensures
        r@ == node_language_tag(*graph, *node),
{
    match node {
        NodeData::Symbol(s) => match symbol_file(graph, s.file_id) {
            Some(f) => metacall_tag(f.language),
            None => "unknown",
        },
        NodeData::File(f) => metacall_tag(f.language),
        NodeData::External(e) => metacall_tag(e.language),
        NodeData::Data(_) => "unknown",
    }
}

fn node_symbol_of(g: &CodeGraph, node: &NodeData) -> (r: Option<UnitSymbol>)
    requires
        g.wf(),
    ensures
        r matches Some(s) ==> node_symbol(*g, *node) == Some(symbol_view(s)),
        r is None ==> node_symbol(*g, *node) is None,
{
    match node {
        NodeData::Symbol(sym) => {
            let file = match symbol_file(g, sym.file_id) {
                Some(f) => portable_path(f.path.as_str()),
                None => String::new(),
            };
            let tag = get_node_language(node, g);
            Some(UnitSymbol { name: sym.name.clone(), file, language: string_from(tag), kind: string_from(sym.kind.name()) })
        },
        NodeData::File(f) => {
            let p = portable_path(f.path.as_str());
            Some(UnitSymbol {
                name: p.clone(),
                file: p,
                language: string_from(metacall_tag(f.language)),
                kind: string_from("file"),
            })
        },
        NodeData::External(e) => Some(UnitSymbol {
            name: e.raw_path.clone(),
            file: string_from("external"),
            language: string_from(metacall_tag(e.language)),
            kind: string_from("external"),
        }),
        NodeData::Data(_) => None,
    }
}

/// The nodes of the list are nodes of the graph.
pub open spec fn nodes_in_range(g: CodeGraph, nodes: Seq<usize>) -> bool {
    forall|k: int| 0 <= k < nodes.len() ==> (#[trigger] nodes[k]) < g.nodes().len()
}

fn unit_symbols_of(g: &CodeGraph, nodes: &Vec<usize>) -> (r: Vec<UnitSymbol>)
    requires
        g.wf(),
        nodes_in_range(*g, nodes@),
    ensures
        r@.map_values(|s: UnitSymbol| symbol_view(s)) == unit_symbols(*g, nodes@),
{
    let mut out: Vec<UnitSymbol> = Vec::new();
    let mut i: usize = 0;
    while i < nodes.len()
        invariant
            g.wf(),
            nodes_in_range(*g, nodes@),
            0 <= i <= nodes@.len(),
            out@.map_values(|s: UnitSymbol| symbol_view(s)) == unit_symbols(*g, nodes@.take(i as int)),
        decreases nodes@.len() - i,
    {
        let idx = nodes[i];
        proof {
            assert(nodes@.take(i + 1).drop_last() =~= nodes@.take(i as int));
            assert(nodes@.take(i + 1).last() == idx);
            assert(idx < g.nodes().len());
        }
        let node = graph_node(&g.graph, idx);
        match node_symbol_of(g, node) {
            Some(sym) => {
                let ghost before = out@;
                out.push(sym);
                proof {
                    assert(out@.map_values(|s: UnitSymbol| symbol_view(s)) =~= before.map_values(|s: UnitSymbol| symbol_view(s)).push(
                        symbol_view(sym),
                    ));
                }
            },
            None => {},
        }
        i = i + 1;
    }
    proof { assert(nodes@.take(i as int) =~= nodes@); }
    out
}

fn has_real(g: &CodeGraph, nodes: &Vec<usize>) -> (r: bool)
    requires
        g.wf(),
        nodes_in_range(*g, nodes@),
    ensures
        r == has_real_node(*g, nodes@),
{
    let mut i: usize = 0;
    while i < nodes.len()
        invariant
            g.wf(),
            nodes_in_range(*g, nodes@),
            0 <= i <= nodes@.len(),
            forall|k: int| 0 <= k < i ==> !is_real_node(g.nodes()[#[trigger] nodes@[k] as int]),
        decreases nodes@.len() - i,
    {
        let idx = nodes[i];
        proof { assert(idx < g.nodes().len()); }
        match graph_node(&g.graph, idx) {
            NodeData::File(_) | NodeData::Symbol(_) => {
                proof { assert(is_real_node(g.nodes()[nodes@[i as int] as int])); }
                return true;
            },
            _ => {},
        }
        i = i + 1;
    }
    false
}

fn spans(syms: &Vec<UnitSymbol>) -> (r: bool)
    ensures
        r == spans_languages(syms@.map_values(|s: UnitSymbol| symbol_view(s))),
{
    let ghost v = syms@.map_values(|s: UnitSymbol| symbol_view(s));
    if syms.len() == 0 {
        return false;
    }
    let mut i: usize = 1;
    while i < syms.len()
        invariant
            v == syms@.map_values(|s: UnitSymbol| symbol_view(s)),
            1 <= i <= syms@.len(),
            forall|k: int| 0 <= k < i ==> (#[trigger] v[k]).2 == v[0].2,
        decreases syms@.len() - i,
    {
        if !str_eq(syms[i].language.as_str(), syms[0].language.as_str()) {
            proof {
                assert(v[i as int].2 != v[0].2);
            }
            return true;
        }
        i = i + 1;
    }
    proof {
        if spans_languages(v) {
            let (a, b) = choose|a: int, b: int| 0 <= a < v.len() && 0 <= b < v.len() && (#[trigger] v[a]).2 != (#[trigger] v[b]).2;
            assert(v[a].2 == v[0].2 && v[b].2 == v[0].2);
        }
    }
    false
}

fn contains_string(list: &Vec<String>, s: &String) -> (r: bool)
    ensures
        r == list@.map_values(|x: String| x@).contains(s@),
{
    let ghost v = list@.map_values(|x: String| x@);
    let mut i: usize = 0;
    while i < list.len()
        invariant
            v == list@.map_values(|x: String| x@),
            0 <= i <= list@.len(),
            forall|k: int| 0 <= k < i ==> v[k] != s@,
        decreases list@.len() - i,
    {
        if str_eq(list[i].as_str(), s.as_str()) {
            proof { assert(v[i as int] == s@); }
            return true;
        }
        i = i + 1;
    }
    false
}

/// What the pass over the components builds.
struct UnitPass {
    units: Vec<DeploymentUnit>,
    emitted: Vec<usize>,
    cross_language_units: usize,
    independent_candidates: usize,
    languages: Vec<String>,
}

/// The pass agrees with the components `comps` (a prefix of `all`).
spec fn parts_agree(
    units: Seq<DeploymentUnit>,
    emitted: Seq<usize>,
    cross: usize,
    candidates: usize,
    languages: Seq<String>,
    g: CodeGraph,
    comps: Seq<Scc>,
    all: Seq<Scc>,
) -> bool {
    &&& units.len() == emitted_components(g, comps).len()
    &&& emitted.len() == emitted_components(g, comps).len()
    &&& forall|k: int| 0 <= k < emitted.len() ==> (#[trigger] emitted[k]) as int == emitted_components(g, comps)[k]
    &&& forall|k: int| 0 <= k < units.len() ==> unit_matches(#[trigger] units[k], g, all, k)
    &&& cross == cross_language_components(g, comps)
    &&& candidates == independent_units(g, comps)
    &&& languages.map_values(|x: String| x@) == distinct_in_order(all_language_tags(g, comps))
}

spec fn pass_agrees(p: UnitPass, g: CodeGraph, all: Seq<Scc>) -> bool {
    parts_agree(p.units@, p.emitted@, p.cross_language_units, p.independent_candidates, p.languages@, g, all, all)
}

proof fn lemma_emitted_range(g: CodeGraph, comps: Seq<Scc>)
    ensures
        forall|k: int| 0 <= k < emitted_components(g, comps).len() ==> 0 <= #[trigger] emitted_components(g, comps)[k] < comps.len(),
        forall|a: int, b: int| 0 <= a < b < emitted_components(g, comps).len() ==> #[trigger] emitted_components(g, comps)[a]
            < #[trigger] emitted_components(g, comps)[b],
    decreases comps.len(),
{
    if comps.len() > 0 {
        let t = comps.drop_last();
        lemma_emitted_range(g, t);
        let prev = emitted_components(g, t);
        let cur = emitted_components(g, comps);
        assert forall|k: int| 0 <= k < cur.len() implies 0 <= #[trigger] cur[k] < comps.len() by {
            if k < prev.len() {
                assert(cur[k] == prev[k]);
            }
        }
        assert forall|a: int, b: int| 0 <= a < b < cur.len() implies #[trigger] cur[a] < #[trigger] cur[b] by {
            assert(cur[a] == prev[a]);
            if b < prev.len() {
                assert(cur[b] == prev[b]);
            }
        }
    }
}

proof fn lemma_emitted_prefix(g: CodeGraph, comps: Seq<Scc>, m: int)
    requires
        0 <= m <= comps.len(),
    ensures
        emitted_components(g, comps.take(m)).len() <= emitted_components(g, comps).len(),
        emitted_components(g, comps).take(emitted_components(g, comps.take(m)).len() as int) == emitted_components(g, comps.take(m)),
    decreases comps.len() - m,
{
    let full = emitted_components(g, comps);
    if m == comps.len() {
        assert(comps.take(m) =~= comps);
        assert(full.take(full.len() as int) =~= full);
    } else {
        lemma_emitted_prefix(g, comps, m + 1);
        let t = comps.take(m + 1);
        assert(t.drop_last() =~= comps.take(m));
        let prev = emitted_components(g, comps.take(m));
        let next = emitted_components(g, t);
        if next != prev {
            assert(next == prev.push(m));
            assert(full.take(prev.len() as int) =~= next.take(prev.len() as int));
            assert(next.take(prev.len() as int) =~= prev);
        }
    }
}

/// The pass over the components: one unit per component with a file or a
/// symbol, the counts, and the language tags met.
fn unit_pass(g: &CodeGraph, scc: &SccAnalysis) -> (r: UnitPass)
    requires
        g.wf(),
        analysis_in_range(*g, *scc),
    ensures
        pass_agrees(r, *g, scc.components@),
{
    let ghost all = scc.components@;
    let mut units: Vec<DeploymentUnit> = Vec::new();
    let mut emitted: Vec<usize> = Vec::new();
    let mut cross_count: usize = 0;
    let mut candidates: usize = 0;
    let mut languages: Vec<String> = Vec::new();
    let mut c: usize = 0;
    proof {
        assert(all.take(0) =~= Seq::<Scc>::empty());
        assert(languages@.map_values(|x: String| x@) =~= Seq::<Seq<char>>::empty());
    }
    while c < scc.components.len()
        invariant
            g.wf(),
            analysis_in_range(*g, *scc),
            all == scc.components@,
            0 <= c <= all.len(),
            parts_agree(units@, emitted@, cross_count, candidates, languages@, *g, all.take(c as int), all),
            cross_count <= c,
            candidates <= c,
        decreases all.len() - c,
    {
        let comp = &scc.components[c];
        let ghost t = all.take(c + 1);
        proof {
            assert(t.drop_last() =~= all.take(c as int));
            assert(t.last() == *comp);
            assert forall|k: int| 0 <= k < comp.nodes@.len() implies (#[trigger] comp.nodes@[k]) < g.nodes().len() by {
                assert(all[c as int].nodes@[k] == comp.nodes@[k]);
            }
            lemma_emitted_prefix(*g, all, c + 1);
        }
        let symbols = unit_symbols_of(g, &comp.nodes);
        let deployable = has_real(g, &comp.nodes);
        let cross = spans(&symbols);
        if cross {
            cross_count = cross_count + 1;
        }
        let ghost base = all_language_tags(*g, all.take(c as int));
        let ghost tags = symbols@.map_values(|s: UnitSymbol| s.language@);
        proof {
            assert(tags =~= unit_symbols(*g, comp.nodes@).map_values(|s: (Seq<char>, Seq<char>, Seq<char>, Seq<char>)| s.2));
            assert(all_language_tags(*g, t) == base + tags);
            assert(base + tags.take(0) =~= base);
        }
        let mut j: usize = 0;
        while j < symbols.len()
            invariant
                tags == symbols@.map_values(|s: UnitSymbol| s.language@),
                0 <= j <= symbols@.len(),
                languages@.map_values(|x: String| x@) == distinct_in_order(base + tags.take(j as int)),
            decreases symbols@.len() - j,
        {
            let sym = &symbols[j];
            proof {
                assert((base + tags.take(j + 1)).drop_last() =~= base + tags.take(j as int));
                assert((base + tags.take(j + 1)).last() == sym.language@);
            }
            if !contains_string(&languages, &sym.language) {
                let ghost before = languages@;
                languages.push(sym.language.clone());
                proof {
                    assert(languages@.map_values(|x: String| x@) =~= before.map_values(|x: String| x@).push(sym.language@));
                }
            }
            j = j + 1;
        }
        proof { assert(tags.take(j as int) =~= tags); }
        if deployable {
            let candidate = match comp.hint {
                DeployabilityHint::Independent => true,
                _ => false,
            };
            if candidate {
                candidates = candidates + 1;
            }
            let id = units.len();
            let ghost before_units = units@;
            let ghost before_emitted = emitted@;
            units.push(DeploymentUnit {
                id,
                symbols,
                is_cross_language: cross,
                is_mesh_candidate: candidate,
                deployability: string_from(comp.hint.as_str()),
            });
            emitted.push(c);
            proof {
                let e = emitted_components(*g, t);
                assert(e == emitted_components(*g, all.take(c as int)).push(c as int));
                let ef = emitted_components(*g, all);
                assert(ef.take(e.len() as int) == e);
                assert(ef[id as int] == e[id as int]);
                assert forall|k: int| 0 <= k < units@.len() implies unit_matches(#[trigger] units@[k], *g, all, k) by {
                    if k < before_units.len() {
                        assert(units@[k] == before_units[k]);
                    } else {
                        assert(ef[k] == c as int);
                    }
                }
                assert forall|k: int| 0 <= k < emitted@.len() implies (#[trigger] emitted@[k]) as int == e[k] by {
                    if k < before_emitted.len() {
                        assert(emitted@[k] == before_emitted[k]);
                    }
                }
            }
        } else {
            proof {
                assert(emitted_components(*g, t) == emitted_components(*g, all.take(c as int)));
            }
        }
        c = c + 1;
    }
    proof { assert(all.take(c as int) =~= all); }
    UnitPass { units, emitted, cross_language_units: cross_count, independent_candidates: candidates, languages }
}

/// The symbols of the units, as plain values.
pub open spec fn units_symbols(units: Seq<DeploymentUnit>) -> Seq<Seq<(Seq<char>, Seq<char>, Seq<char>, Seq<char>)>> {
    units.map_values(|u: DeploymentUnit| u.symbols@.map_values(|s: UnitSymbol| symbol_view(s)))
}

fn owns_file(u: &DeploymentUnit, path: &String) -> (r: bool)
    ensures
        r == unit_owns_file(u.symbols@.map_values(|s: UnitSymbol| symbol_view(s)), path@),
{
    let ghost v = u.symbols@.map_values(|s: UnitSymbol| symbol_view(s));
    let mut i: usize = 0;
    while i < u.symbols.len()
        invariant
            v == u.symbols@.map_values(|s: UnitSymbol| symbol_view(s)),
            0 <= i <= v.len(),
            forall|k: int| 0 <= k < i ==> !((#[trigger] v[k]).3 != "external"@ && v[k].1 == path@),
        decreases v.len() - i,
    {
        let sym = &u.symbols[i];
        if !str_eq(sym.kind.as_str(), "external") && str_eq(sym.file.as_str(), path.as_str()) {
            proof { assert(v[i as int] == symbol_view(*sym)); }
            return true;
        }
        i = i + 1;
    }
    false
}

/// The last unit owning a file (see [`unit_of_file`]).
fn unit_of_file_in(units: &Vec<DeploymentUnit>, path: &String) -> (r: Option<usize>)
    ensures
        r matches Some(u) ==> unit_of_file(units_symbols(units@), path@) == Some(u as int),
        r is None ==> unit_of_file(units_symbols(units@), path@) is None,
{
    let ghost us = units_symbols(units@);
    let mut i: usize = units.len();
    proof { assert(us.take(i as int) =~= us); }
    while i > 0
        invariant
            us == units_symbols(units@),
            0 <= i <= units@.len(),
            unit_of_file(us, path@) == unit_of_file(us.take(i as int), path@),
        decreases i,
    {
        let ghost t = us.take(i as int);
        proof {
            assert(t.last() == us[i - 1]);
            assert(t.drop_last() =~= us.take(i - 1));
        }
        if owns_file(&units[i - 1], path) {
            return Some(i - 1);
        }
        i = i - 1;
    }
    None
}

fn component_holds_file(g: &CodeGraph, nodes: &Vec<usize>, path: &String) -> (r: bool)
    requires
        g.wf(),
        nodes_in_range(*g, nodes@),
    ensures
        r == component_has_file(*g, nodes@, path@),
{
    let mut i: usize = 0;
    while i < nodes.len()
        invariant
            g.wf(),
            nodes_in_range(*g, nodes@),
            0 <= i <= nodes@.len(),
            forall|k: int| 0 <= k < i ==> !(g.nodes()[#[trigger] nodes@[k] as int] matches NodeData::File(f) && portable(f.path@) == path@),
        decreases nodes@.len() - i,
    {
        let idx = nodes[i];
        proof { assert(idx < g.nodes().len()); }
        match graph_node(&g.graph, idx) {
            NodeData::File(f) => {
                let p = portable_path(f.path.as_str());
                if str_eq(p.as_str(), path.as_str()) {
                    return true;
                }
            },
            _ => {},
        }
        i = i + 1;
    }
    false
}

/// The last component holding a file (see [`component_of_file`]).
fn component_of_file_in(g: &CodeGraph, scc: &SccAnalysis, path: &String) -> (r: Option<usize>)
    requires
        g.wf(),
        analysis_in_range(*g, *scc),
    ensures
        r matches Some(c) ==> component_of_file(*g, scc.components@, path@) == Some(c as int),
        r is None ==> component_of_file(*g, scc.components@, path@) is None,
{
    let ghost all = scc.components@;
    let mut i: usize = scc.components.len();
    proof { assert(all.take(i as int) =~= all); }
    while i > 0
        invariant
            g.wf(),
            analysis_in_range(*g, *scc),
            all == scc.components@,
            0 <= i <= all.len(),
            component_of_file(*g, all, path@) == component_of_file(*g, all.take(i as int), path@),
        decreases i,
    {
        let ghost t = all.take(i as int);
        proof {
            assert(t.last() == all[i - 1]);
            assert(t.drop_last() =~= all.take(i - 1));
            assert forall|k: int| 0 <= k < all[i - 1].nodes@.len() implies (#[trigger] all[i - 1].nodes@[k]) < g.nodes().len() by {
            }
        }
        if component_holds_file(g, &scc.components[i - 1].nodes, path) {
            return Some(i - 1);
        }
        i = i - 1;
    }
    None
}

fn index_of_component(emitted: &Vec<usize>, c: usize) -> (r: Option<usize>)
    ensures
        r matches Some(u) ==> index_in(emitted@.map_values(|x: usize| x as int), c as int) == Some(u as int),
        r is None ==> index_in(emitted@.map_values(|x: usize| x as int), c as int) is None,
{
    let ghost es = emitted@.map_values(|x: usize| x as int);
    let mut i: usize = emitted.len();
    proof { assert(es.take(i as int) =~= es); }
    while i > 0
        invariant
            es == emitted@.map_values(|x: usize| x as int),
            0 <= i <= emitted@.len(),
            index_in(es, c as int) == index_in(es.take(i as int), c as int),
        decreases i,
    {
        let ghost t = es.take(i as int);
        proof {
            assert(t.last() == es[i - 1]);
            assert(t.drop_last() =~= es.take(i - 1));
        }
        if emitted[i - 1] == c {
            return Some(i - 1);
        }
        i = i - 1;
    }
    None
}

/// The unit of a component (see [`resolve_unit`]).
fn resolve_unit_of(g: &CodeGraph, scc: &SccAnalysis, p: &UnitPass, c: usize) -> (r: Option<usize>)
    requires
        g.wf(),
        analysis_in_range(*g, *scc),
        pass_agrees(*p, *g, scc.components@),
        c < scc.components@.len(),
    ensures
        r matches Some(u) ==> resolve_unit(*g, scc.components@, c as int) == Some(u as int),
        r is None ==> resolve_unit(*g, scc.components@, c as int) is None,
{
    let ghost all = scc.components@;
    proof {
        assert(p.emitted@.map_values(|x: usize| x as int) =~= emitted_components(*g, all));
        assert(units_symbols(p.units@) =~= unit_views(*g, all)) by {
            assert forall|k: int| 0 <= k < p.units@.len() implies #[trigger] units_symbols(p.units@)[k] == unit_views(*g, all)[k] by {
                assert(unit_matches(p.units@[k], *g, all, k));
            }
        }
    }
    match index_of_component(&p.emitted, c) {
        Some(u) => Some(u),
        None => {
            let nodes = &scc.components[c].nodes;
            proof {
                assert forall|k: int| 0 <= k < nodes@.len() implies (#[trigger] nodes@[k]) < g.nodes().len() by {
                    assert(all[c as int].nodes@[k] == nodes@[k]);
                }
            }
            let mut i: usize = 0;
            while i < nodes.len()
                invariant
                    g.wf(),
                    nodes_in_range(*g, nodes@),
                    units_symbols(p.units@) == unit_views(*g, all),
                    all == scc.components@,
                    c < all.len(),
                    nodes@ == all[c as int].nodes@,
                    index_in(emitted_components(*g, all), c as int) is None,
                    0 <= i <= nodes@.len(),
                    first_anchor(*g, unit_views(*g, all), nodes@.take(i as int)) is None,
                decreases nodes@.len() - i,
            {
                let idx = nodes[i];
                proof {
                    assert(nodes@.take(i + 1).drop_last() =~= nodes@.take(i as int));
                    assert(nodes@.take(i + 1).last() == idx);
                    assert(idx < g.nodes().len());
                }
                match graph_node(&g.graph, idx) {
                    NodeData::File(f) => {
                        let path = portable_path(f.path.as_str());
                        match unit_of_file_in(&p.units, &path) {
                            Some(u) => {
                                proof {
                                    let t = nodes@.take(i + 1);
                                    assert(g.nodes()[t.last() as int] == NodeData::File(*f));
                                    assert(unit_of_file(unit_views(*g, all), portable(f.path@)) == Some(u as int));
                                    assert(first_anchor(*g, unit_views(*g, all), t) == Some(u as int));
                                    lemma_anchor_prefix(*g, unit_views(*g, all), nodes@, i + 1);
                                    assert(index_in(emitted_components(*g, all), c as int) is None);
                                    assert(all[c as int].nodes@ == nodes@);
                                    assert(first_anchor(*g, unit_views(*g, all), all[c as int].nodes@) == Some(u as int));
                                    assert(resolve_unit(*g, all, c as int) == Some(u as int));
                                }
                                return Some(u);
                            },
                            None => {},
                        }
                    },
                    _ => {},
                }
                i = i + 1;
            }
            proof { assert(nodes@.take(i as int) =~= nodes@); }
            None
        },
    }
}

proof fn lemma_anchor_prefix(
    g: CodeGraph,
    units: Seq<Seq<(Seq<char>, Seq<char>, Seq<char>, Seq<char>)>>,
    nodes: Seq<usize>,
    m: int,
)
    requires
        0 <= m <= nodes.len(),
        first_anchor(g, units, nodes.take(m)) is Some,
    ensures
        first_anchor(g, units, nodes) == first_anchor(g, units, nodes.take(m)),
    decreases nodes.len() - m,
{
    if m == nodes.len() {
        assert(nodes.take(m) =~= nodes);
    } else {
        let t = nodes.take(m + 1);
        assert(t.drop_last() =~= nodes.take(m));
        lemma_anchor_prefix(g, units, nodes, m + 1);
    }
}

fn site_target(site: &CallSite) -> (r: Option<&'static str>)
    ensures
        r matches Some(t) ==> site_target_tag(*site) == Some(t@),
        r is None ==> site_target_tag(*site) is None,
{
    match &site.target_lang {
        Some(t) => {
            let l = match from_metacall_tag(t.as_str()) {
                Some(l) => l,
                None => site.caller_lang,
            };
            Some(metacall_tag(l))
        },
        None => None,
    }
}

fn names_file(scripts: &Vec<String>, dst: &String) -> (r: bool)
    ensures
        r == exists|k: int| 0 <= k < scripts@.len() && (has_substring(#[trigger] scripts@[k]@, dst@) || has_substring(dst@, scripts@[k]@)),
{
    let mut i: usize = 0;
    while i < scripts.len()
        invariant
            0 <= i <= scripts@.len(),
            forall|k: int| 0 <= k < i ==> !(has_substring(#[trigger] scripts@[k]@, dst@) || has_substring(dst@, scripts@[k]@)),
        decreases scripts@.len() - i,
    {
        if contains_text(scripts[i].as_str(), dst.as_str()) || contains_text(dst.as_str(), scripts[i].as_str()) {
            return true;
        }
        i = i + 1;
    }
    false
}

/// Whether a call site explains an edge (see [`site_explains`]).
fn explains(g: &CodeGraph, scc: &SccAnalysis, site: &CallSite, u_comp: usize, v: usize, v_lang: &str) -> (r: bool)
    requires
        g.wf(),
        analysis_in_range(*g, *scc),
        v < g.nodes().len(),
    ensures
        r == site_explains(*g, scc.components@, *site, u_comp as int, v, v_lang@),
{
    let sp = portable_path(site.source_file.as_str());
    match component_of_file_in(g, scc, &sp) {
        Some(c) => {
            if c != u_comp {
                return false;
            }
        },
        None => {
            return false;
        },
    }
    match site_target(site) {
        Some(t) => {
            if str_eq(t, v_lang) {
                return true;
            }
        },
        None => {},
    }
    match graph_node(&g.graph, v) {
        NodeData::File(f) => {
            let dst = match file_name_of(f.path.as_str()) {
                Some(n) => n,
                None => String::new(),
            };
            proof {
                assert(dst@ == match file_name(f.path@) {
                    Some(n) => n,
                    None => Seq::<char>::empty(),
                });
            }
            names_file(&site.scripts, &dst)
        },
        _ => false,
    }
}

/// The source file of the first call site explaining an edge.
fn explaining_site_of(g: &CodeGraph, scc: &SccAnalysis, sites: &Vec<CallSite>, u_comp: usize, v: usize, v_lang: &str) -> (r: Option<String>)
    requires
        g.wf(),
        analysis_in_range(*g, *scc),
        v < g.nodes().len(),
    ensures
        r matches Some(p) ==> explaining_site(*g, scc.components@, sites@, u_comp as int, v, v_lang@) == Some(p@),
        r is None ==> explaining_site(*g, scc.components@, sites@, u_comp as int, v, v_lang@) is None,
{
    let mut i: usize = 0;
    while i < sites.len()
        invariant
            g.wf(),
            analysis_in_range(*g, *scc),
            v < g.nodes().len(),
            0 <= i <= sites@.len(),
            explaining_site(*g, scc.components@, sites@.take(i as int), u_comp as int, v, v_lang@) is None,
        decreases sites@.len() - i,
    {
        let site = &sites[i];
        proof {
            assert(sites@.take(i + 1).drop_last() =~= sites@.take(i as int));
            assert(sites@.take(i + 1).last() == *site);
        }
        if explains(g, scc, site, u_comp, v, v_lang) {
            proof { lemma_site_prefix(*g, scc.components@, sites@, u_comp as int, v, v_lang@, i + 1); }
            return Some(portable_path(site.source_file.as_str()));
        }
        i = i + 1;
    }
    proof { assert(sites@.take(i as int) =~= sites@); }
    None
}

proof fn lemma_site_prefix(g: CodeGraph, comps: Seq<Scc>, sites: Seq<CallSite>, u_comp: int, v: usize, v_lang: Seq<char>, m: int)
    requires
        0 <= m <= sites.len(),
        explaining_site(g, comps, sites.take(m), u_comp, v, v_lang) is Some,
    ensures
        explaining_site(g, comps, sites, u_comp, v, v_lang) == explaining_site(g, comps, sites.take(m), u_comp, v, v_lang),
    decreases sites.len() - m,
{
    if m == sites.len() {
        assert(sites.take(m) =~= sites);
    } else {
        assert(sites.take(m + 1).drop_last() =~= sites.take(m));
        lemma_site_prefix(g, comps, sites, u_comp, v, v_lang, m + 1);
    }
}

fn already_seen(out: &Vec<CrossLanguageEdge>, from_unit: usize, to_unit: usize, from_language: &str, to_language: &str) -> (r: bool)
    ensures
        r == exists|j: int| 0 <= j < out@.len() && #[trigger] out@[j].from_unit == from_unit && out@[j].to_unit == to_unit
            && out@[j].from_language@ == from_language@ && out@[j].to_language@ == to_language@,
{
    let mut i: usize = 0;
    while i < out.len()
        invariant
            0 <= i <= out@.len(),
            forall|j: int| 0 <= j < i ==> !(#[trigger] out@[j].from_unit == from_unit && out@[j].to_unit == to_unit
                && out@[j].from_language@ == from_language@ && out@[j].to_language@ == to_language@),
        decreases out@.len() - i,
    {
        let e = &out[i];
        if e.from_unit == from_unit && e.to_unit == to_unit && str_eq(e.from_language.as_str(), from_language) && str_eq(
            e.to_language.as_str(),
            to_language,
        ) {
            return true;
        }
        i = i + 1;
    }
    false
}

/// The cross-language edges of the mesh (see [`mesh_edges`]).
fn mesh_edge_list(g: &CodeGraph, scc: &SccAnalysis, p: &UnitPass, sites: &Vec<CallSite>) -> (r: Vec<CrossLanguageEdge>)
    requires
        g.wf(),
        analysis_in_range(*g, *scc),
        pass_agrees(*p, *g, scc.components@),
    ensures
        r@.map_values(|e: CrossLanguageEdge| edge_view(e)) == mesh_edges(*g, *scc, sites@, g.edges()),
{
    let m = graph_edge_count(&g.graph);
    let mut out: Vec<CrossLanguageEdge> = Vec::new();
    let mut k: usize = 0;
    while k < m
        invariant
            g.wf(),
            analysis_in_range(*g, *scc),
            pass_agrees(*p, *g, scc.components@),
            m == g.edges().len(),
            0 <= k <= m,
            out@.map_values(|e: CrossLanguageEdge| edge_view(e)) == mesh_edges(*g, *scc, sites@, g.edges().take(k as int)),
        decreases m - k,
    {
        let ghost es = g.edges().take(k + 1);
        let ghost prev = mesh_edges(*g, *scc, sites@, g.edges().take(k as int));
        proof {
            assert(es.drop_last() =~= g.edges().take(k as int));
            assert(es.last() == g.edges()[k as int]);
        }
        let (u, v, w) = graph_edge(&g.graph, k);
        let mut pushed = false;
        let ghost cand = edge_candidate(*g, *scc, sites@, es.last());
        if w.kind != EdgeKind::Ownership {
            match (scc.component_of(u), scc.component_of(v)) {
                (Some(uc), Some(vc)) => {
                    if uc != vc {
                        proof {
                            assert(uc < scc.components@.len());
                            assert(vc < scc.components@.len());
                        }
                        let ul = get_node_language(graph_node(&g.graph, u), g);
                        let vl = get_node_language(graph_node(&g.graph, v), g);
                        match (resolve_unit_of(g, scc, p, uc), resolve_unit_of(g, scc, p, vc)) {
                            (Some(fu), Some(tu)) => {
                                if !str_eq(ul, vl) && !str_eq(ul, "unknown") && !str_eq(vl, "unknown") {
                                    proof {
                                        reveal_strlit("unknown");
                                    }
                                    if !already_seen(&out, fu, tu, ul, vl) {
                                        let call_site = explaining_site_of(g, scc, sites, uc, v, vl);
                                        let e = CrossLanguageEdge {
                                            from_unit: fu,
                                            to_unit: tu,
                                            from_language: string_from(ul),
                                            to_language: string_from(vl),
                                            call_site,
                                            confidence: w.confidence,
                                        };
                                        let ghost before = out@;
                                        out.push(e);
                                        pushed = true;
                                        proof {
                                            assert(cand == Some(edge_view(e)));
                                            assert(!exists|j: int| 0 <= j < prev.len() && same_mesh_key(#[trigger] prev[j], edge_view(e))) by {
                                                if exists|j: int| 0 <= j < prev.len() && same_mesh_key(#[trigger] prev[j], edge_view(e)) {
                                                    let j = choose|j: int| 0 <= j < prev.len() && same_mesh_key(#[trigger] prev[j], edge_view(e));
                                                    assert(prev[j] == edge_view(before[j]));
                                                }
                                            }
                                            assert(out@.map_values(|e: CrossLanguageEdge| edge_view(e)) =~= prev.push(edge_view(e)));
                                        }
                                    } else {
                                        proof {
                                            let j = choose|j: int| 0 <= j < out@.len() && #[trigger] out@[j].from_unit == fu && out@[j].to_unit == tu
                                                && out@[j].from_language@ == ul@ && out@[j].to_language@ == vl@;
                                            assert(prev[j] == edge_view(out@[j]));
                                            assert(cand is Some);
                                            assert(same_mesh_key(prev[j], cand->0));
                                        }
                                    }
                                }
                            },
                            _ => {},
                        }
                    }
                },
                _ => {},
            }
        }
        proof {
            if !pushed {
                assert(mesh_edges(*g, *scc, sites@, es) == prev);
            }
        }
        k = k + 1;
    }
    proof { assert(g.edges().take(m as int) =~= g.edges()); }
    out
}

/// Builds the mesh annotation of an analysis: the deployment units, the
/// cross-language edges between them with the call site that explains each,
/// and the totals.
pub fn generate_mesh_annotation(analysis: &GraphAnalysis, call_sites: &Vec<CallSite>) -> (r: MeshAnnotation)
    requires
        analysis.graph.wf(),
        analysis_in_range(analysis.graph, analysis.scc),
    ensures
        r.version@ == "1.0"@,
        r.deployment_units@.len() == emitted_components(analysis.graph, analysis.scc.components@).len(),
        forall|k: int| 0 <= k < r.deployment_units@.len() ==> unit_matches(
            #[trigger] r.deployment_units@[k],
            analysis.graph,
            analysis.scc.components@,
            k,
        ),
        r.cross_language_edges@.map_values(|e: CrossLanguageEdge| edge_view(e)) == mesh_edges(
            analysis.graph,
            analysis.scc,
            call_sites@,
            analysis.graph.edges(),
        ),
        r.stats.total_units == r.deployment_units@.len(),
        r.stats.cross_language_units == cross_language_components(analysis.graph, analysis.scc.components@),
        r.stats.independent_candidates == independent_units(analysis.graph, analysis.scc.components@),
        r.stats.languages@.map_values(|x: String| x@) == distinct_in_order(
            all_language_tags(analysis.graph, analysis.scc.components@),
        ),
{
    let pass = unit_pass(&analysis.graph, &analysis.scc);
    let edges = mesh_edge_list(&analysis.graph, &analysis.scc, &pass, call_sites);
    let UnitPass { units, emitted, cross_language_units, independent_candidates, languages } = pass;
    let total_units = units.len();
    MeshAnnotation {
        version: string_from("1.0"),
        deployment_units: units,
        cross_language_edges: edges,
        stats: MeshStats { total_units, cross_language_units, independent_candidates, languages },
    }
}

/// Number of units of a list that are marked as mesh candidates.
pub open spec fn marked_candidates(units: Seq<DeploymentUnit>) -> nat
    decreases units.len(),
{
    if units.len() == 0 {
        0
    } else {
        marked_candidates(units.drop_last()) + if units.last().is_mesh_candidate {
            1nat
        } else {
            0nat
        }
    }
}

/// Number of the listed components whose hint is `Independent`.
pub open spec fn independent_among(comps: Seq<Scc>, idx: Seq<int>) -> nat
    decreases idx.len(),
{
    if idx.len() == 0 {
        0
    } else {
        independent_among(comps, idx.drop_last()) + if comps[idx.last()].hint == DeployabilityHint::Independent {
            1nat
        } else {
            0nat
        }
    }
}

proof fn lemma_independent_prefix(g: CodeGraph, comps: Seq<Scc>, m: int)
    requires
        0 <= m <= comps.len(),
    ensures
        independent_units(g, comps.take(m)) == independent_among(comps, emitted_components(g, comps.take(m))),
    decreases m,
{
    if m > 0 {
        lemma_independent_prefix(g, comps, m - 1);
        let t = comps.take(m);
        assert(t.drop_last() =~= comps.take(m - 1));
        let prev = emitted_components(g, comps.take(m - 1));
        if has_real_node(g, t.last().nodes@) {
            assert(emitted_components(g, t) == prev.push(m - 1));
            assert(prev.push(m - 1).drop_last() =~= prev);
        }
    }
}

proof fn lemma_marked_prefix(g: CodeGraph, comps: Seq<Scc>, units: Seq<DeploymentUnit>, k: int)
    requires
        units.len() == emitted_components(g, comps).len(),
        0 <= k <= units.len(),
        forall|j: int| 0 <= j < units.len() ==> (#[trigger] units[j]).is_mesh_candidate == (comps[emitted_components(
            g,
            comps,
        )[j]].hint == DeployabilityHint::Independent),
    ensures
        marked_candidates(units.take(k)) == independent_among(comps, emitted_components(g, comps).take(k)),
    decreases k,
{
    if k > 0 {
        lemma_marked_prefix(g, comps, units, k - 1);
        assert(units.take(k).drop_last() =~= units.take(k - 1));
        assert(emitted_components(g, comps).take(k).drop_last() =~= emitted_components(g, comps).take(k - 1));
        assert(units[k - 1].is_mesh_candidate == (comps[emitted_components(g, comps)[k - 1]].hint
            == DeployabilityHint::Independent));
    }
}

/// A deployment unit is a mesh candidate exactly when the hint of its
/// component is `Independent`, and the count of independent candidates is the
/// number of units so marked.
pub proof fn lemma_mesh_candidates(g: CodeGraph, comps: Seq<Scc>, units: Seq<DeploymentUnit>)
    requires
        units.len() == emitted_components(g, comps).len(),
        forall|k: int| 0 <= k < units.len() ==> unit_matches(#[trigger] units[k], g, comps, k),
    ensures
        forall|k: int|
            0 <= k < units.len() ==> ((#[trigger] units[k]).is_mesh_candidate <==> comps[emitted_components(
                g,
                comps,
            )[k]].hint == DeployabilityHint::Independent),
        independent_units(g, comps) == marked_candidates(units),
{
    assert forall|k: int| 0 <= k < units.len() implies (#[trigger] units[k]).is_mesh_candidate == (
    comps[emitted_components(g, comps)[k]].hint == DeployabilityHint::Independent) by {
        assert(unit_matches(units[k], g, comps, k));
    }
    lemma_independent_prefix(g, comps, comps.len() as int);
    assert(comps.take(comps.len() as int) =~= comps);
    lemma_marked_prefix(g, comps, units, units.len() as int);
    assert(units.take(units.len() as int) =~= units);
    assert(emitted_components(g, comps).take(units.len() as int) =~= emitted_components(g, comps));
}

} // verus!
