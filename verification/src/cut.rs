//! Cut edges for deployment planning.
//!
//! When a strongly connected component spans several languages, or a pod
//! holds more files than the limit, its weakest edge (lowest confidence; the
//! first in edge order among equals) is cut: the direct call it stands for
//! becomes an RPC stub. A component within one language is an atomic unit:
//! no cut ever splits it. The graph itself is never changed; only the plan
//! is annotated.
use vstd::prelude::*;

use crate::assoc::{keys_distinct, lemma_lookup_at, lemma_lookup_none, lookup};
use crate::edge::EdgeData;
use crate::graph::CodeGraph;
use crate::lang::LangId;
use crate::model::FileId;
use crate::node::NodeData;
use crate::pg::{dependency_pairs, graph_edge, graph_edge_count, graph_node, graph_node_count, listed, tarjan_components};
use crate::pod::{node_file, node_to_file_id, Pod, PodPartition};
use crate::scc::{Scc, SccAnalysis};
use crate::text::{decimal, push_decimal};

verus! {

/// Why an edge was cut.
#[derive(Debug, Clone, Copy, PartialEq, Eq, Structural)]
#[non_exhaustive]
pub enum CutReason {
    CrossLanguageScc,
    OversizedPod { pod_size: usize, max_size: usize },
}

/// The annotation a cut edge carries in the manifest.
#[derive(Debug, Clone)]
pub struct CutAnnotation {
    /// Raw id of the source file, in decimal.
    pub from_file: String,
    /// Raw id of the target file, in decimal.
    pub to_file: String,
    pub cut_reason: CutReason,
    /// Confidence of the cut edge, in thousandths.
    pub original_confidence: u32,
}

impl CutAnnotation {
    /// A field-for-field copy.
    pub fn duplicate(&self) -> (r: CutAnnotation)
        ensures
            r == *self,
    {
        CutAnnotation {
            from_file: self.from_file.clone(),
            to_file: self.to_file.clone(),
            cut_reason: self.cut_reason,
            original_confidence: self.original_confidence,
        }
    }
}

/// A copy of a list of annotations.
pub fn duplicate_annotations(anns: &Vec<CutAnnotation>) -> (r: Vec<CutAnnotation>)
    ensures
        r@ == anns@,
{
    let mut out: Vec<CutAnnotation> = Vec::new();
    let mut i: usize = 0;
    while i < anns.len()
        invariant
            0 <= i <= anns@.len(),
            out@ == anns@.take(i as int),
        decreases anns@.len() - i,
    {
        out.push(anns[i].duplicate());
        proof { assert(out@ =~= anns@.take(i + 1)); }
        i = i + 1;
    }
    proof { assert(anns@.take(i as int) =~= anns@); }
    out
}

/// A cut edge: it must appear as an RPC stub in the manifest.
#[derive(Debug, Clone)]
pub struct CutEdge {
    pub from_pod: usize,
    pub to_pod: usize,
    pub annotation: CutAnnotation,
}

/// Default largest pod size (in files) before a pod is cut.
pub const DEFAULT_MAX_POD_SIZE: usize = 20;

/// A cut as plain values: pods, files, reason and confidence.
pub struct CutPlan {
    pub from_pod: usize,
    pub to_pod: usize,
    pub from_file: FileId,
    pub to_file: FileId,
    pub reason: CutReason,
    pub confidence: u32,
}

/// A cut edge spells out a plan.
pub open spec fn cut_matches(c: CutEdge, p: CutPlan) -> bool {
    &&& c.from_pod == p.from_pod
    &&& c.to_pod == p.to_pod
    &&& c.annotation.from_file@ == decimal(p.from_file.0 as nat)
    &&& c.annotation.to_file@ == decimal(p.to_file.0 as nat)
    &&& c.annotation.cut_reason == p.reason
    &&& c.annotation.original_confidence == p.confidence
}

/// The first of the weakest candidates (lowest confidence).
pub open spec fn weakest(s: Seq<(FileId, FileId, u32)>) -> Option<(FileId, FileId, u32)>
    decreases s.len(),
{
    if s.len() == 0 {
        None
    } else {
        match weakest(s.drop_last()) {
            Some(b) => if s.last().2 < b.2 {
                Some(s.last())
            } else {
                Some(b)
            },
            None => Some(s.last()),
        }
    }
}

/// The language of every registered file, in registration order.
pub open spec fn graph_file_languages(g: CodeGraph) -> Seq<(FileId, LangId)> {
    g.file_to_index@.map_values(|e: (FileId, usize)| (e.0, g.nodes()[e.1 as int]->File_0.language))
}

/// The strongly connected components of a graph's dependency edges.
pub open spec fn graph_components(g: CodeGraph) -> Seq<Seq<usize>> {
    tarjan_components(g.nodes().len(), dependency_pairs(g.edges()))
}

/// Nodes `u` and `v` lie in one component that stands for a single
/// language: such a component is never split.
pub open spec fn in_one_language_component(g: CodeGraph, u: usize, v: usize) -> bool {
    let comps = graph_components(g);
    exists|c: int|
        0 <= c < comps.len() && (#[trigger] comps[c]).contains(u) && comps[c].contains(v)
            && !spans_languages(g, graph_file_languages(g), comps[c])
}

/// The dependency edges whose two endpoint files lie in `files` and that do
/// not lie inside a single-language component, as (source file, target
/// file, confidence), in edge order.
pub open spec fn internal_edges(g: CodeGraph, files: Seq<FileId>, es: Seq<(usize, usize, EdgeData)>) -> Seq<(FileId, FileId, u32)>
    decreases es.len(),
{
    if es.len() == 0 {
        Seq::empty()
    } else {
        let prev = internal_edges(g, files, es.drop_last());
        let e = es.last();
        let a = node_file(g.nodes()[e.0 as int]);
        let b = node_file(g.nodes()[e.1 as int]);
        if e.2.kind.spec_participates_in_scc() && a is Some && b is Some && files.contains(a->0) && files.contains(b->0)
            && !in_one_language_component(g, e.0, e.1) {
            prev.push((a->0, b->0, e.2.confidence))
        } else {
            prev
        }
    }
}

/// The cut of an oversized pod: its weakest internal edge outside every
/// single-language component, when the pod holds more than `max_size` files
/// and has one.
pub open spec fn oversized_cut(g: CodeGraph, pod: Pod, max_size: usize) -> Option<CutPlan> {
    if pod.files@.len() <= max_size {
        None
    } else {
        match weakest(internal_edges(g, pod.files@, g.edges())) {
            Some((a, b, c)) => Some(CutPlan {
                from_pod: pod.id,
                to_pod: pod.id,
                from_file: a,
                to_file: b,
                reason: CutReason::OversizedPod { pod_size: pod.files@.len() as usize, max_size },
                confidence: c,
            }),
            None => None,
        }
    }
}

/// The language a node stands for: a file's own, a symbol's through the
/// language table, an external's importer's.
pub open spec fn node_language_in(g: CodeGraph, langs: Seq<(FileId, LangId)>, i: usize) -> Option<LangId> {
    if i < g.nodes().len() {
        match g.nodes()[i as int] {
            NodeData::Symbol(s) => lookup(langs, s.file_id),
            NodeData::File(f) => Some(f.language),
            NodeData::External(e) => Some(e.language),
            NodeData::Data(_) => None,
        }
    } else {
        None
    }
}

/// Two nodes of the list stand for different languages.
pub open spec fn spans_languages(g: CodeGraph, langs: Seq<(FileId, LangId)>, nodes: Seq<usize>) -> bool {
    exists|a: int, b: int|
        0 <= a < nodes.len() && 0 <= b < nodes.len() && (#[trigger] node_language_in(g, langs, nodes[a])) is Some
            && (#[trigger] node_language_in(g, langs, nodes[b])) is Some
            && node_language_in(g, langs, nodes[a]) != node_language_in(g, langs, nodes[b])
}

/// The dependency edges inside a component whose endpoint files differ in
/// language (by the language table), as (source file, target file,
/// confidence), in edge order.
pub open spec fn cross_language_edges_in(
    g: CodeGraph,
    langs: Seq<(FileId, LangId)>,
    nodes: Seq<usize>,
    es: Seq<(usize, usize, EdgeData)>,
) -> Seq<(FileId, FileId, u32)>
    decreases es.len(),
{
    if es.len() == 0 {
        Seq::empty()
    } else {
        let prev = cross_language_edges_in(g, langs, nodes, es.drop_last());
        let e = es.last();
        let a = node_file(g.nodes()[e.0 as int]);
        let b = node_file(g.nodes()[e.1 as int]);
        if e.2.kind.spec_participates_in_scc() && nodes.contains(e.0) && nodes.contains(e.1) && a is Some && b is Some
            && lookup(langs, a->0) != lookup(langs, b->0) {
            prev.push((a->0, b->0, e.2.confidence))
        } else {
            prev
        }
    }
}

/// The id of the last pod listing a file.
pub open spec fn pod_id_for(pods: Seq<Pod>, fid: FileId) -> Option<usize>
    decreases pods.len(),
{
    if pods.len() == 0 {
        None
    } else if pods.last().files@.contains(fid) {
        Some(pods.last().id)
    } else {
        pod_id_for(pods.drop_last(), fid)
    }
}

/// The cut of one component: its weakest cross-language edge, when the
/// component is cyclic and spans several languages.
pub open spec fn component_cut(g: CodeGraph, langs: Seq<(FileId, LangId)>, pods: Seq<Pod>, comp: Scc) -> Option<CutPlan> {
    if comp.is_cyclic && spans_languages(g, langs, comp.nodes@) {
        match weakest(cross_language_edges_in(g, langs, comp.nodes@, g.edges())) {
            Some((a, b, c)) => Some(CutPlan {
                from_pod: match pod_id_for(pods, a) { Some(p) => p, None => 0 },
                to_pod: match pod_id_for(pods, b) { Some(p) => p, None => 0 },
                from_file: a,
                to_file: b,
                reason: CutReason::CrossLanguageScc,
                confidence: c,
            }),
            None => None,
        }
    } else {
        None
    }
}

/// The cuts of a list of components, in component order.
pub open spec fn component_cuts(g: CodeGraph, langs: Seq<(FileId, LangId)>, pods: Seq<Pod>, comps: Seq<Scc>) -> Seq<CutPlan>
    decreases comps.len(),
{
    if comps.len() == 0 {
        Seq::empty()
    } else {
        let prev = component_cuts(g, langs, pods, comps.drop_last());
        match component_cut(g, langs, pods, comps.last()) {
            Some(c) => prev.push(c),
            None => prev,
        }
    }
}

/// The decimal spelling of a raw file id.
fn file_label(f: FileId) -> (r: String)
    ensures
        r@ == decimal(f.0 as nat),
{
    let mut s = String::new();
    push_decimal(&mut s, f.0 as usize);
    proof { assert(s@ =~= decimal(f.0 as nat)); }
    s
}

/// The cut edge of a plan.
fn cut_of(p: &CutPlan) -> (r: CutEdge)
    ensures
        cut_matches(r, *p),
{
    CutEdge {
        from_pod: p.from_pod,
        to_pod: p.to_pod,
        annotation: CutAnnotation {
            from_file: file_label(p.from_file),
            to_file: file_label(p.to_file),
            cut_reason: p.reason,
            original_confidence: p.confidence,
        },
    }
}

fn list_contains_file(files: &Vec<FileId>, f: FileId) -> (r: bool)
    ensures
        r == files@.contains(f),
{
    let mut i: usize = 0;
    while i < files.len()
        invariant
            0 <= i <= files@.len(),
            forall|j: int| 0 <= j < i ==> files@[j] != f,
        decreases files@.len() - i,
    {
        if files[i] == f {
            proof { assert(files@[i as int] == f); }
            return true;
        }
        i = i + 1;
    }
    false
}

fn list_contains_node(nodes: &Vec<usize>, v: usize) -> (r: bool)
    ensures
        r == nodes@.contains(v),
{
    let mut i: usize = 0;
    while i < nodes.len()
        invariant
            0 <= i <= nodes@.len(),
            forall|j: int| 0 <= j < i ==> nodes@[j] != v,
        decreases nodes@.len() - i,
    {
        if nodes[i] == v {
            proof { assert(nodes@[i as int] == v); }
            return true;
        }
        i = i + 1;
    }
    false
}

/// The language table of a graph's registered files (see
/// [`graph_file_languages`]).
fn file_language_table(graph: &CodeGraph) -> (r: Vec<(FileId, LangId)>)
    requires
        graph.wf(),
    ensures
        r@ == graph_file_languages(*graph),
        keys_distinct(r@),
{
    let mut out: Vec<(FileId, LangId)> = Vec::new();
    let mut i: usize = 0;
    while i < graph.file_to_index.len()
        invariant
            graph.wf(),
            0 <= i <= graph.file_to_index@.len(),
            out@ == graph_file_languages(*graph).take(i as int),
        decreases graph.file_to_index@.len() - i,
    {
        let (fid, idx) = graph.file_to_index[i];
        proof {
            assert(crate::graph::is_file_node(graph.nodes(), graph.file_to_index@[i as int].1, graph.file_to_index@[i as int].0));
        }
        let lang = match graph_node(&graph.graph, idx) {
            NodeData::File(f) => f.language,
            _ => LangId::Python,
        };
        out.push((fid, lang));
        proof { assert(out@ =~= graph_file_languages(*graph).take(i + 1)); }
        i = i + 1;
    }
    proof {
        assert(out@ =~= graph_file_languages(*graph));
        assert forall|a: int, b: int| 0 <= a < out@.len() && 0 <= b < out@.len() && a != b implies (#[trigger] out@[a]).0 != (#[trigger] out@[b]).0 by {
            assert(out@[a].0 == graph.file_to_index@[a].0 && out@[b].0 == graph.file_to_index@[b].0);
        }
    }
    out
}

/// Where a node sits in the components an analysis describes.
proof fn lemma_component_membership(graph: CodeGraph, scc: SccAnalysis, u: usize)
    requires
        scc.describes(graph.graph),
        u < graph.nodes().len(),
    ensures
        scc.node_to_component@[u as int] < graph_components(graph).len(),
        graph_components(graph)[scc.node_to_component@[u as int] as int].contains(u),
        forall|c: int| 0 <= c < graph_components(graph).len() && (#[trigger] graph_components(graph)[c]).contains(u)
            ==> c == scc.node_to_component@[u as int],
{
    let comps = graph_components(graph);
    assert(listed(comps, u));
    let (c0, k0) = choose|c: int, k: int| 0 <= c < comps.len() && 0 <= k < comps[c].len() && #[trigger] comps[c][k] == u;
    assert(scc.node_to_component@[comps[c0][k0] as int] == c0);
    assert forall|c: int| 0 <= c < comps.len() && (#[trigger] comps[c]).contains(u) implies c == scc.node_to_component@[u as int] by {
        let k = choose|k: int| 0 <= k < comps[c].len() && comps[c][k] == u;
        assert(scc.node_to_component@[comps[c][k] as int] == c);
    }
}

/// Whether an edge lies inside a single-language component (see
/// [`in_one_language_component`]).
fn inside_one_language(graph: &CodeGraph, scc: &SccAnalysis, langs: &Vec<(FileId, LangId)>, u: usize, v: usize) -> (r: bool)
    requires
        graph.wf(),
        scc.describes(graph.graph),
        langs@ == graph_file_languages(*graph),
        keys_distinct(langs@),
        u < graph.nodes().len(),
        v < graph.nodes().len(),
    ensures
        r == in_one_language_component(*graph, u, v),
{
    proof {
        lemma_component_membership(*graph, *scc, u);
        lemma_component_membership(*graph, *scc, v);
    }
    let cu = scc.node_to_component[u];
    let cv = scc.node_to_component[v];
    if cu != cv {
        return false;
    }
    let comp = &scc.components[cu];
    proof {
        assert(comp.nodes@ == graph_components(*graph)[cu as int]);
    }
    !spans_several_languages(graph, langs, &comp.nodes)
}

/// Finds the weakest oversized-pod candidate edge.
fn weakest_internal_edge(pod: &Pod, graph: &CodeGraph, scc: &SccAnalysis, langs: &Vec<(FileId, LangId)>) -> (r: Option<(FileId, FileId, u32)>)
    requires
        graph.wf(),
        scc.describes(graph.graph),
        langs@ == graph_file_languages(*graph),
        keys_distinct(langs@),
    ensures
        r == weakest(internal_edges(*graph, pod.files@, graph.edges())),
{
    let m = graph_edge_count(&graph.graph);
    let mut best: Option<(FileId, FileId, u32)> = None;
    let mut k: usize = 0;
    while k < m
        invariant
            graph.wf(),
            scc.describes(graph.graph),
            langs@ == graph_file_languages(*graph),
            keys_distinct(langs@),
            m == graph.edges().len(),
            0 <= k <= m,
            best == weakest(internal_edges(*graph, pod.files@, graph.edges().take(k as int))),
        decreases m - k,
    {
        let ghost es = graph.edges().take(k + 1);
        proof {
            assert(es.drop_last() =~= graph.edges().take(k as int));
            assert(es.last() == graph.edges()[k as int]);
        }
        let (u, v, w) = graph_edge(&graph.graph, k);
        let mut taken = false;
        if w.participates_in_scc() {
            let a = node_to_file_id(graph_node(&graph.graph, u));
            let b = node_to_file_id(graph_node(&graph.graph, v));
            if let (Some(fa), Some(fb)) = (a, b) {
                if list_contains_file(&pod.files, fa) && list_contains_file(&pod.files, fb)
                    && !inside_one_language(graph, scc, langs, u, v) {
                    let ghost s = internal_edges(*graph, pod.files@, graph.edges().take(k as int));
                    proof {
                        assert(internal_edges(*graph, pod.files@, es) == s.push((fa, fb, w.confidence)));
                        assert(s.push((fa, fb, w.confidence)).drop_last() =~= s);
                    }
                    best = match best {
                        Some(b) => if w.confidence < b.2 { Some((fa, fb, w.confidence)) } else { Some(b) },
                        None => Some((fa, fb, w.confidence)),
                    };
                    taken = true;
                }
            }
        }
        proof {
            if !taken {
                assert(internal_edges(*graph, pod.files@, es) == internal_edges(*graph, pod.files@, graph.edges().take(k as int)));
            }
        }
        k = k + 1;
    }
    proof { assert(graph.edges().take(m as int) =~= graph.edges()); }
    best
}

/// Finds the weakest internal edge of a pod above `max_size` files, to be
/// cut; `None` when the pod is within the limit or has no internal edge
/// outside a single-language component.
pub fn find_oversized_pod_cut(pod: &Pod, graph: &CodeGraph, max_size: usize) -> (r: Option<CutEdge>)
    requires
        graph.wf(),
    ensures
        r is Some == oversized_cut(*graph, *pod, max_size) is Some,
        r matches Some(c) ==> cut_matches(c, oversized_cut(*graph, *pod, max_size)->0),
{
    if pod.files.len() <= max_size {
        return None;
    }
    let scc = SccAnalysis::analyze(&graph.graph);
    let langs = file_language_table(graph);
    match weakest_internal_edge(pod, graph, &scc, &langs) {
        Some((a, b, c)) => {
            let plan = CutPlan {
                from_pod: pod.id,
                to_pod: pod.id,
                from_file: a,
                to_file: b,
                reason: CutReason::OversizedPod { pod_size: pod.files.len(), max_size },
                confidence: c,
            };
            Some(cut_of(&plan))
        },
        None => None,
    }
}

/// The language of a file in the language table.
fn table_language(langs: &Vec<(FileId, LangId)>, f: FileId) -> (r: Option<LangId>)
    requires
        keys_distinct(langs@),
    ensures
        r == lookup(langs@, f),
{
    let mut i: usize = 0;
    while i < langs.len()
        invariant
            keys_distinct(langs@),
            0 <= i <= langs@.len(),
            forall|j: int| 0 <= j < i ==> (#[trigger] langs@[j]).0 != f,
        decreases langs@.len() - i,
    {
        if langs[i].0 == f {
            proof { lemma_lookup_at(langs@, i as int); }
            return Some(langs[i].1);
        }
        i = i + 1;
    }
    proof { lemma_lookup_none(langs@, f); }
    None
}

fn same_language_opt(a: Option<LangId>, b: Option<LangId>) -> (r: bool)
    ensures
        r == (a == b),
{
    match (a, b) {
        (Some(x), Some(y)) => x == y,
        (None, None) => true,
        _ => false,
    }
}

/// The language a node stands for (see [`node_language_in`]).
fn node_language_at(graph: &CodeGraph, langs: &Vec<(FileId, LangId)>, i: usize) -> (r: Option<LangId>)
    requires
        graph.wf(),
        keys_distinct(langs@),
    ensures
        r == node_language_in(*graph, langs@, i),
{
    if i >= graph_node_count(&graph.graph) {
        return None;
    }
    match graph_node(&graph.graph, i) {
        NodeData::Symbol(s) => table_language(langs, s.file_id),
        NodeData::File(f) => Some(f.language),
        NodeData::External(e) => Some(e.language),
        NodeData::Data(_) => None,
    }
}

/// Whether the nodes stand for two or more languages.
fn spans_several_languages(graph: &CodeGraph, langs: &Vec<(FileId, LangId)>, nodes: &Vec<usize>) -> (r: bool)
    requires
        graph.wf(),
        keys_distinct(langs@),
    ensures
        r == spans_languages(*graph, langs@, nodes@),
{
    let ghost ns = nodes@;
    let mut first: Option<LangId> = None;
    let ghost mut at: int = 0;
    let mut i: usize = 0;
    while i < nodes.len()
        invariant
            graph.wf(),
            keys_distinct(langs@),
            ns == nodes@,
            0 <= i <= ns.len(),
            first is None ==> forall|j: int| 0 <= j < i ==> (#[trigger] node_language_in(*graph, langs@, ns[j])) is None,
            first matches Some(x) ==> 0 <= at < i && node_language_in(*graph, langs@, ns[at]) == Some(x),
            first matches Some(x) ==> forall|j: int| 0 <= j < i ==> (#[trigger] node_language_in(*graph, langs@, ns[j])) is None
                || node_language_in(*graph, langs@, ns[j]) == Some(x),
        decreases ns.len() - i,
    {
        let l = node_language_at(graph, langs, nodes[i]);
        match (first, l) {
            (None, Some(x)) => {
                first = Some(x);
                proof { at = i as int; }
            },
            (Some(x), Some(y)) => {
                if x != y {
                    proof {
                        assert(node_language_in(*graph, langs@, ns[at]) is Some);
                        assert(node_language_in(*graph, langs@, ns[i as int]) is Some);
                    }
                    return true;
                }
            },
            _ => {},
        }
        i = i + 1;
    }
    proof {
        if spans_languages(*graph, langs@, ns) {
            let (a, b) = choose|a: int, b: int|
                0 <= a < ns.len() && 0 <= b < ns.len() && (#[trigger] node_language_in(*graph, langs@, ns[a])) is Some
                    && (#[trigger] node_language_in(*graph, langs@, ns[b])) is Some
                    && node_language_in(*graph, langs@, ns[a]) != node_language_in(*graph, langs@, ns[b]);
            assert(node_language_in(*graph, langs@, ns[a]) is Some);
            assert(node_language_in(*graph, langs@, ns[b]) is Some);
        }
    }
    false
}

/// The id of the last pod listing a file (see [`pod_id_for`]).
fn pod_id_lookup(pods: &Vec<Pod>, f: FileId) -> (r: Option<usize>)
    ensures
        r == pod_id_for(pods@, f),
{
    let mut i: usize = pods.len();
    proof { assert(pods@.take(i as int) =~= pods@); }
    while i > 0
        invariant
            0 <= i <= pods@.len(),
            pod_id_for(pods@, f) == pod_id_for(pods@.take(i as int), f),
        decreases i,
    {
        let ghost t = pods@.take(i as int);
        proof {
            assert(t.last() == pods@[i - 1]);
            assert(t.drop_last() =~= pods@.take(i - 1));
        }
        if list_contains_file(&pods[i - 1].files, f) {
            return Some(pods[i - 1].id);
        }
        i = i - 1;
    }
    None
}

/// The weakest cross-language edge inside a component.
fn weakest_cross_edge(graph: &CodeGraph, langs: &Vec<(FileId, LangId)>, nodes: &Vec<usize>) -> (r: Option<(FileId, FileId, u32)>)
    requires
        graph.wf(),
        keys_distinct(langs@),
    ensures
        r == weakest(cross_language_edges_in(*graph, langs@, nodes@, graph.edges())),
{
    let m = graph_edge_count(&graph.graph);
    let mut best: Option<(FileId, FileId, u32)> = None;
    let mut k: usize = 0;
    while k < m
        invariant
            graph.wf(),
            keys_distinct(langs@),
            m == graph.edges().len(),
            0 <= k <= m,
            best == weakest(cross_language_edges_in(*graph, langs@, nodes@, graph.edges().take(k as int))),
        decreases m - k,
    {
        let ghost es = graph.edges().take(k + 1);
        proof {
            assert(es.drop_last() =~= graph.edges().take(k as int));
            assert(es.last() == graph.edges()[k as int]);
        }
        let (u, v, w) = graph_edge(&graph.graph, k);
        let mut taken = false;
        if w.participates_in_scc() && list_contains_node(nodes, u) && list_contains_node(nodes, v) {
            let a = node_to_file_id(graph_node(&graph.graph, u));
            let b = node_to_file_id(graph_node(&graph.graph, v));
            if let (Some(fa), Some(fb)) = (a, b) {
                if !same_language_opt(table_language(langs, fa), table_language(langs, fb)) {
                    let ghost s = cross_language_edges_in(*graph, langs@, nodes@, graph.edges().take(k as int));
                    proof {
                        assert(cross_language_edges_in(*graph, langs@, nodes@, es) == s.push((fa, fb, w.confidence)));
                        assert(s.push((fa, fb, w.confidence)).drop_last() =~= s);
                    }
                    best = match best {
                        Some(b) => if w.confidence < b.2 { Some((fa, fb, w.confidence)) } else { Some(b) },
                        None => Some((fa, fb, w.confidence)),
                    };
                    taken = true;
                }
            }
        }
        proof {
            if !taken {
                assert(cross_language_edges_in(*graph, langs@, nodes@, es) == cross_language_edges_in(
                    *graph,
                    langs@,
                    nodes@,
                    graph.edges().take(k as int),
                ));
            }
        }
        k = k + 1;
    }
    proof { assert(graph.edges().take(m as int) =~= graph.edges()); }
    best
}

/// Cuts every cyclic component that spans several languages at its weakest
/// cross-language edge, placing the cut between the pods of its files.
pub fn find_cross_language_cuts(
    scc: &SccAnalysis,
    graph: &CodeGraph,
    file_languages: &Vec<(FileId, LangId)>,
    partition: &PodPartition,
) -> (r: Vec<CutEdge>)
    requires
        graph.wf(),
        keys_distinct(file_languages@),
    ensures
        r@.len() == component_cuts(*graph, file_languages@, partition.pods@, scc.components@).len(),
        forall|k: int| 0 <= k < r@.len() ==> cut_matches(
            #[trigger] r@[k],
            component_cuts(*graph, file_languages@, partition.pods@, scc.components@)[k],
        ),
{
    let mut cuts: Vec<CutEdge> = Vec::new();
    let mut i: usize = 0;
    let ghost comps = scc.components@;
    while i < scc.components.len()
        invariant
            graph.wf(),
            keys_distinct(file_languages@),
            comps == scc.components@,
            0 <= i <= comps.len(),
            cuts@.len() == component_cuts(*graph, file_languages@, partition.pods@, comps.take(i as int)).len(),
            forall|k: int| 0 <= k < cuts@.len() ==> cut_matches(
                #[trigger] cuts@[k],
                component_cuts(*graph, file_languages@, partition.pods@, comps.take(i as int))[k],
            ),
        decreases comps.len() - i,
    {
        let comp = &scc.components[i];
        let ghost before = component_cuts(*graph, file_languages@, partition.pods@, comps.take(i as int));
        proof {
            assert(comps.take(i + 1).drop_last() =~= comps.take(i as int));
            assert(comps.take(i + 1).last() == *comp);
        }
        let mut plan: Option<CutPlan> = None;
        if comp.is_cyclic && spans_several_languages(graph, file_languages, &comp.nodes) {
            match weakest_cross_edge(graph, file_languages, &comp.nodes) {
                Some((a, b, c)) => {
                    let from_pod = match pod_id_lookup(&partition.pods, a) { Some(p) => p, None => 0 };
                    let to_pod = match pod_id_lookup(&partition.pods, b) { Some(p) => p, None => 0 };
                    plan = Some(CutPlan { from_pod, to_pod, from_file: a, to_file: b, reason: CutReason::CrossLanguageScc, confidence: c });
                },
                None => {},
            }
        }
        proof {
            assert(plan == component_cut(*graph, file_languages@, partition.pods@, *comp));
        }
        match plan {
            Some(p) => {
                let ghost old_cuts = cuts@;
                cuts.push(cut_of(&p));
                proof {
                    assert(component_cuts(*graph, file_languages@, partition.pods@, comps.take(i + 1)) == before.push(p));
                    assert forall|k: int| 0 <= k < cuts@.len() implies cut_matches(
                        #[trigger] cuts@[k],
                        component_cuts(*graph, file_languages@, partition.pods@, comps.take(i + 1))[k],
                    ) by {
                        if k < old_cuts.len() {
                            assert(cuts@[k] == old_cuts[k]);
                        }
                    }
                }
            },
            None => {
                proof {
                    assert(component_cuts(*graph, file_languages@, partition.pods@, comps.take(i + 1)) == before);
                }
            },
        }
        i = i + 1;
    }
    proof { assert(comps.take(i as int) =~= comps); }
    cuts
}

/// The pod a plan names for a file: the id of the last pod listing it, or 0.
spec fn named_pod(pods: Seq<Pod>, f: FileId) -> usize {
    match pod_id_for(pods, f) {
        Some(p) => p,
        None => 0,
    }
}

proof fn lemma_pod_id_for_holder(pods: Seq<Pod>, f: FileId, q: int)
    requires
        0 <= q < pods.len(),
        pods[q].files@.contains(f),
        forall|j: int| q < j < pods.len() ==> !(#[trigger] pods[j]).files@.contains(f),
    ensures
        pod_id_for(pods, f) == Some(pods[q].id),
    decreases pods.len(),
{
    if q < pods.len() - 1 {
        assert(!pods[pods.len() - 1].files@.contains(f));
        let t = pods.drop_last();
        assert forall|j: int| q < j < t.len() implies !(#[trigger] t[j]).files@.contains(f) by {
            assert(t[j] == pods[j]);
        }
        lemma_pod_id_for_holder(t, f, q);
    }
}

proof fn lemma_pod_id_for_none(pods: Seq<Pod>, f: FileId)
    requires
        forall|j: int| 0 <= j < pods.len() ==> !(#[trigger] pods[j]).files@.contains(f),
    ensures
        pod_id_for(pods, f) is None,
    decreases pods.len(),
{
    if pods.len() > 0 {
        let t = pods.drop_last();
        assert(!pods[pods.len() - 1].files@.contains(f));
        assert forall|j: int| 0 <= j < t.len() implies !(#[trigger] t[j]).files@.contains(f) by {
            assert(t[j] == pods[j]);
        }
        lemma_pod_id_for_none(t, f);
    }
}

proof fn lemma_cuts_name_pods(g: CodeGraph, langs: Seq<(FileId, LangId)>, pods: Seq<Pod>, comps: Seq<Scc>)
    ensures
        forall|k: int| 0 <= k < component_cuts(g, langs, pods, comps).len() ==> {
            let p = #[trigger] component_cuts(g, langs, pods, comps)[k];
            p.from_pod == named_pod(pods, p.from_file) && p.to_pod == named_pod(pods, p.to_file)
        },
    decreases comps.len(),
{
    if comps.len() > 0 {
        let t = comps.drop_last();
        lemma_cuts_name_pods(g, langs, pods, t);
        let prev = component_cuts(g, langs, pods, t);
        let cur = component_cuts(g, langs, pods, comps);
        assert forall|k: int| 0 <= k < cur.len() implies {
            let p = #[trigger] cur[k];
            p.from_pod == named_pod(pods, p.from_file) && p.to_pod == named_pod(pods, p.to_file)
        } by {
            if k < prev.len() {
                assert(cur[k] == prev[k]);
            }
        }
    }
}

/// Each cross-language cut is placed between the pods of its files: its
/// `from_pod` is the pod that holds its `from_file` and its `to_pod` the pod
/// that holds its `to_file` (the last such pod where several list a file, and
/// pod 0 where none does).
pub proof fn lemma_cut_pods_hold_files(
    g: CodeGraph,
    langs: Seq<(FileId, LangId)>,
    pods: Seq<Pod>,
    comps: Seq<Scc>,
    k: int,
    q: int,
)
    requires
        0 <= k < component_cuts(g, langs, pods, comps).len(),
        0 <= q < pods.len(),
    ensures
        ({
            let p = component_cuts(g, langs, pods, comps)[k];
            &&& (pods[q].files@.contains(p.from_file) && (forall|j: int|
                q < j < pods.len() ==> !(#[trigger] pods[j]).files@.contains(p.from_file))) ==> p.from_pod == pods[q].id
            &&& (pods[q].files@.contains(p.to_file) && (forall|j: int|
                q < j < pods.len() ==> !(#[trigger] pods[j]).files@.contains(p.to_file))) ==> p.to_pod == pods[q].id
            &&& (forall|j: int| 0 <= j < pods.len() ==> !(#[trigger] pods[j]).files@.contains(p.from_file)) ==> p.from_pod == 0
            &&& (forall|j: int| 0 <= j < pods.len() ==> !(#[trigger] pods[j]).files@.contains(p.to_file)) ==> p.to_pod == 0
        }),
{
    lemma_cuts_name_pods(g, langs, pods, comps);
    let p = component_cuts(g, langs, pods, comps)[k];
    if pods[q].files@.contains(p.from_file) && (forall|j: int|
        q < j < pods.len() ==> !(#[trigger] pods[j]).files@.contains(p.from_file)) {
        lemma_pod_id_for_holder(pods, p.from_file, q);
    }
    if pods[q].files@.contains(p.to_file) && (forall|j: int|
        q < j < pods.len() ==> !(#[trigger] pods[j]).files@.contains(p.to_file)) {
        lemma_pod_id_for_holder(pods, p.to_file, q);
    }
    if forall|j: int| 0 <= j < pods.len() ==> !(#[trigger] pods[j]).files@.contains(p.from_file) {
        lemma_pod_id_for_none(pods, p.from_file);
    }
    if forall|j: int| 0 <= j < pods.len() ==> !(#[trigger] pods[j]).files@.contains(p.to_file) {
        lemma_pod_id_for_none(pods, p.to_file);
    }
}

} // verus!
