//! The pod manifest: one deployment per pod, the edges between pods with
//! their cut annotations, and global metrics.
//!
//! Every cut pod pair surfaces as exactly one `rpc_stub` edge carrying all
//! the annotations of the pair: a forced split is only safe when the call
//! boundary is written down.
use vstd::prelude::*;

use crate::assoc::{keys_distinct, lemma_lookup_at, lemma_lookup_none, lookup};
use crate::check::{fairness_issues, lemma_generated_manifest_is_fair};
use crate::cut::{duplicate_annotations, CutAnnotation, CutEdge, CutReason};
use crate::dependency::{duplicate_entries, DependencyEntry};
use crate::edge::EdgeKind;
use crate::graph::CodeGraph;
use crate::lang::LangId;
use crate::metrics::{registered_path, PodMetrics};
use crate::model::FileId;
use crate::order::{compare_text, int_order, key_le, lemma_sort_by_map, lemma_sort_by_permutes, lemma_stable_sorted_is_sort_by, lemma_text_order_total, sort_by, sort_stable, text_order, SortKey};
use crate::paths::{portable, portable_path};
use crate::pod::{InterPodEdge, Pod, PodPartition};
use crate::tags::{metacall_tag, spec_metacall_tag};
use crate::text::{chars_of, string_from};

verus! {

/// The pod-based deployment manifest.
#[derive(Debug, Clone)]
pub struct PodManifest {
    pub version: String,
    pub deployments: Vec<PodDeployment>,
    pub edges: Vec<ManifestEdge>,
    pub metrics: GlobalMetrics,
}

/// One pod: an independently deployable unit.
#[derive(Debug, Clone)]
pub struct PodDeployment {
    pub id: usize,
    /// MetaCall loader tag of the pod's language.
    pub language: String,
    /// Portable paths of the pod's files.
    pub files: Vec<String>,
    pub metrics: PodMetrics,
    pub dependencies: Vec<DependencyEntry>,
}

/// An edge between pods.
#[derive(Debug, Clone)]
pub struct ManifestEdge {
    pub from_pod: usize,
    pub to_pod: usize,
    /// `import`, `reference`, `ownership`, or `rpc_stub` for a cut pair.
    pub kind: String,
    /// Confidence in thousandths.
    pub confidence: u32,
    pub is_cross_language: bool,
    pub cut_annotations: Vec<CutAnnotation>,
}

/// Aggregate metrics of the manifest.
#[derive(Debug, Clone, Copy, PartialEq, Eq, Structural)]
pub struct GlobalMetrics {
    pub total_pods: usize,
    pub cross_language_edges: usize,
    pub total_ast_nodes: usize,
    /// Pod files that had no graph node, plus pods without a metrics entry.
    pub dropped_files: usize,
}

impl Default for GlobalMetrics {
    fn default() -> (r: GlobalMetrics)
        ensures
            r == (GlobalMetrics { total_pods: 0, cross_language_edges: 0, total_ast_nodes: 0, dropped_files: 0 }),
    {
        GlobalMetrics { total_pods: 0, cross_language_edges: 0, total_ast_nodes: 0, dropped_files: 0 }
    }
}

/// The metrics of a pod without an entry.
pub open spec fn no_metrics() -> PodMetrics {
    PodMetrics { total_ast_nodes: 0, file_count: 0, symbol_count: 0 }
}

/// The portable paths of the files that have a graph node, in order.
pub open spec fn pod_file_paths(g: CodeGraph, files: Seq<FileId>) -> Seq<Seq<char>>
    decreases files.len(),
{
    if files.len() == 0 {
        Seq::empty()
    } else {
        let prev = pod_file_paths(g, files.drop_last());
        match registered_path(g, files.last()) {
            Some(p) => prev.push(portable(p)),
            None => prev,
        }
    }
}

/// Number of files without a graph node.
pub open spec fn missing_files(g: CodeGraph, files: Seq<FileId>) -> nat
    decreases files.len(),
{
    if files.len() == 0 {
        0
    } else {
        missing_files(g, files.drop_last()) + if registered_path(g, files.last()) is Some { 0nat } else { 1nat }
    }
}

/// What is dropped for the pods `0..n`: missing files, and one for every
/// pod without a metrics entry.
pub open spec fn dropped_count(g: CodeGraph, pods: Seq<Pod>, metrics_len: nat) -> nat
    decreases pods.len(),
{
    if pods.len() == 0 {
        0
    } else {
        dropped_count(g, pods.drop_last(), metrics_len) + missing_files(g, pods.last().files@) + if pods.len() - 1
            < metrics_len {
            0nat
        } else {
            1nat
        }
    }
}

/// The dependencies listed for a pod id.
pub open spec fn dependencies_of(deps: Seq<(usize, Vec<DependencyEntry>)>, id: usize) -> Seq<DependencyEntry> {
    match lookup(deps, id) {
        Some(v) => v@,
        None => Seq::empty(),
    }
}

/// The deployment of pod `i`.
pub open spec fn deployment_matches(
    d: PodDeployment,
    g: CodeGraph,
    pod: Pod,
    i: int,
    metrics: Seq<PodMetrics>,
    deps: Seq<(usize, Vec<DependencyEntry>)>,
) -> bool {
    &&& d.id == pod.id
    &&& d.language@ == spec_metacall_tag(pod.language)
    &&& d.files@.map_values(|s: String| s@) == pod_file_paths(g, pod.files@)
    &&& d.metrics == (if i < metrics.len() { metrics[i] } else { no_metrics() })
    &&& d.dependencies@ == dependencies_of(deps, pod.id)
}

/// A manifest edge as plain values: pods, kind, confidence, cross flag and
/// annotations.
pub open spec fn edge_view(e: ManifestEdge) -> (usize, usize, Seq<char>, u32, bool, Seq<CutAnnotation>) {
    (e.from_pod, e.to_pod, e.kind@, e.confidence, e.is_cross_language, e.cut_annotations@)
}

/// The pod pairs of the cuts, in order of first appearance.
pub open spec fn cut_pairs(cuts: Seq<CutEdge>) -> Seq<(usize, usize)>
    decreases cuts.len(),
{
    if cuts.len() == 0 {
        Seq::empty()
    } else {
        let prev = cut_pairs(cuts.drop_last());
        let pair = (cuts.last().from_pod, cuts.last().to_pod);
        if prev.contains(pair) {
            prev
        } else {
            prev.push(pair)
        }
    }
}

/// The annotations of the cuts of a pod pair, in cut order.
pub open spec fn annotations_for(cuts: Seq<CutEdge>, pair: (usize, usize)) -> Seq<CutAnnotation>
    decreases cuts.len(),
{
    if cuts.len() == 0 {
        Seq::empty()
    } else {
        let prev = annotations_for(cuts.drop_last(), pair);
        if (cuts.last().from_pod, cuts.last().to_pod) == pair {
            prev.push(cuts.last().annotation)
        } else {
            prev
        }
    }
}

/// The lowest confidence among annotations.
pub open spec fn lowest_confidence(anns: Seq<CutAnnotation>) -> u32
    decreases anns.len(),
{
    if anns.len() == 0 {
        u32::MAX
    } else {
        let prev = lowest_confidence(anns.drop_last());
        if anns.last().original_confidence < prev {
            anns.last().original_confidence
        } else {
            prev
        }
    }
}

/// Some annotation is a cross-language cut.
pub open spec fn has_scc_cut(anns: Seq<CutAnnotation>) -> bool {
    exists|i: int| 0 <= i < anns.len() && (#[trigger] anns[i]).cut_reason == CutReason::CrossLanguageScc
}

/// The manifest edge of an inter-pod edge.
pub open spec fn inter_edge_view(e: InterPodEdge, cuts: Seq<CutEdge>) -> (usize, usize, Seq<char>, u32, bool, Seq<CutAnnotation>) {
    (e.from_pod, e.to_pod, e.kind.spec_name(), e.confidence, e.is_cross_language, annotations_for(cuts, (e.from_pod, e.to_pod)))
}

/// The `rpc_stub` edge of a cut pod pair.
pub open spec fn stub_view(cuts: Seq<CutEdge>, pair: (usize, usize)) -> (usize, usize, Seq<char>, u32, bool, Seq<CutAnnotation>) {
    let anns = annotations_for(cuts, pair);
    (pair.0, pair.1, "rpc_stub"@, lowest_confidence(anns), has_scc_cut(anns), anns)
}

/// The manifest edges before ordering: the inter-pod edges, then one stub
/// per cut pod pair.
pub open spec fn manifest_edge_views(inter: Seq<InterPodEdge>, cuts: Seq<CutEdge>) -> Seq<(usize, usize, Seq<char>, u32, bool, Seq<CutAnnotation>)> {
    inter.map_values(|e: InterPodEdge| inter_edge_view(e, cuts)) + cut_pairs(cuts).map_values(
        |pair: (usize, usize)| stub_view(cuts, pair),
    )
}

/// Order of manifest edges: by source pod, target pod, then kind.
pub open spec fn view_order(
    a: (usize, usize, Seq<char>, u32, bool, Seq<CutAnnotation>),
    b: (usize, usize, Seq<char>, u32, bool, Seq<CutAnnotation>),
) -> int {
    if a.0 != b.0 {
        int_order(a.0 as int, b.0 as int)
    } else if a.1 != b.1 {
        int_order(a.1 as int, b.1 as int)
    } else {
        text_order(a.2, b.2)
    }
}

/// "Not after" under [`view_order`].
pub open spec fn view_le(
    a: (usize, usize, Seq<char>, u32, bool, Seq<CutAnnotation>),
    b: (usize, usize, Seq<char>, u32, bool, Seq<CutAnnotation>),
) -> bool {
    view_order(a, b) <= 0
}

impl SortKey for ManifestEdge {
    open spec fn key_order(self, other: Self) -> int {
        view_order(edge_view(self), edge_view(other))
    }

    proof fn lemma_key_order(a: Self, b: Self, c: Self) {
        lemma_text_order_total();
        let t = |x: Seq<char>, y: Seq<char>| text_order(x, y);
        assert(t(a.kind@, b.kind@) == text_order(a.kind@, b.kind@));
        assert(t(b.kind@, a.kind@) == text_order(b.kind@, a.kind@));
        assert(t(b.kind@, c.kind@) == text_order(b.kind@, c.kind@));
        assert(t(a.kind@, c.kind@) == text_order(a.kind@, c.kind@));
    }

    fn compare_keys(&self, other: &Self) -> (r: i8) {
        if self.from_pod != other.from_pod {
            if self.from_pod < other.from_pod { -1 } else { 1 }
        } else if self.to_pod != other.to_pod {
            if self.to_pod < other.to_pod { -1 } else { 1 }
        } else {
            let a = chars_of(self.kind.as_str());
            let b = chars_of(other.kind.as_str());
            compare_text(a.as_slice(), b.as_slice())
        }
    }
}

/// Sum with saturation at `usize::MAX`, as `saturating_add` folds it.
pub open spec fn saturating_total(ms: Seq<PodMetrics>) -> usize
    decreases ms.len(),
{
    if ms.len() == 0 {
        0
    } else {
        let prev = saturating_total(ms.drop_last());
        if prev + ms.last().total_ast_nodes > usize::MAX {
            usize::MAX
        } else {
            (prev + ms.last().total_ast_nodes) as usize
        }
    }
}

/// The deployment of one pod, and what it dropped.
fn deployment_of(
    pod: &Pod,
    i: usize,
    pod_metrics: &Vec<PodMetrics>,
    dependencies: &Vec<(usize, Vec<DependencyEntry>)>,
    graph: &CodeGraph,
) -> (r: (PodDeployment, usize))
    requires
        graph.wf(),
        keys_distinct(dependencies@),
        missing_files(*graph, pod.files@) + 1 <= usize::MAX,
    ensures
        deployment_matches(r.0, *graph, *pod, i as int, pod_metrics@, dependencies@),
        r.1 == missing_files(*graph, pod.files@) + if i < pod_metrics@.len() { 0nat } else { 1nat },
{
    let ghost fs = pod.files@;
    let mut files: Vec<String> = Vec::new();
    let mut dropped: usize = 0;
    let mut j: usize = 0;
    while j < pod.files.len()
        invariant
            graph.wf(),
            fs == pod.files@,
            missing_files(*graph, fs) + 1 <= usize::MAX,
            0 <= j <= fs.len(),
            files@.map_values(|s: String| s@) == pod_file_paths(*graph, fs.take(j as int)),
            dropped == missing_files(*graph, fs.take(j as int)),
        decreases fs.len() - j,
    {
        let fid = pod.files[j];
        proof {
            assert(fs.take(j + 1).drop_last() =~= fs.take(j as int));
            assert(fs.take(j + 1).last() == fid);
            lemma_missing_prefix(*graph, fs, j + 1);
        }
        match graph.file_node(fid) {
            Some(f) => {
                let ghost before = files@;
                files.push(portable_path(f.path.as_str()));
                proof {
                    assert(files@.map_values(|s: String| s@) =~= before.map_values(|s: String| s@).push(portable(f.path@)));
                }
            },
            None => {
                dropped = dropped + 1;
            },
        }
        j = j + 1;
    }
    proof { assert(fs.take(j as int) =~= fs); }
    let metrics = if i < pod_metrics.len() {
        pod_metrics[i]
    } else {
        dropped = dropped + 1;
        PodMetrics { total_ast_nodes: 0, file_count: 0, symbol_count: 0 }
    };
    let deps = dependencies_lookup(dependencies, pod.id);
    let tag = metacall_tag(pod.language);
    (PodDeployment { id: pod.id, language: string_from(tag), files, metrics, dependencies: deps }, dropped)
}

proof fn lemma_missing_prefix(g: CodeGraph, fs: Seq<FileId>, m: int)
    requires
        0 <= m <= fs.len(),
    ensures
        missing_files(g, fs.take(m)) <= missing_files(g, fs),
    decreases fs.len() - m,
{
    if m == fs.len() {
        assert(fs.take(m) =~= fs);
    } else {
        lemma_missing_prefix(g, fs, m + 1);
        assert(fs.take(m + 1).drop_last() =~= fs.take(m));
    }
}

fn dependencies_lookup(dependencies: &Vec<(usize, Vec<DependencyEntry>)>, id: usize) -> (r: Vec<DependencyEntry>)
    requires
        keys_distinct(dependencies@),
    ensures
        r@ == dependencies_of(dependencies@, id),
{
    let mut i: usize = 0;
    while i < dependencies.len()
        invariant
            keys_distinct(dependencies@),
            0 <= i <= dependencies@.len(),
            forall|j: int| 0 <= j < i ==> (#[trigger] dependencies@[j]).0 != id,
        decreases dependencies@.len() - i,
    {
        if dependencies[i].0 == id {
            proof { lemma_lookup_at(dependencies@, i as int); }
            return duplicate_entries(&dependencies[i].1);
        }
        i = i + 1;
    }
    proof { lemma_lookup_none(dependencies@, id); }
    Vec::new()
}

proof fn lemma_dropped_prefix(g: CodeGraph, pods: Seq<Pod>, metrics_len: nat, m: int)
    requires
        0 <= m <= pods.len(),
    ensures
        dropped_count(g, pods.take(m), metrics_len) <= dropped_count(g, pods, metrics_len),
        m < pods.len() ==> dropped_count(g, pods.take(m), metrics_len) + missing_files(g, pods[m].files@) + 1
            <= dropped_count(g, pods, metrics_len) + 1,
    decreases pods.len() - m,
{
    if m == pods.len() {
        assert(pods.take(m) =~= pods);
    } else {
        lemma_dropped_prefix(g, pods, metrics_len, m + 1);
        assert(pods.take(m + 1).drop_last() =~= pods.take(m));
        assert(pods.take(m + 1).last() == pods[m]);
    }
}

/// The deployments of all pods, and the total dropped.
fn build_deployments(
    partition: &PodPartition,
    pod_metrics: &Vec<PodMetrics>,
    dependencies: &Vec<(usize, Vec<DependencyEntry>)>,
    graph: &CodeGraph,
) -> (r: (Vec<PodDeployment>, usize))
    requires
        graph.wf(),
        keys_distinct(dependencies@),
        dropped_count(*graph, partition.pods@, pod_metrics@.len()) + 1 <= usize::MAX,
    ensures
        r.0@.len() == partition.pods@.len(),
        forall|i: int| 0 <= i < r.0@.len() ==> deployment_matches(
            #[trigger] r.0@[i],
            *graph,
            partition.pods@[i],
            i,
            pod_metrics@,
            dependencies@,
        ),
        r.1 == dropped_count(*graph, partition.pods@, pod_metrics@.len()),
{
    let ghost pods = partition.pods@;
    let mut out: Vec<PodDeployment> = Vec::new();
    let mut dropped: usize = 0;
    let mut i: usize = 0;
    while i < partition.pods.len()
        invariant
            graph.wf(),
            keys_distinct(dependencies@),
            pods == partition.pods@,
            dropped_count(*graph, pods, pod_metrics@.len()) + 1 <= usize::MAX,
            0 <= i <= pods.len(),
            out@.len() == i,
            forall|k: int| 0 <= k < i ==> deployment_matches(#[trigger] out@[k], *graph, pods[k], k, pod_metrics@, dependencies@),
            dropped == dropped_count(*graph, pods.take(i as int), pod_metrics@.len()),
        decreases pods.len() - i,
    {
        proof {
            lemma_dropped_prefix(*graph, pods, pod_metrics@.len(), i as int);
            assert(pods.take(i + 1).drop_last() =~= pods.take(i as int));
            assert(pods.take(i + 1).last() == pods[i as int]);
        }
        let (d, lost) = deployment_of(&partition.pods[i], i, pod_metrics, dependencies, graph);
        out.push(d);
        dropped = dropped + lost;
        i = i + 1;
    }
    proof { assert(pods.take(i as int) =~= pods); }
    (out, dropped)
}

/// The cuts of one pod pair.
struct CutGroup {
    from_pod: usize,
    to_pod: usize,
    annotations: Vec<CutAnnotation>,
}

pub proof fn lemma_cut_pairs(cuts: Seq<CutEdge>, pair: (usize, usize))
    ensures
        !cut_pairs(cuts).contains(pair) ==> annotations_for(cuts, pair) == Seq::<CutAnnotation>::empty(),
        cut_pairs(cuts).contains(pair) ==> annotations_for(cuts, pair).len() > 0,
        cut_pairs(cuts).contains(pair) <==> exists|i: int| 0 <= i < cuts.len() && (#[trigger] cuts[i]).from_pod == pair.0 && cuts[i].to_pod == pair.1,
        forall|i: int, j: int| 0 <= i < cut_pairs(cuts).len() && 0 <= j < cut_pairs(cuts).len() && i != j
            ==> #[trigger] cut_pairs(cuts)[i] != #[trigger] cut_pairs(cuts)[j],
    decreases cuts.len(),
{
    if cuts.len() > 0 {
        let t = cuts.drop_last();
        lemma_cut_pairs(t, pair);
        let p = (cuts.last().from_pod, cuts.last().to_pod);
        let prev = cut_pairs(t);
        if exists|i: int| 0 <= i < t.len() && (#[trigger] t[i]).from_pod == pair.0 && t[i].to_pod == pair.1 {
            let i = choose|i: int| 0 <= i < t.len() && (#[trigger] t[i]).from_pod == pair.0 && t[i].to_pod == pair.1;
            assert(cuts[i] == t[i]);
        }
        if exists|i: int| 0 <= i < cuts.len() && (#[trigger] cuts[i]).from_pod == pair.0 && cuts[i].to_pod == pair.1 {
            let i = choose|i: int| 0 <= i < cuts.len() && (#[trigger] cuts[i]).from_pod == pair.0 && cuts[i].to_pod == pair.1;
            if i < t.len() {
                assert(t[i] == cuts[i]);
            }
        }
        if !prev.contains(p) {
            let cur = prev.push(p);
            assert forall|i: int, j: int| 0 <= i < cur.len() && 0 <= j < cur.len() && i != j implies #[trigger] cur[i] != #[trigger] cur[j] by {
                if i < prev.len() && j < prev.len() {
                    assert(cur[i] == prev[i] && cur[j] == prev[j]);
                } else if i < prev.len() {
                    assert(cur[i] == prev[i]);
                } else {
                    assert(cur[j] == prev[j]);
                }
            }
            if cur.contains(pair) && pair != p {
                let k = choose|k: int| 0 <= k < cur.len() && cur[k] == pair;
                assert(prev[k] == pair);
            }
            if prev.contains(pair) {
                let k = choose|k: int| 0 <= k < prev.len() && prev[k] == pair;
                assert(cur[k] == pair);
            }
            if pair == p {
                assert(cur[prev.len() as int] == pair);
            }
        }
    }
}

fn find_group(groups: &Vec<CutGroup>, from_pod: usize, to_pod: usize) -> (r: Option<usize>)
    ensures
        r matches Some(i) ==> i < groups@.len() && groups@[i as int].from_pod == from_pod && groups@[i as int].to_pod == to_pod,
        r is None ==> forall|i: int| 0 <= i < groups@.len() ==> !(groups@[i].from_pod == from_pod && groups@[i].to_pod == to_pod),
{
    let mut i: usize = 0;
    while i < groups.len()
        invariant
            0 <= i <= groups@.len(),
            forall|j: int| 0 <= j < i ==> !(groups@[j].from_pod == from_pod && groups@[j].to_pod == to_pod),
        decreases groups@.len() - i,
    {
        if groups[i].from_pod == from_pod && groups[i].to_pod == to_pod {
            return Some(i);
        }
        i = i + 1;
    }
    None
}

/// The group list agrees with the cuts.
spec fn groups_agree(groups: Seq<CutGroup>, cuts: Seq<CutEdge>) -> bool {
    &&& groups.len() == cut_pairs(cuts).len()
    &&& forall|i: int| 0 <= i < groups.len() ==> {
        &&& ((#[trigger] groups[i]).from_pod, groups[i].to_pod) == cut_pairs(cuts)[i]
        &&& groups[i].annotations@ == annotations_for(cuts, cut_pairs(cuts)[i])
    }
}

/// The cuts grouped by pod pair, pairs in order of first appearance.
fn group_cuts(cuts: &Vec<CutEdge>) -> (r: Vec<CutGroup>)
    ensures
        groups_agree(r@, cuts@),
{
    let mut groups: Vec<CutGroup> = Vec::new();
    let mut k: usize = 0;
    while k < cuts.len()
        invariant
            0 <= k <= cuts@.len(),
            groups_agree(groups@, cuts@.take(k as int)),
        decreases cuts@.len() - k,
    {
        let c = &cuts[k];
        let ghost t = cuts@.take(k as int);
        let ghost u = cuts@.take(k + 1);
        let ghost pair = (c.from_pod, c.to_pod);
        proof {
            assert(u.drop_last() =~= t);
            assert(u.last() == *c);
            lemma_cut_pairs(t, pair);
        }
        let ghost before = groups@;
        match find_group(&groups, c.from_pod, c.to_pod) {
            Some(i) => {
                proof {
                    assert(cut_pairs(t)[i as int] == pair);
                    assert(cut_pairs(t).contains(pair));
                    assert(cut_pairs(u) == cut_pairs(t));
                }
                let mut anns = duplicate_annotations(&groups[i].annotations);
                anns.push(c.annotation.duplicate());
                let g = CutGroup { from_pod: c.from_pod, to_pod: c.to_pod, annotations: anns };
                groups.set(i, g);
                proof {
                    assert forall|j: int| 0 <= j < groups@.len() implies {
                        &&& ((#[trigger] groups@[j]).from_pod, groups@[j].to_pod) == cut_pairs(u)[j]
                        &&& groups@[j].annotations@ == annotations_for(u, cut_pairs(u)[j])
                    } by {
                        if j != i as int {
                            assert(groups@[j] == before[j]);
                            assert(cut_pairs(t)[j] != cut_pairs(t)[i as int]);
                        }
                    }
                }
            },
            None => {
                proof {
                    assert(!cut_pairs(t).contains(pair)) by {
                        if cut_pairs(t).contains(pair) {
                            let j = choose|j: int| 0 <= j < cut_pairs(t).len() && cut_pairs(t)[j] == pair;
                            assert((before[j].from_pod, before[j].to_pod) == cut_pairs(t)[j]);
                        }
                    }
                    assert(cut_pairs(u) == cut_pairs(t).push(pair));
                }
                let mut anns: Vec<CutAnnotation> = Vec::new();
                anns.push(c.annotation.duplicate());
                groups.push(CutGroup { from_pod: c.from_pod, to_pod: c.to_pod, annotations: anns });
                proof {
                    assert forall|j: int| 0 <= j < groups@.len() implies {
                        &&& ((#[trigger] groups@[j]).from_pod, groups@[j].to_pod) == cut_pairs(u)[j]
                        &&& groups@[j].annotations@ == annotations_for(u, cut_pairs(u)[j])
                    } by {
                        if j < before.len() {
                            assert(groups@[j] == before[j]);
                            assert(cut_pairs(u)[j] == cut_pairs(t)[j]);
                            assert(cut_pairs(t)[j] != pair);
                        } else {
                            assert(annotations_for(t, pair) == Seq::<CutAnnotation>::empty());
                            assert(groups@[j].annotations@ =~= seq![c.annotation]);
                        }
                    }
                }
            },
        }
        k = k + 1;
    }
    proof { assert(cuts@.take(k as int) =~= cuts@); }
    groups
}

/// The annotations of the cuts of a pod pair.
fn annotations_of_pair(groups: &Vec<CutGroup>, from_pod: usize, to_pod: usize, Ghost(cuts): Ghost<Seq<CutEdge>>) -> (r: Vec<CutAnnotation>)
    requires
        groups_agree(groups@, cuts),
    ensures
        r@ == annotations_for(cuts, (from_pod, to_pod)),
{
    proof { lemma_cut_pairs(cuts, (from_pod, to_pod)); }
    match find_group(groups, from_pod, to_pod) {
        Some(i) => duplicate_annotations(&groups[i].annotations),
        None => {
            proof {
                if cut_pairs(cuts).contains((from_pod, to_pod)) {
                    let j = choose|j: int| 0 <= j < cut_pairs(cuts).len() && cut_pairs(cuts)[j] == (from_pod, to_pod);
                    assert((groups@[j].from_pod, groups@[j].to_pod) == cut_pairs(cuts)[j]);
                }
            }
            Vec::new()
        },
    }
}

/// The stub edge of a cut group.
fn stub_of(g: &CutGroup) -> (r: ManifestEdge)
    ensures
        edge_view(r) == (g.from_pod, g.to_pod, "rpc_stub"@, lowest_confidence(g.annotations@), has_scc_cut(g.annotations@), g.annotations@),
{
    let ghost anns = g.annotations@;
    let mut lowest: u32 = u32::MAX;
    let mut scc = false;
    let mut i: usize = 0;
    while i < g.annotations.len()
        invariant
            anns == g.annotations@,
            0 <= i <= anns.len(),
            lowest == lowest_confidence(anns.take(i as int)),
            scc == has_scc_cut(anns.take(i as int)),
        decreases anns.len() - i,
    {
        let a = &g.annotations[i];
        proof {
            assert(anns.take(i + 1).drop_last() =~= anns.take(i as int));
            assert(anns.take(i + 1).last() == *a);
            if has_scc_cut(anns.take(i + 1)) && !has_scc_cut(anns.take(i as int)) {
                let j = choose|j: int| 0 <= j < anns.take(i + 1).len() && (#[trigger] anns.take(i + 1)[j]).cut_reason == CutReason::CrossLanguageScc;
                if j < i {
                    assert(anns.take(i as int)[j] == anns.take(i + 1)[j]);
                }
            }
            if has_scc_cut(anns.take(i as int)) {
                let j = choose|j: int| 0 <= j < anns.take(i as int).len() && (#[trigger] anns.take(i as int)[j]).cut_reason == CutReason::CrossLanguageScc;
                assert(anns.take(i + 1)[j] == anns.take(i as int)[j]);
            }
            if a.cut_reason == CutReason::CrossLanguageScc {
                assert(anns.take(i + 1)[i as int] == *a);
            }
        }
        if a.original_confidence < lowest {
            lowest = a.original_confidence;
        }
        let is_scc = match a.cut_reason {
            CutReason::CrossLanguageScc => true,
            _ => false,
        };
        scc = scc || is_scc;
        i = i + 1;
    }
    proof { assert(anns.take(i as int) =~= anns); }
    ManifestEdge {
        from_pod: g.from_pod,
        to_pod: g.to_pod,
        kind: string_from("rpc_stub"),
        confidence: lowest,
        is_cross_language: scc,
        cut_annotations: duplicate_annotations(&g.annotations),
    }
}

/// The manifest edges before ordering (see [`manifest_edge_views`]).
fn unordered_edges(inter: &Vec<InterPodEdge>, cuts: &Vec<CutEdge>) -> (r: Vec<ManifestEdge>)
    ensures
        r@.map_values(|e: ManifestEdge| edge_view(e)) == manifest_edge_views(inter@, cuts@),
{
    let groups = group_cuts(cuts);
    let mut out: Vec<ManifestEdge> = Vec::new();
    let mut i: usize = 0;
    while i < inter.len()
        invariant
            groups_agree(groups@, cuts@),
            0 <= i <= inter@.len(),
            out@.map_values(|e: ManifestEdge| edge_view(e)) == inter@.take(i as int).map_values(|e: InterPodEdge| inter_edge_view(e, cuts@)),
        decreases inter@.len() - i,
    {
        let ip = inter[i];
        let anns = annotations_of_pair(&groups, ip.from_pod, ip.to_pod, Ghost(cuts@));
        let e = ManifestEdge {
            from_pod: ip.from_pod,
            to_pod: ip.to_pod,
            kind: string_from(ip.kind.as_str()),
            confidence: ip.confidence,
            is_cross_language: ip.is_cross_language,
            cut_annotations: anns,
        };
        let ghost before = out@;
        out.push(e);
        proof {
            assert(out@.map_values(|e: ManifestEdge| edge_view(e)) =~= before.map_values(|e: ManifestEdge| edge_view(e)).push(edge_view(e)));
            assert(inter@.take(i + 1).map_values(|e: InterPodEdge| inter_edge_view(e, cuts@)) =~= inter@.take(i as int).map_values(
                |e: InterPodEdge| inter_edge_view(e, cuts@),
            ).push(inter_edge_view(ip, cuts@)));
        }
        i = i + 1;
    }
    proof { assert(inter@.take(i as int) =~= inter@); }
    let ghost head = out@.map_values(|e: ManifestEdge| edge_view(e));
    let mut j: usize = 0;
    while j < groups.len()
        invariant
            groups_agree(groups@, cuts@),
            0 <= j <= groups@.len(),
            out@.map_values(|e: ManifestEdge| edge_view(e)) == head + cut_pairs(cuts@).take(j as int).map_values(
                |pair: (usize, usize)| stub_view(cuts@, pair),
            ),
        decreases groups@.len() - j,
    {
        let e = stub_of(&groups[j]);
        let ghost before = out@;
        out.push(e);
        proof {
            let pair = cut_pairs(cuts@)[j as int];
            assert((groups@[j as int].from_pod, groups@[j as int].to_pod) == pair);
            assert(edge_view(e) == stub_view(cuts@, pair));
            assert(out@.map_values(|e: ManifestEdge| edge_view(e)) =~= before.map_values(|e: ManifestEdge| edge_view(e)).push(edge_view(e)));
            assert(cut_pairs(cuts@).take(j + 1).map_values(|pair: (usize, usize)| stub_view(cuts@, pair)) =~= cut_pairs(
                cuts@,
            ).take(j as int).map_values(|pair: (usize, usize)| stub_view(cuts@, pair)).push(stub_view(cuts@, pair)));
        }
        j = j + 1;
    }
    proof { assert(cut_pairs(cuts@).take(j as int) =~= cut_pairs(cuts@)); }
    out
}

/// Number of cross-language edges.
pub open spec fn cross_language_count(edges: Seq<ManifestEdge>) -> nat
    decreases edges.len(),
{
    if edges.len() == 0 {
        0
    } else {
        cross_language_count(edges.drop_last()) + if edges.last().is_cross_language { 1nat } else { 0nat }
    }
}

/// Builds the manifest of a partition: one deployment per pod (with its
/// metrics and dependencies), the inter-pod edges with the annotations of
/// their cut pod pair, one `rpc_stub` edge per cut pod pair, edges ordered by
/// source pod, target pod and kind, and the global metrics. The manifest
/// passes the cut fairness check against the same cuts.
pub fn generate_pod_manifest(
    partition: &PodPartition,
    pod_metrics: &Vec<PodMetrics>,
    cuts: &Vec<CutEdge>,
    dependencies: &Vec<(usize, Vec<DependencyEntry>)>,
    graph: &CodeGraph,
) -> (r: PodManifest)
    requires
        graph.wf(),
        keys_distinct(dependencies@),
        dropped_count(*graph, partition.pods@, pod_metrics@.len()) + 1 <= usize::MAX,
    ensures
        r.version@ == "1.1"@,
        r.deployments@.len() == partition.pods@.len(),
        forall|i: int| 0 <= i < r.deployments@.len() ==> deployment_matches(
            #[trigger] r.deployments@[i],
            *graph,
            partition.pods@[i],
            i,
            pod_metrics@,
            dependencies@,
        ),
        r.edges@.map_values(|e: ManifestEdge| edge_view(e)) == sort_by(
            manifest_edge_views(partition.inter_pod_edges@, cuts@),
            |a: (usize, usize, Seq<char>, u32, bool, Seq<CutAnnotation>), b: (usize, usize, Seq<char>, u32, bool, Seq<CutAnnotation>)|
                view_le(a, b),
        ),
        r.metrics == (GlobalMetrics {
            total_pods: partition.pods@.len() as usize,
            cross_language_edges: cross_language_count(r.edges@) as usize,
            total_ast_nodes: saturating_total(pod_metrics@),
            dropped_files: dropped_count(*graph, partition.pods@, pod_metrics@.len()) as usize,
        }),
        fairness_issues(r.edges@, cuts@) == Seq::<Seq<char>>::empty(),
{
    let (deployments, dropped_files) = build_deployments(partition, pod_metrics, dependencies, graph);
    let unordered = unordered_edges(&partition.inter_pod_edges, cuts);
    let ghost pre = unordered@;
    let edges = sort_stable(unordered);
    proof {
        lemma_stable_sorted_is_sort_by(pre);
        let le_e = |a: ManifestEdge, b: ManifestEdge| key_le(a, b);
        let le_v = |a: (usize, usize, Seq<char>, u32, bool, Seq<CutAnnotation>), b: (usize, usize, Seq<char>, u32, bool, Seq<CutAnnotation>)|
            view_le(a, b);
        let f = |e: ManifestEdge| edge_view(e);
        assert forall|a: ManifestEdge, b: ManifestEdge| #[trigger] le_e(a, b) == le_v(f(a), f(b)) by {}
        lemma_sort_by_map(pre, f, le_e, le_v);
    }
    let mut total_ast_nodes: usize = 0;
    let mut i: usize = 0;
    while i < pod_metrics.len()
        invariant
            0 <= i <= pod_metrics@.len(),
            total_ast_nodes == saturating_total(pod_metrics@.take(i as int)),
        decreases pod_metrics@.len() - i,
    {
        proof {
            assert(pod_metrics@.take(i + 1).drop_last() =~= pod_metrics@.take(i as int));
            assert(pod_metrics@.take(i + 1).last() == pod_metrics@[i as int]);
        }
        total_ast_nodes = total_ast_nodes.saturating_add(pod_metrics[i].total_ast_nodes);
        i = i + 1;
    }
    proof { assert(pod_metrics@.take(i as int) =~= pod_metrics@); }
    let mut cross: usize = 0;
    let mut j: usize = 0;
    while j < edges.len()
        invariant
            0 <= j <= edges@.len(),
            cross == cross_language_count(edges@.take(j as int)),
            cross <= j,
        decreases edges@.len() - j,
    {
        proof {
            assert(edges@.take(j + 1).drop_last() =~= edges@.take(j as int));
            assert(edges@.take(j + 1).last() == edges@[j as int]);
        }
        if edges[j].is_cross_language {
            cross = cross + 1;
        }
        j = j + 1;
    }
    proof {
        assert(edges@.take(j as int) =~= edges@);
        lemma_generated_manifest_is_fair(edges@, partition.inter_pod_edges@, cuts@);
    }
    let total_pods = deployments.len();
    PodManifest {
        version: string_from("1.1"),
        deployments,
        edges,
        metrics: GlobalMetrics { total_pods, cross_language_edges: cross, total_ast_nodes, dropped_files },
    }
}

/// In the edges of a manifest, an `rpc_stub` edge is cross-language exactly
/// when one of its cut annotations is a cross-language cycle cut.
pub proof fn lemma_stub_cross_language(inter: Seq<InterPodEdge>, cuts: Seq<CutEdge>)
    ensures
        ({
            let edges = sort_by(
                manifest_edge_views(inter, cuts),
                |a: (usize, usize, Seq<char>, u32, bool, Seq<CutAnnotation>), b: (usize, usize, Seq<char>, u32, bool, Seq<CutAnnotation>)|
                    view_le(a, b),
            );
            forall|i: int| 0 <= i < edges.len() && (#[trigger] edges[i]).2 == "rpc_stub"@ ==> (edges[i].4 <==> exists|j: int|
                0 <= j < edges[i].5.len() && (#[trigger] edges[i].5[j]).cut_reason == CutReason::CrossLanguageScc)
        }),
{
    let le = |a: (usize, usize, Seq<char>, u32, bool, Seq<CutAnnotation>), b: (usize, usize, Seq<char>, u32, bool, Seq<CutAnnotation>)|
        view_le(a, b);
    let views = manifest_edge_views(inter, cuts);
    let edges = sort_by(views, le);
    lemma_sort_by_permutes(views, le);
    reveal_strlit("rpc_stub");
    reveal_strlit("ownership");
    reveal_strlit("import");
    reveal_strlit("reference");
    let head = inter.map_values(|e: InterPodEdge| inter_edge_view(e, cuts));
    let stubs = cut_pairs(cuts).map_values(|pair: (usize, usize)| stub_view(cuts, pair));
    assert(views == head + stubs);
    assert forall|i: int| 0 <= i < edges.len() && (#[trigger] edges[i]).2 == "rpc_stub"@ implies (edges[i].4 <==> exists|j: int|
        0 <= j < edges[i].5.len() && (#[trigger] edges[i].5[j]).cut_reason == CutReason::CrossLanguageScc) by {
        assert(edges.contains(edges[i]));
        assert(views.contains(edges[i]));
        let k = choose|k: int| 0 <= k < views.len() && views[k] == edges[i];
        if k < head.len() {
            assert(views[k] == head[k]);
            let kind = inter[k].kind;
            assert(head[k].2 == kind.spec_name());
            assert(kind.spec_name() != "rpc_stub"@) by {
                match kind {
                    EdgeKind::Ownership => assert("ownership"@.len() != "rpc_stub"@.len()),
                    EdgeKind::Import => assert("import"@.len() != "rpc_stub"@.len()),
                    EdgeKind::Reference => assert("reference"@[0] != "rpc_stub"@[0]),
                }
            }
        } else {
            assert(views[k] == stubs[k - head.len()]);
        }
    }
}

} // verus!
