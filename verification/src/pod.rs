//! Pod partitioning over same-language dependency edges.
//!
//! A pod is a set of files connected by import and reference edges whose
//! endpoints share one language. Cross-language edges never join two files,
//! so they become inter-pod edges by construction. Pods are numbered in the
//! order of their first file, files being taken by path; the partition is
//! therefore the same on every run over the same graph.
use vstd::prelude::*;

use petgraph::unionfind::UnionFind;

use crate::assoc::{keys_distinct, lemma_lookup_at, lemma_lookup_none, lemma_lookup_push, lemma_lookup_some, lookup};
use crate::edge::{EdgeData, EdgeKind};
use crate::graph::{is_file_node, CodeGraph};
use crate::lang::LangId;
use crate::model::FileId;
use crate::node::NodeData;
use crate::order::{distinct_by, int_order, lemma_stable_sorted_members, sort_stable, sorted_by_key, stable_sorted, SortKey};
use crate::paths::{compare_paths, lemma_path_order, path_order};
use crate::pg::{
    graph_edge, graph_edge_count, graph_edges, graph_node, graph_nodes, index_limit, roots_are_elements, same_set,
    union_find_labeling, union_find_new, union_find_roots, union_find_union,
};

verus! {

/// A set of same-language files connected by dependency edges inside that
/// language.
#[derive(Debug, Clone)]
pub struct Pod {
    pub id: usize,
    pub files: Vec<FileId>,
    pub language: LangId,
}

/// A dependency that crosses a pod boundary.
#[derive(Debug, Clone, Copy)]
pub struct InterPodEdge {
    pub from_pod: usize,
    pub to_pod: usize,
    pub from_file: FileId,
    pub to_file: FileId,
    pub kind: EdgeKind,
    /// Confidence in thousandths.
    pub confidence: u32,
    pub is_cross_language: bool,
}

/// The pods of a graph and the edges between them.
#[derive(Debug, Clone)]
pub struct PodPartition {
    pub pods: Vec<Pod>,
    pub inter_pod_edges: Vec<InterPodEdge>,
    /// The language of every file, in path order.
    pub file_languages: Vec<(FileId, LangId)>,
}

/// The file a node belongs to: a file itself, or the file owning a symbol.
pub open spec fn node_file(n: NodeData) -> Option<FileId> {
    match n {
        NodeData::File(f) => Some(f.id),
        NodeData::Symbol(s) => Some(s.file_id),
        _ => None,
    }
}

/// The owning file of a graph node; external and data nodes have none.
pub fn node_to_file_id(node: &NodeData) -> (r: Option<FileId>)
    ensures
        r == node_file(*node),
{
    match node {
        NodeData::File(f) => Some(f.id),
        NodeData::Symbol(s) => Some(s.file_id),
        NodeData::External(_) => None,
        NodeData::Data(_) => None,
    }
}

/// Every node that belongs to a file belongs to a registered one.
pub open spec fn files_registered(g: CodeGraph) -> bool {
    forall|i: int| 0 <= i < g.nodes().len() && (#[trigger] node_file(g.nodes()[i])) is Some
        ==> lookup(g.file_to_index@, node_file(g.nodes()[i])->0) is Some
}

/// Whether every file and symbol node of the graph names a registered file
/// (see [`files_registered`]).
pub fn files_all_registered(g: &CodeGraph) -> (r: bool)
    requires
        g.wf(),
    ensures
        r == files_registered(*g),
{
    let n = g.node_count();
    let mut i: usize = 0;
    while i < n
        invariant
            g.wf(),
            n == g.nodes().len(),
            0 <= i <= n,
            forall|j: int| 0 <= j < i && (#[trigger] node_file(g.nodes()[j])) is Some ==> lookup(g.file_to_index@, node_file(g.nodes()[j])->0) is Some,
        decreases n - i,
    {
        let owner = match g.node(i) {
            NodeData::File(f) => Some(f.id),
            NodeData::Symbol(s) => Some(s.file_id),
            _ => None,
        };
        proof {
            assert(owner == node_file(g.nodes()[i as int]));
        }
        if let Some(fid) = owner {
            if g.file_node_index(fid).is_none() {
                return false;
            }
        }
        i = i + 1;
    }
    true
}

/// A registered file with the path it is ordered by.
#[derive(Debug, Clone)]
pub struct FileEntry {
    pub id: FileId,
    pub path: String,
}

impl SortKey for FileEntry {
    open spec fn key_order(self, other: Self) -> int {
        path_order(self.path@, other.path@)
    }

    proof fn lemma_key_order(a: Self, b: Self, c: Self) {
        lemma_path_order(a.path@, b.path@, c.path@);
    }

    fn compare_keys(&self, other: &Self) -> (r: i8) {
        compare_paths(self.path.as_str(), other.path.as_str())
    }
}

/// The registered files with their paths, in registration order.
pub open spec fn file_entries(g: CodeGraph) -> Seq<FileEntry> {
    g.file_to_index@.map_values(|e: (FileId, usize)| FileEntry { id: e.0, path: g.nodes()[e.1 as int]->File_0.path })
}

/// The registered files ordered by path (a stable sort over registration
/// order).
pub open spec fn files_by_path(g: CodeGraph) -> Seq<FileId> {
    stable_sorted(file_entries(g)).map_values(|e: FileEntry| e.id)
}

/// The language of a registered file.
pub open spec fn file_language(g: CodeGraph, fid: FileId) -> Option<LangId> {
    match lookup(g.file_to_index@, fid) {
        Some(i) => Some(g.nodes()[i as int]->File_0.language),
        None => None,
    }
}

/// Position of a file in a list of files.
pub open spec fn position(fs: Seq<FileId>, fid: FileId) -> Option<int> {
    if exists|i: int| 0 <= i < fs.len() && fs[i] == fid {
        Some(choose|i: int| 0 <= i < fs.len() && fs[i] == fid)
    } else {
        None
    }
}

/// The pairs of file positions joined by a same-language dependency edge, in
/// edge order.
pub open spec fn same_language_pairs(g: CodeGraph, fs: Seq<FileId>, es: Seq<(usize, usize, EdgeData)>) -> Seq<(int, int)>
    decreases es.len(),
{
    if es.len() == 0 {
        Seq::empty()
    } else {
        let prev = same_language_pairs(g, fs, es.drop_last());
        let e = es.last();
        let a = node_file(g.nodes()[e.0 as int]);
        let b = node_file(g.nodes()[e.1 as int]);
        if e.2.kind.spec_participates_in_scc() && a is Some && b is Some && file_language(g, a->0) is Some
            && file_language(g, a->0) == file_language(g, b->0) && position(fs, a->0) is Some && position(fs, b->0) is Some {
            prev.push((position(fs, a->0)->0, position(fs, b->0)->0))
        } else {
            prev
        }
    }
}

/// `i` and `j` are joined by a chain of pairs: the equivalence closure of
/// the pairs, built one pair at a time.
pub open spec fn joined(pairs: Seq<(int, int)>, i: int, j: int) -> bool
    decreases pairs.len(),
{
    if pairs.len() == 0 {
        i == j
    } else {
        let p = pairs.drop_last();
        let x = pairs.last().0;
        let y = pairs.last().1;
        ||| joined(p, i, j)
        ||| (joined(p, i, x) && joined(p, j, y))
        ||| (joined(p, i, y) && joined(p, j, x))
    }
}

/// The classes of the files: positions joined by same-language dependency
/// edges.
pub open spec fn file_classes(g: CodeGraph) -> Seq<(int, int)> {
    same_language_pairs(g, files_by_path(g), g.edges())
}

/// `i` is the first position of its class.
pub open spec fn is_first_of_class(pairs: Seq<(int, int)>, i: int) -> bool {
    forall|j: int| 0 <= j < i ==> !#[trigger] joined(pairs, j, i)
}

/// The first position of every class among `0..n`, in increasing order.
pub open spec fn class_leaders(pairs: Seq<(int, int)>, n: nat) -> Seq<int>
    decreases n,
{
    if n == 0 {
        Seq::empty()
    } else {
        let prev = class_leaders(pairs, (n - 1) as nat);
        if is_first_of_class(pairs, n - 1) {
            prev.push(n - 1)
        } else {
            prev
        }
    }
}

/// The positions among `0..n` joined to `leader`, in increasing order.
pub open spec fn class_members(pairs: Seq<(int, int)>, n: nat, leader: int) -> Seq<int>
    decreases n,
{
    if n == 0 {
        Seq::empty()
    } else {
        let prev = class_members(pairs, (n - 1) as nat, leader);
        if joined(pairs, n - 1, leader) {
            prev.push(n - 1)
        } else {
            prev
        }
    }
}

/// The identity of a file entry.
pub open spec fn entry_id(e: FileEntry) -> FileId {
    e.id
}

/// No file occurs twice.
pub open spec fn all_distinct(s: Seq<FileId>) -> bool {
    forall|i: int, j: int| 0 <= i < s.len() && 0 <= j < s.len() && i != j ==> #[trigger] s[i] != #[trigger] s[j]
}

/// The registered files, ordered by path.
pub(crate) fn sorted_files(g: &CodeGraph) -> (r: Vec<FileId>)
    requires
        g.wf(),
    ensures
        r@ == files_by_path(*g),
        all_distinct(r@),
        forall|i: int| 0 <= i < r@.len() ==> #[trigger] file_language(*g, r@[i]) is Some,
        forall|i: int| 0 <= i < g.file_to_index@.len() ==> r@.contains(#[trigger] g.file_to_index@[i].0),
{
    let mut v: Vec<FileEntry> = Vec::new();
    let mut i: usize = 0;
    while i < g.file_to_index.len()
        invariant
            g.wf(),
            0 <= i <= g.file_to_index@.len(),
            v@ == file_entries(*g).take(i as int),
        decreases g.file_to_index@.len() - i,
    {
        let (fid, idx) = g.file_to_index[i];
        proof { assert(is_file_node(g.nodes(), g.file_to_index@[i as int].1, g.file_to_index@[i as int].0)); }
        let node = graph_node(&g.graph, idx);
        match node {
            NodeData::File(f) => {
                v.push(FileEntry { id: fid, path: f.path.clone() });
            },
            _ => {},
        }
        proof { assert(v@ =~= file_entries(*g).take(i + 1)); }
        i = i + 1;
    }
    proof {
        assert(file_entries(*g).take(i as int) =~= file_entries(*g));
        assert forall|a: int, b: int| 0 <= a < v@.len() && 0 <= b < v@.len() && a != b implies
            entry_id(#[trigger] v@[a]) != entry_id(#[trigger] v@[b]) by {
            assert(v@[a].id == g.file_to_index@[a].0 && v@[b].id == g.file_to_index@[b].0);
        }
        lemma_stable_sorted_members(v@, |e: FileEntry| entry_id(e));
    }
    let sorted = sort_stable(v);
    let mut out: Vec<FileId> = Vec::new();
    let mut k: usize = 0;
    while k < sorted.len()
        invariant
            0 <= k <= sorted@.len(),
            out@ == sorted@.take(k as int).map_values(|e: FileEntry| e.id),
        decreases sorted@.len() - k,
    {
        out.push(sorted[k].id);
        proof { assert(out@ =~= sorted@.take(k + 1).map_values(|e: FileEntry| e.id)); }
        k = k + 1;
    }
    proof {
        assert(sorted@.take(k as int) =~= sorted@);
        assert forall|a: int, b: int| 0 <= a < out@.len() && 0 <= b < out@.len() && a != b implies
            #[trigger] out@[a] != #[trigger] out@[b] by {
            assert(out@[a] == entry_id(sorted@[a]) && out@[b] == entry_id(sorted@[b]));
        }
        assert forall|a: int| 0 <= a < g.file_to_index@.len() implies out@.contains(#[trigger] g.file_to_index@[a].0) by {
            broadcast use vstd::seq_lib::group_to_multiset_ensures;
            assert(v@.contains(v@[a]));
            assert(v@.to_multiset().count(v@[a]) > 0);
            assert(sorted@.to_multiset().count(v@[a]) > 0);
            assert(sorted@.contains(v@[a]));
            let w = choose|w: int| 0 <= w < sorted@.len() && sorted@[w] == v@[a];
            assert(out@[w] == v@[a].id);
        }
        assert forall|a: int| 0 <= a < out@.len() implies #[trigger] file_language(*g, out@[a]) is Some by {
            assert(v@.contains(sorted@[a]));
            let w = choose|w: int| 0 <= w < v@.len() && v@[w] == sorted@[a];
            lemma_lookup_at(g.file_to_index@, w);
        }
    }
    out
}

/// The language of a registered file.
fn language_of(g: &CodeGraph, fid: FileId) -> (r: Option<LangId>)
    requires
        g.wf(),
    ensures
        r == file_language(*g, fid),
{
    match g.file_node(fid) {
        Some(f) => Some(f.language),
        None => None,
    }
}

/// Position of a file in a list of distinct files.
fn position_of(fs: &Vec<FileId>, fid: FileId) -> (r: Option<usize>)
    requires
        all_distinct(fs@),
    ensures
        r matches Some(i) ==> i < fs@.len() && position(fs@, fid) == Some(i as int) && fs@[i as int] == fid,
        r is None ==> position(fs@, fid) is None,
{
    let mut i: usize = 0;
    while i < fs.len()
        invariant
            all_distinct(fs@),
            0 <= i <= fs@.len(),
            forall|j: int| 0 <= j < i ==> fs@[j] != fid,
        decreases fs@.len() - i,
    {
        if fs[i] == fid {
            proof {
                assert(fs@[i as int] == fid);
                assert(exists|j: int| 0 <= j < fs@.len() && fs@[j] == fid);
                let c = choose|j: int| 0 <= j < fs@.len() && fs@[j] == fid;
                assert(fs@[c] == fs@[i as int]);
                assert(c == i);
            }
            return Some(i);
        }
        i = i + 1;
    }
    None
}

/// The union-find pass: one union per same-language dependency edge.
/// Returns the representative of every file position.
fn union_same_language(g: &CodeGraph, fs: &Vec<FileId>) -> (roots: Vec<u32>)
    requires
        g.wf(),
        fs@.len() <= g.nodes().len(),
        all_distinct(fs@),
    ensures
        roots@.len() == fs@.len(),
        roots_are_elements(roots@),
        forall|i: int, j: int| 0 <= i < fs@.len() && 0 <= j < fs@.len() ==>
            (#[trigger] same_set(roots@, i, j) <==> joined(same_language_pairs(*g, fs@, g.edges()), i, j)),
{
    let n = fs.len();
    let mut uf = union_find_new(n);
    let m = graph_edge_count(&g.graph);
    let mut k: usize = 0;
    proof {
        assert(g.edges().take(0) =~= Seq::<(usize, usize, EdgeData)>::empty());
    }
    while k < m
        invariant
            g.wf(),
            all_distinct(fs@),
            n == fs@.len(),
            n < index_limit(),
            m == g.edges().len(),
            0 <= k <= m,
            union_find_roots(uf).len() == n,
            roots_are_elements(union_find_roots(uf)),
            forall|i: int, j: int| 0 <= i < n && 0 <= j < n ==>
                (#[trigger] same_set(union_find_roots(uf), i, j) <==> joined(same_language_pairs(*g, fs@, g.edges().take(k as int)), i, j)),
        decreases m - k,
    {
        let ghost es = g.edges().take(k + 1);
        proof {
            assert(es.drop_last() =~= g.edges().take(k as int));
            assert(es.last() == g.edges()[k as int]);
        }
        let (u, v, w) = graph_edge(&g.graph, k);
        let mut joined_now = false;
        if w.participates_in_scc() {
            let a = node_to_file_id(graph_node(&g.graph, u));
            let b = node_to_file_id(graph_node(&g.graph, v));
            if let (Some(fa), Some(fb)) = (a, b) {
                let la = language_of(g, fa);
                let lb = language_of(g, fb);
                if let (Some(x), Some(y)) = (la, lb) {
                    if x == y {
                        let pa = position_of(fs, fa);
                        let pb = position_of(fs, fb);
                        if let (Some(i), Some(j)) = (pa, pb) {
                            let ghost before = union_find_roots(uf);
                            let ghost prev = same_language_pairs(*g, fs@, g.edges().take(k as int));
                            union_find_union(&mut uf, i as u32, j as u32);
                            joined_now = true;
                            proof {
                                let q = prev.push((i as int, j as int));
                                assert(same_language_pairs(*g, fs@, es) == q);
                                assert(q.drop_last() =~= prev);
                                assert forall|x: int, y: int| 0 <= x < n && 0 <= y < n implies
                                    (#[trigger] same_set(union_find_roots(uf), x, y) <==> joined(q, x, y)) by {
                                    assert(same_set(before, x, y) <==> joined(prev, x, y));
                                    assert(same_set(before, x, i as int) <==> joined(prev, x, i as int));
                                    assert(same_set(before, y, j as int) <==> joined(prev, y, j as int));
                                    assert(same_set(before, x, j as int) <==> joined(prev, x, j as int));
                                    assert(same_set(before, y, i as int) <==> joined(prev, y, i as int));
                                }
                            }
                        }
                    }
                }
            }
        }
        proof {
            if !joined_now {
                assert(same_language_pairs(*g, fs@, es) == same_language_pairs(*g, fs@, g.edges().take(k as int)));
            }
        }
        k = k + 1;
    }
    proof { assert(g.edges().take(m as int) =~= g.edges()); }
    union_find_labeling(uf)
}

/// `r` is one of the representatives.
pub open spec fn has_rep(reps: Seq<u32>, r: u32) -> bool {
    exists|p: int| 0 <= p < reps.len() && #[trigger] reps[p] == r
}

proof fn lemma_no_members(pairs: Seq<(int, int)>, m: nat, leader: int)
    requires
        forall|j: int| 0 <= j < m ==> !#[trigger] joined(pairs, j, leader),
    ensures
        class_members(pairs, m, leader) == Seq::<int>::empty(),
    decreases m,
{
    if m > 0 {
        lemma_no_members(pairs, (m - 1) as nat, leader);
        assert(!joined(pairs, m - 1, leader));
    }
}

/// Finds a representative in the list of pod representatives.
fn find_rep(reps: &Vec<u32>, rep: u32) -> (r: Option<usize>)
    ensures
        r matches Some(p) ==> p < reps@.len() && reps@[p as int] == rep,
        r is None ==> forall|p: int| 0 <= p < reps@.len() ==> reps@[p] != rep,
{
    let mut i: usize = 0;
    while i < reps.len()
        invariant
            0 <= i <= reps@.len(),
            forall|p: int| 0 <= p < i ==> reps@[p] != rep,
        decreases reps@.len() - i,
    {
        if reps[i] == rep {
            return Some(i);
        }
        i = i + 1;
    }
    None
}

/// One pod per class of file positions, numbered by the class's first
/// position; the files of a pod in position order. Also returns the
/// representative of each pod.
fn group_into_pods(g: &CodeGraph, fs: &Vec<FileId>, roots: &Vec<u32>, Ghost(pairs): Ghost<Seq<(int, int)>>) -> (r: (
    Vec<Pod>,
    Vec<u32>,
))
    requires
        g.wf(),
        all_distinct(fs@),
        forall|i: int| 0 <= i < fs@.len() ==> #[trigger] file_language(*g, fs@[i]) is Some,
        roots@.len() == fs@.len(),
        forall|i: int, j: int| 0 <= i < fs@.len() && 0 <= j < fs@.len() ==>
            (#[trigger] same_set(roots@, i, j) <==> joined(pairs, i, j)),
    ensures
        r.0@.len() == class_leaders(pairs, fs@.len()).len(),
        r.1@.len() == r.0@.len(),
        forall|p: int| 0 <= p < r.0@.len() ==> {
            let l = class_leaders(pairs, fs@.len())[p];
            &&& (#[trigger] r.0@[p]).id == p
            &&& r.0@[p].files@ == class_members(pairs, fs@.len(), l).map_values(|j: int| fs@[j])
            &&& Some(r.0@[p].language) == file_language(*g, fs@[l])
            &&& 0 <= l < fs@.len()
            &&& r.1@[p] == roots@[l]
        },
        forall|j: int| 0 <= j < fs@.len() ==> has_rep(r.1@, #[trigger] roots@[j]),
        forall|p: int, q: int| 0 <= p < r.1@.len() && 0 <= q < r.1@.len() && p != q ==> #[trigger] r.1@[p] != #[trigger] r.1@[q],
{
    let n = fs.len();
    let mut pods: Vec<Pod> = Vec::new();
    let mut reps: Vec<u32> = Vec::new();
    let mut k: usize = 0;
    while k < n
        invariant
            g.wf(),
            n == fs@.len(),
            n == roots@.len(),
            0 <= k <= n,
            forall|i: int| 0 <= i < fs@.len() ==> #[trigger] file_language(*g, fs@[i]) is Some,
            forall|i: int, j: int| 0 <= i < n && 0 <= j < n ==>
                (#[trigger] same_set(roots@, i, j) <==> joined(pairs, i, j)),
            pods@.len() == class_leaders(pairs, k as nat).len(),
            reps@.len() == pods@.len(),
            forall|p: int| 0 <= p < pods@.len() ==> {
                let l = class_leaders(pairs, k as nat)[p];
                &&& (#[trigger] pods@[p]).id == p
                &&& pods@[p].files@ == class_members(pairs, k as nat, l).map_values(|j: int| fs@[j])
                &&& Some(pods@[p].language) == file_language(*g, fs@[l])
                &&& 0 <= l < k
                &&& reps@[p] == roots@[l]
            },
            forall|j: int| 0 <= j < k ==> has_rep(reps@, #[trigger] roots@[j]),
            forall|p: int, q: int| 0 <= p < reps@.len() && 0 <= q < reps@.len() && p != q ==> #[trigger] reps@[p] != #[trigger] reps@[q],
        decreases n - k,
    {
        let rep = roots[k];
        let ghost lk = class_leaders(pairs, k as nat);
        match find_rep(&reps, rep) {
            Some(p) => {
                proof {
                    let l = lk[p as int];
                    assert(pods@[p as int].id == p);
                    assert(reps@[p as int] == roots@[l]);
                    assert(same_set(roots@, l, k as int));
                    assert(joined(pairs, l, k as int));
                    assert(!is_first_of_class(pairs, k as int));
                    assert(class_leaders(pairs, (k + 1) as nat) == lk);
                }
                let ghost old_pods = pods@;
                let f = fs[k];
                pods[p].files.push(f);
                proof {
                    assert forall|q: int| 0 <= q < pods@.len() implies {
                        let l = class_leaders(pairs, (k + 1) as nat)[q];
                        &&& (#[trigger] pods@[q]).id == q
                        &&& pods@[q].files@ == class_members(pairs, (k + 1) as nat, l).map_values(|j: int| fs@[j])
                        &&& Some(pods@[q].language) == file_language(*g, fs@[l])
                        &&& 0 <= l < k + 1
                        &&& reps@[q] == roots@[l]
                    } by {
                        let l = lk[q];
                        assert(same_set(roots@, k as int, l) <==> joined(pairs, k as int, l));
                        if q == p as int {
                            assert(joined(pairs, k as int, l));
                            assert(pods@[q].files@ =~= old_pods[q].files@.push(f));
                            assert(class_members(pairs, (k + 1) as nat, l).map_values(|j: int| fs@[j]) =~=
                                class_members(pairs, k as nat, l).map_values(|j: int| fs@[j]).push(fs@[k as int]));
                        } else {
                            assert(reps@[q] != reps@[p as int]);
                            assert(!joined(pairs, k as int, l));
                            assert(pods@[q] == old_pods[q]);
                        }
                    }
                    assert(has_rep(reps@, roots@[k as int])) by {
                        assert(reps@[p as int] == roots@[k as int]);
                    }
                }
            },
            None => {
                proof {
                    assert forall|j: int| 0 <= j < k implies !#[trigger] joined(pairs, j, k as int) by {
                        assert(has_rep(reps@, roots@[j]));
                        let q = choose|q: int| 0 <= q < reps@.len() && #[trigger] reps@[q] == roots@[j];
                        assert(reps@[q] != rep);
                        assert(!same_set(roots@, j, k as int));
                    }
                    assert(is_first_of_class(pairs, k as int));
                    assert(class_leaders(pairs, (k + 1) as nat) == lk.push(k as int));
                    lemma_no_members(pairs, k as nat, k as int);
                    assert(same_set(roots@, k as int, k as int));
                    assert(joined(pairs, k as int, k as int));
                }
                let f = fs[k];
                let lang = match language_of(g, f) {
                    Some(l) => l,
                    None => {
                        proof { assert(file_language(*g, fs@[k as int]) is Some); }
                        LangId::Python
                    },
                };
                let mut files: Vec<FileId> = Vec::new();
                files.push(f);
                let ghost old_pods = pods@;
                let ghost old_reps = reps@;
                let id = pods.len();
                pods.push(Pod { id, files, language: lang });
                reps.push(rep);
                proof {
                    let lk1 = class_leaders(pairs, (k + 1) as nat);
                    assert forall|q: int| 0 <= q < pods@.len() implies {
                        let l = lk1[q];
                        &&& (#[trigger] pods@[q]).id == q
                        &&& pods@[q].files@ == class_members(pairs, (k + 1) as nat, l).map_values(|j: int| fs@[j])
                        &&& Some(pods@[q].language) == file_language(*g, fs@[l])
                        &&& 0 <= l < k + 1
                        &&& reps@[q] == roots@[l]
                    } by {
                        if q < old_pods.len() {
                            let l = lk[q];
                            assert(lk1[q] == l);
                            assert(reps@[q] == old_reps[q]);
                            assert(old_reps[q] != rep);
                            assert(same_set(roots@, k as int, l) <==> joined(pairs, k as int, l));
                            assert(!joined(pairs, k as int, l));
                            assert(pods@[q] == old_pods[q]);
                        } else {
                            assert(lk1[q] == k as int);
                            assert(class_members(pairs, (k + 1) as nat, k as int) =~= seq![k as int]);
                            assert(pods@[q].files@ =~= seq![fs@[k as int]]);
                            assert(class_members(pairs, (k + 1) as nat, k as int).map_values(|j: int| fs@[j]) =~= seq![fs@[k as int]]);
                        }
                    }
                    assert forall|j: int| 0 <= j < k + 1 implies has_rep(reps@, #[trigger] roots@[j]) by {
                        if j < k {
                            assert(has_rep(old_reps, roots@[j]));
                            let q = choose|q: int| 0 <= q < old_reps.len() && #[trigger] old_reps[q] == roots@[j];
                            assert(reps@[q] == old_reps[q]);
                        } else {
                            assert(reps@[old_reps.len() as int] == roots@[j]);
                        }
                    }
                    assert forall|a: int, b: int| 0 <= a < reps@.len() && 0 <= b < reps@.len() && a != b implies #[trigger] reps@[a] != #[trigger] reps@[b] by {
                        if a < old_reps.len() && b < old_reps.len() {
                            assert(reps@[a] == old_reps[a] && reps@[b] == old_reps[b]);
                        } else if a < old_reps.len() {
                            assert(reps@[a] == old_reps[a]);
                        } else {
                            assert(reps@[b] == old_reps[b]);
                        }
                    }
                }
            },
        }
        k = k + 1;
    }
    (pods, reps)
}

/// The pod listing a file.
pub open spec fn pod_of(pods: Seq<Pod>, fid: FileId) -> Option<int> {
    if exists|p: int| 0 <= p < pods.len() && (#[trigger] pods[p]).files@.contains(fid) {
        Some(choose|p: int| 0 <= p < pods.len() && (#[trigger] pods[p]).files@.contains(fid))
    } else {
        None
    }
}

/// An edge seen at pod level: the inter-pod edge it makes, when its
/// endpoint files lie in two different pods, and whether it is a client call
/// (a reference edge leaving a file node, which only the deploy scanner
/// injects).
pub open spec fn crossing_link(g: CodeGraph, pods: Seq<Pod>, e: (usize, usize, EdgeData)) -> Option<(InterPodEdge, bool)> {
    let a = node_file(g.nodes()[e.0 as int]);
    let b = node_file(g.nodes()[e.1 as int]);
    if e.2.kind.spec_participates_in_scc() && a is Some && b is Some && pod_of(pods, a->0) is Some
        && pod_of(pods, b->0) is Some && pod_of(pods, a->0) != pod_of(pods, b->0) {
        Some((
            InterPodEdge {
                from_pod: pod_of(pods, a->0)->0 as usize,
                to_pod: pod_of(pods, b->0)->0 as usize,
                from_file: a->0,
                to_file: b->0,
                kind: e.2.kind,
                confidence: e.2.confidence,
                is_cross_language: file_language(g, a->0) != file_language(g, b->0),
            },
            e.2.kind == EdgeKind::Reference && g.nodes()[e.0 as int] is File,
        ))
    } else {
        None
    }
}

/// The inter-pod edges that fuse per pod pair, in edge order.
pub open spec fn fusable_links(g: CodeGraph, pods: Seq<Pod>, es: Seq<(usize, usize, EdgeData)>) -> Seq<InterPodEdge>
    decreases es.len(),
{
    if es.len() == 0 {
        Seq::empty()
    } else {
        let prev = fusable_links(g, pods, es.drop_last());
        match crossing_link(g, pods, es.last()) {
            Some((link, false)) => prev.push(link),
            _ => prev,
        }
    }
}

/// The client-call edges between pods, in edge order; they are kept apart
/// from the fused edges.
pub open spec fn client_links(g: CodeGraph, pods: Seq<Pod>, es: Seq<(usize, usize, EdgeData)>) -> Seq<InterPodEdge>
    decreases es.len(),
{
    if es.len() == 0 {
        Seq::empty()
    } else {
        let prev = client_links(g, pods, es.drop_last());
        match crossing_link(g, pods, es.last()) {
            Some((link, true)) => prev.push(link),
            _ => prev,
        }
    }
}

/// The pod pair of an inter-pod edge.
pub open spec fn link_pair(e: InterPodEdge) -> (usize, usize) {
    (e.from_pod, e.to_pod)
}

/// The distinct pod pairs of the links, in order of first appearance.
pub open spec fn pairs_in_order(s: Seq<InterPodEdge>) -> Seq<(usize, usize)>
    decreases s.len(),
{
    if s.len() == 0 {
        Seq::empty()
    } else {
        let prev = pairs_in_order(s.drop_last());
        if prev.contains(link_pair(s.last())) {
            prev
        } else {
            prev.push(link_pair(s.last()))
        }
    }
}

/// The first link of a pod pair.
pub open spec fn first_link(s: Seq<InterPodEdge>, pair: (usize, usize)) -> Option<InterPodEdge>
    decreases s.len(),
{
    if s.len() == 0 {
        None
    } else {
        match first_link(s.drop_last(), pair) {
            Some(e) => Some(e),
            None => if link_pair(s.last()) == pair {
                Some(s.last())
            } else {
                None
            },
        }
    }
}

/// The largest confidence among the links of a pod pair and edge kind.
pub open spec fn strongest(s: Seq<InterPodEdge>, pair: (usize, usize), kind: EdgeKind) -> Option<u32>
    decreases s.len(),
{
    if s.len() == 0 {
        None
    } else {
        let prev = strongest(s.drop_last(), pair, kind);
        let e = s.last();
        if link_pair(e) == pair && e.kind == kind {
            match prev {
                Some(c) => Some(if c >= e.confidence { c } else { e.confidence }),
                None => Some(e.confidence),
            }
        } else {
            prev
        }
    }
}

/// Some link of the pod pair crosses a language boundary.
pub open spec fn any_cross_language(s: Seq<InterPodEdge>, pair: (usize, usize)) -> bool {
    exists|i: int| 0 <= i < s.len() && link_pair(#[trigger] s[i]) == pair && s[i].is_cross_language
}

/// The fused edge of a pod pair: an import when any import joins the pair,
/// else a reference, with the largest confidence of either kind; it keeps
/// the files of the first link.
pub open spec fn fused_link(s: Seq<InterPodEdge>, pair: (usize, usize)) -> InterPodEdge {
    let first = first_link(s, pair)->0;
    let imp = strongest(s, pair, EdgeKind::Import);
    let rf = strongest(s, pair, EdgeKind::Reference);
    InterPodEdge {
        from_pod: pair.0,
        to_pod: pair.1,
        from_file: first.from_file,
        to_file: first.to_file,
        kind: if imp is Some { EdgeKind::Import } else { EdgeKind::Reference },
        confidence: match (imp, rf) {
            (Some(i), Some(r)) => if i >= r { i } else { r },
            (Some(i), None) => i,
            (None, Some(r)) => r,
            (None, None) => 0,
        },
        is_cross_language: any_cross_language(s, pair),
    }
}

/// The inter-pod edges before ordering: one fused edge per pod pair, then
/// the client-call edges.
pub open spec fn inter_pod_candidates(g: CodeGraph, pods: Seq<Pod>) -> Seq<InterPodEdge> {
    let s = fusable_links(g, pods, g.edges());
    pairs_in_order(s).map_values(|pair: (usize, usize)| fused_link(s, pair)) + client_links(g, pods, g.edges())
}

impl SortKey for InterPodEdge {
    /// Order by source pod, target pod, source file, target file.
    open spec fn key_order(self, other: Self) -> int {
        if self.from_pod != other.from_pod {
            int_order(self.from_pod as int, other.from_pod as int)
        } else if self.to_pod != other.to_pod {
            int_order(self.to_pod as int, other.to_pod as int)
        } else if self.from_file.0 != other.from_file.0 {
            int_order(self.from_file.0 as int, other.from_file.0 as int)
        } else {
            int_order(self.to_file.0 as int, other.to_file.0 as int)
        }
    }

    proof fn lemma_key_order(a: Self, b: Self, c: Self) {
    }

    fn compare_keys(&self, other: &Self) -> (r: i8) {
        if self.from_pod != other.from_pod {
            if self.from_pod < other.from_pod { -1 } else { 1 }
        } else if self.to_pod != other.to_pod {
            if self.to_pod < other.to_pod { -1 } else { 1 }
        } else if self.from_file.0 != other.from_file.0 {
            if self.from_file.0 < other.from_file.0 { -1 } else { 1 }
        } else if self.to_file.0 != other.to_file.0 {
            if self.to_file.0 < other.to_file.0 { -1 } else { 1 }
        } else {
            0
        }
    }
}

proof fn lemma_pairs_in_order(s: Seq<InterPodEdge>, pair: (usize, usize))
    ensures
        pairs_in_order(s).contains(pair) <==> exists|i: int| 0 <= i < s.len() && link_pair(#[trigger] s[i]) == pair,
        first_link(s, pair) is Some <==> exists|i: int| 0 <= i < s.len() && link_pair(#[trigger] s[i]) == pair,
        first_link(s, pair) matches Some(e) ==> link_pair(e) == pair,
        !(exists|i: int| 0 <= i < s.len() && link_pair(#[trigger] s[i]) == pair) ==> strongest(s, pair, EdgeKind::Import) is None
            && strongest(s, pair, EdgeKind::Reference) is None,
    decreases s.len(),
{
    if s.len() > 0 {
        let t = s.drop_last();
        lemma_pairs_in_order(t, pair);
        if exists|i: int| 0 <= i < t.len() && link_pair(#[trigger] t[i]) == pair {
            let i = choose|i: int| 0 <= i < t.len() && link_pair(#[trigger] t[i]) == pair;
            assert(s[i] == t[i]);
        }
        if exists|i: int| 0 <= i < s.len() && link_pair(#[trigger] s[i]) == pair {
            let i = choose|i: int| 0 <= i < s.len() && link_pair(#[trigger] s[i]) == pair;
            if i < t.len() {
                assert(t[i] == s[i]);
            }
        }
        if pairs_in_order(t).contains(link_pair(s.last())) {
        } else {
            assert(pairs_in_order(s) == pairs_in_order(t).push(link_pair(s.last())));
            if pair != link_pair(s.last()) {
                assert(pairs_in_order(s).contains(pair) <==> pairs_in_order(t).contains(pair)) by {
                    if pairs_in_order(s).contains(pair) {
                        let k = choose|k: int| 0 <= k < pairs_in_order(s).len() && pairs_in_order(s)[k] == pair;
                        assert(pairs_in_order(t)[k] == pair);
                    }
                    if pairs_in_order(t).contains(pair) {
                        let k = choose|k: int| 0 <= k < pairs_in_order(t).len() && pairs_in_order(t)[k] == pair;
                        assert(pairs_in_order(s)[k] == pair);
                    }
                }
            } else {
                assert(pairs_in_order(s)[pairs_in_order(t).len() as int] == pair);
            }
        }
    }
}

proof fn lemma_pairs_distinct(s: Seq<InterPodEdge>)
    ensures
        forall|i: int, j: int| 0 <= i < pairs_in_order(s).len() && 0 <= j < pairs_in_order(s).len() && i != j
            ==> #[trigger] pairs_in_order(s)[i] != #[trigger] pairs_in_order(s)[j],
    decreases s.len(),
{
    if s.len() > 0 {
        lemma_pairs_distinct(s.drop_last());
        let t = pairs_in_order(s.drop_last());
        if !t.contains(link_pair(s.last())) {
            let u = t.push(link_pair(s.last()));
            assert forall|i: int, j: int| 0 <= i < u.len() && 0 <= j < u.len() && i != j implies #[trigger] u[i] != #[trigger] u[j] by {
                if i < t.len() && j < t.len() {
                    assert(u[i] == t[i] && u[j] == t[j]);
                } else if i < t.len() {
                    assert(u[i] == t[i]);
                } else {
                    assert(u[j] == t[j]);
                }
            }
        }
    }
}

proof fn lemma_link_push(s: Seq<InterPodEdge>, x: InterPodEdge, pair: (usize, usize))
    ensures
        link_pair(x) != pair ==> first_link(s.push(x), pair) == first_link(s, pair),
        link_pair(x) == pair ==> first_link(s.push(x), pair) == (if first_link(s, pair) is Some { first_link(s, pair) } else { Some(x) }),
        link_pair(x) != pair ==> strongest(s.push(x), pair, EdgeKind::Import) == strongest(s, pair, EdgeKind::Import),
        link_pair(x) != pair ==> strongest(s.push(x), pair, EdgeKind::Reference) == strongest(s, pair, EdgeKind::Reference),
        any_cross_language(s.push(x), pair) == (any_cross_language(s, pair) || (link_pair(x) == pair && x.is_cross_language)),
{
    let t = s.push(x);
    assert(t.drop_last() =~= s);
    if any_cross_language(s, pair) {
        let i = choose|i: int| 0 <= i < s.len() && link_pair(#[trigger] s[i]) == pair && s[i].is_cross_language;
        assert(t[i] == s[i]);
    }
    if any_cross_language(t, pair) {
        let i = choose|i: int| 0 <= i < t.len() && link_pair(#[trigger] t[i]) == pair && t[i].is_cross_language;
        if i < s.len() {
            assert(t[i] == s[i]);
        }
    }
    if link_pair(x) == pair && x.is_cross_language {
        assert(t[s.len() as int] == x);
    }
}

proof fn lemma_members(pairs: Seq<(int, int)>, n: nat, l: int, j: int)
    ensures
        class_members(pairs, n, l).contains(j) <==> (0 <= j < n && joined(pairs, j, l)),
    decreases n,
{
    if n > 0 {
        lemma_members(pairs, (n - 1) as nat, l, j);
        let prev = class_members(pairs, (n - 1) as nat, l);
        if joined(pairs, n - 1, l) {
            let cur = prev.push(n - 1);
            if prev.contains(j) {
                let k = choose|k: int| 0 <= k < prev.len() && prev[k] == j;
                assert(cur[k] == j);
            }
            if cur.contains(j) {
                let k = choose|k: int| 0 <= k < cur.len() && cur[k] == j;
                if k < prev.len() {
                    assert(prev[k] == j);
                }
            }
            if j == n - 1 {
                assert(cur[prev.len() as int] == j);
            }
        }
    }
}

/// What the pod grouping guarantees, as the inter-pod pass uses it.
pub open spec fn grouping(fs: Seq<FileId>, roots: Seq<u32>, pods: Seq<Pod>, reps: Seq<u32>, pairs: Seq<(int, int)>) -> bool {
    let n = fs.len();
    let ls = class_leaders(pairs, n);
    &&& all_distinct(fs)
    &&& roots.len() == n
    &&& reps.len() == pods.len()
    &&& pods.len() == ls.len()
    &&& forall|i: int, j: int| 0 <= i < n && 0 <= j < n ==> (#[trigger] same_set(roots, i, j) <==> joined(pairs, i, j))
    &&& forall|p: int| 0 <= p < pods.len() ==> {
        &&& (#[trigger] pods[p]).files@ == class_members(pairs, n, ls[p]).map_values(|j: int| fs[j])
        &&& 0 <= ls[p] < n
        &&& reps[p] == roots[ls[p]]
    }
    &&& forall|j: int| 0 <= j < n ==> has_rep(reps, #[trigger] roots[j])
    &&& forall|p: int, q: int| 0 <= p < reps.len() && 0 <= q < reps.len() && p != q ==> #[trigger] reps[p] != #[trigger] reps[q]
}

/// The pod of a file, through its position and representative.
fn pod_index(fs: &Vec<FileId>, roots: &Vec<u32>, reps: &Vec<u32>, fid: FileId, Ghost(pods): Ghost<Seq<Pod>>, Ghost(pairs): Ghost<Seq<(int, int)>>) -> (r: Option<usize>)
    requires
        grouping(fs@, roots@, pods, reps@, pairs),
    ensures
        r matches Some(p) ==> pod_of(pods, fid) == Some(p as int) && p < pods.len(),
        r is None ==> pod_of(pods, fid) is None,
{
    let n = fs.len();
    let ls = Ghost(class_leaders(pairs, n as nat));
    match position_of(fs, fid) {
        None => {
            proof {
                assert forall|p: int| 0 <= p < pods.len() implies !(#[trigger] pods[p]).files@.contains(fid) by {
                    let ms = class_members(pairs, n as nat, ls@[p]);
                    if pods[p].files@.contains(fid) {
                        let k = choose|k: int| 0 <= k < pods[p].files@.len() && pods[p].files@[k] == fid;
                        assert(ms.contains(ms[k]));
                        lemma_members(pairs, n as nat, ls@[p], ms[k]);
                        assert(fs@[ms[k]] == fid);
                    }
                }
            }
            None
        },
        Some(pos) => {
            let rep = roots[pos];
            match find_rep(reps, rep) {
                None => {
                    proof {
                        assert(has_rep(reps@, roots@[pos as int]));
                        let q = choose|q: int| 0 <= q < reps@.len() && #[trigger] reps@[q] == roots@[pos as int];
                        assert(reps@[q] != rep);
                    }
                    None
                },
                Some(p) => {
                    proof {
                        let l = ls@[p as int];
                        assert(pods[p as int].files@ == class_members(pairs, n as nat, l).map_values(|j: int| fs@[j]));
                        assert(same_set(roots@, pos as int, l));
                        lemma_members(pairs, n as nat, l, pos as int);
                        let ms = class_members(pairs, n as nat, l);
                        let k = choose|k: int| 0 <= k < ms.len() && ms[k] == pos as int;
                        assert(pods[p as int].files@[k] == fid);
                        assert(pods[p as int].files@.contains(fid));
                        assert forall|q: int| 0 <= q < pods.len() && q != p implies !(#[trigger] pods[q]).files@.contains(fid) by {
                            let lq = ls@[q];
                            let mq = class_members(pairs, n as nat, lq);
                            assert(pods[q].files@ == mq.map_values(|j: int| fs@[j]));
                            if pods[q].files@.contains(fid) {
                                let w = choose|w: int| 0 <= w < pods[q].files@.len() && pods[q].files@[w] == fid;
                                assert(mq.contains(mq[w]));
                                lemma_members(pairs, n as nat, lq, mq[w]);
                                assert(fs@[mq[w]] == fid);
                                assert(mq[w] == pos as int);
                                assert(same_set(roots@, pos as int, lq));
                                assert(reps@[q] == roots@[lq]);
                                assert(reps@[q] == reps@[p as int]);
                            }
                        }
                        let c = choose|c: int| 0 <= c < pods.len() && (#[trigger] pods[c]).files@.contains(fid);
                        assert(c == p);
                    }
                    Some(p)
                },
            }
        },
    }
}

/// The running summary of one pod pair.
#[derive(Clone, Copy)]
struct Fused {
    from_pod: usize,
    to_pod: usize,
    from_file: FileId,
    to_file: FileId,
    import: Option<u32>,
    reference: Option<u32>,
    cross: bool,
}

/// A summary agrees with the links seen so far.
spec fn fused_agrees(f: Fused, s: Seq<InterPodEdge>, pair: (usize, usize)) -> bool {
    &&& f.from_pod == pair.0
    &&& f.to_pod == pair.1
    &&& first_link(s, pair) is Some
    &&& f.from_file == first_link(s, pair)->0.from_file
    &&& f.to_file == first_link(s, pair)->0.to_file
    &&& f.import == strongest(s, pair, EdgeKind::Import)
    &&& f.reference == strongest(s, pair, EdgeKind::Reference)
    &&& f.cross == any_cross_language(s, pair)
}

fn find_fused(fused: &Vec<Fused>, from_pod: usize, to_pod: usize) -> (r: Option<usize>)
    ensures
        r matches Some(i) ==> i < fused@.len() && fused@[i as int].from_pod == from_pod && fused@[i as int].to_pod == to_pod,
        r is None ==> forall|i: int| 0 <= i < fused@.len() ==> !(fused@[i].from_pod == from_pod && fused@[i].to_pod == to_pod),
{
    let mut i: usize = 0;
    while i < fused.len()
        invariant
            0 <= i <= fused@.len(),
            forall|j: int| 0 <= j < i ==> !(fused@[j].from_pod == from_pod && fused@[j].to_pod == to_pod),
        decreases fused@.len() - i,
    {
        if fused[i].from_pod == from_pod && fused[i].to_pod == to_pod {
            return Some(i);
        }
        i = i + 1;
    }
    None
}

fn max_confidence(old: Option<u32>, c: u32) -> (r: Option<u32>)
    ensures
        r == Some(match old {
            Some(o) => if o >= c { o } else { c },
            None => c,
        }),
{
    match old {
        Some(o) => Some(if o >= c { o } else { c }),
        None => Some(c),
    }
}

fn same_language(a: Option<LangId>, b: Option<LangId>) -> (r: bool)
    ensures
        r == (a == b),
{
    match (a, b) {
        (Some(x), Some(y)) => x == y,
        (None, None) => true,
        _ => false,
    }
}

/// Folds one non-client link into the pair summaries.
fn fuse_link(fused: &mut Vec<Fused>, x: InterPodEdge, Ghost(s): Ghost<Seq<InterPodEdge>>)
    requires
        old(fused)@.len() == pairs_in_order(s).len(),
        forall|i: int| 0 <= i < old(fused)@.len() ==> fused_agrees(#[trigger] old(fused)@[i], s, pairs_in_order(s)[i]),
    ensures
        final(fused)@.len() == pairs_in_order(s.push(x)).len(),
        forall|i: int| 0 <= i < final(fused)@.len() ==> fused_agrees(#[trigger] final(fused)@[i], s.push(x), pairs_in_order(s.push(x))[i]),
{
    let ghost t = s.push(x);
    let ghost ps = pairs_in_order(s);
    let ghost pair = link_pair(x);
    proof {
        assert(t.drop_last() =~= s);
        assert(t.last() == x);
        lemma_pairs_distinct(s);
        lemma_pairs_in_order(s, pair);
    }
    match find_fused(fused, x.from_pod, x.to_pod) {
        Some(i) => {
            let mut e = fused[i];
            proof {
                assert(fused_agrees(e, s, ps[i as int]));
                assert(ps[i as int] == pair);
                assert(ps.contains(pair));
                assert(pairs_in_order(t) == ps);
            }
            if x.kind == EdgeKind::Import {
                e.import = max_confidence(e.import, x.confidence);
            } else if x.kind == EdgeKind::Reference {
                e.reference = max_confidence(e.reference, x.confidence);
            }
            e.cross = e.cross || x.is_cross_language;
            let ghost before = fused@;
            fused.set(i, e);
            proof {
                lemma_link_push(s, x, pair);
                assert forall|j: int| 0 <= j < fused@.len() implies fused_agrees(#[trigger] fused@[j], t, pairs_in_order(t)[j]) by {
                    if j != i as int {
                        assert(fused@[j] == before[j]);
                        assert(fused_agrees(before[j], s, ps[j]));
                        assert(ps[j] != ps[i as int]);
                        lemma_link_push(s, x, ps[j]);
                    }
                }
            }
        },
        None => {
            proof {
                assert(!ps.contains(pair)) by {
                    if ps.contains(pair) {
                        let k = choose|k: int| 0 <= k < ps.len() && ps[k] == pair;
                        assert(fused_agrees(fused@[k], s, ps[k]));
                    }
                }
                assert(pairs_in_order(t) == ps.push(pair));
                lemma_link_push(s, x, pair);
                assert(first_link(s, pair) is None);
            }
            let e = Fused {
                from_pod: x.from_pod,
                to_pod: x.to_pod,
                from_file: x.from_file,
                to_file: x.to_file,
                import: if x.kind == EdgeKind::Import { Some(x.confidence) } else { None },
                reference: if x.kind == EdgeKind::Reference { Some(x.confidence) } else { None },
                cross: x.is_cross_language,
            };
            let ghost before = fused@;
            fused.push(e);
            proof {
                assert forall|j: int| 0 <= j < fused@.len() implies fused_agrees(#[trigger] fused@[j], t, pairs_in_order(t)[j]) by {
                    if j < before.len() {
                        assert(fused@[j] == before[j]);
                        assert(fused_agrees(before[j], s, ps[j]));
                        assert(ps[j] != pair);
                        lemma_link_push(s, x, ps[j]);
                        assert(pairs_in_order(t)[j] == ps[j]);
                    } else {
                        assert(pairs_in_order(t)[j] == pair);
                    }
                }
            }
        },
    }
}

/// The fused edge of a summary.
fn fused_edge(f: &Fused) -> (r: InterPodEdge)
    ensures
        r.from_pod == f.from_pod && r.to_pod == f.to_pod && r.from_file == f.from_file && r.to_file == f.to_file,
        r.kind == (if f.import is Some { EdgeKind::Import } else { EdgeKind::Reference }),
        r.confidence == (match (f.import, f.reference) {
            (Some(i), Some(r)) => if i >= r { i } else { r },
            (Some(i), None) => i,
            (None, Some(r)) => r,
            (None, None) => 0,
        }),
        r.is_cross_language == f.cross,
{
    let kind = if f.import.is_some() { EdgeKind::Import } else { EdgeKind::Reference };
    let confidence = match (f.import, f.reference) {
        (Some(i), Some(r)) => if i >= r { i } else { r },
        (Some(i), None) => i,
        (None, Some(r)) => r,
        (None, None) => 0,
    };
    InterPodEdge {
        from_pod: f.from_pod,
        to_pod: f.to_pod,
        from_file: f.from_file,
        to_file: f.to_file,
        kind,
        confidence,
        is_cross_language: f.cross,
    }
}

/// The inter-pod edges before ordering (see [`inter_pod_candidates`]).
fn collect_inter_pod_edges(
    g: &CodeGraph,
    fs: &Vec<FileId>,
    roots: &Vec<u32>,
    pods: &Vec<Pod>,
    reps: &Vec<u32>,
    Ghost(pairs): Ghost<Seq<(int, int)>>,
) -> (r: Vec<InterPodEdge>)
    requires
        g.wf(),
        grouping(fs@, roots@, pods@, reps@, pairs),
    ensures
        r@ == inter_pod_candidates(*g, pods@),
{
    let m = graph_edge_count(&g.graph);
    let mut fused: Vec<Fused> = Vec::new();
    let mut clients: Vec<InterPodEdge> = Vec::new();
    let mut k: usize = 0;
    while k < m
        invariant
            g.wf(),
            grouping(fs@, roots@, pods@, reps@, pairs),
            m == g.edges().len(),
            0 <= k <= m,
            fused@.len() == pairs_in_order(fusable_links(*g, pods@, g.edges().take(k as int))).len(),
            forall|i: int| 0 <= i < fused@.len() ==> fused_agrees(
                #[trigger] fused@[i],
                fusable_links(*g, pods@, g.edges().take(k as int)),
                pairs_in_order(fusable_links(*g, pods@, g.edges().take(k as int)))[i],
            ),
            clients@ == client_links(*g, pods@, g.edges().take(k as int)),
        decreases m - k,
    {
        let ghost es = g.edges().take(k + 1);
        let ghost s = fusable_links(*g, pods@, g.edges().take(k as int));
        proof {
            assert(es.drop_last() =~= g.edges().take(k as int));
            assert(es.last() == g.edges()[k as int]);
        }
        let (u, v, w) = graph_edge(&g.graph, k);
        let mut added = false;
        if w.participates_in_scc() {
            let nu = graph_node(&g.graph, u);
            let a = node_to_file_id(nu);
            let b = node_to_file_id(graph_node(&g.graph, v));
            if let (Some(fa), Some(fb)) = (a, b) {
                let pa = pod_index(fs, roots, reps, fa, Ghost(pods@), Ghost(pairs));
                let pb = pod_index(fs, roots, reps, fb, Ghost(pods@), Ghost(pairs));
                if let (Some(sp), Some(dp)) = (pa, pb) {
                    if sp != dp {
                        let la = language_of(g, fa);
                        let lb = language_of(g, fb);
                        let link = InterPodEdge {
                            from_pod: sp,
                            to_pod: dp,
                            from_file: fa,
                            to_file: fb,
                            kind: w.kind,
                            confidence: w.confidence,
                            is_cross_language: !same_language(la, lb),
                        };
                        let from_file_node = match nu {
                            NodeData::File(_) => true,
                            _ => false,
                        };
                        let client = w.kind == EdgeKind::Reference && from_file_node;
                        proof {
                            assert(crossing_link(*g, pods@, es.last()) == Some((link, client)));
                        }
                        if client {
                            clients.push(link);
                            proof {
                                assert(fusable_links(*g, pods@, es) == s);
                            }
                        } else {
                            fuse_link(&mut fused, link, Ghost(s));
                            proof {
                                assert(fusable_links(*g, pods@, es) == s.push(link));
                            }
                        }
                        added = true;
                    }
                }
            }
        }
        proof {
            if !added {
                assert(crossing_link(*g, pods@, es.last()) is None);
                assert(fusable_links(*g, pods@, es) == s);
                assert(client_links(*g, pods@, es) == client_links(*g, pods@, g.edges().take(k as int)));
            }
        }
        k = k + 1;
    }
    let ghost s = fusable_links(*g, pods@, g.edges());
    proof { assert(g.edges().take(m as int) =~= g.edges()); }
    let mut out: Vec<InterPodEdge> = Vec::new();
    let mut i: usize = 0;
    while i < fused.len()
        invariant
            0 <= i <= fused@.len(),
            fused@.len() == pairs_in_order(s).len(),
            forall|j: int| 0 <= j < fused@.len() ==> fused_agrees(#[trigger] fused@[j], s, pairs_in_order(s)[j]),
            out@ == pairs_in_order(s).take(i as int).map_values(|pair: (usize, usize)| fused_link(s, pair)),
        decreases fused@.len() - i,
    {
        let e = fused_edge(&fused[i]);
        proof {
            assert(fused_agrees(fused@[i as int], s, pairs_in_order(s)[i as int]));
            assert(e == fused_link(s, pairs_in_order(s)[i as int]));
        }
        out.push(e);
        proof {
            assert(out@ =~= pairs_in_order(s).take(i + 1).map_values(|pair: (usize, usize)| fused_link(s, pair)));
        }
        i = i + 1;
    }
    proof {
        assert(pairs_in_order(s).take(i as int) =~= pairs_in_order(s));
    }
    let mut j: usize = 0;
    let ghost head = out@;
    while j < clients.len()
        invariant
            0 <= j <= clients@.len(),
            out@ == head + clients@.take(j as int),
        decreases clients@.len() - j,
    {
        out.push(clients[j]);
        proof {
            assert(out@ =~= head + clients@.take(j + 1));
        }
        j = j + 1;
    }
    proof {
        assert(clients@.take(j as int) =~= clients@);
    }
    out
}

/// The pods follow the classes of the files: one pod per class, numbered by
/// the position of its first file in path order, holding the files of the
/// class in path order, with the language of its first file.
pub open spec fn pods_follow_classes(g: CodeGraph, pods: Seq<Pod>) -> bool {
    let fs = files_by_path(g);
    let pairs = file_classes(g);
    let ls = class_leaders(pairs, fs.len());
    &&& pods.len() == ls.len()
    &&& forall|p: int| 0 <= p < pods.len() ==> {
        &&& (#[trigger] pods[p]).id == p
        &&& pods[p].files@ == class_members(pairs, fs.len(), ls[p]).map_values(|j: int| fs[j])
        &&& Some(pods[p].language) == file_language(g, fs[ls[p]])
    }
}

/// Every pair of positions joins two files of one language.
pub open spec fn pairs_same_language(g: CodeGraph, fs: Seq<FileId>, pairs: Seq<(int, int)>) -> bool {
    forall|k: int| 0 <= k < pairs.len() ==> {
        let x = (#[trigger] pairs[k]).0;
        let y = pairs[k].1;
        &&& 0 <= x < fs.len()
        &&& 0 <= y < fs.len()
        &&& file_language(g, fs[x]) is Some
        &&& file_language(g, fs[x]) == file_language(g, fs[y])
    }
}

proof fn lemma_pairs_same_language(g: CodeGraph, fs: Seq<FileId>, es: Seq<(usize, usize, EdgeData)>)
    ensures
        pairs_same_language(g, fs, same_language_pairs(g, fs, es)),
    decreases es.len(),
{
    if es.len() > 0 {
        lemma_pairs_same_language(g, fs, es.drop_last());
        let prev = same_language_pairs(g, fs, es.drop_last());
        let cur = same_language_pairs(g, fs, es);
        if cur != prev {
            let e = es.last();
            let a = node_file(g.nodes()[e.0 as int])->0;
            let b = node_file(g.nodes()[e.1 as int])->0;
            let x = position(fs, a)->0;
            let y = position(fs, b)->0;
            assert(exists|i: int| 0 <= i < fs.len() && fs[i] == a);
            assert(exists|i: int| 0 <= i < fs.len() && fs[i] == b);
            assert(fs[x] == a && fs[y] == b);
            assert forall|k: int| 0 <= k < cur.len() implies {
                let x = (#[trigger] cur[k]).0;
                let y = cur[k].1;
                &&& 0 <= x < fs.len()
                &&& 0 <= y < fs.len()
                &&& file_language(g, fs[x]) is Some
                &&& file_language(g, fs[x]) == file_language(g, fs[y])
            } by {
                if k < prev.len() {
                    assert(cur[k] == prev[k]);
                }
            }
        }
    }
}

proof fn lemma_joined_language(g: CodeGraph, fs: Seq<FileId>, pairs: Seq<(int, int)>, i: int, j: int)
    requires
        pairs_same_language(g, fs, pairs),
        0 <= i < fs.len(),
        0 <= j < fs.len(),
        joined(pairs, i, j),
    ensures
        file_language(g, fs[i]) == file_language(g, fs[j]),
    decreases pairs.len(),
{
    if pairs.len() > 0 {
        let p = pairs.drop_last();
        let x = pairs.last().0;
        let y = pairs.last().1;
        assert(pairs[pairs.len() - 1] == pairs.last());
        assert forall|k: int| 0 <= k < p.len() implies {
            let x = (#[trigger] p[k]).0;
            let y = p[k].1;
            &&& 0 <= x < fs.len()
            &&& 0 <= y < fs.len()
            &&& file_language(g, fs[x]) is Some
            &&& file_language(g, fs[x]) == file_language(g, fs[y])
        } by {
            assert(p[k] == pairs[k]);
        }
        if joined(p, i, j) {
            lemma_joined_language(g, fs, p, i, j);
        } else if joined(p, i, x) && joined(p, j, y) {
            lemma_joined_language(g, fs, p, i, x);
            lemma_joined_language(g, fs, p, j, y);
        } else {
            lemma_joined_language(g, fs, p, i, y);
            lemma_joined_language(g, fs, p, j, x);
        }
    }
}

proof fn lemma_links_cross_pods(g: CodeGraph, pods: Seq<Pod>, es: Seq<(usize, usize, EdgeData)>)
    requires
        pods.len() <= usize::MAX,
        forall|i: int| 0 <= i < es.len() ==> (#[trigger] es[i]).0 < g.nodes().len() && es[i].1 < g.nodes().len(),
    ensures
        forall|k: int| 0 <= k < fusable_links(g, pods, es).len() ==> {
            let e = #[trigger] fusable_links(g, pods, es)[k];
            e.from_pod != e.to_pod && e.from_pod < pods.len() && e.to_pod < pods.len()
        },
        forall|k: int| 0 <= k < client_links(g, pods, es).len() ==> {
            let e = #[trigger] client_links(g, pods, es)[k];
            e.from_pod != e.to_pod && e.from_pod < pods.len() && e.to_pod < pods.len()
        },
    decreases es.len(),
{
    if es.len() > 0 {
        let t = es.drop_last();
        assert forall|i: int| 0 <= i < t.len() implies (#[trigger] t[i]).0 < g.nodes().len() && t[i].1 < g.nodes().len() by {
            assert(t[i] == es[i]);
        }
        lemma_links_cross_pods(g, pods, t);
        let e = es.last();
        assert(e == es[es.len() - 1]);
        let f0 = fusable_links(g, pods, t);
        let f1 = fusable_links(g, pods, es);
        let c0 = client_links(g, pods, t);
        let c1 = client_links(g, pods, es);
        match crossing_link(g, pods, e) {
            Some((link, client)) => {
                let a = node_file(g.nodes()[e.0 as int]);
                let b = node_file(g.nodes()[e.1 as int]);
                let pa = pod_of(pods, a->0)->0;
                let pb = pod_of(pods, b->0)->0;
                assert(0 <= pa < pods.len() && 0 <= pb < pods.len() && pa != pb);
                assert(link.from_pod == pa && link.to_pod == pb);
                if client {
                    assert(c1 == c0.push(link));
                    assert(f1 == f0);
                } else {
                    assert(f1 == f0.push(link));
                    assert(c1 == c0);
                }
            },
            None => {
                assert(f1 == f0);
                assert(c1 == c0);
            },
        }
        assert forall|k: int| 0 <= k < f1.len() implies {
            let e = #[trigger] f1[k];
            e.from_pod != e.to_pod && e.from_pod < pods.len() && e.to_pod < pods.len()
        } by {
            if k < f0.len() {
                assert(f1[k] == f0[k]);
            }
        }
        assert forall|k: int| 0 <= k < c1.len() implies {
            let e = #[trigger] c1[k];
            e.from_pod != e.to_pod && e.from_pod < pods.len() && e.to_pod < pods.len()
        } by {
            if k < c0.len() {
                assert(c1[k] == c0[k]);
            }
        }
    }
}

/// Every inter-pod edge joins two different pods of the partition.
proof fn lemma_candidates_cross_pods(g: CodeGraph, pods: Seq<Pod>)
    requires
        g.wf(),
        pods.len() <= usize::MAX,
    ensures
        forall|k: int| 0 <= k < inter_pod_candidates(g, pods).len() ==> {
            let e = #[trigger] inter_pod_candidates(g, pods)[k];
            e.from_pod != e.to_pod && e.from_pod < pods.len() && e.to_pod < pods.len()
        },
{
    let s = fusable_links(g, pods, g.edges());
    let c = client_links(g, pods, g.edges());
    let ps = pairs_in_order(s);
    let head = ps.map_values(|pair: (usize, usize)| fused_link(s, pair));
    let all = inter_pod_candidates(g, pods);
    assert(all == head + c);
    assert forall|i: int| 0 <= i < g.edges().len() implies (#[trigger] g.edges()[i]).0 < g.nodes().len() && g.edges()[i].1 < g.nodes().len() by {
    }
    lemma_links_cross_pods(g, pods, g.edges());
    assert forall|k: int| 0 <= k < all.len() implies {
        let e = #[trigger] all[k];
        e.from_pod != e.to_pod && e.from_pod < pods.len() && e.to_pod < pods.len()
    } by {
        if k < head.len() {
            let pair = ps[k];
            assert(ps.contains(pair));
            lemma_pairs_in_order(s, pair);
            let i = choose|i: int| 0 <= i < s.len() && link_pair(#[trigger] s[i]) == pair;
            assert(all[k] == fused_link(s, pair));
        } else {
            assert(all[k] == c[k - head.len()]);
        }
    }
}

/// Splits a graph into same-language pods and collects the edges between
/// them.
///
/// Files are taken in path order; two files share a pod when a chain of
/// import or reference edges between files of one language joins them. The
/// edges between pods fuse per ordered pod pair (an import wins over a
/// reference and the confidence is the largest of the pair), except the
/// client-call edges, which stay apart; the result is ordered by pods, then
/// files.
pub fn partition_into_pods(graph: &CodeGraph) -> (r: PodPartition)
    requires
        graph.wf(),
        files_registered(*graph),
    ensures
        pods_follow_classes(*graph, r.pods@),
        r.inter_pod_edges@ == stable_sorted(inter_pod_candidates(*graph, r.pods@)),
        r.file_languages@ == files_by_path(*graph).map_values(|f: FileId| (f, file_language(*graph, f)->0)),
        // every pod holds files of its own language only
        forall|p: int, f: FileId| 0 <= p < r.pods@.len() && #[trigger] r.pods@[p].files@.contains(f)
            ==> file_language(*graph, f) == Some(r.pods@[p].language),
        // no file is in two pods
        forall|p: int, q: int, f: FileId| 0 <= p < r.pods@.len() && 0 <= q < r.pods@.len()
            && #[trigger] r.pods@[p].files@.contains(f) && #[trigger] r.pods@[q].files@.contains(f) ==> p == q,
        // every inter-pod edge joins two different pods, and they come in order
        forall|k: int| 0 <= k < r.inter_pod_edges@.len() ==> {
            let e = #[trigger] r.inter_pod_edges@[k];
            e.from_pod != e.to_pod && e.from_pod < r.pods@.len() && e.to_pod < r.pods@.len()
        },
        sorted_by_key(r.inter_pod_edges@),
        // every registered file is in a pod
        forall|i: int| 0 <= i < graph.file_to_index@.len() ==> #[trigger] pod_of(r.pods@, graph.file_to_index@[i].0) is Some,
        // files joined by a dependency edge inside one language share a pod
        forall|k: int| 0 <= k < graph.edges().len() ==> {
            let e = #[trigger] graph.edges()[k];
            let a = node_file(graph.nodes()[e.0 as int]);
            let b = node_file(graph.nodes()[e.1 as int]);
            e.2.kind.spec_participates_in_scc() && a is Some && b is Some && file_language(*graph, a->0) is Some
                && file_language(*graph, a->0) == file_language(*graph, b->0)
                ==> pod_of(r.pods@, a->0) is Some && pod_of(r.pods@, a->0) == pod_of(r.pods@, b->0)
        },
{
    let fs = sorted_files(graph);
    proof {
        assert(fs@.len() == graph.file_to_index@.len()) by {
            crate::order::lemma_stable_sorted_permutes(file_entries(*graph));
        }
        assert(graph.file_to_index@.len() <= graph.nodes().len()) by {
            lemma_index_count(*graph);
        }
    }
    let roots = union_same_language(graph, &fs);
    let ghost pairs = file_classes(*graph);
    let (pods, reps) = group_into_pods(graph, &fs, &roots, Ghost(pairs));
    proof {
        assert(grouping(fs@, roots@, pods@, reps@, pairs));
    }
    let candidates = collect_inter_pod_edges(graph, &fs, &roots, &pods, &reps, Ghost(pairs));
    let inter_pod_edges = sort_stable(candidates);
    let mut file_languages: Vec<(FileId, LangId)> = Vec::new();
    let mut i: usize = 0;
    while i < fs.len()
        invariant
            graph.wf(),
            0 <= i <= fs@.len(),
            forall|j: int| 0 <= j < fs@.len() ==> #[trigger] file_language(*graph, fs@[j]) is Some,
            file_languages@ == fs@.take(i as int).map_values(|f: FileId| (f, file_language(*graph, f)->0)),
        decreases fs@.len() - i,
    {
        let f = fs[i];
        let lang = match language_of(graph, f) {
            Some(l) => l,
            None => {
                proof { assert(file_language(*graph, fs@[i as int]) is Some); }
                LangId::Python
            },
        };
        file_languages.push((f, lang));
        proof {
            assert(file_languages@ =~= fs@.take(i + 1).map_values(|f: FileId| (f, file_language(*graph, f)->0)));
        }
        i = i + 1;
    }
    proof {
        assert(fs@.take(i as int) =~= fs@);
        let n = fs@.len();
        let ls = class_leaders(pairs, n);
        lemma_pairs_same_language(*graph, fs@, graph.edges());
        assert forall|p: int, f: FileId| 0 <= p < pods@.len() && #[trigger] pods@[p].files@.contains(f)
            implies file_language(*graph, f) == Some(pods@[p].language) by {
            let ms = class_members(pairs, n, ls[p]);
            let k = choose|k: int| 0 <= k < pods@[p].files@.len() && pods@[p].files@[k] == f;
            assert(ms.contains(ms[k]));
            lemma_members(pairs, n, ls[p], ms[k]);
            lemma_joined_language(*graph, fs@, pairs, ms[k], ls[p]);
        }
        assert forall|p: int, q: int, f: FileId| 0 <= p < pods@.len() && 0 <= q < pods@.len()
            && #[trigger] pods@[p].files@.contains(f) && #[trigger] pods@[q].files@.contains(f) implies p == q by {
            let mp = class_members(pairs, n, ls[p]);
            let mq = class_members(pairs, n, ls[q]);
            let a = choose|a: int| 0 <= a < pods@[p].files@.len() && pods@[p].files@[a] == f;
            let b = choose|b: int| 0 <= b < pods@[q].files@.len() && pods@[q].files@[b] == f;
            assert(mp.contains(mp[a]));
            assert(mq.contains(mq[b]));
            lemma_members(pairs, n, ls[p], mp[a]);
            lemma_members(pairs, n, ls[q], mq[b]);
            assert(fs@[mp[a]] == f && fs@[mq[b]] == f);
            assert(mp[a] == mq[b]);
            assert(same_set(roots@, mp[a], ls[p]));
            assert(same_set(roots@, mq[b], ls[q]));
            assert(reps@[p] == reps@[q]);
        }
        assert(pods@.len() == pods.len());
        lemma_candidates_cross_pods(*graph, pods@);
        assert(grouping(fs@, roots@, pods@, reps@, pairs));
        assert forall|i: int| 0 <= i < graph.file_to_index@.len() implies #[trigger] pod_of(pods@, graph.file_to_index@[i].0) is Some by {
            let fid = graph.file_to_index@[i].0;
            assert(fs@.contains(fid));
            let pos = choose|pos: int| 0 <= pos < fs@.len() && fs@[pos] == fid;
            assert(has_rep(reps@, roots@[pos]));
            let p = choose|p: int| 0 <= p < reps@.len() && #[trigger] reps@[p] == roots@[pos];
            lemma_position_in_pod(fs@, roots@, pods@, reps@, pairs, pos, p);
            assert(pods@[p].files@.contains(fid));
        }
        assert forall|k: int| 0 <= k < graph.edges().len() implies {
            let e = #[trigger] graph.edges()[k];
            let a = node_file(graph.nodes()[e.0 as int]);
            let b = node_file(graph.nodes()[e.1 as int]);
            e.2.kind.spec_participates_in_scc() && a is Some && b is Some && file_language(*graph, a->0) is Some
                && file_language(*graph, a->0) == file_language(*graph, b->0)
                ==> pod_of(pods@, a->0) is Some && pod_of(pods@, a->0) == pod_of(pods@, b->0)
        } by {
            let e = graph.edges()[k];
            let a = node_file(graph.nodes()[e.0 as int]);
            let b = node_file(graph.nodes()[e.1 as int]);
            if e.2.kind.spec_participates_in_scc() && a is Some && b is Some && file_language(*graph, a->0) is Some
                && file_language(*graph, a->0) == file_language(*graph, b->0) {
                let fa = a->0;
                let fb = b->0;
                lemma_lookup_some(graph.file_to_index@, fa);
                lemma_lookup_some(graph.file_to_index@, fb);
                let ia = choose|ia: int| 0 <= ia < graph.file_to_index@.len() && (#[trigger] graph.file_to_index@[ia]).0 == fa && graph.file_to_index@[ia].1 == lookup(graph.file_to_index@, fa)->0;
                let ib = choose|ib: int| 0 <= ib < graph.file_to_index@.len() && (#[trigger] graph.file_to_index@[ib]).0 == fb && graph.file_to_index@[ib].1 == lookup(graph.file_to_index@, fb)->0;
                assert(fs@.contains(graph.file_to_index@[ia].0));
                assert(fs@.contains(graph.file_to_index@[ib].0));
                let x = choose|x: int| 0 <= x < fs@.len() && fs@[x] == fa;
                let y = choose|y: int| 0 <= y < fs@.len() && fs@[y] == fb;
                assert(position(fs@, fa) == Some(x)) by {
                    let c = choose|c: int| 0 <= c < fs@.len() && fs@[c] == fa;
                    assert(fs@[c] == fs@[x]);
                }
                assert(position(fs@, fb) == Some(y)) by {
                    let c = choose|c: int| 0 <= c < fs@.len() && fs@[c] == fb;
                    assert(fs@[c] == fs@[y]);
                }
                let t = graph.edges().take(k + 1);
                assert(t.drop_last() =~= graph.edges().take(k));
                assert(t.last() == e);
                let prev = same_language_pairs(*graph, fs@, graph.edges().take(k));
                assert(same_language_pairs(*graph, fs@, t) == prev.push((x, y)));
                lemma_joined_refl(prev, x);
                lemma_joined_refl(prev, y);
                assert(prev.push((x, y)).drop_last() =~= prev);
                assert(joined(prev.push((x, y)), x, y));
                lemma_pairs_prefix(*graph, fs@, graph.edges(), k + 1);
                let head = prev.push((x, y));
                let q = pairs.skip(head.len() as int);
                assert(pairs =~= head + q);
                lemma_joined_extend(head, q, x, y);
                assert(joined(pairs, x, y));
                assert(same_set(roots@, x, y));
                assert(has_rep(reps@, roots@[x]));
                let p = choose|p: int| 0 <= p < reps@.len() && #[trigger] reps@[p] == roots@[x];
                lemma_position_in_pod(fs@, roots@, pods@, reps@, pairs, x, p);
                lemma_position_in_pod(fs@, roots@, pods@, reps@, pairs, y, p);
                let ca = choose|c: int| 0 <= c < pods@.len() && (#[trigger] pods@[c]).files@.contains(fa);
                let cb = choose|c: int| 0 <= c < pods@.len() && (#[trigger] pods@[c]).files@.contains(fb);
                assert(pods@[ca].files@.contains(fa) && pods@[p].files@.contains(fa));
                assert(pods@[cb].files@.contains(fb) && pods@[p].files@.contains(fb));
            }
        }
        let cands = candidates@;
        crate::order::lemma_stable_sorted_members(cands, |e: InterPodEdge| e);
        assert forall|k: int| 0 <= k < inter_pod_edges@.len() implies {
            let e = #[trigger] inter_pod_edges@[k];
            e.from_pod != e.to_pod && e.from_pod < pods@.len() && e.to_pod < pods@.len()
        } by {
            assert(cands.contains(inter_pod_edges@[k]));
            let w = choose|w: int| 0 <= w < cands.len() && cands[w] == inter_pod_edges@[k];
        }
    }
    PodPartition { pods, inter_pod_edges, file_languages }
}

/// A graph has no more registered files than nodes.
proof fn lemma_index_count(g: CodeGraph)
    requires
        g.wf(),
    ensures
        g.file_to_index@.len() <= g.nodes().len(),
{
    let n = g.nodes().len();
    let idx = g.file_to_index@.map_values(|e: (FileId, usize)| e.1 as int);
    assert forall|i: int, j: int| 0 <= i < idx.len() && 0 <= j < idx.len() && i != j implies idx[i] != idx[j] by {
        assert(is_file_node(g.nodes(), g.file_to_index@[i].1, g.file_to_index@[i].0));
        assert(is_file_node(g.nodes(), g.file_to_index@[j].1, g.file_to_index@[j].0));
    }
    assert(idx.no_duplicates());
    idx.unique_seq_to_set();
    vstd::set_lib::lemma_int_range(0, n as int);
    assert forall|v: int| idx.to_set().contains(v) implies vstd::set_lib::set_int_range(0, n as int).contains(v) by {
        let i = choose|i: int| 0 <= i < idx.len() && idx[i] == v;
        assert(is_file_node(g.nodes(), g.file_to_index@[i].1, g.file_to_index@[i].0));
    }
    vstd::set_lib::lemma_len_subset(idx.to_set(), vstd::set_lib::set_int_range(0, n as int));
}

proof fn lemma_joined_refl(pairs: Seq<(int, int)>, i: int)
    ensures
        joined(pairs, i, i),
    decreases pairs.len(),
{
    if pairs.len() > 0 {
        lemma_joined_refl(pairs.drop_last(), i);
    }
}

proof fn lemma_joined_extend(p: Seq<(int, int)>, q: Seq<(int, int)>, i: int, j: int)
    requires
        joined(p, i, j),
    ensures
        joined(p + q, i, j),
    decreases q.len(),
{
    if q.len() > 0 {
        lemma_joined_extend(p, q.drop_last(), i, j);
        assert((p + q).drop_last() =~= p + q.drop_last());
    } else {
        assert(p + q =~= p);
    }
}

proof fn lemma_pairs_prefix(g: CodeGraph, fs: Seq<FileId>, es: Seq<(usize, usize, EdgeData)>, m: int)
    requires
        0 <= m <= es.len(),
    ensures
        same_language_pairs(g, fs, es.take(m)).len() <= same_language_pairs(g, fs, es).len(),
        same_language_pairs(g, fs, es).take(same_language_pairs(g, fs, es.take(m)).len() as int)
            == same_language_pairs(g, fs, es.take(m)),
    decreases es.len() - m,
{
    let full = same_language_pairs(g, fs, es);
    if m == es.len() {
        assert(es.take(m) =~= es);
        assert(full.take(full.len() as int) =~= full);
    } else {
        lemma_pairs_prefix(g, fs, es, m + 1);
        let t = es.take(m + 1);
        assert(t.drop_last() =~= es.take(m));
        let prev = same_language_pairs(g, fs, es.take(m));
        let next = same_language_pairs(g, fs, t);
        if next != prev {
            assert(next == prev.push(next.last()));
            assert(full.take(prev.len() as int) =~= next.take(prev.len() as int));
            assert(next.take(prev.len() as int) =~= prev);
        }
    }
}

/// A file position lies in the pod of its representative.
proof fn lemma_position_in_pod(fs: Seq<FileId>, roots: Seq<u32>, pods: Seq<Pod>, reps: Seq<u32>, pairs: Seq<(int, int)>, pos: int, p: int)
    requires
        grouping(fs, roots, pods, reps, pairs),
        0 <= pos < fs.len(),
        0 <= p < reps.len(),
        reps[p] == roots[pos],
    ensures
        pods[p].files@.contains(fs[pos]),
{
    let n = fs.len();
    let l = class_leaders(pairs, n)[p];
    assert(pods[p].files@ == class_members(pairs, n, l).map_values(|j: int| fs[j]));
    assert(same_set(roots, pos, l));
    lemma_members(pairs, n, l, pos);
    let ms = class_members(pairs, n, l);
    let k = choose|k: int| 0 <= k < ms.len() && ms[k] == pos;
    assert(pods[p].files@[k] == fs[pos]);
}

} // verus!
