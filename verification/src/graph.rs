//! The dependency graph of a codebase snapshot.
//!
//! Nodes are files, symbols, external dependencies and data nodes; edges are
//! ownership, import and reference relations. A graph never holds two edges
//! with the same source, target and kind: a repeated edge merges into the
//! existing one and keeps the larger confidence.
use vstd::prelude::*;

use petgraph::graph::DiGraph;

use crate::assoc::{keys_distinct, lemma_lookup_at, lemma_lookup_none, lemma_lookup_push, lemma_lookup_some, lookup};
use crate::edge::{EdgeData, EdgeKind};
use crate::lang::LangId;
use crate::model::{FileId, SnapshotId, SymbolId};
use crate::node::{ExternalNode, FileNode, NodeData, SymbolNode};
use crate::pg::{
    graph_add_edge, graph_add_node, graph_edge, graph_edge_count, graph_edges, graph_node,
    graph_node_count, graph_nodes, graph_set_edge_weight, index_limit, new_graph,
};

verus! {

/// The canonical dependency graph of a snapshot.
pub struct CodeGraph {
    /// The underlying directed graph.
    pub graph: DiGraph<NodeData, EdgeData>,
    /// File id to node index.
    pub file_to_index: Vec<(FileId, usize)>,
    /// Symbol id to node index.
    pub symbol_to_index: Vec<(SymbolId, usize)>,
    /// External raw path to node index.
    pub external_index: Vec<(String, usize)>,
    /// Snapshot identifier of this graph.
    pub snapshot_id: SnapshotId,
}

/// Node `i` is the file node of `fid`.
pub open spec fn is_file_node(nodes: Seq<NodeData>, i: usize, fid: FileId) -> bool {
    &&& i < nodes.len()
    &&& nodes[i as int] matches NodeData::File(f) && f.id == fid
}

/// Node `i` is the symbol node of `sid`.
pub open spec fn is_symbol_node(nodes: Seq<NodeData>, i: usize, sid: SymbolId) -> bool {
    &&& i < nodes.len()
    &&& nodes[i as int] matches NodeData::Symbol(s) && s.id == sid
}

/// Node `i` is the external node named `raw`.
pub open spec fn is_external_node(nodes: Seq<NodeData>, i: usize, raw: Seq<char>) -> bool {
    &&& i < nodes.len()
    &&& nodes[i as int] matches NodeData::External(e) && e.raw_path@ == raw
}

/// Two edges with the same source, target and kind.
pub open spec fn same_triple(a: (usize, usize, EdgeData), b: (usize, usize, EdgeData)) -> bool {
    a.0 == b.0 && a.1 == b.1 && a.2.kind == b.2.kind
}

/// No two edges share source, target and kind.
pub open spec fn edges_normalized(es: Seq<(usize, usize, EdgeData)>) -> bool {
    forall|i: int, j: int| 0 <= i < es.len() && 0 <= j < es.len() && i != j ==> !same_triple(#[trigger] es[i], #[trigger] es[j])
}

/// Every edge joins nodes of the graph and carries a confidence in `[0, 1000]`.
pub open spec fn edges_in_range(es: Seq<(usize, usize, EdgeData)>, n: nat) -> bool {
    forall|i: int| 0 <= i < es.len() ==> (#[trigger] es[i]).0 < n && es[i].1 < n && es[i].2.confidence <= 1000
}

/// Index of the edge with this triple, when there is one.
pub open spec fn edge_position(es: Seq<(usize, usize, EdgeData)>, src: usize, dst: usize, kind: EdgeKind) -> Option<int> {
    if exists|i: int| 0 <= i < es.len() && (#[trigger] es[i]).0 == src && es[i].1 == dst && es[i].2.kind == kind {
        Some(choose|i: int| 0 <= i < es.len() && (#[trigger] es[i]).0 == src && es[i].1 == dst && es[i].2.kind == kind)
    } else {
        None
    }
}

/// The edge list after adding `(src, dst, kind, confidence)` through the
/// normalization rule: an existing triple keeps the larger confidence.
pub open spec fn merge_edge(es: Seq<(usize, usize, EdgeData)>, src: usize, dst: usize, kind: EdgeKind, confidence: u32) -> Seq<(usize, usize, EdgeData)> {
    match edge_position(es, src, dst, kind) {
        Some(i) => es.update(i, (src, dst, EdgeData {
            kind,
            confidence: if es[i].2.confidence >= confidence { es[i].2.confidence } else { confidence },
        })),
        None => es.push((src, dst, EdgeData { kind, confidence })),
    }
}

/// In a normalized edge list, the position of a triple is its only one.
proof fn lemma_edge_position_unique(es: Seq<(usize, usize, EdgeData)>, src: usize, dst: usize, kind: EdgeKind, i: int)
    requires
        edges_normalized(es),
        0 <= i < es.len(),
        es[i].0 == src && es[i].1 == dst && es[i].2.kind == kind,
    ensures
        edge_position(es, src, dst, kind) == Some(i),
{
    let j = choose|j: int| 0 <= j < es.len() && (#[trigger] es[j]).0 == src && es[j].1 == dst && es[j].2.kind == kind;
    if j != i {
        assert(same_triple(es[i], es[j]));
    }
}

/// Adding one triple twice is adding it once with the larger confidence: a
/// graph never holds two edges of one source, target and kind.
pub proof fn lemma_merge_edge_twice(es: Seq<(usize, usize, EdgeData)>, src: usize, dst: usize, kind: EdgeKind, a: u32, b: u32)
    requires
        edges_normalized(es),
    ensures
        merge_edge(merge_edge(es, src, dst, kind, a), src, dst, kind, b) == merge_edge(es, src, dst, kind, if a >= b { a } else { b }),
{
    let once = merge_edge(es, src, dst, kind, a);
    match edge_position(es, src, dst, kind) {
        Some(i) => {
            assert(0 <= i < es.len() && es[i].0 == src && es[i].1 == dst && es[i].2.kind == kind);
            assert(edges_normalized(once)) by {
                assert forall|x: int, y: int| 0 <= x < once.len() && 0 <= y < once.len() && x != y implies !same_triple(#[trigger] once[x], #[trigger] once[y]) by {
                    if x != i && y != i {
                        assert(once[x] == es[x] && once[y] == es[y]);
                    } else if x == i {
                        assert(once[y] == es[y]);
                        assert(!same_triple(es[i], es[y]));
                    } else {
                        assert(once[x] == es[x]);
                        assert(!same_triple(es[x], es[i]));
                    }
                }
            }
            lemma_edge_position_unique(once, src, dst, kind, i);
            assert(merge_edge(once, src, dst, kind, b) =~= merge_edge(es, src, dst, kind, if a >= b { a } else { b }));
        },
        None => {
            let n = es.len() as int;
            assert(once[n].0 == src && once[n].1 == dst && once[n].2.kind == kind);
            assert(edges_normalized(once)) by {
                assert forall|x: int, y: int| 0 <= x < once.len() && 0 <= y < once.len() && x != y implies !same_triple(#[trigger] once[x], #[trigger] once[y]) by {
                    if x < n && y < n {
                        assert(once[x] == es[x] && once[y] == es[y]);
                    } else if x == n {
                        assert(once[y] == es[y]);
                        if same_triple(once[x], once[y]) {
                            assert(es[y].0 == src && es[y].1 == dst && es[y].2.kind == kind);
                        }
                    } else {
                        assert(once[x] == es[x]);
                        if same_triple(once[x], once[y]) {
                            assert(es[x].0 == src && es[x].1 == dst && es[x].2.kind == kind);
                        }
                    }
                }
            }
            lemma_edge_position_unique(once, src, dst, kind, n);
            assert(merge_edge(once, src, dst, kind, b) =~= merge_edge(es, src, dst, kind, if a >= b { a } else { b }));
        },
    }
}

/// The (source, target) pairs of the edges of one kind, in edge order.
pub open spec fn pairs_of_kind(es: Seq<(usize, usize, EdgeData)>, kind: EdgeKind) -> Seq<(usize, usize)> {
    es.filter(|e: (usize, usize, EdgeData)| e.2.kind == kind).map_values(|e: (usize, usize, EdgeData)| (e.0, e.1))
}

impl CodeGraph {
    pub open spec fn nodes(&self) -> Seq<NodeData> {
        graph_nodes(self.graph)
    }

    pub open spec fn edges(&self) -> Seq<(usize, usize, EdgeData)> {
        graph_edges(self.graph)
    }

    /// The external index with keys as characters.
    pub open spec fn external_keys(&self) -> Seq<(Seq<char>, usize)> {
        self.external_index@.map_values(|e: (String, usize)| (e.0@, e.1))
    }

    /// Well-formedness: indices point at nodes of the right kind, keys are
    /// unique, and edges are in range and normalized.
    pub open spec fn wf(&self) -> bool {
        let n = self.nodes().len();
        &&& n < index_limit()
        &&& self.edges().len() < index_limit()
        &&& edges_in_range(self.edges(), n)
        &&& edges_normalized(self.edges())
        &&& keys_distinct(self.file_to_index@)
        &&& forall|i: int| 0 <= i < self.file_to_index@.len() ==>
            is_file_node(self.nodes(), (#[trigger] self.file_to_index@[i]).1, self.file_to_index@[i].0)
        &&& keys_distinct(self.symbol_to_index@)
        &&& forall|i: int| 0 <= i < self.symbol_to_index@.len() ==>
            is_symbol_node(self.nodes(), (#[trigger] self.symbol_to_index@[i]).1, self.symbol_to_index@[i].0)
        &&& keys_distinct(self.external_keys())
        &&& forall|i: int| 0 <= i < self.external_keys().len() ==>
            is_external_node(self.nodes(), (#[trigger] self.external_keys()[i]).1, self.external_keys()[i].0)
    }

    /// Room for one more node and one more edge.
    pub open spec fn has_room(&self) -> bool {
        self.nodes().len() + 1 < index_limit() && self.edges().len() + 1 < index_limit()
    }

    /// An empty graph for the given snapshot.
    pub fn new(snapshot_id: SnapshotId) -> (r: CodeGraph)
        ensures
            r.wf(),
            r.nodes().len() == 0,
            r.edges().len() == 0,
            r.file_to_index@.len() == 0,
            r.symbol_to_index@.len() == 0,
            r.external_index@.len() == 0,
            r.snapshot_id == snapshot_id,
    {
        CodeGraph {
            graph: new_graph(),
            file_to_index: Vec::new(),
            symbol_to_index: Vec::new(),
            external_index: Vec::new(),
            snapshot_id,
        }
    }

    /// The underlying graph.
    pub fn graph(&self) -> (r: &DiGraph<NodeData, EdgeData>)
        ensures
            *r == self.graph,
    {
        &self.graph
    }

    pub fn node_count(&self) -> (r: usize)
        ensures
            r == self.nodes().len(),
    {
        graph_node_count(&self.graph)
    }

    pub fn edge_count(&self) -> (r: usize)
        ensures
            r == self.edges().len(),
    {
        graph_edge_count(&self.graph)
    }

    pub fn file_count(&self) -> (r: usize)
        ensures
            r == self.file_to_index@.len(),
    {
        self.file_to_index.len()
    }

    pub fn symbol_count(&self) -> (r: usize)
        ensures
            r == self.symbol_to_index@.len(),
    {
        self.symbol_to_index.len()
    }

    pub fn external_count(&self) -> (r: usize)
        ensures
            r == self.external_index@.len(),
    {
        self.external_index.len()
    }

    /// The weight of node `i`.
    pub fn node(&self, i: usize) -> (r: &NodeData)
        requires
            i < self.nodes().len(),
        ensures
            *r == self.nodes()[i as int],
    {
        graph_node(&self.graph, i)
    }

    /// Source, target and weight of edge `i`.
    pub fn edge(&self, i: usize) -> (r: (usize, usize, EdgeData))
        requires
            i < self.edges().len(),
        ensures
            r == self.edges()[i as int],
    {
        graph_edge(&self.graph, i)
    }

    /// Node index of a file.
    pub fn file_node_index(&self, file_id: FileId) -> (r: Option<usize>)
        requires
            self.wf(),
        ensures
            r == lookup(self.file_to_index@, file_id),
    {
        let mut i: usize = 0;
        while i < self.file_to_index.len()
            invariant
                0 <= i <= self.file_to_index@.len(),
                forall|j: int| 0 <= j < i ==> (#[trigger] self.file_to_index@[j]).0 != file_id,
                self.wf(),
            decreases self.file_to_index@.len() - i,
        {
            if self.file_to_index[i].0.0 == file_id.0 {
                proof { lemma_lookup_at(self.file_to_index@, i as int); }
                return Some(self.file_to_index[i].1);
            }
            i = i + 1;
        }
        proof { lemma_lookup_none(self.file_to_index@, file_id); }
        None
    }

    /// Node index of a symbol.
    pub fn symbol_node_index(&self, symbol_id: SymbolId) -> (r: Option<usize>)
        requires
            self.wf(),
        ensures
            r == lookup(self.symbol_to_index@, symbol_id),
    {
        let mut i: usize = 0;
        while i < self.symbol_to_index.len()
            invariant
                0 <= i <= self.symbol_to_index@.len(),
                forall|j: int| 0 <= j < i ==> (#[trigger] self.symbol_to_index@[j]).0 != symbol_id,
                self.wf(),
            decreases self.symbol_to_index@.len() - i,
        {
            if self.symbol_to_index[i].0.0 == symbol_id.0 {
                proof { lemma_lookup_at(self.symbol_to_index@, i as int); }
                return Some(self.symbol_to_index[i].1);
            }
            i = i + 1;
        }
        proof { lemma_lookup_none(self.symbol_to_index@, symbol_id); }
        None
    }

    /// Node index of an external dependency.
    pub fn external_node_index(&self, raw_path: &str) -> (r: Option<usize>)
        requires
            self.wf(),
        ensures
            r == lookup(self.external_keys(), raw_path@),
    {
        let mut i: usize = 0;
        while i < self.external_index.len()
            invariant
                0 <= i <= self.external_index@.len(),
                forall|j: int| 0 <= j < i ==> (#[trigger] self.external_keys()[j]).0 != raw_path@,
                self.wf(),
            decreases self.external_index@.len() - i,
        {
            if crate::text::str_eq(self.external_index[i].0.as_str(), raw_path) {
                proof {
                    assert(self.external_keys()[i as int].0 == raw_path@);
                    lemma_lookup_at(self.external_keys(), i as int);
                }
                return Some(self.external_index[i].1);
            }
            proof { assert(self.external_keys()[i as int].0 != raw_path@); }
            i = i + 1;
        }
        proof { lemma_lookup_none(self.external_keys(), raw_path@); }
        None
    }

    /// The file node of a file id.
    pub fn file_node(&self, file_id: FileId) -> (r: Option<&FileNode>)
        requires
            self.wf(),
        ensures
            r == (match lookup(self.file_to_index@, file_id) {
                Some(i) => Some(&self.nodes()[i as int]->File_0),
                None => None::<&FileNode>,
            }),
            r matches Some(f) ==> f.id == file_id,
    {
        match self.file_node_index(file_id) {
            Some(i) => {
                proof { lemma_lookup_some(self.file_to_index@, file_id); }
                let node = graph_node(&self.graph, i);
                match node {
                    NodeData::File(f) => Some(f),
                    _ => None,
                }
            },
            None => None,
        }
    }

    /// The symbol node of a symbol id.
    pub fn symbol_node(&self, symbol_id: SymbolId) -> (r: Option<&SymbolNode>)
        requires
            self.wf(),
        ensures
            r == (match lookup(self.symbol_to_index@, symbol_id) {
                Some(i) => Some(&self.nodes()[i as int]->Symbol_0),
                None => None::<&SymbolNode>,
            }),
            r matches Some(s) ==> s.id == symbol_id,
    {
        match self.symbol_node_index(symbol_id) {
            Some(i) => {
                proof { lemma_lookup_some(self.symbol_to_index@, symbol_id); }
                let node = graph_node(&self.graph, i);
                match node {
                    NodeData::Symbol(s) => Some(s),
                    _ => None,
                }
            },
            None => None,
        }
    }

    /// Appends a node, registering nothing.
    pub fn add_node(&mut self, node: NodeData) -> (r: usize)
        requires
            old(self).wf(),
            old(self).has_room(),
        ensures
            final(self).wf(),
            r == old(self).nodes().len(),
            final(self).nodes() == old(self).nodes().push(node),
            final(self).edges() == old(self).edges(),
            final(self).file_to_index == old(self).file_to_index,
            final(self).symbol_to_index == old(self).symbol_to_index,
            final(self).external_index == old(self).external_index,
            final(self).snapshot_id == old(self).snapshot_id,
    {
        let r = graph_add_node(&mut self.graph, node);
        proof { self.lemma_push_node_keeps_wf(*old(self), node); }
        r
    }

    proof fn lemma_push_node_keeps_wf(&self, before: CodeGraph, node: NodeData)
        requires
            before.wf(),
            before.has_room(),
            self.nodes() == before.nodes().push(node),
            self.edges() == before.edges(),
            self.file_to_index == before.file_to_index,
            self.symbol_to_index == before.symbol_to_index,
            self.external_index == before.external_index,
        ensures
            self.wf(),
    {
        let n = before.nodes().len();
        assert forall|i: int| 0 <= i < self.file_to_index@.len() implies
            is_file_node(self.nodes(), (#[trigger] self.file_to_index@[i]).1, self.file_to_index@[i].0) by {
            assert(is_file_node(before.nodes(), before.file_to_index@[i].1, before.file_to_index@[i].0));
        }
        assert forall|i: int| 0 <= i < self.symbol_to_index@.len() implies
            is_symbol_node(self.nodes(), (#[trigger] self.symbol_to_index@[i]).1, self.symbol_to_index@[i].0) by {
            assert(is_symbol_node(before.nodes(), before.symbol_to_index@[i].1, before.symbol_to_index@[i].0));
        }
        assert(self.external_keys() == before.external_keys());
        assert forall|i: int| 0 <= i < self.external_keys().len() implies
            is_external_node(self.nodes(), (#[trigger] self.external_keys()[i]).1, self.external_keys()[i].0) by {
            assert(is_external_node(before.nodes(), before.external_keys()[i].1, before.external_keys()[i].0));
        }
        assert forall|i: int| 0 <= i < self.edges().len() implies
            (#[trigger] self.edges()[i]).0 < self.nodes().len() && self.edges()[i].1 < self.nodes().len()
            && self.edges()[i].2.confidence <= 1000 by {
            assert(before.edges()[i].0 < n);
        }
    }

    /// Adds a file node, or returns the node of a file id already present.
    pub fn add_file_node(&mut self, file: FileNode) -> (r: usize)
        requires
            old(self).wf(),
            old(self).has_room(),
        ensures
            final(self).wf(),
            final(self).edges() == old(self).edges(),
            final(self).symbol_to_index == old(self).symbol_to_index,
            final(self).external_index == old(self).external_index,
            final(self).snapshot_id == old(self).snapshot_id,
            lookup(final(self).file_to_index@, file.id) == Some(r),
            match lookup(old(self).file_to_index@, file.id) {
                Some(i) => r == i && final(self).nodes() == old(self).nodes()
                    && final(self).file_to_index == old(self).file_to_index,
                None => r == old(self).nodes().len()
                    && final(self).nodes() == old(self).nodes().push(NodeData::File(file))
                    && final(self).file_to_index@ == old(self).file_to_index@.push((file.id, r)),
            },
    {
        match self.file_node_index(file.id) {
            Some(i) => i,
            None => {
                let fid = file.id;
                let ghost before = *self;
                let r = self.add_node(NodeData::File(file));
                let ghost mid = *self;
                self.file_to_index.push((fid, r));
                proof {
                    lemma_lookup_push(before.file_to_index@, fid, r, fid);
                    assert forall|i: int| 0 <= i < self.file_to_index@.len() implies
                        is_file_node(self.nodes(), (#[trigger] self.file_to_index@[i]).1, self.file_to_index@[i].0) by {
                        if i < before.file_to_index@.len() {
                            assert(self.file_to_index@[i] == mid.file_to_index@[i]);
                        }
                    }
                }
                r
            },
        }
    }

    /// Resolves or creates the external node of a raw path, so repeated loads
    /// of one path reuse a single node.
    pub fn get_or_create_external_node(&mut self, raw_path: String, language: LangId) -> (r: usize)
        requires
            old(self).wf(),
            old(self).has_room(),
        ensures
            final(self).wf(),
            final(self).edges() == old(self).edges(),
            final(self).file_to_index == old(self).file_to_index,
            final(self).symbol_to_index == old(self).symbol_to_index,
            final(self).snapshot_id == old(self).snapshot_id,
            lookup(final(self).external_keys(), raw_path@) == Some(r),
            is_external_node(final(self).nodes(), r, raw_path@),
            match lookup(old(self).external_keys(), raw_path@) {
                Some(i) => r == i && final(self).nodes() == old(self).nodes()
                    && final(self).external_index == old(self).external_index,
                None => r == old(self).nodes().len()
                    && final(self).nodes() == old(self).nodes().push(NodeData::External(ExternalNode {
                        raw_path,
                        language,
                        classification: None,
                    }))
                    && final(self).external_keys() == old(self).external_keys().push((raw_path@, r)),
            },
    {
        match self.external_node_index(raw_path.as_str()) {
            Some(i) => {
                proof {
                    lemma_lookup_some(self.external_keys(), raw_path@);
                    let j = choose|j: int| 0 <= j < self.external_keys().len() && (#[trigger] self.external_keys()[j]).0 == raw_path@
                        && self.external_keys()[j].1 == i;
                    assert(is_external_node(self.nodes(), self.external_keys()[j].1, self.external_keys()[j].0));
                }
                i
            },
            None => {
                let key = raw_path.clone();
                let ghost before = *self;
                let r = self.add_node(NodeData::External(ExternalNode { raw_path, language, classification: None }));
                let ghost mid = *self;
                self.external_index.push((key, r));
                proof {
                    assert(self.external_keys() =~= before.external_keys().push((key@, r)));
                    lemma_lookup_push(before.external_keys(), key@, r, key@);
                    assert forall|i: int| 0 <= i < self.external_keys().len() implies
                        is_external_node(self.nodes(), (#[trigger] self.external_keys()[i]).1, self.external_keys()[i].0) by {
                        if i < before.external_keys().len() {
                            assert(self.external_keys()[i] == before.external_keys()[i]);
                            assert(is_external_node(before.nodes(), before.external_keys()[i].1, before.external_keys()[i].0));
                        }
                    }
                }
                r
            },
        }
    }

    /// Index of the edge with this source, target and kind.
    pub fn find_edge(&self, source: usize, target: usize, kind: EdgeKind) -> (r: Option<usize>)
        requires
            self.wf(),
        ensures
            r.is_some() == edge_position(self.edges(), source, target, kind).is_some(),
            r matches Some(i) ==> edge_position(self.edges(), source, target, kind) == Some(i as int),
    {
        let m = graph_edge_count(&self.graph);
        let mut i: usize = 0;
        while i < m
            invariant
                m == self.edges().len(),
                self.wf(),
                0 <= i <= m,
                forall|j: int| 0 <= j < i ==> !((#[trigger] self.edges()[j]).0 == source && self.edges()[j].1 == target
                    && self.edges()[j].2.kind == kind),
            decreases m - i,
        {
            let e = graph_edge(&self.graph, i);
            if e.0 == source && e.1 == target && e.2.kind == kind {
                proof {
                    let es = self.edges();
                    let c = choose|j: int| 0 <= j < es.len() && (#[trigger] es[j]).0 == source && es[j].1 == target && es[j].2.kind == kind;
                    if c != i {
                        assert(same_triple(es[c], es[i as int]));
                    }
                }
                return Some(i);
            }
            i = i + 1;
        }
        None
    }

    /// Adds an edge through the normalization rule: a repeated
    /// `(source, target, kind)` triple keeps one edge with the larger
    /// confidence.
    pub fn add_edge_normalized(&mut self, source: usize, target: usize, kind: EdgeKind, confidence: u32)
        requires
            old(self).wf(),
            old(self).has_room(),
            source < old(self).nodes().len(),
            target < old(self).nodes().len(),
            confidence <= 1000,
        ensures
            final(self).wf(),
            final(self).nodes() == old(self).nodes(),
            final(self).edges() == merge_edge(old(self).edges(), source, target, kind, confidence),
            final(self).file_to_index == old(self).file_to_index,
            final(self).symbol_to_index == old(self).symbol_to_index,
            final(self).external_index == old(self).external_index,
            final(self).snapshot_id == old(self).snapshot_id,
    {
        let ghost before = *self;
        match self.find_edge(source, target, kind) {
            Some(i) => {
                let e = graph_edge(&self.graph, i);
                let c = if e.2.confidence >= confidence { e.2.confidence } else { confidence };
                graph_set_edge_weight(&mut self.graph, i, EdgeData { kind, confidence: c });
                proof {
                    let es = self.edges();
                    assert forall|a: int, b: int| 0 <= a < es.len() && 0 <= b < es.len() && a != b implies
                        !same_triple(#[trigger] es[a], #[trigger] es[b]) by {
                        assert(!same_triple(before.edges()[a], before.edges()[b]));
                    }
                    assert forall|a: int| 0 <= a < es.len() implies (#[trigger] es[a]).0 < self.nodes().len()
                        && es[a].1 < self.nodes().len() && es[a].2.confidence <= 1000 by {
                        assert(before.edges()[a].0 < self.nodes().len());
                    }
                    assert(self.external_keys() == before.external_keys());
                    assert forall|a: int| 0 <= a < self.file_to_index@.len() implies
                        is_file_node(self.nodes(), (#[trigger] self.file_to_index@[a]).1, self.file_to_index@[a].0) by {
                        assert(is_file_node(before.nodes(), before.file_to_index@[a].1, before.file_to_index@[a].0));
                    }
                    assert forall|a: int| 0 <= a < self.symbol_to_index@.len() implies
                        is_symbol_node(self.nodes(), (#[trigger] self.symbol_to_index@[a]).1, self.symbol_to_index@[a].0) by {
                        assert(is_symbol_node(before.nodes(), before.symbol_to_index@[a].1, before.symbol_to_index@[a].0));
                    }
                    assert forall|a: int| 0 <= a < self.external_keys().len() implies
                        is_external_node(self.nodes(), (#[trigger] self.external_keys()[a]).1, self.external_keys()[a].0) by {
                        assert(is_external_node(before.nodes(), before.external_keys()[a].1, before.external_keys()[a].0));
                    }
                }
            },
            None => {
                graph_add_edge(&mut self.graph, source, target, EdgeData { kind, confidence });
                proof {
                    let es = self.edges();
                    let n = before.edges().len();
                    assert forall|a: int, b: int| 0 <= a < es.len() && 0 <= b < es.len() && a != b implies
                        !same_triple(#[trigger] es[a], #[trigger] es[b]) by {
                        if a < n && b < n {
                            assert(!same_triple(before.edges()[a], before.edges()[b]));
                        } else if a == n {
                            assert(!(before.edges()[b].0 == source && before.edges()[b].1 == target && before.edges()[b].2.kind == kind));
                        } else {
                            assert(!(before.edges()[a].0 == source && before.edges()[a].1 == target && before.edges()[a].2.kind == kind));
                        }
                    }
                    assert forall|a: int| 0 <= a < es.len() implies (#[trigger] es[a]).0 < self.nodes().len()
                        && es[a].1 < self.nodes().len() && es[a].2.confidence <= 1000 by {
                        if a < n {
                            assert(before.edges()[a].0 < self.nodes().len());
                        }
                    }
                    assert(self.external_keys() == before.external_keys());
                    assert forall|a: int| 0 <= a < self.file_to_index@.len() implies
                        is_file_node(self.nodes(), (#[trigger] self.file_to_index@[a]).1, self.file_to_index@[a].0) by {
                        assert(is_file_node(before.nodes(), before.file_to_index@[a].1, before.file_to_index@[a].0));
                    }
                    assert forall|a: int| 0 <= a < self.symbol_to_index@.len() implies
                        is_symbol_node(self.nodes(), (#[trigger] self.symbol_to_index@[a]).1, self.symbol_to_index@[a].0) by {
                        assert(is_symbol_node(before.nodes(), before.symbol_to_index@[a].1, before.symbol_to_index@[a].0));
                    }
                    assert forall|a: int| 0 <= a < self.external_keys().len() implies
                        is_external_node(self.nodes(), (#[trigger] self.external_keys()[a]).1, self.external_keys()[a].0) by {
                        assert(is_external_node(before.nodes(), before.external_keys()[a].1, before.external_keys()[a].0));
                    }
                }
            },
        }
    }

    /// The (source, target) pairs of every edge of one kind, in edge order.
    pub fn edges_of_kind(&self, kind: EdgeKind) -> (r: Vec<(usize, usize)>)
        ensures
            r@ == pairs_of_kind(self.edges(), kind),
    {
        let m = graph_edge_count(&self.graph);
        let mut out: Vec<(usize, usize)> = Vec::new();
        let mut i: usize = 0;
        while i < m
            invariant
                m == self.edges().len(),
                0 <= i <= m,
                out@ == pairs_of_kind(self.edges().take(i as int), kind),
            decreases m - i,
        {
            let e = graph_edge(&self.graph, i);
            proof {
                let es = self.edges();
                assert(es.take(i + 1).drop_last() =~= es.take(i as int));
                reveal_with_fuel(Seq::filter, 1);
            }
            if e.2.kind == kind {
                out.push((e.0, e.1));
            }
            proof {
                let es = self.edges();
                let f = |x: (usize, usize, EdgeData)| x.2.kind == kind;
                let g = |x: (usize, usize, EdgeData)| (x.0, x.1);
                assert(es.take(i + 1).filter(f) == if f(e) { es.take(i as int).filter(f).push(e) } else { es.take(i as int).filter(f) });
                assert(out@ =~= es.take(i + 1).filter(f).map_values(g));
            }
            i = i + 1;
        }
        proof { assert(self.edges().take(m as int) =~= self.edges()); }
        out
    }

    /// Every registered file with its node, in registration order.
    pub fn files(&self) -> (r: Vec<(FileId, &FileNode)>)
        requires
            self.wf(),
        ensures
            r@.len() == self.file_to_index@.len(),
            forall|i: int| 0 <= i < r@.len() ==> (#[trigger] r@[i]).0 == self.file_to_index@[i].0
                && *r@[i].1 == self.nodes()[self.file_to_index@[i].1 as int]->File_0,
    {
        let mut out: Vec<(FileId, &FileNode)> = Vec::new();
        let mut i: usize = 0;
        while i < self.file_to_index.len()
            invariant
                self.wf(),
                0 <= i <= self.file_to_index@.len(),
                out@.len() == i,
                forall|j: int| 0 <= j < i ==> (#[trigger] out@[j]).0 == self.file_to_index@[j].0
                    && *out@[j].1 == self.nodes()[self.file_to_index@[j].1 as int]->File_0,
            decreases self.file_to_index@.len() - i,
        {
            let (fid, idx) = self.file_to_index[i];
            proof { assert(is_file_node(self.nodes(), self.file_to_index@[i as int].1, self.file_to_index@[i as int].0)); }
            let node = graph_node(&self.graph, idx);
            match node {
                NodeData::File(f) => {
                    out.push((fid, f));
                },
                _ => {},
            }
            i = i + 1;
        }
        out
    }

    /// Every registered symbol with its node, in registration order.
    pub fn symbols(&self) -> (r: Vec<(SymbolId, &SymbolNode)>)
        requires
            self.wf(),
        ensures
            r@.len() == self.symbol_to_index@.len(),
            forall|i: int| 0 <= i < r@.len() ==> (#[trigger] r@[i]).0 == self.symbol_to_index@[i].0
                && *r@[i].1 == self.nodes()[self.symbol_to_index@[i].1 as int]->Symbol_0,
    {
        let mut out: Vec<(SymbolId, &SymbolNode)> = Vec::new();
        let mut i: usize = 0;
        while i < self.symbol_to_index.len()
            invariant
                self.wf(),
                0 <= i <= self.symbol_to_index@.len(),
                out@.len() == i,
                forall|j: int| 0 <= j < i ==> (#[trigger] out@[j]).0 == self.symbol_to_index@[j].0
                    && *out@[j].1 == self.nodes()[self.symbol_to_index@[j].1 as int]->Symbol_0,
            decreases self.symbol_to_index@.len() - i,
        {
            let (sid, idx) = self.symbol_to_index[i];
            proof { assert(is_symbol_node(self.nodes(), self.symbol_to_index@[i as int].1, self.symbol_to_index@[i as int].0)); }
            let node = graph_node(&self.graph, idx);
            match node {
                NodeData::Symbol(s) => {
                    out.push((sid, s));
                },
                _ => {},
            }
            i = i + 1;
        }
        out
    }
}

} // verus!
