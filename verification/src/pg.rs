//! The boundary to `petgraph`: the directed graph that stores the code
//! graph, its Tarjan SCC pass, and the union-find used for partitioning.
//!
//! Node and edge indices cross this boundary as `usize`: a node index is the
//! position of the node in insertion order, an edge index the position of the
//! edge.
use vstd::prelude::*;

use petgraph::graph::DiGraph;
use petgraph::unionfind::UnionFind;

use crate::edge::EdgeData;
use crate::node::NodeData;

verus! {

#[verifier::external_type_specification]
#[verifier::external_body]
#[verifier::reject_recursive_types(N)]
#[verifier::reject_recursive_types(E)]
#[verifier::reject_recursive_types(Ty)]
#[verifier::reject_recursive_types(Ix)]
pub struct ExGraph<N, E, Ty, Ix>(petgraph::graph::Graph<N, E, Ty, Ix>);

#[verifier::external_type_specification]
#[verifier::external_body]
pub struct ExDirected(petgraph::Directed);

#[verifier::external_type_specification]
#[verifier::external_body]
#[verifier::reject_recursive_types(K)]
pub struct ExUnionFind<K>(petgraph::unionfind::UnionFind<K>);

/// The node weights of a graph, in node-index order.
pub uninterp spec fn graph_nodes(g: DiGraph<NodeData, EdgeData>) -> Seq<NodeData>;

/// The edges of a graph as (source, target, weight), in edge-index order.
pub uninterp spec fn graph_edges(g: DiGraph<NodeData, EdgeData>) -> Seq<(usize, usize, EdgeData)>;

/// What `petgraph::algo::tarjan_scc` returns for a graph of `node_count`
/// nodes whose edges, in insertion order, are `edges`.
pub uninterp spec fn tarjan_components(node_count: nat, edges: Seq<(usize, usize)>) -> Seq<Seq<usize>>;

/// The representative of every element of a union-find, in element order.
pub uninterp spec fn union_find_roots(uf: UnionFind<u32>) -> Seq<u32>;

/// Largest number of nodes (and of edges) a graph with `u32` indices holds.
pub open spec fn index_limit() -> nat {
    0xffff_ffff
}

/// The dependency edges (import and reference) as pairs.
pub open spec fn dependency_pairs(es: Seq<(usize, usize, EdgeData)>) -> Seq<(usize, usize)> {
    es.filter(|e: (usize, usize, EdgeData)| e.2.kind.spec_participates_in_scc()).map_values(
        |e: (usize, usize, EdgeData)| (e.0, e.1),
    )
}

/// A walk along `edges`: consecutive nodes are joined by an edge.
pub open spec fn is_walk(edges: Seq<(usize, usize)>, p: Seq<usize>) -> bool {
    &&& p.len() >= 1
    &&& forall|k: int| 0 <= k < p.len() - 1 ==> edges.contains((#[trigger] p[k], p[k + 1]))
}

/// `b` is reachable from `a` along `edges` (every node reaches itself).
pub open spec fn reaches(edges: Seq<(usize, usize)>, a: usize, b: usize) -> bool {
    exists|p: Seq<usize>| is_walk(edges, p) && p[0] == a && p.last() == b
}

/// `v` appears in one of the components.
pub open spec fn listed(comps: Seq<Seq<usize>>, v: usize) -> bool {
    exists|c: int, k: int| 0 <= c < comps.len() && 0 <= k < comps[c].len() && #[trigger] comps[c][k] == v
}

/// `comps` splits the nodes `0..n` into strongly connected components listed
/// in reverse topological order.
pub open spec fn is_scc_decomposition(n: nat, edges: Seq<(usize, usize)>, comps: Seq<Seq<usize>>) -> bool {
    // every component holds at least one node, and only nodes of the graph
    &&& forall|c: int| 0 <= c < comps.len() ==> (#[trigger] comps[c]).len() > 0
    &&& forall|c: int, k: int| 0 <= c < comps.len() && 0 <= k < comps[c].len() ==> (#[trigger] comps[c][k]) < n
    // every node is in a component
    &&& forall|v: usize| v < n ==> #[trigger] listed(comps, v)
    // no node is listed twice
    &&& forall|c1: int, k1: int, c2: int, k2: int|
        0 <= c1 < comps.len() && 0 <= k1 < comps[c1].len() && 0 <= c2 < comps.len() && 0 <= k2 < comps[c2].len()
        && #[trigger] comps[c1][k1] == #[trigger] comps[c2][k2] ==> c1 == c2 && k1 == k2
    // an edge never leads to a later component
    &&& forall|e: int, c1: int, k1: int, c2: int, k2: int|
        0 <= e < edges.len() && 0 <= c1 < comps.len() && 0 <= k1 < comps[c1].len() && 0 <= c2 < comps.len() && 0 <= k2 < comps[c2].len()
        && #[trigger] comps[c1][k1] == (#[trigger] edges[e]).0 && #[trigger] comps[c2][k2] == edges[e].1 ==> c2 <= c1
    // the nodes of a component reach each other
    &&& forall|c: int, k1: int, k2: int| 0 <= c < comps.len() && 0 <= k1 < comps[c].len() && 0 <= k2 < comps[c].len()
        ==> reaches(edges, #[trigger] comps[c][k1], #[trigger] comps[c][k2])
}

/// An empty directed graph (`DiGraph::new`).
pub fn new_graph() -> (g: DiGraph<NodeData, EdgeData>)
    ensures
        graph_nodes(g).len() == 0,
        graph_edges(g).len() == 0,
{
    new_graph_impl()
}

#[verifier::external_body]
fn new_graph_impl() -> (g: DiGraph<NodeData, EdgeData>)
    ensures
        graph_nodes(g) == Seq::<NodeData>::empty(),
        graph_edges(g) == Seq::<(usize, usize, EdgeData)>::empty(),
{
    DiGraph::new()
}

/// `Graph::add_node`: appends a node and returns its index.
#[verifier::external_body]
pub fn graph_add_node(g: &mut DiGraph<NodeData, EdgeData>, weight: NodeData) -> (r: usize)
    requires
        graph_nodes(*old(g)).len() < index_limit(),
    ensures
        r == graph_nodes(*old(g)).len(),
        graph_nodes(*final(g)) == graph_nodes(*old(g)).push(weight),
        graph_edges(*final(g)) == graph_edges(*old(g)),
{
    g.add_node(weight).index()
}

/// `Graph::add_edge`: appends an edge and returns its index.
#[verifier::external_body]
pub fn graph_add_edge(g: &mut DiGraph<NodeData, EdgeData>, a: usize, b: usize, weight: EdgeData) -> (r: usize)
    requires
        a < graph_nodes(*old(g)).len(),
        b < graph_nodes(*old(g)).len(),
        graph_edges(*old(g)).len() < index_limit(),
    ensures
        r == graph_edges(*old(g)).len(),
        graph_nodes(*final(g)) == graph_nodes(*old(g)),
        graph_edges(*final(g)) == graph_edges(*old(g)).push((a, b, weight)),
{
    g.add_edge(petgraph::graph::NodeIndex::new(a), petgraph::graph::NodeIndex::new(b), weight).index()
}

/// `Graph::node_count`.
#[verifier::external_body]
pub fn graph_node_count(g: &DiGraph<NodeData, EdgeData>) -> (r: usize)
    ensures
        r == graph_nodes(*g).len(),
{
    g.node_count()
}

/// `Graph::edge_count`.
#[verifier::external_body]
pub fn graph_edge_count(g: &DiGraph<NodeData, EdgeData>) -> (r: usize)
    ensures
        r == graph_edges(*g).len(),
{
    g.edge_count()
}

/// The weight of node `i` (`&graph[i]`).
#[verifier::external_body]
pub fn graph_node(g: &DiGraph<NodeData, EdgeData>, i: usize) -> (r: &NodeData)
    requires
        i < graph_nodes(*g).len(),
    ensures
        *r == graph_nodes(*g)[i as int],
{
    &g[petgraph::graph::NodeIndex::new(i)]
}

/// Source, target and weight of edge `i` (`graph.raw_edges()[i]`).
#[verifier::external_body]
pub fn graph_edge(g: &DiGraph<NodeData, EdgeData>, i: usize) -> (r: (usize, usize, EdgeData))
    requires
        i < graph_edges(*g).len(),
    ensures
        r == graph_edges(*g)[i as int],
{
    let e = &g.raw_edges()[i];
    (e.source().index(), e.target().index(), e.weight)
}

/// Replaces the weight of edge `i` (`graph[i] = weight`).
#[verifier::external_body]
pub fn graph_set_edge_weight(g: &mut DiGraph<NodeData, EdgeData>, i: usize, weight: EdgeData)
    requires
        i < graph_edges(*old(g)).len(),
    ensures
        graph_nodes(*final(g)) == graph_nodes(*old(g)),
        graph_edges(*final(g)) == graph_edges(*old(g)).update(
            i as int,
            (graph_edges(*old(g))[i as int].0, graph_edges(*old(g))[i as int].1, weight),
        ),
{
    g[petgraph::graph::EdgeIndex::new(i)] = weight;
}

/// `petgraph::algo::tarjan_scc` over the dependency edges of the graph
/// (an `EdgeFiltered` view that keeps import and reference edges).
///
/// The components, each a list of node indices, come in postorder: a
/// component is listed after every component it has an edge to. Beyond the
/// facts of `is_scc_decomposition`, the order of the components and of the
/// nodes inside one is what the algorithm produces and is only named.
#[verifier::external_body]
pub fn dependency_components(g: &DiGraph<NodeData, EdgeData>) -> (r: Vec<Vec<usize>>)
    ensures
        r@.map_values(|c: Vec<usize>| c@) == tarjan_components(
            graph_nodes(*g).len(),
            dependency_pairs(graph_edges(*g)),
        ),
        is_scc_decomposition(
            graph_nodes(*g).len(),
            dependency_pairs(graph_edges(*g)),
            r@.map_values(|c: Vec<usize>| c@),
        ),
{
    let view = petgraph::visit::EdgeFiltered::from_fn(
        g,
        |e: petgraph::graph::EdgeReference<'_, EdgeData>| e.weight().participates_in_scc(),
    );
    petgraph::algo::tarjan_scc(&view)
        .into_iter()
        .map(|c| c.into_iter().map(|n| n.index()).collect())
        .collect()
}

/// Two elements share a representative.
pub open spec fn same_set(roots: Seq<u32>, i: int, j: int) -> bool {
    roots[i] == roots[j]
}

/// Every representative is an element that represents itself.
pub open spec fn roots_are_elements(roots: Seq<u32>) -> bool {
    forall|i: int| 0 <= i < roots.len() ==> (#[trigger] roots[i]) < roots.len() && roots[roots[i] as int] == roots[i]
}

/// `UnionFind::new(n)`: every element alone in its set.
#[verifier::external_body]
pub fn union_find_new(n: usize) -> (uf: UnionFind<u32>)
    requires
        n <= index_limit(),
    ensures
        union_find_roots(uf).len() == n,
        forall|i: int| 0 <= i < n ==> #[trigger] union_find_roots(uf)[i] == i,
{
    UnionFind::new(n)
}

/// `UnionFind::union(x, y)`: the sets of `x` and `y` become one; every other
/// pair of elements keeps its relation.
#[verifier::external_body]
pub fn union_find_union(uf: &mut UnionFind<u32>, x: u32, y: u32)
    requires
        x < union_find_roots(*old(uf)).len(),
        y < union_find_roots(*old(uf)).len(),
        roots_are_elements(union_find_roots(*old(uf))),
    ensures
        union_find_roots(*final(uf)).len() == union_find_roots(*old(uf)).len(),
        roots_are_elements(union_find_roots(*final(uf))),
        forall|i: int, j: int|
            0 <= i < union_find_roots(*old(uf)).len() && 0 <= j < union_find_roots(*old(uf)).len() ==>
            (#[trigger] same_set(union_find_roots(*final(uf)), i, j) <==> (
                #[trigger] same_set(union_find_roots(*old(uf)), i, j)
                || (same_set(union_find_roots(*old(uf)), i, x as int) && same_set(union_find_roots(*old(uf)), j, y as int))
                || (same_set(union_find_roots(*old(uf)), i, y as int) && same_set(union_find_roots(*old(uf)), j, x as int))
            )),
{
    uf.union(x, y);
}

/// `UnionFind::into_labeling`: the representative of every element.
#[verifier::external_body]
pub fn union_find_labeling(uf: UnionFind<u32>) -> (r: Vec<u32>)
    ensures
        r@ == union_find_roots(uf),
{
    uf.into_labeling()
}

} // verus!
