//! Strongly connected components of the dependency subgraph.
//!
//! Tarjan's algorithm runs on the import and reference edges only; ownership
//! edges never make a cycle. Each component gets a deployability hint.
use vstd::prelude::*;

use petgraph::graph::DiGraph;

use crate::edge::{EdgeData, EdgeKind};
use crate::node::NodeData;
use crate::pg::{
    dependency_components, dependency_pairs, graph_edge, graph_edge_count, graph_edges,
    graph_node_count, graph_nodes, is_scc_decomposition, is_walk, listed, reaches, tarjan_components,
};

verus! {

/// Deployability classification of a component.
#[derive(Debug, Clone, Copy, PartialEq, Eq, Structural, Hash)]
pub enum DeployabilityHint {
    /// Single node, no self-loop, no dependencies: deploys on its own.
    Independent,
    /// Single node, no self-loop, with dependencies.
    AcyclicDependency,
    /// Part of a cycle of two or more nodes: deploys as a group.
    CyclicCluster,
    /// Single node with a self-loop.
    SelfLoop,
}

impl DeployabilityHint {
    pub open spec fn spec_name(self) -> Seq<char> {
        match self {
            DeployabilityHint::Independent => "independent"@,
            DeployabilityHint::AcyclicDependency => "acyclic_dependency"@,
            DeployabilityHint::CyclicCluster => "cyclic_cluster"@,
            DeployabilityHint::SelfLoop => "self_loop"@,
        }
    }

    /// The snake-case name of the hint.
    pub fn as_str(self) -> (r: &'static str)
        ensures
            r@ == self.spec_name(),
    {
        match self {
            DeployabilityHint::Independent => "independent",
            DeployabilityHint::AcyclicDependency => "acyclic_dependency",
            DeployabilityHint::CyclicCluster => "cyclic_cluster",
            DeployabilityHint::SelfLoop => "self_loop",
        }
    }
}

/// One strongly connected component.
#[derive(Debug, Clone)]
pub struct Scc {
    /// Position of the component in the analysis (dependencies first).
    pub index: usize,
    /// Node indices of the component.
    pub nodes: Vec<usize>,
    /// Size above one, or a self-loop.
    pub is_cyclic: bool,
    /// Deployability recommendation.
    pub hint: DeployabilityHint,
}

/// SCC analysis of a dependency graph.
#[derive(Debug, Clone)]
pub struct SccAnalysis {
    /// Components in reverse topological order (dependencies first).
    pub components: Vec<Scc>,
    /// Component index of every node, by node index.
    pub node_to_component: Vec<usize>,
}

/// Number of components per hint.
#[derive(Debug, Clone, Copy, PartialEq, Eq, Structural)]
pub struct HintCounts {
    pub independent: usize,
    pub acyclic_dependency: usize,
    pub cyclic_cluster: usize,
    pub self_loop: usize,
}

impl HintCounts {
    /// The count of a hint, or `None` when no component carries it.
    pub fn get(&self, hint: DeployabilityHint) -> (r: Option<usize>)
        ensures
            r == (if self.count(hint) == 0 { None } else { Some(self.count(hint)) }),
    {
        let c = match hint {
            DeployabilityHint::Independent => self.independent,
            DeployabilityHint::AcyclicDependency => self.acyclic_dependency,
            DeployabilityHint::CyclicCluster => self.cyclic_cluster,
            DeployabilityHint::SelfLoop => self.self_loop,
        };
        if c == 0 { None } else { Some(c) }
    }

    pub open spec fn count(&self, hint: DeployabilityHint) -> usize {
        match hint {
            DeployabilityHint::Independent => self.independent,
            DeployabilityHint::AcyclicDependency => self.acyclic_dependency,
            DeployabilityHint::CyclicCluster => self.cyclic_cluster,
            DeployabilityHint::SelfLoop => self.self_loop,
        }
    }
}

/// Some edge of any kind leads from `v` to itself.
pub open spec fn has_self_loop(es: Seq<(usize, usize, EdgeData)>, v: usize) -> bool {
    exists|i: int| 0 <= i < es.len() && (#[trigger] es[i]).0 == v && es[i].1 == v
}

/// Some node of the component has a self-loop.
pub open spec fn component_has_self_loop(es: Seq<(usize, usize, EdgeData)>, nodes: Seq<usize>) -> bool {
    exists|k: int| 0 <= k < nodes.len() && has_self_loop(es, #[trigger] nodes[k])
}

/// A non-ownership edge leaves component `c` for another component.
pub open spec fn has_outgoing_dependency(es: Seq<(usize, usize, EdgeData)>, node_comp: Seq<usize>, c: int) -> bool {
    exists|i: int| 0 <= i < es.len() && (#[trigger] es[i]).2.kind != EdgeKind::Ownership
        && es[i].0 < node_comp.len() && es[i].1 < node_comp.len()
        && node_comp[es[i].0 as int] == c && node_comp[es[i].1 as int] != c
}

/// The hint of a component from its size, self-loop and outgoing dependencies.
pub open spec fn spec_hint(size: nat, self_loop: bool, outgoing: bool) -> DeployabilityHint {
    if size > 1 {
        DeployabilityHint::CyclicCluster
    } else if self_loop {
        DeployabilityHint::SelfLoop
    } else if size == 1 && outgoing {
        DeployabilityHint::AcyclicDependency
    } else {
        DeployabilityHint::Independent
    }
}

/// The component views of a list of component vectors.
pub open spec fn comp_views(cs: Seq<Vec<usize>>) -> Seq<Seq<usize>> {
    cs.map_values(|c: Vec<usize>| c@)
}

impl SccAnalysis {
    /// The analysis is the one `analyze` computes for the graph `g`.
    pub open spec fn describes(&self, g: DiGraph<NodeData, EdgeData>) -> bool {
        let n = graph_nodes(g).len();
        let es = graph_edges(g);
        let comps = tarjan_components(n, dependency_pairs(es));
        &&& is_scc_decomposition(n, dependency_pairs(es), comps)
        &&& self.components@.len() == comps.len()
        &&& self.node_to_component@.len() == n
        &&& forall|c: int, k: int| 0 <= c < comps.len() && 0 <= k < comps[c].len() ==>
            self.node_to_component@[#[trigger] comps[c][k] as int] == c
        &&& forall|c: int| 0 <= c < comps.len() ==> {
            let comp = #[trigger] self.components@[c];
            &&& comp.index == c
            &&& comp.nodes@ == comps[c]
            &&& comp.is_cyclic == (comps[c].len() > 1 || component_has_self_loop(es, comps[c]))
            &&& comp.hint == spec_hint(comps[c].len(), component_has_self_loop(es, comps[c]),
                has_outgoing_dependency(es, self.node_to_component@, c))
        }
    }

    /// Computes the SCCs of the dependency subgraph (import and reference
    /// edges) and classifies each component.
    pub fn analyze(graph: &DiGraph<NodeData, EdgeData>) -> (r: SccAnalysis)
        ensures
            r.describes(*graph),
    {
        let comps = dependency_components(graph);
        let n = graph_node_count(graph);
        let m = graph_edge_count(graph);
        let ghost es = graph_edges(*graph);
        let ghost cv = comp_views(comps@);
        proof { assert(cv == tarjan_components(n as nat, dependency_pairs(es))); }

        // Component of every node.
        let mut node_comp: Vec<usize> = Vec::new();
        let mut v: usize = 0;
        while v < n
            invariant
                0 <= v <= n,
                node_comp@.len() == v,
            decreases n - v,
        {
            node_comp.push(0);
            v = v + 1;
        }
        let mut c: usize = 0;
        while c < comps.len()
            invariant
                0 <= c <= comps@.len(),
                cv == comp_views(comps@),
                is_scc_decomposition(n as nat, dependency_pairs(es), cv),
                node_comp@.len() == n,
                forall|c2: int, k: int| 0 <= c2 < c && 0 <= k < cv[c2].len() ==>
                    node_comp@[#[trigger] cv[c2][k] as int] == c2,
            decreases comps@.len() - c,
        {
            let comp = &comps[c];
            proof { assert(cv[c as int] == comp@); }
            let mut k: usize = 0;
            while k < comp.len()
                invariant
                    0 <= c < comps@.len(),
                    0 <= k <= comp@.len(),
                    comp@ == cv[c as int],
                    cv == comp_views(comps@),
                    is_scc_decomposition(n as nat, dependency_pairs(es), cv),
                    node_comp@.len() == n,
                    forall|c2: int, k2: int| 0 <= c2 < c && 0 <= k2 < cv[c2].len() ==>
                        node_comp@[#[trigger] cv[c2][k2] as int] == c2,
                    forall|k2: int| 0 <= k2 < k ==> node_comp@[#[trigger] cv[c as int][k2] as int] == c,
                decreases comp@.len() - k,
            {
                let node = comp[k];
                proof { assert(cv[c as int][k as int] == node); }
                node_comp.set(node, c);
                proof {
                    assert forall|c2: int, k2: int| 0 <= c2 < c && 0 <= k2 < cv[c2].len() implies
                        node_comp@[#[trigger] cv[c2][k2] as int] == c2 by {
                        assert(cv[c2][k2] != cv[c as int][k as int]);
                    }
                    assert forall|k2: int| 0 <= k2 < k + 1 implies node_comp@[#[trigger] cv[c as int][k2] as int] == c by {
                        if k2 < k {
                            assert(cv[c as int][k2] != cv[c as int][k as int]);
                        }
                    }
                }
                k = k + 1;
            }
            c = c + 1;
        }

        // Nodes with a self-loop, over every edge.
        let mut looped: Vec<bool> = Vec::new();
        let mut v: usize = 0;
        while v < n
            invariant
                0 <= v <= n,
                looped@.len() == v,
                forall|j: int| 0 <= j < v ==> !looped@[j],
            decreases n - v,
        {
            looped.push(false);
            v = v + 1;
        }
        let mut i: usize = 0;
        while i < m
            invariant
                m == es.len(),
                es == graph_edges(*graph),
                0 <= i <= m,
                looped@.len() == n,
                forall|w: int| 0 <= w < n ==> (looped@[w] <==> has_self_loop(es.take(i as int), w as usize)),
            decreases m - i,
        {
            let e = graph_edge(graph, i);
            if e.0 == e.1 && e.0 < n {
                looped.set(e.0, true);
            }
            proof {
                assert forall|w: int| 0 <= w < n implies (looped@[w] <==> has_self_loop(es.take(i + 1), w as usize)) by {
                    let p = es.take(i as int);
                    let q = es.take(i + 1);
                    if has_self_loop(p, w as usize) {
                        let j = choose|j: int| 0 <= j < p.len() && (#[trigger] p[j]).0 == w as usize && p[j].1 == w as usize;
                        assert(q[j] == p[j]);
                    }
                    if has_self_loop(q, w as usize) {
                        let j = choose|j: int| 0 <= j < q.len() && (#[trigger] q[j]).0 == w as usize && q[j].1 == w as usize;
                        if j < i {
                            assert(p[j] == q[j]);
                        } else {
                            assert(q[j] == e);
                        }
                    }
                    if e.0 == e.1 && e.0 == w {
                        assert(q[i as int] == e);
                    }
                }
            }
            i = i + 1;
        }
        proof { assert(es.take(m as int) =~= es); }

        // Components with an outgoing non-ownership edge.
        let nc = comps.len();
        proof {
            assert forall|w: int| 0 <= w < n implies (#[trigger] node_comp@[w]) < nc by {
                assert(listed(cv, w as usize));
                let (c2, k2) = choose|c2: int, k2: int| 0 <= c2 < cv.len() && 0 <= k2 < cv[c2].len() && #[trigger] cv[c2][k2] == w as usize;
                assert(node_comp@[cv[c2][k2] as int] == c2);
            }
        }
        let mut outgoing: Vec<bool> = Vec::new();
        let mut c: usize = 0;
        while c < nc
            invariant
                0 <= c <= nc,
                outgoing@.len() == c,
                forall|j: int| 0 <= j < c ==> !outgoing@[j],
            decreases nc - c,
        {
            outgoing.push(false);
            c = c + 1;
        }
        let mut i: usize = 0;
        while i < m
            invariant
                m == es.len(),
                es == graph_edges(*graph),
                0 <= i <= m,
                nc == cv.len(),
                node_comp@.len() == n,
                outgoing@.len() == nc,
                forall|w: int| 0 <= w < n ==> (#[trigger] node_comp@[w]) < nc,
                forall|c2: int| 0 <= c2 < nc ==> (outgoing@[c2] <==> has_outgoing_dependency(es.take(i as int), node_comp@, c2)),
            decreases m - i,
        {
            let e = graph_edge(graph, i);
            if e.2.kind != EdgeKind::Ownership && e.0 < n && e.1 < n {
                let cs = node_comp[e.0];
                let ct = node_comp[e.1];
                if cs != ct {
                    outgoing.set(cs, true);
                }
            }
            proof {
                assert forall|c2: int| 0 <= c2 < nc implies (outgoing@[c2] <==> has_outgoing_dependency(es.take(i + 1), node_comp@, c2)) by {
                    let p = es.take(i as int);
                    let q = es.take(i + 1);
                    if has_outgoing_dependency(p, node_comp@, c2) {
                        let j = choose|j: int| 0 <= j < p.len() && (#[trigger] p[j]).2.kind != EdgeKind::Ownership
                            && p[j].0 < node_comp@.len() && p[j].1 < node_comp@.len()
                            && node_comp@[p[j].0 as int] == c2 && node_comp@[p[j].1 as int] != c2;
                        assert(q[j] == p[j]);
                    }
                    if has_outgoing_dependency(q, node_comp@, c2) {
                        let j = choose|j: int| 0 <= j < q.len() && (#[trigger] q[j]).2.kind != EdgeKind::Ownership
                            && q[j].0 < node_comp@.len() && q[j].1 < node_comp@.len()
                            && node_comp@[q[j].0 as int] == c2 && node_comp@[q[j].1 as int] != c2;
                        if j < i {
                            assert(p[j] == q[j]);
                        } else {
                            assert(q[j] == e);
                        }
                    }
                    assert(q[i as int] == e);
                }
            }
            i = i + 1;
        }
        proof { assert(es.take(m as int) =~= es); }

        // One record per component.
        let mut components: Vec<Scc> = Vec::new();
        let mut c: usize = 0;
        while c < nc
            invariant
                0 <= c <= nc,
                nc == cv.len(),
                cv == comp_views(comps@),
                is_scc_decomposition(n as nat, dependency_pairs(es), cv),
                looped@.len() == n,
                forall|w: int| 0 <= w < n ==> (looped@[w] <==> has_self_loop(es, w as usize)),
                outgoing@.len() == nc,
                forall|c2: int| 0 <= c2 < nc ==> (outgoing@[c2] <==> has_outgoing_dependency(es, node_comp@, c2)),
                components@.len() == c,
                forall|c2: int| 0 <= c2 < c ==> {
                    let comp = #[trigger] components@[c2];
                    &&& comp.index == c2
                    &&& comp.nodes@ == cv[c2]
                    &&& comp.is_cyclic == (cv[c2].len() > 1 || component_has_self_loop(es, cv[c2]))
                    &&& comp.hint == spec_hint(cv[c2].len(), component_has_self_loop(es, cv[c2]),
                        has_outgoing_dependency(es, node_comp@, c2))
                },
            decreases nc - c,
        {
            let nodes = comps[c].clone();
            proof { assert(nodes@ == cv[c as int]); }
            let mut self_loop = false;
            let mut k: usize = 0;
            while k < nodes.len()
                invariant
                    0 <= k <= nodes@.len(),
                    nodes@ == cv[c as int],
                    0 <= c < nc,
                    nc == cv.len(),
                    is_scc_decomposition(n as nat, dependency_pairs(es), cv),
                    looped@.len() == n,
                    forall|w: int| 0 <= w < n ==> (looped@[w] <==> has_self_loop(es, w as usize)),
                    self_loop == exists|k2: int| 0 <= k2 < k && has_self_loop(es, #[trigger] nodes@[k2]),
                decreases nodes@.len() - k,
            {
                let node = nodes[k];
                proof { assert(cv[c as int][k as int] == node); }
                if looped[node] {
                    self_loop = true;
                }
                proof {
                    if has_self_loop(es, nodes@[k as int]) {
                        assert(looped@[node as int]);
                    }
                }
                k = k + 1;
            }
            let size = nodes.len();
            let is_cyclic = size > 1 || self_loop;
            let hint = if size > 1 {
                DeployabilityHint::CyclicCluster
            } else if self_loop {
                DeployabilityHint::SelfLoop
            } else if size == 1 && outgoing[c] {
                DeployabilityHint::AcyclicDependency
            } else {
                DeployabilityHint::Independent
            };
            components.push(Scc { index: c, nodes, is_cyclic, hint });
            c = c + 1;
        }
        SccAnalysis { components, node_to_component: node_comp }
    }

    /// Component index of a node.
    pub fn component_of(&self, node: usize) -> (r: Option<usize>)
        ensures
            r == (if node < self.node_to_component@.len() {
                Some(self.node_to_component@[node as int])
            } else {
                None::<usize>
            }),
    {
        if node < self.node_to_component.len() {
            Some(self.node_to_component[node])
        } else {
            None
        }
    }

    /// True when two nodes are in the same component.
    pub fn mutually_dependent(&self, a: usize, b: usize) -> (r: bool)
        ensures
            r == (self.spec_component_of(a) == self.spec_component_of(b)),
    {
        let ca = self.component_of(a);
        let cb = self.component_of(b);
        match (ca, cb) {
            (Some(x), Some(y)) => x == y,
            (None, None) => true,
            _ => false,
        }
    }

    pub open spec fn spec_component_of(&self, node: usize) -> Option<usize> {
        if node < self.node_to_component@.len() {
            Some(self.node_to_component@[node as int])
        } else {
            None
        }
    }

    /// True when some component is cyclic.
    pub fn has_cycles(&self) -> (r: bool)
        ensures
            r == exists|c: int| 0 <= c < self.components@.len() && (#[trigger] self.components@[c]).is_cyclic,
    {
        let mut i: usize = 0;
        while i < self.components.len()
            invariant
                0 <= i <= self.components@.len(),
                forall|c: int| 0 <= c < i ==> !(#[trigger] self.components@[c]).is_cyclic,
            decreases self.components@.len() - i,
        {
            if self.components[i].is_cyclic {
                return true;
            }
            i = i + 1;
        }
        false
    }

    /// The cyclic components, in order.
    pub fn cyclic_components(&self) -> (r: Vec<&Scc>)
        ensures
            r@.map_values(|s: &Scc| *s) == self.components@.filter(|s: Scc| s.is_cyclic),
    {
        let r = self.components_where(true);
        proof { assert((|s: Scc| s.is_cyclic == true) =~= (|s: Scc| s.is_cyclic)); }
        r
    }

    /// The acyclic components, in order.
    pub fn acyclic_components(&self) -> (r: Vec<&Scc>)
        ensures
            r@.map_values(|s: &Scc| *s) == self.components@.filter(|s: Scc| !s.is_cyclic),
    {
        let r = self.components_where(false);
        proof { assert((|s: Scc| s.is_cyclic == false) =~= (|s: Scc| !s.is_cyclic)); }
        r
    }

    fn components_where(&self, cyclic: bool) -> (r: Vec<&Scc>)
        ensures
            r@.map_values(|s: &Scc| *s) == self.components@.filter(|s: Scc| s.is_cyclic == cyclic),
    {
        let ghost f = |s: Scc| s.is_cyclic == cyclic;
        let mut out: Vec<&Scc> = Vec::new();
        let mut i: usize = 0;
        while i < self.components.len()
            invariant
                0 <= i <= self.components@.len(),
                out@.map_values(|s: &Scc| *s) == self.components@.take(i as int).filter(f),
                f == (|s: Scc| s.is_cyclic == cyclic),
            decreases self.components@.len() - i,
        {
            let comp = &self.components[i];
            let ghost before = out@;
            proof {
                crate::assoc::lemma_filter_take_step(self.components@, i as int, f);
                assert(self.components@[i as int] == *comp);
                assert(f(*comp) == (comp.is_cyclic == cyclic));
            }
            if comp.is_cyclic == cyclic {
                out.push(comp);
                proof {
                    assert(out@.map_values(|s: &Scc| *s) =~= before.map_values(|s: &Scc| *s).push(*comp));
                    assert(self.components@.take(i + 1).filter(f) == self.components@.take(i as int).filter(f).push(*comp));
                }
            } else {
                proof {
                    assert(self.components@.take(i + 1).filter(f) == self.components@.take(i as int).filter(f));
                }
            }
            i = i + 1;
        }
        proof { assert(self.components@.take(self.components@.len() as int) =~= self.components@); }
        out
    }

    /// Number of components per hint.
    pub fn hint_counts(&self) -> (r: HintCounts)
        ensures
            forall|h: DeployabilityHint| #[trigger] r.count(h) == self.components@.filter(|s: Scc| s.hint == h).len(),
    {
        let counts = HintCounts {
            independent: self.count_hint(DeployabilityHint::Independent),
            acyclic_dependency: self.count_hint(DeployabilityHint::AcyclicDependency),
            cyclic_cluster: self.count_hint(DeployabilityHint::CyclicCluster),
            self_loop: self.count_hint(DeployabilityHint::SelfLoop),
        };
        counts
    }

    fn count_hint(&self, h: DeployabilityHint) -> (r: usize)
        ensures
            r == self.components@.filter(|s: Scc| s.hint == h).len(),
    {
        let ghost f = |s: Scc| s.hint == h;
        let mut count: usize = 0;
        let mut i: usize = 0;
        while i < self.components.len()
            invariant
                0 <= i <= self.components@.len(),
                count == self.components@.take(i as int).filter(f).len(),
                f == (|s: Scc| s.hint == h),
            decreases self.components@.len() - i,
        {
            proof {
                crate::assoc::lemma_filter_take_step(self.components@, i as int, f);
                self.components@.take(i as int).lemma_filter_len(f);
            }
            if self.components[i].hint == h {
                count = count + 1;
            }
            i = i + 1;
        }
        proof { assert(self.components@.take(self.components@.len() as int) =~= self.components@); }
        count
    }
}

/// The dependency pairs of a well-formed graph join nodes of the graph.
pub proof fn lemma_dependency_pairs_in_range(g: crate::graph::CodeGraph)
    requires
        g.wf(),
    ensures
        forall|j: int| 0 <= j < dependency_pairs(g.edges()).len() ==>
            (#[trigger] dependency_pairs(g.edges())[j]).0 < g.nodes().len() && dependency_pairs(g.edges())[j].1 < g.nodes().len(),
{
    let es = g.edges();
    let f = |e: (usize, usize, EdgeData)| e.2.kind.spec_participates_in_scc();
    assert forall|j: int| 0 <= j < dependency_pairs(es).len() implies
        (#[trigger] dependency_pairs(es)[j]).0 < g.nodes().len() && dependency_pairs(es)[j].1 < g.nodes().len() by {
        crate::assoc::lemma_filter_member(es, f, j);
        let x = es.filter(f)[j];
        let k = choose|k: int| 0 <= k < es.len() && es[k] == x;
        assert(es[k].0 < g.nodes().len());
    }
}

/// Along a dependency walk the component index never grows.
proof fn lemma_walk_descends(a: SccAnalysis, g: crate::graph::CodeGraph, p: Seq<usize>)
    requires
        g.wf(),
        a.describes(g.graph),
        is_walk(dependency_pairs(g.edges()), p),
        p[0] < g.nodes().len(),
    ensures
        p.last() < g.nodes().len(),
        a.node_to_component@[p.last() as int] <= a.node_to_component@[p[0] as int],
    decreases p.len(),
{
    let n = g.nodes().len();
    let deps = dependency_pairs(g.edges());
    let comps = tarjan_components(n, deps);
    if p.len() > 1 {
        let q = p.drop_last();
        assert forall|k: int| 0 <= k < q.len() - 1 implies deps.contains((#[trigger] q[k], q[k + 1])) by {
            assert(q[k] == p[k] && q[k + 1] == p[k + 1]);
            assert(deps.contains((p[k], p[k + 1])));
        }
        lemma_walk_descends(a, g, q);
        let u = p[p.len() - 2];
        let v = p.last();
        assert(q.last() == u);
        assert(deps.contains((p[p.len() - 2], p[p.len() - 2 + 1])));
        let e = choose|e: int| 0 <= e < deps.len() && deps[e] == (u, v);
        lemma_dependency_pairs_in_range(g);
        assert(deps[e].1 < n);
        assert(listed(comps, u));
        assert(listed(comps, v));
        let (c1, k1) = choose|c1: int, k1: int| 0 <= c1 < comps.len() && 0 <= k1 < comps[c1].len() && #[trigger] comps[c1][k1] == u;
        let (c2, k2) = choose|c2: int, k2: int| 0 <= c2 < comps.len() && 0 <= k2 < comps[c2].len() && #[trigger] comps[c2][k2] == v;
        assert(a.node_to_component@[comps[c1][k1] as int] == c1);
        assert(a.node_to_component@[comps[c2][k2] as int] == c2);
        assert(comps[c1][k1] == deps[e].0 && comps[c2][k2] == deps[e].1);
    }
}

/// Two nodes of a well-formed graph are mutually dependent (in one
/// component) exactly when each reaches the other along import and
/// reference edges.
pub proof fn lemma_mutually_dependent_iff_mutually_reachable(
    analysis: SccAnalysis,
    g: crate::graph::CodeGraph,
    a: usize,
    b: usize,
)
    requires
        g.wf(),
        analysis.describes(g.graph),
        a < g.nodes().len(),
        b < g.nodes().len(),
    ensures
        (analysis.spec_component_of(a) == analysis.spec_component_of(b)) <==> (
            reaches(dependency_pairs(g.edges()), a, b) && reaches(dependency_pairs(g.edges()), b, a)),
{
    let n = g.nodes().len();
    let deps = dependency_pairs(g.edges());
    let comps = tarjan_components(n, deps);
    assert(listed(comps, a));
    assert(listed(comps, b));
    let (ca, ka) = choose|c: int, k: int| 0 <= c < comps.len() && 0 <= k < comps[c].len() && #[trigger] comps[c][k] == a;
    let (cb, kb) = choose|c: int, k: int| 0 <= c < comps.len() && 0 <= k < comps[c].len() && #[trigger] comps[c][k] == b;
    assert(analysis.node_to_component@[comps[ca][ka] as int] == ca);
    assert(analysis.node_to_component@[comps[cb][kb] as int] == cb);
    if analysis.spec_component_of(a) == analysis.spec_component_of(b) {
        assert(ca == cb);
        assert(reaches(deps, comps[ca][ka], comps[ca][kb]));
        assert(reaches(deps, comps[ca][kb], comps[ca][ka]));
    }
    if reaches(deps, a, b) && reaches(deps, b, a) {
        let p = choose|p: Seq<usize>| is_walk(deps, p) && p[0] == a && p.last() == b;
        let q = choose|q: Seq<usize>| is_walk(deps, q) && q[0] == b && q.last() == a;
        lemma_walk_descends(analysis, g, p);
        lemma_walk_descends(analysis, g, q);
    }
}

} // verus!
