use meta_ast::scc::DeployabilityHint;

#[test]
fn deployability_hint_display() {
    assert_eq!(DeployabilityHint::Independent.as_str(), "independent");
    assert_eq!(DeployabilityHint::CyclicCluster.as_str(), "cyclic_cluster");
    assert_eq!(DeployabilityHint::SelfLoop.as_str(), "self_loop");
    assert_eq!(DeployabilityHint::AcyclicDependency.as_str(), "acyclic_dependency");
}

use meta_ast::edge::{EdgeData, EdgeKind};
use meta_ast::lang::LangId;
use meta_ast::model::{FileId, LineColumn, SnapshotId, SourceRange, SymbolId, SymbolKind, Visibility};
use meta_ast::node::{FileNode, NodeData, SymbolNode};
use meta_ast::scc::SccAnalysis;
use petgraph::graph::DiGraph;

fn make_source_range() -> SourceRange {
    SourceRange {
        byte_start: 0,
        byte_end: 10,
        start: LineColumn { line: 1, column: 0 },
        end: LineColumn { line: 1, column: 10 },
    }
}

fn make_file_node(id: u32, path: &str) -> NodeData {
    NodeData::File(FileNode {
        id: FileId(id),
        path: path.to_string(),
        language: LangId::Rust,
        snapshot_id: SnapshotId(1),
    })
}

fn make_symbol_node(id: u32, name: &str, file_id: u32) -> NodeData {
    NodeData::Symbol(SymbolNode {
        id: SymbolId(id),
        name: name.to_string(),
        kind: SymbolKind::Function,
        file_id: FileId(file_id),
        visibility: Some(Visibility::Public),
        source_range: make_source_range(),
    })
}

fn make_edge(kind: EdgeKind) -> EdgeData {
    EdgeData::new(kind)
}

#[test]
fn scc_single_node_no_edges() {
    let mut graph = DiGraph::new();
    let node = graph.add_node(make_symbol_node(1, "foo", 0));

    let analysis = SccAnalysis::analyze(&graph);

    assert_eq!(analysis.components.len(), 1);
    assert_eq!(analysis.components[0].nodes, vec![node.index()]);
    assert!(!analysis.components[0].is_cyclic);
    assert_eq!(analysis.components[0].hint, DeployabilityHint::Independent);
}

#[test]
fn scc_linear_chain() {
    let mut graph = DiGraph::new();
    let a = graph.add_node(make_symbol_node(1, "a", 0));
    let b = graph.add_node(make_symbol_node(2, "b", 0));
    let c = graph.add_node(make_symbol_node(3, "c", 0));
    graph.add_edge(a, b, make_edge(EdgeKind::Reference));
    graph.add_edge(b, c, make_edge(EdgeKind::Reference));

    let analysis = SccAnalysis::analyze(&graph);

    assert_eq!(analysis.components.len(), 3);
    assert!(!analysis.has_cycles());
    assert!(analysis.cyclic_components().is_empty());
}

#[test]
fn scc_simple_cycle() {
    let mut graph = DiGraph::new();
    let a = graph.add_node(make_symbol_node(1, "a", 0));
    let b = graph.add_node(make_symbol_node(2, "b", 0));
    let c = graph.add_node(make_symbol_node(3, "c", 0));
    graph.add_edge(a, b, make_edge(EdgeKind::Reference));
    graph.add_edge(b, c, make_edge(EdgeKind::Reference));
    graph.add_edge(c, a, make_edge(EdgeKind::Reference));

    let analysis = SccAnalysis::analyze(&graph);

    assert!(analysis.has_cycles());
    let cyclic = analysis.cyclic_components();
    assert_eq!(cyclic.len(), 1);
    assert_eq!(cyclic[0].nodes.len(), 3);
    assert_eq!(cyclic[0].hint, DeployabilityHint::CyclicCluster);
}

#[test]
fn scc_ownership_edges_excluded() {
    let mut graph = DiGraph::new();
    let file = graph.add_node(make_file_node(0, "test.rs"));
    let sym = graph.add_node(make_symbol_node(1, "func", 0));
    graph.add_edge(file, sym, make_edge(EdgeKind::Ownership));

    let analysis = SccAnalysis::analyze(&graph);

    assert_eq!(analysis.components.len(), 2);
    assert!(!analysis.has_cycles());
}

#[test]
fn scc_self_loop_detected() {
    let mut graph = DiGraph::new();
    let a = graph.add_node(make_symbol_node(1, "a", 0));
    graph.add_edge(a, a, make_edge(EdgeKind::Reference));

    let analysis = SccAnalysis::analyze(&graph);

    assert!(analysis.has_cycles());
    let comp = &analysis.components[0];
    assert!(comp.is_cyclic);
    assert_eq!(comp.hint, DeployabilityHint::SelfLoop);
}

#[test]
fn scc_multiple_cycles() {
    let mut graph = DiGraph::new();
    let a = graph.add_node(make_symbol_node(1, "a", 0));
    let b = graph.add_node(make_symbol_node(2, "b", 0));
    let c = graph.add_node(make_symbol_node(3, "c", 0));
    let d = graph.add_node(make_symbol_node(4, "d", 0));
    graph.add_edge(a, b, make_edge(EdgeKind::Reference));
    graph.add_edge(b, a, make_edge(EdgeKind::Reference));
    graph.add_edge(c, d, make_edge(EdgeKind::Reference));
    graph.add_edge(d, c, make_edge(EdgeKind::Reference));

    let analysis = SccAnalysis::analyze(&graph);

    assert!(analysis.has_cycles());
    assert_eq!(analysis.cyclic_components().len(), 2);

    let counts = analysis.hint_counts();
    assert_eq!(counts.get(DeployabilityHint::CyclicCluster), Some(2));
}

#[test]
fn scc_mutual_dependence_check() {
    let mut graph = DiGraph::new();
    let a = graph.add_node(make_symbol_node(1, "a", 0));
    let b = graph.add_node(make_symbol_node(2, "b", 0));
    let c = graph.add_node(make_symbol_node(3, "c", 0));
    graph.add_edge(a, b, make_edge(EdgeKind::Reference));
    graph.add_edge(b, a, make_edge(EdgeKind::Reference));

    let analysis = SccAnalysis::analyze(&graph);

    assert!(analysis.mutually_dependent(a.index(), b.index()));
    assert!(!analysis.mutually_dependent(a.index(), c.index()));
    assert!(!analysis.mutually_dependent(b.index(), c.index()));
}

#[test]
fn scc_component_lookup() {
    let mut graph = DiGraph::new();
    let a = graph.add_node(make_symbol_node(1, "a", 0));
    let b = graph.add_node(make_symbol_node(2, "b", 0));
    graph.add_edge(a, b, make_edge(EdgeKind::Reference));

    let analysis = SccAnalysis::analyze(&graph);

    assert!(analysis.component_of(a.index()).is_some());
    assert!(analysis.component_of(b.index()).is_some());
}

#[test]
fn scc_topological_order_dependencies_first() {
    let mut graph = DiGraph::new();
    let a = graph.add_node(make_symbol_node(1, "a", 0));
    let b = graph.add_node(make_symbol_node(2, "b", 0));
    let c = graph.add_node(make_symbol_node(3, "c", 0));
    graph.add_edge(a, b, make_edge(EdgeKind::Reference));
    graph.add_edge(b, c, make_edge(EdgeKind::Reference));

    let analysis = SccAnalysis::analyze(&graph);

    let indices: Vec<usize> = analysis
        .components
        .iter()
        .map(|c| *c.nodes.first().expect("Component has nodes"))
        .collect();
    assert_eq!(indices.len(), 3);
    assert_eq!(indices, vec![c.index(), b.index(), a.index()]);
}

#[test]
fn scc_diamond_structure() {
    let mut graph = DiGraph::new();
    let a = graph.add_node(make_symbol_node(1, "a", 0));
    let b = graph.add_node(make_symbol_node(2, "b", 0));
    let c = graph.add_node(make_symbol_node(3, "c", 0));
    let d = graph.add_node(make_symbol_node(4, "d", 0));
    graph.add_edge(a, b, make_edge(EdgeKind::Reference));
    graph.add_edge(a, c, make_edge(EdgeKind::Reference));
    graph.add_edge(b, d, make_edge(EdgeKind::Reference));
    graph.add_edge(c, d, make_edge(EdgeKind::Reference));

    let analysis = SccAnalysis::analyze(&graph);

    assert!(!analysis.has_cycles());
    assert_eq!(analysis.components.len(), 4);
}
