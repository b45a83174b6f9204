use meta_ast::builder::GraphBuilder;
use meta_ast::edge::EdgeKind;
use meta_ast::graph::CodeGraph;
use meta_ast::lang::LangId;
use meta_ast::model::{FileId, LineColumn, SnapshotId, SourceRange, Symbol, SymbolId, SymbolKind, Visibility};
use meta_ast::node::{FileNode, NodeData};

fn test_range() -> SourceRange {
    SourceRange {
        byte_start: 0,
        byte_end: 10,
        start: LineColumn { line: 1, column: 0 },
        end: LineColumn { line: 1, column: 10 },
    }
}

fn test_symbol(id: u32, name: &str) -> Symbol {
    Symbol {
        id: SymbolId(id),
        name: name.to_string(),
        kind: SymbolKind::Function,
        language: LangId::Rust,
        file_path: "test.rs".to_string(),
        source_range: test_range(),
        visibility: Some(Visibility::Public),
        signature: None,
        docstring: None,
        is_async: false,
    }
}

#[test]
fn code_graph_new_empty() {
    let graph = CodeGraph::new(SnapshotId(1));
    assert_eq!(graph.node_count(), 0);
    assert_eq!(graph.edge_count(), 0);
    assert_eq!(graph.snapshot_id.0, 1);
}

#[test]
fn code_graph_file_lookup_returns_none_for_missing() {
    let graph = CodeGraph::new(SnapshotId(1));
    assert!(graph.file_node(FileId(0)).is_none());
    assert!(graph.file_node_index(FileId(0)).is_none());
}

#[test]
fn code_graph_symbol_lookup_returns_none_for_missing() {
    let graph = CodeGraph::new(SnapshotId(1));
    assert!(graph.symbol_node(SymbolId(0)).is_none());
    assert!(graph.symbol_node_index(SymbolId(0)).is_none());
}

#[test]
fn builder_produces_valid_code_graph() {
    let mut builder = GraphBuilder::new(SnapshotId(1));
    let file_id = builder.add_file("test.rs".to_string(), LangId::Rust);
    let symbol = test_symbol(1, "main");
    let _sym_idx = builder.add_symbol(&symbol).unwrap();

    let graph = builder.build();

    assert_eq!(graph.file_count(), 1);
    assert_eq!(graph.symbol_count(), 1);
    assert_eq!(graph.node_count(), 2);
    assert_eq!(graph.edge_count(), 1);

    let file_lookup = graph.file_node(file_id);
    assert!(file_lookup.is_some());
    assert_eq!(file_lookup.unwrap().language, LangId::Rust);

    let sym_lookup = graph.symbol_node(SymbolId(1));
    assert!(sym_lookup.is_some());
    assert_eq!(sym_lookup.unwrap().name, "main");
}

#[test]
fn code_graph_iteration_over_files() {
    let mut builder = GraphBuilder::new(SnapshotId(1));
    builder.add_file("a.rs".to_string(), LangId::Rust);
    builder.add_file("b.py".to_string(), LangId::Python);

    let graph = builder.build();
    let files = graph.files();

    assert_eq!(files.len(), 2);
}

#[test]
fn code_graph_iteration_over_symbols() {
    let mut builder = GraphBuilder::new(SnapshotId(1));
    let _file_id = builder.add_file("test.rs".to_string(), LangId::Rust);
    builder.add_symbol(&test_symbol(1, "func_a")).unwrap();
    builder.add_symbol(&test_symbol(2, "func_b")).unwrap();

    let graph = builder.build();
    let symbols = graph.symbols();

    assert_eq!(symbols.len(), 2);
}

#[test]
fn code_graph_edges_of_kind_filtering() {
    let mut builder = GraphBuilder::new(SnapshotId(1));
    let file1 = builder.add_file("a.rs".to_string(), LangId::Rust);
    let _file2 = builder.add_file("b.rs".to_string(), LangId::Rust);

    builder.add_import(file1, "b.rs".to_string());

    let graph = builder.build();

    let ownership_edges = graph.edges_of_kind(EdgeKind::Ownership);
    let import_edges = graph.edges_of_kind(EdgeKind::Import);

    assert_eq!(ownership_edges.len(), 0);
    assert_eq!(import_edges.len(), 1);
}

#[test]
fn add_edge_normalized_handles_multiple_edge_kinds_between_same_nodes() {
    let mut graph = CodeGraph::new(SnapshotId(1));
    let n1 = graph.add_node(NodeData::File(FileNode {
        id: FileId(1),
        path: "a.rs".to_string(),
        language: LangId::Rust,
        snapshot_id: SnapshotId(1),
    }));
    let n2 = graph.add_node(NodeData::File(FileNode {
        id: FileId(2),
        path: "b.rs".to_string(),
        language: LangId::Rust,
        snapshot_id: SnapshotId(1),
    }));

    graph.add_edge_normalized(n1, n2, EdgeKind::Reference, 700);
    graph.add_edge_normalized(n1, n2, EdgeKind::Import, 500);
    graph.add_edge_normalized(n1, n2, EdgeKind::Reference, 900);

    let ref_edges: Vec<_> = (0..graph.edge_count())
        .map(|i| graph.edge(i))
        .filter(|e| e.0 == n1 && e.1 == n2 && e.2.kind == EdgeKind::Reference)
        .collect();
    assert_eq!(ref_edges.len(), 1, "Expected 1 Reference edge, but found {}", ref_edges.len());
    assert_eq!(ref_edges[0].2.confidence, 900);
    assert_eq!(graph.edge_count(), 2);
}

#[test]
fn import_across_languages_has_cross_language_confidence() {
    let mut builder = GraphBuilder::new(SnapshotId(1));
    let a = builder.add_file("a.py".to_string(), LangId::Python);
    builder.add_file("b.js".to_string(), LangId::JavaScript);
    builder.add_import(a, "b.js".to_string());
    builder.add_import(a, "requests".to_string());
    builder.add_import(a, "requests".to_string());
    let graph = builder.build();
    assert_eq!(graph.external_count(), 1);
    let confidences: Vec<u32> = (0..graph.edge_count()).map(|i| graph.edge(i).2.confidence).collect();
    assert_eq!(confidences, vec![600, 1000]);
}
