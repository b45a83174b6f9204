use meta_ast::builder::{
    inject_client_call_edges, path_to_file_id, register_files, register_symbols, resolve_imports,
    resolve_references, GraphBuilder, ImportQuery,
};
use meta_ast::edge::EdgeKind;
use meta_ast::lang::LangId;
use meta_ast::model::{
    FileExtraction, LineColumn, SnapshotId, SourceRange, Symbol, SymbolId, SymbolKind,
    UnresolvedImport, UnresolvedReference, Visibility,
};
use meta_ast::scanner::CallSite;

fn test_source_range() -> SourceRange {
    SourceRange {
        byte_start: 0,
        byte_end: 10,
        start: LineColumn { line: 0, column: 0 },
        end: LineColumn { line: 0, column: 10 },
    }
}

fn test_symbol(id: u32, name: &str) -> Symbol {
    symbol_for(id, name, "test.py")
}

fn symbol_for(id: u32, name: &str, file_path: &str) -> Symbol {
    Symbol {
        id: SymbolId::new(id).unwrap(),
        name: name.to_string(),
        kind: SymbolKind::Function,
        language: LangId::Python,
        file_path: file_path.to_string(),
        source_range: test_source_range(),
        visibility: Some(Visibility::Public),
        signature: None,
        docstring: None,
        is_async: false,
    }
}

fn import(specifier: &str) -> UnresolvedImport {
    UnresolvedImport {
        import_specifier: specifier.to_string(),
        alias: None,
        symbol: None,
        star: false,
        range: test_source_range(),
    }
}

fn query(specifier: &str, target: Option<&str>) -> ImportQuery {
    ImportQuery { specifier: specifier.to_string(), target: target.map(|t| t.to_string()) }
}

/// Resolver answers for extractions whose imports all stay unresolved.
fn no_answers(extractions: &Vec<FileExtraction>) -> Vec<Vec<ImportQuery>> {
    extractions
        .iter()
        .map(|e| e.imports.iter().map(|i| query(&i.import_specifier, None)).collect())
        .collect()
}

#[test]
fn builder_creates_file_nodes() {
    let mut builder = GraphBuilder::new(SnapshotId::new(1).unwrap());
    let id1 = builder.add_file("src/main.py".to_string(), LangId::Python);
    let id2 = builder.add_file("src/main.py".to_string(), LangId::Python);
    assert_eq!(id1, id2, "same path should return same FileId");
    assert_eq!(builder.node_count(), 1);
}

#[test]
fn builder_creates_symbol_with_ownership() {
    let mut builder = GraphBuilder::new(SnapshotId::new(1).unwrap());
    let _file_id = builder.add_file("test.py".to_string(), LangId::Python);
    let symbol = test_symbol(1, "hello");
    let _sym_idx = builder.add_symbol(&symbol).unwrap();
    assert_eq!(builder.node_count(), 2);
    assert_eq!(builder.edge_count(), 1);
}

#[test]
fn builder_deduplicates_edges() {
    let mut builder = GraphBuilder::new(SnapshotId::new(1).unwrap());
    let file1 = builder.add_file("a.py".to_string(), LangId::Python);
    let _file2 = builder.add_file("b.py".to_string(), LangId::Python);
    builder.add_import(file1, "b.py".to_string());
    builder.add_import(file1, "b.py".to_string());
    assert_eq!(builder.edge_count(), 1, "duplicate edges should be deduplicated");
}

#[test]
fn builder_reference_max_merges_confidence() {
    let mut builder = GraphBuilder::new(SnapshotId::new(1).unwrap());
    builder.add_file("test.py".to_string(), LangId::Python);
    let low = test_symbol(10, "low_fn");
    let high = test_symbol(11, "high_fn");
    builder.add_symbol(&low).unwrap();
    builder.add_symbol(&high).unwrap();

    builder.add_reference(low.id, high.id, 500);
    builder.add_reference(low.id, high.id, 900);
    assert_eq!(builder.edge_count(), 3);

    let graph = builder.build();
    assert_eq!(graph.edge_count(), 3);
    let refs = graph.edges_of_kind(EdgeKind::Reference);
    assert_eq!(refs.len(), 1);
    let (src, dst) = refs[0];
    let mut found = None;
    for i in 0..graph.edge_count() {
        let (s, t, data) = graph.edge(i);
        if s == src && t == dst {
            found = Some(data);
            break;
        }
    }
    assert_eq!(found.unwrap().confidence, 900);
}

#[test]
fn builder_creates_external_node_for_unknown_import() {
    let mut builder = GraphBuilder::new(SnapshotId::new(1).unwrap());
    let file_id = builder.add_file("main.py".to_string(), LangId::Python);
    builder.add_import(file_id, "external_module.py".to_string());
    assert_eq!(builder.edge_count(), 1, "external import should create an edge");
    assert_eq!(builder.external_count(), 1, "should have one external node");
}

#[test]
fn builder_tracks_node_mappings() {
    let mut builder = GraphBuilder::new(SnapshotId::new(1).unwrap());
    let file_id = builder.add_file("test.py".to_string(), LangId::Python);
    let symbol = test_symbol(42, "func");
    builder.add_symbol(&symbol).unwrap();
    let graph = builder.build();
    assert!(graph.file_node_index(file_id).is_some());
    assert!(graph.symbol_node_index(SymbolId::new(42).unwrap()).is_some());
}

#[test]
fn from_extractions_builds_graph_with_correct_node_count() {
    let mut base = FileExtraction::empty("/proj/a.py".to_string(), LangId::Python);
    base.symbols = vec![symbol_for(1, "foo", "/proj/a.py")];
    let extractions = vec![base];
    let mut diags = Vec::new();
    let (graph, _scc) = GraphBuilder::from_extractions(
        &extractions,
        &no_answers(&extractions),
        &Vec::new(),
        "/proj",
        SnapshotId::new(1).unwrap(),
        &mut diags,
    );
    assert_eq!(graph.file_count(), 1);
    assert_eq!(graph.symbol_count(), 1);
    assert!(diags.is_empty());
}

#[test]
fn from_extractions_populates_scc_analysis() {
    let extractions: Vec<FileExtraction> = vec![];
    let mut diags = Vec::new();
    let (graph, scc) = GraphBuilder::from_extractions(
        &extractions,
        &Vec::new(),
        &Vec::new(),
        "/proj",
        SnapshotId::new(1).unwrap(),
        &mut diags,
    );
    assert_eq!(graph.node_count(), 0);
    assert!(!scc.components.iter().any(|c| c.is_cyclic));
}

#[test]
fn from_extractions_accumulates_diagnostics_on_symbol_error() {
    let mut base = FileExtraction::empty("/proj/a.py".to_string(), LangId::Python);
    base.symbols = vec![symbol_for(99, "orphan", "/proj/missing.py")];
    let extractions = vec![base];
    let mut diags = Vec::new();
    let (_graph, _scc) = GraphBuilder::from_extractions(
        &extractions,
        &no_answers(&extractions),
        &Vec::new(),
        "/proj",
        SnapshotId::new(1).unwrap(),
        &mut diags,
    );
    assert!(!diags.is_empty(), "expected diagnostic for orphan symbol");
}

#[test]
fn from_extractions_resolves_cross_file_imports() {
    let mut first = FileExtraction::empty("/proj/a.py".to_string(), LangId::Python);
    first.imports = vec![UnresolvedImport {
        import_specifier: "b".into(),
        alias: None,
        symbol: None,
        star: false,
        range: SourceRange {
            byte_start: 0,
            byte_end: 1,
            start: LineColumn { line: 0, column: 0 },
            end: LineColumn { line: 0, column: 1 },
        },
    }];
    let second = FileExtraction::empty("/proj/b.py".to_string(), LangId::Python);
    let extractions = vec![first, second];
    let queries = vec![vec![query("b", Some("/proj/b.py"))], vec![]];
    let mut diags = Vec::new();
    let (graph, _scc) = GraphBuilder::from_extractions(
        &extractions,
        &queries,
        &Vec::new(),
        "/proj",
        SnapshotId::new(1).unwrap(),
        &mut diags,
    );
    assert_eq!(graph.file_count(), 2);
    assert_eq!(graph.edges_of_kind(EdgeKind::Import).len(), 1, "expected import edge from a.py to b.py");
}

#[test]
fn registration_stage_adds_files_and_symbol_ownership() {
    let mut file = FileExtraction::empty("/proj/a.py".to_string(), LangId::Python);
    file.symbols = vec![symbol_for(1, "alpha", "/proj/a.py")];
    let extractions = vec![file];

    let mut builder = GraphBuilder::new(SnapshotId::new(1).unwrap());
    let mut diagnostics = Vec::new();
    register_files(&mut builder, &extractions);
    register_symbols(&mut builder, &extractions, &mut diagnostics);

    assert!(diagnostics.is_empty());
    assert_eq!(builder.node_count(), 2, "one file node and one symbol node");
    assert_eq!(builder.edge_count(), 1, "the symbol owns its file");
}

#[test]
fn import_stage_resolves_project_and_external_targets() {
    let mut first = FileExtraction::empty("/proj/a.py".to_string(), LangId::Python);
    first.imports = vec![import("b"), import("requests")];
    let second = FileExtraction::empty("/proj/b.py".to_string(), LangId::Python);
    let extractions = vec![first, second];
    let queries = vec![vec![query("b", Some("/proj/b.py")), query("requests", None)], vec![]];

    let mut builder = GraphBuilder::new(SnapshotId::new(1).unwrap());
    register_files(&mut builder, &extractions);
    let _file_ids = path_to_file_id(&builder, &extractions);
    let mut diagnostics = Vec::new();
    let _bindings = resolve_imports(&mut builder, &extractions, &queries, &mut diagnostics);

    assert!(diagnostics.is_empty(), "both imports resolve");
    let graph = builder.build();
    assert_eq!(graph.edges_of_kind(EdgeKind::Import).len(), 2);
    assert_eq!(graph.external_count(), 1, "requests is an external node");
}

#[test]
fn reference_stage_returns_a_usable_scope_cache() {
    let mut first = FileExtraction::empty("/proj/a.py".to_string(), LangId::Python);
    first.symbols = vec![symbol_for(1, "alpha", "/proj/a.py")];
    let mut second = FileExtraction::empty("/proj/b.py".to_string(), LangId::Python);
    second.symbols = vec![symbol_for(2, "beta", "/proj/b.py")];
    second.imports = vec![import("a")];
    second.references = vec![UnresolvedReference { name: "alpha".to_string(), range: test_source_range() }];
    let extractions = vec![first, second];
    let queries = vec![vec![], vec![query("a", Some("/proj/a.py"))]];

    let mut builder = GraphBuilder::new(SnapshotId::new(1).unwrap());
    register_files(&mut builder, &extractions);
    register_symbols(&mut builder, &extractions, &mut Vec::new());
    let file_ids = path_to_file_id(&builder, &extractions);
    let mut diagnostics = Vec::new();
    let bindings = resolve_imports(&mut builder, &extractions, &queries, &mut diagnostics);
    let (scope, applied) = resolve_references(&mut builder, &extractions, &file_ids, bindings, &mut diagnostics);

    assert!(applied);
    assert_eq!(scope.iter_scopes().len(), 2);
    let graph = builder.build();
    assert_eq!(graph.edges_of_kind(EdgeKind::Reference).len(), 1, "beta references alpha");
}

#[test]
fn client_call_stage_projects_the_call_onto_its_symbol() {
    let mut caller = FileExtraction::empty("/proj/orchestrator.py".to_string(), LangId::Python);
    caller.symbols = vec![symbol_for(1, "compute", "/proj/orchestrator.py")];
    let site = CallSite::call(
        "/proj/orchestrator.py".to_string(),
        LangId::Python,
        "multiply".to_string(),
        false,
        Some(test_source_range()),
        1000,
    );
    caller.call_sites = vec![site.clone()];
    let mut callee = FileExtraction::empty("/proj/math.js".to_string(), LangId::JavaScript);
    callee.symbols = vec![symbol_for(2, "multiply", "/proj/math.js")];
    let extractions = vec![caller, callee];

    let mut builder = GraphBuilder::new(SnapshotId::new(1).unwrap());
    register_files(&mut builder, &extractions);
    register_symbols(&mut builder, &extractions, &mut Vec::new());
    let mut graph = builder.build();
    let mut diagnostics = Vec::new();
    let applied = inject_client_call_edges(&mut graph, &extractions, &vec![site], &Vec::new(), "/proj", &mut diagnostics);

    assert!(applied);
    assert!(
        graph.edges_of_kind(EdgeKind::Reference).len() >= 1,
        "the invocation must project onto its symbol"
    );
}
