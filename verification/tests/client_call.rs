use meta_ast::builder::GraphBuilder;
use meta_ast::client_call::{resolve_client_call_projections, ClientCallProjections};
use meta_ast::edge::EdgeKind;
use meta_ast::error::Severity;
use meta_ast::graph::CodeGraph;
use meta_ast::lang::LangId;
use meta_ast::model::{FileExtraction, FileId, LineColumn, SnapshotId, SourceRange, Symbol, SymbolId, SymbolKind, Visibility};
use meta_ast::scanner::{CallSite, CallSiteVariant};

fn test_range() -> SourceRange {
    SourceRange {
        byte_start: 0,
        byte_end: 10,
        start: LineColumn { line: 1, column: 0 },
        end: LineColumn { line: 1, column: 10 },
    }
}

fn symbol(id: u32, name: &str, path: &str, lang: LangId) -> Symbol {
    Symbol {
        id: SymbolId::new(id).unwrap(),
        name: name.to_string(),
        kind: SymbolKind::Function,
        language: lang,
        file_path: path.to_string(),
        source_range: test_range(),
        visibility: Some(Visibility::Public),
        signature: None,
        docstring: None,
        is_async: false,
    }
}

fn load_from_file(source: &str, scripts: Vec<&str>) -> CallSite {
    CallSite {
        source_file: source.to_string(),
        caller_lang: LangId::Python,
        variant: CallSiteVariant::LoadFromFile,
        target_lang: Some("node".to_string()),
        scripts: scripts.into_iter().map(str::to_string).collect(),
        function_name: None,
        is_async: false,
        source_range: None,
        confidence: 1000,
    }
}

fn client_call(source: &str, fn_name: &str, confidence: u32) -> CallSite {
    CallSite {
        source_file: source.to_string(),
        caller_lang: LangId::Python,
        variant: CallSiteVariant::ClientCall,
        target_lang: None,
        scripts: vec![],
        function_name: Some(fn_name.to_string()),
        is_async: false,
        source_range: None,
        confidence,
    }
}

fn config_site(source: &str) -> CallSite {
    CallSite {
        source_file: source.to_string(),
        caller_lang: LangId::Python,
        variant: CallSiteVariant::LoadFromConfiguration,
        target_lang: None,
        scripts: vec!["missing.conf.json".to_string()],
        function_name: None,
        is_async: false,
        source_range: None,
        confidence: 1000,
    }
}

/// A graph of files and symbols, with one extraction per symbol.
struct Fixture {
    builder: GraphBuilder,
    extractions: Vec<FileExtraction>,
}

impl Fixture {
    fn new() -> Self {
        Self { builder: GraphBuilder::new(SnapshotId::new(1).unwrap()), extractions: Vec::new() }
    }

    fn add_file(&mut self, path: &str, lang: LangId) -> FileId {
        self.builder.add_file(path.to_string(), lang)
    }

    fn add_symbol(&mut self, sym: &Symbol) -> usize {
        let idx = self.builder.add_symbol(sym).unwrap();
        let mut out = FileExtraction::empty(sym.file_path.clone(), sym.language);
        out.symbols = vec![sym.clone()];
        self.extractions.push(out);
        idx
    }

    fn resolve(self, call_sites: &Vec<CallSite>) -> (CodeGraph, ClientCallProjections) {
        self.resolve_with(call_sites, &Vec::new())
    }

    fn resolve_with(
        self,
        call_sites: &Vec<CallSite>,
        reads: &Vec<Option<Result<Vec<u8>, String>>>,
    ) -> (CodeGraph, ClientCallProjections) {
        let graph = self.builder.build();
        let resolution = resolve_client_call_projections(&graph, &self.extractions, call_sites, reads, ".");
        (graph, resolution)
    }
}

#[test]
fn load_aware_unique_match() {
    let mut fx = Fixture::new();
    let py_id = fx.add_file("orchestrator.py", LangId::Python);
    fx.add_file("math.js", LangId::JavaScript);
    let sym_idx = fx.add_symbol(&symbol(1, "multiply", "math.js", LangId::JavaScript));

    let call_sites = vec![
        load_from_file("orchestrator.py", vec!["math.js"]),
        client_call("orchestrator.py", "multiply", 1000),
    ];
    let (graph, resolution) = fx.resolve(&call_sites);

    assert_eq!(resolution.file_edges.len(), 1);
    let (from, to, confidence) = resolution.file_edges[0];
    assert_eq!(from, graph.file_node_index(py_id).unwrap());
    assert_eq!(to, sym_idx);
    assert_eq!(confidence, 1000);
    assert!(resolution.diagnostics.is_empty());
}

#[test]
fn resolved_targets_keep_the_call_site_range() {
    let mut fx = Fixture::new();
    fx.add_file("orchestrator.py", LangId::Python);
    fx.add_file("math.js", LangId::JavaScript);
    fx.add_symbol(&symbol(1, "multiply", "math.js", LangId::JavaScript));
    fx.add_symbol(&symbol(2, "run", "orchestrator.py", LangId::Python));
    let mut call = client_call("orchestrator.py", "multiply", 1000);
    call.source_range = Some(test_range());

    let (_graph, resolution) = fx.resolve(&vec![load_from_file("orchestrator.py", vec!["math.js"]), call]);

    assert_eq!(resolution.resolved.len(), 1);
    let record = &resolution.resolved[0];
    assert_eq!(record.target, SymbolId::new(1).unwrap());
    assert_eq!(record.source_range, Some(test_range()));
    assert_eq!(record.confidence, 1000);
    assert_eq!(
        resolution.symbol_edges,
        vec![(SymbolId::new(2).unwrap(), SymbolId::new(1).unwrap(), 1000)],
        "the symbol projection keys on the enclosing caller"
    );
}

#[test]
fn phase_a_language_tag_filter_excludes_mistagged_files() {
    let mut fx = Fixture::new();
    fx.add_file("orchestrator.py", LangId::Python);
    fx.add_file("math.js", LangId::JavaScript);
    fx.add_file("weird.py", LangId::Python);
    let js_sym = fx.add_symbol(&symbol(1, "multiply", "math.js", LangId::JavaScript));
    let _py_sym = fx.add_symbol(&symbol(2, "multiply", "weird.py", LangId::Python));

    let mistagged_load = load_from_file("orchestrator.py", vec!["weird.py"]);
    let call_sites = vec![
        load_from_file("orchestrator.py", vec!["math.js"]),
        mistagged_load,
        client_call("orchestrator.py", "multiply", 1000),
    ];
    let (_graph, resolution) = fx.resolve(&call_sites);

    assert_eq!(resolution.file_edges.len(), 1);
    assert_eq!(resolution.file_edges[0].1, js_sym);
    assert_eq!(resolution.file_edges[0].2, 1000);
    assert!(resolution.diagnostics.is_empty());
}

#[test]
fn phase_a_ambiguous_across_languages_stays_ambiguous() {
    let mut fx = Fixture::new();
    fx.add_file("orchestrator.py", LangId::Python);
    fx.add_file("math.js", LangId::JavaScript);
    fx.add_file("math.py", LangId::Python);
    let js_sym = fx.add_symbol(&symbol(1, "multiply", "math.js", LangId::JavaScript));
    let py_sym = fx.add_symbol(&symbol(2, "multiply", "math.py", LangId::Python));

    let py_load = CallSite {
        target_lang: Some("py".to_string()),
        scripts: vec!["math.py".to_string()],
        ..load_from_file("orchestrator.py", vec![])
    };
    let call_sites = vec![
        load_from_file("orchestrator.py", vec!["math.js"]),
        py_load,
        client_call("orchestrator.py", "multiply", 1000),
    ];
    let (_graph, resolution) = fx.resolve(&call_sites);

    let mut targets: Vec<usize> = resolution.file_edges.iter().map(|(_, to, _)| *to).collect();
    targets.sort();
    let mut expected = vec![js_sym, py_sym];
    expected.sort();
    assert_eq!(targets, expected);
    assert!(resolution.file_edges.iter().all(|(_, _, c)| *c == 800));
}

#[test]
fn config_parse_failure_emits_diagnostic() {
    let mut fx = Fixture::new();
    fx.add_file("orchestrator.py", LangId::Python);
    let reads = vec![Some(Err("No such file or directory (os error 2)".to_string()))];
    let (_graph, resolution) = fx.resolve_with(&vec![config_site("orchestrator.py")], &reads);
    assert!(resolution.file_edges.is_empty());
    assert_eq!(resolution.diagnostics.len(), 1);
    assert_eq!(resolution.diagnostics[0].severity, Severity::Warning);
    assert_eq!(resolution.diagnostics[0].path, "./missing.conf.json");
}

#[test]
fn shared_broken_config_reports_once() {
    let mut fx = Fixture::new();
    fx.add_file("orchestrator.py", LangId::Python);
    let reads = vec![Some(Err("No such file or directory (os error 2)".to_string())), None];
    let (_graph, resolution) =
        fx.resolve_with(&vec![config_site("orchestrator.py"), config_site("other.py")], &reads);
    assert_eq!(
        resolution.diagnostics.len(),
        1,
        "one file, one failure, one diagnostic: {:?}",
        resolution.diagnostics
    );
}

#[test]
fn load_aware_multiple_matches() {
    let mut fx = Fixture::new();
    let py_id = fx.add_file("orchestrator.py", LangId::Python);
    fx.add_file("math.js", LangId::JavaScript);
    fx.add_file("utils.js", LangId::JavaScript);
    let s1 = fx.add_symbol(&symbol(1, "multiply", "math.js", LangId::JavaScript));
    let s2 = fx.add_symbol(&symbol(2, "multiply", "utils.js", LangId::JavaScript));

    let call_sites = vec![
        load_from_file("orchestrator.py", vec!["math.js", "utils.js"]),
        client_call("orchestrator.py", "multiply", 1000),
    ];
    let (graph, resolution) = fx.resolve(&call_sites);

    assert_eq!(resolution.file_edges.len(), 2);
    let py_idx = graph.file_node_index(py_id).unwrap();
    let mut targets: Vec<usize> = resolution.file_edges.iter().map(|(_, to, _)| *to).collect();
    targets.sort();
    let mut expected = vec![s1, s2];
    expected.sort();
    assert_eq!(targets, expected);
    for (from, _, confidence) in &resolution.file_edges {
        assert_eq!(*from, py_idx);
        assert_eq!(*confidence, 800);
    }
    assert!(resolution.diagnostics.is_empty());
}

#[test]
fn global_fallback_unique() {
    let mut fx = Fixture::new();
    let py_id = fx.add_file("orchestrator.py", LangId::Python);
    fx.add_file("helpers.js", LangId::JavaScript);
    let sym_idx = fx.add_symbol(&symbol(1, "helper", "helpers.js", LangId::JavaScript));

    let (graph, resolution) = fx.resolve(&vec![client_call("orchestrator.py", "helper", 1000)]);

    assert_eq!(resolution.file_edges.len(), 1);
    let (from, to, confidence) = resolution.file_edges[0];
    assert_eq!(from, graph.file_node_index(py_id).unwrap());
    assert_eq!(to, sym_idx);
    assert_eq!(confidence, 600);
    assert!(resolution.diagnostics.is_empty());
}

#[test]
fn global_fallback_ambiguous() {
    let mut fx = Fixture::new();
    let py_id = fx.add_file("orchestrator.py", LangId::Python);
    fx.add_file("helpers.js", LangId::JavaScript);
    fx.add_file("utils.js", LangId::JavaScript);
    let s1 = fx.add_symbol(&symbol(1, "helper", "helpers.js", LangId::JavaScript));
    let s2 = fx.add_symbol(&symbol(2, "helper", "utils.js", LangId::JavaScript));

    let (graph, resolution) = fx.resolve(&vec![client_call("orchestrator.py", "helper", 1000)]);

    assert_eq!(resolution.file_edges.len(), 2);
    let py_idx = graph.file_node_index(py_id).unwrap();
    let mut targets: Vec<usize> = resolution.file_edges.iter().map(|(_, to, _)| *to).collect();
    targets.sort();
    let mut expected = vec![s1, s2];
    expected.sort();
    assert_eq!(targets, expected);
    for (from, _, confidence) in &resolution.file_edges {
        assert_eq!(*from, py_idx);
        assert_eq!(*confidence, 500);
    }
    assert!(resolution.diagnostics.is_empty());
}

#[test]
fn computed_name_cap() {
    let mut fx = Fixture::new();
    let py_id = fx.add_file("orchestrator.py", LangId::Python);
    fx.add_file("lib.js", LangId::JavaScript);
    let sym_idx = fx.add_symbol(&symbol(1, "fn_var", "lib.js", LangId::JavaScript));

    let (graph, resolution) = fx.resolve(&vec![client_call("orchestrator.py", "fn_var", 400)]);

    assert_eq!(resolution.file_edges.len(), 1);
    let (from, to, confidence) = resolution.file_edges[0];
    assert_eq!(from, graph.file_node_index(py_id).unwrap());
    assert_eq!(to, sym_idx);
    assert_eq!(confidence, 400);
    assert!(resolution.diagnostics.is_empty());
}

#[test]
fn unresolved_emits_diagnostic() {
    let mut fx = Fixture::new();
    fx.add_file("orchestrator.py", LangId::Python);

    let (_graph, resolution) = fx.resolve(&vec![client_call("orchestrator.py", "no_such_fn", 1000)]);

    assert!(resolution.file_edges.is_empty());
    assert_eq!(resolution.diagnostics.len(), 1);
    let diag = &resolution.diagnostics[0];
    assert_eq!(diag.path, "orchestrator.py");
    assert_eq!(diag.severity, Severity::Warning);
    assert_eq!(diag.message, "unresolved MetaCall invocation target: 'no_such_fn'");
    assert!(diag.source_range.is_none());
}

#[test]
fn computed_name_client_call_survives_alongside_scope_reference() {
    let mut fx = Fixture::new();
    let py_id = fx.add_file("orchestrator.py", LangId::Python);
    fx.add_file("math.js", LangId::JavaScript);
    let sym_idx = fx.add_symbol(&symbol(1, "multiply", "math.js", LangId::JavaScript));
    let caller_idx = fx.add_symbol(&symbol(2, "caller", "orchestrator.py", LangId::Python));

    let call_sites = vec![client_call("orchestrator.py", "multiply", 400)];
    let (mut graph, resolution) = fx.resolve(&call_sites);
    let py_idx = graph.file_node_index(py_id).unwrap();

    graph.add_edge_normalized(caller_idx, sym_idx, EdgeKind::Reference, 1000);
    assert_eq!(resolution.file_edges.len(), 1);
    let (from, to, confidence) = resolution.file_edges[0];
    assert_eq!((from, to, confidence), (py_idx, sym_idx, 400));
    graph.add_edge_normalized(from, to, EdgeKind::Reference, confidence);

    let client_edge = graph.find_edge(py_idx, sym_idx, EdgeKind::Reference).unwrap();
    let scope_edge = graph.find_edge(caller_idx, sym_idx, EdgeKind::Reference).unwrap();
    assert_ne!(client_edge, scope_edge);
    assert_eq!(graph.edge(client_edge).2.confidence, 400);
    assert_eq!(graph.edge(scope_edge).2.confidence, 1000);
    assert!(resolution.diagnostics.is_empty());
}
