use meta_ast::check::check_cut_fairness;
use meta_ast::cut::{find_cross_language_cuts, find_oversized_pod_cut, CutAnnotation, CutEdge, CutReason};
use meta_ast::edge::EdgeKind;
use meta_ast::graph::CodeGraph;
use meta_ast::lang::LangId;
use meta_ast::manifest::{generate_pod_manifest, GlobalMetrics, ManifestEdge, PodManifest};
use meta_ast::metrics::PodMetrics;
use meta_ast::model::{FileId, LineColumn, SnapshotId, SourceRange, SymbolId, SymbolKind};
use meta_ast::node::{FileNode, NodeData, SymbolNode};
use meta_ast::pod::{partition_into_pods, InterPodEdge, Pod, PodPartition};
use meta_ast::scc::SccAnalysis;

fn test_range() -> SourceRange {
    SourceRange {
        byte_start: 0,
        byte_end: 4,
        start: LineColumn { line: 0, column: 0 },
        end: LineColumn { line: 0, column: 4 },
    }
}

fn add_file(graph: &mut CodeGraph, fid: FileId, path: &str, lang: LangId) -> usize {
    graph.add_file_node(FileNode::new(fid, path.to_string(), lang, SnapshotId::new(1).unwrap()))
}

#[test]
fn partition_orders_pods_by_path() {
    let mut graph = CodeGraph::new(SnapshotId::new(1).unwrap());
    let c_py = FileId::new(1).unwrap();
    let a_js = FileId::new(2).unwrap();
    let b_py = FileId::new(3).unwrap();
    let c_idx = add_file(&mut graph, c_py, "c.py", LangId::Python);
    let a_idx = add_file(&mut graph, a_js, "a.js", LangId::JavaScript);
    add_file(&mut graph, b_py, "b.py", LangId::Python);

    graph.add_edge_normalized(c_idx, a_idx, EdgeKind::Import, 1000);

    let partition = partition_into_pods(&graph);

    let pod_paths: Vec<String> =
        partition.pods.iter().map(|pod| graph.file_node(pod.files[0]).unwrap().path.clone()).collect();
    assert_eq!(pod_paths, vec!["a.js".to_string(), "b.py".to_string(), "c.py".to_string()]);

    assert_eq!(partition.inter_pod_edges.len(), 1);
    let edge = &partition.inter_pod_edges[0];
    assert_eq!(edge.from_pod, 2, "c.py must be pod 2");
    assert_eq!(edge.to_pod, 0, "a.js must be pod 0");
    assert!(edge.is_cross_language);
}

#[test]
fn pod_fusion_keeps_max_confidence() {
    let mut graph = CodeGraph::new(SnapshotId::new(1).unwrap());
    let py = FileId::new(10).unwrap();
    let js = FileId::new(11).unwrap();
    let py_idx = add_file(&mut graph, py, "a.py", LangId::Python);
    let js_idx = add_file(&mut graph, js, "b.js", LangId::JavaScript);
    let sym_py = graph.add_node(NodeData::Symbol(SymbolNode {
        id: SymbolId::new(101).unwrap(),
        name: "fn_py".to_string(),
        kind: SymbolKind::Function,
        file_id: py,
        visibility: None,
        source_range: test_range(),
    }));
    let sym_js = graph.add_node(NodeData::Symbol(SymbolNode {
        id: SymbolId::new(102).unwrap(),
        name: "fn_js".to_string(),
        kind: SymbolKind::Function,
        file_id: js,
        visibility: None,
        source_range: test_range(),
    }));
    graph.add_edge_normalized(py_idx, js_idx, EdgeKind::Import, 1000);
    graph.add_edge_normalized(sym_py, sym_js, EdgeKind::Reference, 600);

    let partition = partition_into_pods(&graph);
    assert_eq!(partition.inter_pod_edges.len(), 1);
    assert_eq!(partition.inter_pod_edges[0].confidence, 1000);
}

/// A pod of `n` Python files where each imports the next, plus a weak edge
/// from the first to the last.
fn build_chain_pod(n: usize) -> (Pod, CodeGraph) {
    let mut graph = CodeGraph::new(SnapshotId(1));
    let mut fids = Vec::with_capacity(n);
    let mut idxs = Vec::with_capacity(n);
    for i in 0..n {
        let id = FileId(i as u32);
        idxs.push(add_file(&mut graph, id, &format!("f{i}.py"), LangId::Python));
        fids.push(id);
    }
    for i in 0..n.saturating_sub(1) {
        graph.add_edge_normalized(idxs[i], idxs[i + 1], EdgeKind::Import, 1000);
    }
    if n >= 2 {
        graph.add_edge_normalized(idxs[0], idxs[n - 1], EdgeKind::Import, 300);
    }
    let pod = Pod { id: 0, files: fids, language: LangId::Python };
    (pod, graph)
}

#[test]
fn oversized_pod_cut_fires_below_threshold() {
    let (pod, graph) = build_chain_pod(4);
    let cut = find_oversized_pod_cut(&pod, &graph, 3);
    let cut = cut.expect("oversized pod should produce a cut");
    assert_eq!(cut.from_pod, 0);
    assert_eq!(cut.to_pod, 0);
    match &cut.annotation.cut_reason {
        CutReason::OversizedPod { pod_size, max_size } => {
            assert_eq!(*pod_size, 4);
            assert_eq!(*max_size, 3);
        }
        other => panic!("expected OversizedPod, got {other:?}"),
    }
    assert_eq!(cut.annotation.original_confidence, 300);
}

#[test]
fn small_pod_no_oversized_cut() {
    let (pod, graph) = build_chain_pod(2);
    assert!(find_oversized_pod_cut(&pod, &graph, 3).is_none(), "pod within threshold must not be cut");
}

#[test]
fn cross_language_cycle_produces_scc_cut() {
    let mut graph = CodeGraph::new(SnapshotId(1));
    let py_id = FileId(0);
    let go_id = FileId(1);
    let py_idx = add_file(&mut graph, py_id, "orch.py", LangId::Python);
    let go_idx = add_file(&mut graph, go_id, "auth.go", LangId::Go);
    graph.add_edge_normalized(py_idx, go_idx, EdgeKind::Import, 1000);
    graph.add_edge_normalized(go_idx, py_idx, EdgeKind::Import, 1000);

    let scc = SccAnalysis::analyze(graph.graph());
    let file_languages = vec![(py_id, LangId::Python), (go_id, LangId::Go)];
    let partition = partition_into_pods(&graph);
    let cuts = find_cross_language_cuts(&scc, &graph, &file_languages, &partition);
    let cut = cuts
        .into_iter()
        .find(|c| matches!(c.annotation.cut_reason, CutReason::CrossLanguageScc))
        .expect("cross-language cycle must produce a CrossLanguageScc cut");
    assert!(matches!(cut.annotation.cut_reason, CutReason::CrossLanguageScc));
}

fn fairness_cut(from_pod: usize, to_pod: usize) -> CutEdge {
    CutEdge {
        from_pod,
        to_pod,
        annotation: CutAnnotation {
            from_file: "1".to_string(),
            to_file: "2".to_string(),
            cut_reason: CutReason::CrossLanguageScc,
            original_confidence: 600,
        },
    }
}

fn manifest_with(edges: Vec<ManifestEdge>) -> PodManifest {
    PodManifest { version: "1.1".into(), deployments: Vec::new(), edges, metrics: GlobalMetrics::default() }
}

fn manifest_edge(from_pod: usize, to_pod: usize, kind: &str) -> ManifestEdge {
    ManifestEdge {
        from_pod,
        to_pod,
        kind: kind.into(),
        confidence: 600,
        is_cross_language: true,
        cut_annotations: vec![fairness_cut(0, 0).annotation],
    }
}

#[test]
fn directed_stub_passes() {
    let manifest = manifest_with(vec![manifest_edge(0, 1, "import"), manifest_edge(0, 1, "rpc_stub")]);
    assert!(check_cut_fairness(&manifest, &vec![fairness_cut(0, 1)]).is_empty());
}

#[test]
fn reversed_only_stub_fails() {
    let mut reversed = manifest_edge(1, 0, "rpc_stub");
    reversed.cut_annotations.clear();
    let manifest = manifest_with(vec![manifest_edge(0, 1, "import"), reversed]);
    let diagnostics = check_cut_fairness(&manifest, &vec![fairness_cut(0, 1)]);
    assert_eq!(diagnostics.len(), 1, "{diagnostics:?}");
    assert!(diagnostics[0].contains("rpc_stub"), "the stub direction must cover the cut: {diagnostics:?}");
}

#[test]
fn stray_annotations_are_flagged() {
    let manifest = manifest_with(vec![manifest_edge(0, 1, "import")]);
    let diagnostics = check_cut_fairness(&manifest, &Vec::new());
    assert_eq!(diagnostics.len(), 1, "{diagnostics:?}");
    assert!(diagnostics[0].contains("not in the cut list"), "{diagnostics:?}");
}

#[test]
fn two_cuts_on_one_pod_pair_emit_one_rpc_stub() {
    let mut graph = CodeGraph::new(SnapshotId::new(1).unwrap());
    let py = FileId::new(1).unwrap();
    let js = FileId::new(2).unwrap();
    add_file(&mut graph, py, "a.py", LangId::Python);
    add_file(&mut graph, js, "b.js", LangId::JavaScript);
    let partition = PodPartition {
        pods: vec![
            Pod { id: 0, files: vec![py], language: LangId::Python },
            Pod { id: 1, files: vec![js], language: LangId::JavaScript },
        ],
        inter_pod_edges: vec![InterPodEdge {
            from_pod: 0,
            to_pod: 1,
            from_file: py,
            to_file: js,
            kind: EdgeKind::Import,
            confidence: 600,
            is_cross_language: true,
        }],
        file_languages: vec![(py, LangId::Python), (js, LangId::JavaScript)],
    };
    let metrics = vec![
        PodMetrics { total_ast_nodes: 1, file_count: 1, symbol_count: 0 },
        PodMetrics { total_ast_nodes: 1, file_count: 1, symbol_count: 0 },
    ];
    let cut = |reason: CutReason, confidence: u32| CutEdge {
        from_pod: 0,
        to_pod: 1,
        annotation: CutAnnotation {
            from_file: "a.py".to_string(),
            to_file: "b.js".to_string(),
            cut_reason: reason,
            original_confidence: confidence,
        },
    };
    let cuts = vec![
        cut(CutReason::CrossLanguageScc, 600),
        cut(CutReason::OversizedPod { pod_size: 4, max_size: 3 }, 300),
    ];

    let manifest = generate_pod_manifest(&partition, &metrics, &cuts, &Vec::new(), &graph);

    let stubs: Vec<&ManifestEdge> = manifest.edges.iter().filter(|e| e.kind == "rpc_stub").collect();
    assert_eq!(
        stubs.len(),
        1,
        "one rpc_stub per pod pair, got {}: {:?}",
        stubs.len(),
        stubs.iter().map(|e| (e.from_pod, e.to_pod)).collect::<Vec<_>>()
    );
    let reasons: Vec<CutReason> =
        manifest.edges.iter().flat_map(|e| e.cut_annotations.iter().map(|a| a.cut_reason)).collect();
    assert!(reasons.contains(&CutReason::CrossLanguageScc), "the SCC cut annotation must survive");
    assert!(
        reasons.contains(&CutReason::OversizedPod { pod_size: 4, max_size: 3 }),
        "the oversized cut annotation must survive"
    );
}

/// Three Python files where f0 and f1 import each other and f1 imports f2.
fn pod_with_a_cycle() -> (Pod, CodeGraph, Vec<usize>) {
    let mut graph = CodeGraph::new(SnapshotId(1));
    let mut fids = Vec::new();
    let mut idxs = Vec::new();
    for i in 0..3u32 {
        let id = FileId(i);
        idxs.push(add_file(&mut graph, id, &format!("f{i}.py"), LangId::Python));
        fids.push(id);
    }
    graph.add_edge_normalized(idxs[0], idxs[1], EdgeKind::Import, 300);
    graph.add_edge_normalized(idxs[1], idxs[0], EdgeKind::Import, 1000);
    (Pod { id: 0, files: fids, language: LangId::Python }, graph, idxs)
}

#[test]
fn oversized_cut_never_splits_a_same_language_cycle() {
    let (pod, mut graph, idxs) = pod_with_a_cycle();
    graph.add_edge_normalized(idxs[1], idxs[2], EdgeKind::Import, 1000);
    let cut = find_oversized_pod_cut(&pod, &graph, 2).expect("the edge leaving the cycle can be cut");
    assert_eq!(cut.annotation.from_file, "1");
    assert_eq!(cut.annotation.to_file, "2");
    assert_eq!(cut.annotation.original_confidence, 1000);
}

#[test]
fn oversized_pod_whose_edges_are_all_in_a_cycle_is_not_cut() {
    let (pod, graph, _) = pod_with_a_cycle();
    assert!(find_oversized_pod_cut(&pod, &graph, 2).is_none());
}
