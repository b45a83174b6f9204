use std::collections::HashSet;

use meta_ast::analysis::GraphAnalysis;
use meta_ast::args::OutputFormat;
use meta_ast::builder::GraphBuilder;
use meta_ast::deploy::{
    build_documents, detect_cuts, inject_load_edges, partition_graph, rebalance_oversized_pods, run_deploy,
    scan_call_sites, DeployConfig, DeployFailure, DeployOutcome,
};
use meta_ast::dependency::{DirProbe, ProjectFiles};
use meta_ast::edge::EdgeKind;
use meta_ast::error::Severity;
use meta_ast::graph::CodeGraph;
use meta_ast::lang::LangId;
use meta_ast::model::{FileExtraction, FileId, SnapshotId};
use meta_ast::node::FileNode;
use meta_ast::pod::{Pod, PodPartition};
use meta_ast::scanner::{CallSite, CallSiteVariant};
use meta_ast::scc::SccAnalysis;

/// The graph of a small project where a Python script loads a JavaScript one.
fn python_calls_js() -> GraphAnalysis {
    let snapshot_id = SnapshotId::new(1).unwrap();
    let mut builder = GraphBuilder::new(snapshot_id);
    let main = builder.add_file("python_calls_js/main.py".to_string(), LangId::Python);
    builder.add_file("python_calls_js/helper.py".to_string(), LangId::Python);
    builder.add_file("python_calls_js/add.js".to_string(), LangId::JavaScript);
    builder.add_import(main, "python_calls_js/helper.py".to_string());
    let graph = builder.build();
    let scc = SccAnalysis::analyze(graph.graph());
    GraphAnalysis { graph, scc, snapshot_id, extractions: Vec::new() }
}

#[test]
fn partition_graph_groups_one_pod_per_language() {
    let analysis = python_calls_js();
    let partition = partition_graph(&analysis);

    assert_eq!(partition.pods.len(), 2, "python and javascript");
    let languages: HashSet<LangId> = partition.pods.iter().map(|pod| pod.language).collect();
    assert!(languages.contains(&LangId::Python));
    assert!(languages.contains(&LangId::JavaScript));
}

/// The same project with its extractions: `main.py` loads `add.js`.
fn python_calls_js_with_sites() -> GraphAnalysis {
    let mut analysis = python_calls_js();
    let mut main = FileExtraction::empty("python_calls_js/main.py".to_string(), LangId::Python);
    main.call_sites = vec![CallSite::load(
        "python_calls_js/main.py".to_string(),
        LangId::Python,
        CallSiteVariant::LoadFromFile,
        Some("node".to_string()),
        vec!["add.js".to_string()],
        None,
        1000,
    )];
    let helper = FileExtraction::empty("python_calls_js/helper.py".to_string(), LangId::Python);
    let add = FileExtraction::empty("python_calls_js/add.js".to_string(), LangId::JavaScript);
    analysis.extractions = vec![add, helper, main];
    analysis
}

fn no_project() -> ProjectFiles {
    ProjectFiles { root: DirProbe { files: Vec::new() }, subdirs: Vec::new() }
}

fn config(max_pod_size: usize, check: bool) -> DeployConfig {
    DeployConfig {
        root: "python_calls_js".to_string(),
        out: "/tmp/meta_ast_deploy".to_string(),
        format: OutputFormat::Json,
        check,
        max_pod_size,
    }
}

/// One Python pod of `n` files, with an edge from the first file to the
/// second when `with_edge` holds.
fn single_pod(n: u32, with_edge: bool) -> (CodeGraph, PodPartition) {
    let snapshot_id = SnapshotId::new(1).unwrap();
    let mut graph = CodeGraph::new(snapshot_id);
    let mut files = Vec::new();
    let mut indices = Vec::new();
    for id in 1..=n {
        let fid = FileId::new(id).unwrap();
        indices.push(graph.add_file_node(FileNode::new(fid, format!("f{id}.py"), LangId::Python, snapshot_id)));
        files.push(fid);
    }
    if with_edge {
        graph.add_edge_normalized(indices[0], indices[1], EdgeKind::Import, 500);
    }
    let partition = PodPartition {
        pods: vec![Pod { id: 0, files, language: LangId::Python }],
        inter_pod_edges: Vec::new(),
        file_languages: Vec::new(),
    };
    (graph, partition)
}

#[test]
fn unsplittable_oversized_pod_is_reported() {
    let (graph, partition) = single_pod(4, false);
    let mut cuts = Vec::new();
    let mut diagnostics = Vec::new();
    rebalance_oversized_pods(&partition, &graph, 2, ".", &mut cuts, &mut diagnostics);

    assert!(cuts.is_empty());
    assert_eq!(diagnostics.len(), 1, "{diagnostics:?}");
    assert_eq!(diagnostics[0].severity, Severity::Warning);
    assert!(diagnostics[0].message.contains("no internal edge to cut"), "{}", diagnostics[0].message);
}

#[test]
fn oversized_pod_with_an_internal_edge_is_cut() {
    let (graph, partition) = single_pod(3, true);
    let mut cuts = Vec::new();
    let mut diagnostics = Vec::new();
    rebalance_oversized_pods(&partition, &graph, 2, ".", &mut cuts, &mut diagnostics);

    assert_eq!(cuts.len(), 1, "the internal edge must be cut");
    assert!(diagnostics.is_empty(), "{diagnostics:?}");
}

#[test]
fn scan_call_sites_finds_the_metacall_calls() {
    let analysis = python_calls_js_with_sites();
    let call_sites = scan_call_sites(&analysis);
    assert!(!call_sites.is_empty(), "the fixture loads a script through MetaCall");
    assert!(call_sites.iter().any(|site| !site.scripts.is_empty()), "a load call site names its script");
}

#[test]
fn inject_load_edges_connects_the_loaded_script() {
    let mut analysis = python_calls_js_with_sites();
    let call_sites = scan_call_sites(&analysis);
    let before = analysis.graph.edge_count();
    let mut diagnostics = Vec::new();

    let applied = inject_load_edges(&mut analysis, &call_sites, &Vec::new(), "python_calls_js", &mut diagnostics);

    assert!(applied);
    assert!(
        analysis.graph.edge_count() > before,
        "the loaded script must gain an edge: {before} -> {}",
        analysis.graph.edge_count()
    );
    assert!(
        analysis.graph.files().iter().any(|(_, file)| file.path.ends_with("add.js")),
        "the loaded script joins the graph as a file node"
    );
}

#[test]
fn detect_cuts_bounds_an_oversized_pod() {
    let (graph, partition) = single_pod(4, false);
    let scc = SccAnalysis::analyze(graph.graph());
    let analysis = GraphAnalysis { graph, scc, snapshot_id: SnapshotId::new(1).unwrap(), extractions: Vec::new() };
    let mut diagnostics = Vec::new();

    let cuts = detect_cuts(&analysis, &partition, 2, "python_calls_js", &mut diagnostics);

    assert!(cuts.is_empty(), "a pod without an internal edge cannot be cut");
    assert_eq!(diagnostics.len(), 1, "the unsplittable pod must be reported");
}

#[test]
fn build_documents_follows_the_partition() {
    let analysis = python_calls_js_with_sites();
    let partition = partition_graph(&analysis);
    let call_sites = scan_call_sites(&analysis);

    let (pod_manifest, mesh) = build_documents(&analysis, &partition, &Vec::new(), &call_sites, &no_project());

    assert_eq!(pod_manifest.deployments.len(), partition.pods.len());
    assert!(!mesh.deployment_units.is_empty(), "the mesh annotation lists the deployment units");
}

#[test]
fn run_deploy_refuses_a_zero_pod_size() {
    let outcome = run_deploy(&config(0, false), python_calls_js(), Vec::new(), &Vec::new(), &Vec::new(), &no_project());
    assert!(matches!(outcome, Err(DeployFailure::ZeroPodSize)));
}

#[test]
fn run_deploy_partitions_and_asks_for_the_documents() {
    let run = run_deploy(
        &config(20, false),
        python_calls_js_with_sites(),
        Vec::new(),
        &Vec::new(),
        &Vec::new(),
        &no_project(),
    )
    .ok()
    .unwrap();
    assert!(matches!(run.outcome, DeployOutcome::Write));
    assert_eq!(run.partition.pods.len(), 2, "python and javascript");
    assert_eq!(run.manifest.deployments.len(), 2);
    assert!(run.load_edges_added);
    assert!(run.cuts.is_empty());
}

#[test]
fn run_deploy_check_mode_passes_without_cuts() {
    let run = run_deploy(
        &config(20, true),
        python_calls_js_with_sites(),
        Vec::new(),
        &Vec::new(),
        &Vec::new(),
        &no_project(),
    )
    .ok()
    .unwrap();
    assert!(matches!(run.outcome, DeployOutcome::CheckPassed));
}

#[test]
fn run_deploy_refuses_totals_over_the_counters() {
    let mut analysis = python_calls_js_with_sites();
    for e in analysis.extractions.iter_mut() {
        e.ast_node_count = usize::MAX / 2 + 1;
    }
    let outcome = run_deploy(&config(20, false), analysis, Vec::new(), &Vec::new(), &Vec::new(), &no_project());
    assert!(matches!(outcome, Err(DeployFailure::CountersOverflow)));
}
