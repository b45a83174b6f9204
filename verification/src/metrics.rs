//! File- and pod-level deployment metrics.
//!
//! Metrics come from what extraction and graph construction already
//! collected: the AST node count of a file (a proxy for its computational
//! surface), its symbols, imports and references.
use vstd::prelude::*;

use crate::assoc::{lemma_lookup_some, lookup};
use crate::graph::CodeGraph;
use crate::model::{FileExtraction, FileId};
use crate::paths::{paths_equal, same_path};
use crate::pod::{class_leaders, class_members, file_classes, files_by_path, joined, pods_follow_classes, sorted_files, Pod, PodPartition};

verus! {

/// Metrics of one file, from its extraction.
#[derive(Debug, Clone, Copy, PartialEq, Eq, Structural)]
pub struct FileMetrics {
    pub ast_node_count: usize,
    pub symbol_count: usize,
    pub import_count: usize,
    pub reference_count: usize,
}

/// Metrics of one pod.
#[derive(Debug, Clone, Copy, PartialEq, Eq, Structural)]
pub struct PodMetrics {
    pub total_ast_nodes: usize,
    pub file_count: usize,
    pub symbol_count: usize,
}

/// The metrics of an extraction.
pub open spec fn extraction_metrics(x: FileExtraction) -> FileMetrics {
    FileMetrics {
        ast_node_count: x.ast_node_count,
        symbol_count: x.symbols@.len() as usize,
        import_count: x.imports@.len() as usize,
        reference_count: x.references@.len() as usize,
    }
}

/// Metrics of every extracted file, keyed by path, in extraction order.
/// Looked up by path, the last entry of a path counts.
pub fn compute_file_metrics(extractions: &Vec<FileExtraction>) -> (r: Vec<(String, FileMetrics)>)
    ensures
        r@.len() == extractions@.len(),
        forall|k: int| 0 <= k < r@.len() ==> (#[trigger] r@[k]).0 == extractions@[k].path && r@[k].1 == extraction_metrics(
            extractions@[k],
        ),
{
    let mut out: Vec<(String, FileMetrics)> = Vec::new();
    let mut i: usize = 0;
    while i < extractions.len()
        invariant
            0 <= i <= extractions@.len(),
            out@.len() == i,
            forall|k: int| 0 <= k < i ==> (#[trigger] out@[k]).0 == extractions@[k].path && out@[k].1 == extraction_metrics(
                extractions@[k],
            ),
        decreases extractions@.len() - i,
    {
        let x = &extractions[i];
        let m = FileMetrics {
            ast_node_count: x.ast_node_count,
            symbol_count: x.symbols.len(),
            import_count: x.imports.len(),
            reference_count: x.references.len(),
        };
        out.push((x.path.clone(), m));
        i = i + 1;
    }
    out
}

/// The metrics recorded for a path: the last entry whose path is the same.
pub open spec fn metrics_for(table: Seq<(String, FileMetrics)>, path: Seq<char>) -> Option<FileMetrics>
    decreases table.len(),
{
    if table.len() == 0 {
        None
    } else if same_path(table.last().0@, path) {
        Some(table.last().1)
    } else {
        metrics_for(table.drop_last(), path)
    }
}

/// The path of a registered file.
pub open spec fn registered_path(g: CodeGraph, fid: FileId) -> Option<Seq<char>> {
    match lookup(g.file_to_index@, fid) {
        Some(i) => Some(g.nodes()[i as int]->File_0.path@),
        None => None,
    }
}

/// The metrics of a file of the graph, when it has both a path and an entry.
pub open spec fn file_metrics_of(g: CodeGraph, table: Seq<(String, FileMetrics)>, fid: FileId) -> Option<FileMetrics> {
    match registered_path(g, fid) {
        Some(p) => metrics_for(table, p),
        None => None,
    }
}

/// Sum of the AST node counts of the files that have metrics.
pub open spec fn ast_total(g: CodeGraph, table: Seq<(String, FileMetrics)>, files: Seq<FileId>) -> nat
    decreases files.len(),
{
    if files.len() == 0 {
        0
    } else {
        ast_total(g, table, files.drop_last()) + match file_metrics_of(g, table, files.last()) {
            Some(m) => m.ast_node_count as nat,
            None => 0,
        }
    }
}

/// Sum of the symbol counts of the files that have metrics.
pub open spec fn symbol_total(g: CodeGraph, table: Seq<(String, FileMetrics)>, files: Seq<FileId>) -> nat
    decreases files.len(),
{
    if files.len() == 0 {
        0
    } else {
        symbol_total(g, table, files.drop_last()) + match file_metrics_of(g, table, files.last()) {
            Some(m) => m.symbol_count as nat,
            None => 0,
        }
    }
}

/// The totals of a pod fit the machine's counters.
pub open spec fn pod_totals_fit(g: CodeGraph, table: Seq<(String, FileMetrics)>, pods: Seq<Pod>) -> bool {
    forall|p: int| 0 <= p < pods.len() ==> ast_total(g, table, #[trigger] pods[p].files@) <= usize::MAX
        && symbol_total(g, table, pods[p].files@) <= usize::MAX
}

fn metrics_lookup(table: &Vec<(String, FileMetrics)>, path: &String) -> (r: Option<FileMetrics>)
    ensures
        r == metrics_for(table@, path@),
{
    let mut i: usize = table.len();
    proof { assert(table@.take(i as int) =~= table@); }
    while i > 0
        invariant
            0 <= i <= table@.len(),
            metrics_for(table@, path@) == metrics_for(table@.take(i as int), path@),
        decreases i,
    {
        let ghost t = table@.take(i as int);
        proof {
            assert(t.last() == table@[i - 1]);
            assert(t.drop_last() =~= table@.take(i - 1));
        }
        if paths_equal(table[i - 1].0.as_str(), path.as_str()) {
            return Some(table[i - 1].1);
        }
        i = i - 1;
    }
    None
}

/// Metrics of every pod: its file count, and the AST nodes and symbols of
/// its files that have metrics.
pub fn compute_pod_metrics(partition: &PodPartition, file_metrics: &Vec<(String, FileMetrics)>, graph: &CodeGraph) -> (r: Vec<
    PodMetrics,
>)
    requires
        graph.wf(),
        pod_totals_fit(*graph, file_metrics@, partition.pods@),
    ensures
        r@.len() == partition.pods@.len(),
        forall|p: int| 0 <= p < r@.len() ==> #[trigger] r@[p] == (PodMetrics {
            total_ast_nodes: ast_total(*graph, file_metrics@, partition.pods@[p].files@) as usize,
            file_count: partition.pods@[p].files@.len() as usize,
            symbol_count: symbol_total(*graph, file_metrics@, partition.pods@[p].files@) as usize,
        }),
{
    let mut out: Vec<PodMetrics> = Vec::new();
    let mut p: usize = 0;
    while p < partition.pods.len()
        invariant
            graph.wf(),
            pod_totals_fit(*graph, file_metrics@, partition.pods@),
            0 <= p <= partition.pods@.len(),
            out@.len() == p,
            forall|q: int| 0 <= q < p ==> #[trigger] out@[q] == (PodMetrics {
                total_ast_nodes: ast_total(*graph, file_metrics@, partition.pods@[q].files@) as usize,
                file_count: partition.pods@[q].files@.len() as usize,
                symbol_count: symbol_total(*graph, file_metrics@, partition.pods@[q].files@) as usize,
            }),
        decreases partition.pods@.len() - p,
    {
        let pod = &partition.pods[p];
        let ghost fs = pod.files@;
        proof {
            assert(ast_total(*graph, file_metrics@, partition.pods@[p as int].files@) <= usize::MAX);
        }
        let mut ast: usize = 0;
        let mut symbols: usize = 0;
        let mut j: usize = 0;
        while j < pod.files.len()
            invariant
                graph.wf(),
                fs == pod.files@,
                ast_total(*graph, file_metrics@, fs) <= usize::MAX,
                symbol_total(*graph, file_metrics@, fs) <= usize::MAX,
                0 <= j <= fs.len(),
                ast == ast_total(*graph, file_metrics@, fs.take(j as int)),
                symbols == symbol_total(*graph, file_metrics@, fs.take(j as int)),
            decreases fs.len() - j,
        {
            let fid = pod.files[j];
            proof {
                assert(fs.take(j + 1).drop_last() =~= fs.take(j as int));
                assert(fs.take(j + 1).last() == fid);
                lemma_totals_prefix(*graph, file_metrics@, fs, j + 1);
            }
            match graph.file_node(fid) {
                Some(f) => {
                    proof { lemma_lookup_some(graph.file_to_index@, fid); }
                    match metrics_lookup(file_metrics, &f.path) {
                        Some(m) => {
                            ast = ast + m.ast_node_count;
                            symbols = symbols + m.symbol_count;
                        },
                        None => {},
                    }
                },
                None => {},
            }
            j = j + 1;
        }
        proof { assert(fs.take(j as int) =~= fs); }
        out.push(PodMetrics { total_ast_nodes: ast, file_count: pod.files.len(), symbol_count: symbols });
        p = p + 1;
    }
    out
}

/// The totals over a prefix never exceed those over the whole list.
proof fn lemma_totals_prefix(g: CodeGraph, table: Seq<(String, FileMetrics)>, fs: Seq<FileId>, m: int)
    requires
        0 <= m <= fs.len(),
    ensures
        ast_total(g, table, fs.take(m)) <= ast_total(g, table, fs),
        symbol_total(g, table, fs.take(m)) <= symbol_total(g, table, fs),
    decreases fs.len() - m,
{
    if m == fs.len() {
        assert(fs.take(m) =~= fs);
    } else {
        lemma_totals_prefix(g, table, fs, m + 1);
        assert(fs.take(m + 1).drop_last() =~= fs.take(m));
    }
}

/// The totals of all the registered files fit the machine's counters.
pub open spec fn project_totals_fit(g: CodeGraph, table: Seq<(String, FileMetrics)>) -> bool {
    ast_total(g, table, files_by_path(g)) <= usize::MAX && symbol_total(g, table, files_by_path(g)) <= usize::MAX
}

/// Whether the totals of all the registered files fit the machine's
/// counters (see [`project_totals_fit`]).
pub fn project_totals_within(file_metrics: &Vec<(String, FileMetrics)>, graph: &CodeGraph) -> (r: bool)
    requires
        graph.wf(),
    ensures
        r == project_totals_fit(*graph, file_metrics@),
{
    let files = sorted_files(graph);
    let ghost fs = files@;
    let mut ast: usize = 0;
    let mut symbols: usize = 0;
    let mut j: usize = 0;
    while j < files.len()
        invariant
            graph.wf(),
            fs == files@,
            fs == files_by_path(*graph),
            0 <= j <= fs.len(),
            ast == ast_total(*graph, file_metrics@, fs.take(j as int)),
            symbols == symbol_total(*graph, file_metrics@, fs.take(j as int)),
        decreases fs.len() - j,
    {
        let fid = files[j];
        proof {
            assert(fs.take(j + 1).drop_last() =~= fs.take(j as int));
            assert(fs.take(j + 1).last() == fid);
            lemma_totals_prefix(*graph, file_metrics@, fs, j + 1);
        }
        match graph.file_node(fid) {
            Some(f) => {
                proof { lemma_lookup_some(graph.file_to_index@, fid); }
                match metrics_lookup(file_metrics, &f.path) {
                    Some(m) => {
                        match (ast.checked_add(m.ast_node_count), symbols.checked_add(m.symbol_count)) {
                            (Some(a), Some(b)) => {
                                ast = a;
                                symbols = b;
                            },
                            _ => {
                                return false;
                            },
                        }
                    },
                    None => {},
                }
            },
            None => {},
        }
        j = j + 1;
    }
    proof { assert(fs.take(j as int) =~= fs); }
    true
}

/// A class of files totals no more than the files it is drawn from.
proof fn lemma_class_total_bound(g: CodeGraph, table: Seq<(String, FileMetrics)>, pairs: Seq<(int, int)>, fs: Seq<FileId>, n: nat, leader: int)
    requires
        n <= fs.len(),
    ensures
        ast_total(g, table, class_members(pairs, n, leader).map_values(|j: int| fs[j])) <= ast_total(g, table, fs.take(n as int)),
        symbol_total(g, table, class_members(pairs, n, leader).map_values(|j: int| fs[j])) <= symbol_total(g, table, fs.take(n as int)),
    decreases n,
{
    if n == 0 {
        assert(class_members(pairs, n, leader).map_values(|j: int| fs[j]) =~= Seq::<FileId>::empty());
        assert(fs.take(0) =~= Seq::<FileId>::empty());
    } else {
        let m = (n - 1) as nat;
        lemma_class_total_bound(g, table, pairs, fs, m, leader);
        let prev = class_members(pairs, m, leader);
        assert(fs.take(n as int).drop_last() =~= fs.take(m as int));
        assert(fs.take(n as int).last() == fs[m as int]);
        if joined(pairs, m as int, leader) {
            let cur = prev.push(m as int).map_values(|j: int| fs[j]);
            assert(cur.drop_last() =~= prev.map_values(|j: int| fs[j]));
            assert(cur.last() == fs[m as int]);
        }
    }
}

/// When all the registered files fit the counters, so does every pod that
/// follows the file classes.
pub proof fn lemma_pods_fit_within_project(g: CodeGraph, table: Seq<(String, FileMetrics)>, pods: Seq<Pod>)
    requires
        pods_follow_classes(g, pods),
        project_totals_fit(g, table),
    ensures
        pod_totals_fit(g, table, pods),
{
    let fs = files_by_path(g);
    let pairs = file_classes(g);
    let ls = class_leaders(pairs, fs.len());
    assert forall|p: int| 0 <= p < pods.len() implies ast_total(g, table, #[trigger] pods[p].files@) <= usize::MAX
        && symbol_total(g, table, pods[p].files@) <= usize::MAX by {
        lemma_class_total_bound(g, table, pairs, fs, fs.len(), ls[p]);
        assert(fs.take(fs.len() as int) =~= fs);
    }
}

} // verus!
