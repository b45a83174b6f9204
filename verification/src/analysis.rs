//! The result of analysing a project: its graph, the SCC analysis of the
//! graph, and the per-file extractions the graph was built from.
use vstd::prelude::*;

use crate::graph::CodeGraph;
use crate::model::{FileExtraction, SnapshotId};
use crate::scc::SccAnalysis;

verus! {

/// A snapshot's graph with its SCC analysis and extractions.
pub struct GraphAnalysis {
    pub graph: CodeGraph,
    pub scc: SccAnalysis,
    pub snapshot_id: SnapshotId,
    pub extractions: Vec<FileExtraction>,
}

} // verus!
