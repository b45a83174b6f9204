//! Edge types for the dependency graph.
//!
//! All edges are directed: an edge from A to B means A depends on B.
//! Confidence is counted in thousandths: 1000 is full confidence.
use vstd::prelude::*;

verus! {

/// Full confidence: the own file or a direct same-language import.
pub const CONFIDENCE_OWN_OR_DIRECT: u32 = 1000;
/// A transitive same-language import.
pub const CONFIDENCE_TRANSITIVE: u32 = 800;
/// An import or reference that crosses a language boundary.
pub const CONFIDENCE_CROSS_LANGUAGE: u32 = 600;
/// A client call whose target is the unique match among the loaded files.
pub const CONFIDENCE_CLIENT_UNIQUE_LOAD: u32 = 1000;
/// A client call with several matches among the loaded files.
pub const CONFIDENCE_CLIENT_MULTI_LOAD: u32 = 800;
/// A client call whose target is the unique match in the whole project.
pub const CONFIDENCE_CLIENT_UNIQUE_GLOBAL: u32 = 600;
/// A client call with several matches in the whole project.
pub const CONFIDENCE_CLIENT_MULTI_GLOBAL: u32 = 500;
/// A call whose target name is computed at run time.
pub const CONFIDENCE_COMPUTED: u32 = 400;

/// Semantic kind of a directed edge in the code graph.
#[derive(Debug, Clone, Copy, PartialEq, Eq, Structural, Hash, PartialOrd, Ord)]
pub enum EdgeKind {
    /// Ownership edge: a file owns a symbol.
    Ownership,
    /// Import edge: a file imports another file.
    Import,
    /// Reference edge: a symbol uses another symbol.
    Reference,
}

impl EdgeKind {
    pub open spec fn spec_participates_in_scc(self) -> bool {
        self == EdgeKind::Import || self == EdgeKind::Reference
    }

    pub open spec fn spec_name(self) -> Seq<char> {
        match self {
            EdgeKind::Ownership => "ownership"@,
            EdgeKind::Import => "import"@,
            EdgeKind::Reference => "reference"@,
        }
    }

    /// True when this kind is a dependency: it takes part in SCC analysis.
    pub fn participates_in_scc(self) -> (r: bool)
        ensures
            r == self.spec_participates_in_scc(),
    {
        matches!(self, EdgeKind::Import | EdgeKind::Reference)
    }

    /// True when this kind crosses files.
    pub fn is_cross_file(self) -> (r: bool)
        ensures
            r == (self == EdgeKind::Import),
    {
        matches!(self, EdgeKind::Import)
    }

    /// Human-readable name of the kind.
    pub fn as_str(self) -> (r: &'static str)
        ensures
            r@ == self.spec_name(),
    {
        match self {
            EdgeKind::Ownership => "ownership",
            EdgeKind::Import => "import",
            EdgeKind::Reference => "reference",
        }
    }
}

/// Data stored for each edge of the graph.
#[derive(Debug, Clone, Copy, PartialEq, Eq, Structural)]
pub struct EdgeData {
    /// Semantic kind of the relationship.
    pub kind: EdgeKind,
    /// Confidence of the resolution, in thousandths.
    pub confidence: u32,
}

/// `x` clamped into `[0, 1000]`.
pub open spec fn clamp_confidence(x: int) -> u32 {
    if x < 0 {
        0
    } else if x > 1000 {
        1000
    } else {
        x as u32
    }
}

impl EdgeData {
    /// An edge with full confidence.
    pub fn new(kind: EdgeKind) -> (r: EdgeData)
        ensures
            r.kind == kind,
            r.confidence == CONFIDENCE_OWN_OR_DIRECT,
    {
        EdgeData { kind, confidence: CONFIDENCE_OWN_OR_DIRECT }
    }

    /// An edge with the given confidence, clamped into `[0, 1000]`.
    pub fn with_confidence(kind: EdgeKind, confidence: i64) -> (r: EdgeData)
        ensures
            r.kind == kind,
            r.confidence == clamp_confidence(confidence as int),
    {
        let c: u32 = if confidence < 0 {
            0
        } else if confidence > 1000 {
            1000
        } else {
            confidence as u32
        };
        EdgeData { kind, confidence: c }
    }

    /// True when the edge is a dependency edge.
    pub fn participates_in_scc(&self) -> (r: bool)
        ensures
            r == self.kind.spec_participates_in_scc(),
    {
        self.kind.participates_in_scc()
    }
}

impl Default for EdgeData {
    /// A full-confidence reference edge.
    fn default() -> (r: EdgeData)
        ensures
            r.kind == EdgeKind::Reference,
            r.confidence == CONFIDENCE_OWN_OR_DIRECT,
    {
        EdgeData::new(EdgeKind::Reference)
    }
}

} // verus!
