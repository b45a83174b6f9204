//! Graph node types for the dependency graph.
use vstd::prelude::*;

use crate::lang::LangId;
use crate::model::{
    DataNode, DataNodeId, DataScope, FileId, SnapshotId, SourceRange, Symbol, SymbolId,
    SymbolKind, Visibility,
};
use crate::paths::{extension, extension_of, file_name, file_name_of};

verus! {

/// Unified node data of the dependency graph.
#[derive(Debug, Clone)]
pub enum NodeData {
    File(FileNode),
    Symbol(SymbolNode),
    External(ExternalNode),
    Data(DataGraphNode),
}

/// A source file of the project.
#[derive(Debug, Clone)]
pub struct FileNode {
    /// Stable identifier for this file.
    pub id: FileId,
    /// Project-root-relative path.
    pub path: String,
    /// Detected language.
    pub language: LangId,
    /// Snapshot the node belongs to.
    pub snapshot_id: SnapshotId,
}

/// An external dependency (not in the project).
#[derive(Debug, Clone)]
pub struct ExternalNode {
    /// Raw import path string (e.g. "react").
    pub raw_path: String,
    /// Language of the importing file.
    pub language: LangId,
    /// Classification result; `None` until dependency resolution runs.
    pub classification: Option<ExternalClassification>,
}

/// Classification of an external dependency.
#[derive(Debug, Clone)]
pub enum ExternalClassification {
    /// Resolved to a known package (lockfile or manifest).
    Classified {
        package_name: String,
        version: Option<String>,
        language: LangId,
        source: DependencySource,
    },
    /// Best effort failed; kept as unresolved for transparency.
    Unresolved { raw_path: String, reason: String },
}

/// Where the dependency information came from.
#[derive(Debug, Clone, Copy, PartialEq, Eq, Structural)]
pub enum DependencySource {
    Lockfile,
    Manifest,
}

/// An extracted symbol of the graph, owned by one file.
#[derive(Debug, Clone)]
pub struct SymbolNode {
    pub id: SymbolId,
    pub name: String,
    pub kind: SymbolKind,
    /// The containing file.
    pub file_id: FileId,
    pub visibility: Option<Visibility>,
    pub source_range: SourceRange,
}

/// A data-bearing node of the data/flow subgraph.
#[derive(Debug, Clone)]
pub struct DataGraphNode {
    pub id: DataNodeId,
    pub symbol_id: Option<SymbolId>,
    pub name: Option<String>,
    pub scope: DataScope,
    pub type_hint: Option<String>,
    pub source_range: SourceRange,
}

impl NodeData {
    pub open spec fn spec_kind_str(&self) -> Seq<char> {
        match self {
            NodeData::File(_) => "file"@,
            NodeData::Symbol(_) => "symbol"@,
            NodeData::External(_) => "external"@,
            NodeData::Data(_) => "data"@,
        }
    }

    /// Name of the node kind.
    pub fn kind_str(&self) -> (r: &'static str)
        ensures
            r@ == self.spec_kind_str(),
    {
        match self {
            NodeData::File(_) => "file",
            NodeData::Symbol(_) => "symbol",
            NodeData::External(_) => "external",
            NodeData::Data(_) => "data",
        }
    }

    /// The file node, when this is one.
    pub fn as_file(&self) -> (r: Option<&FileNode>)
        ensures
            r == (match self {
                NodeData::File(f) => Some(f),
                _ => None::<&FileNode>,
            }),
    {
        if let NodeData::File(f) = self {
            Some(f)
        } else {
            None
        }
    }

    /// The symbol node, when this is one.
    pub fn as_symbol(&self) -> (r: Option<&SymbolNode>)
        ensures
            r == (match self {
                NodeData::Symbol(s) => Some(s),
                _ => None::<&SymbolNode>,
            }),
    {
        if let NodeData::Symbol(s) = self {
            Some(s)
        } else {
            None
        }
    }

    /// The external node, when this is one.
    pub fn as_external(&self) -> (r: Option<&ExternalNode>)
        ensures
            r == (match self {
                NodeData::External(e) => Some(e),
                _ => None::<&ExternalNode>,
            }),
    {
        if let NodeData::External(e) = self {
            Some(e)
        } else {
            None
        }
    }

    /// The data node, when this is one.
    pub fn as_data(&self) -> (r: Option<&DataGraphNode>)
        ensures
            r == (match self {
                NodeData::Data(d) => Some(d),
                _ => None::<&DataGraphNode>,
            }),
    {
        if let NodeData::Data(d) = self {
            Some(d)
        } else {
            None
        }
    }

    /// The file path, when this is a file node.
    pub fn file_path(&self) -> (r: Option<&String>)
        ensures
            r == (match self {
                NodeData::File(f) => Some(&f.path),
                _ => None::<&String>,
            }),
    {
        match self {
            NodeData::File(f) => Some(&f.path),
            _ => None,
        }
    }

    /// The symbol name, when this is a symbol node.
    pub fn symbol_name(&self) -> (r: Option<&String>)
        ensures
            r == (match self {
                NodeData::Symbol(s) => Some(&s.name),
                _ => None::<&String>,
            }),
    {
        match self {
            NodeData::Symbol(s) => Some(&s.name),
            _ => None,
        }
    }
}

impl FileNode {
    /// A file node with the given properties.
    pub fn new(id: FileId, path: String, language: LangId, snapshot_id: SnapshotId) -> (r: FileNode)
        ensures
            r.id == id,
            r.path == path,
            r.language == language,
            r.snapshot_id == snapshot_id,
    {
        FileNode { id, path, language, snapshot_id }
    }

    /// The file name component of the path.
    pub fn file_name(&self) -> (r: Option<String>)
        ensures
            r.is_some() == file_name(self.path@).is_some(),
            r matches Some(s) ==> s@ == file_name(self.path@)->0,
    {
        file_name_of(self.path.as_str())
    }

    /// The file extension, when present.
    pub fn extension(&self) -> (r: Option<String>)
        ensures
            r.is_some() == extension(self.path@).is_some(),
            r matches Some(s) ==> s@ == extension(self.path@)->0,
    {
        extension_of(self.path.as_str())
    }
}

/// Copies of an optional string, field by field.
pub fn clone_opt_string(s: &Option<String>) -> (r: Option<String>)
    ensures
        r == *s,
{
    match s {
        Some(v) => Some(v.clone()),
        None => None,
    }
}

impl SymbolNode {
    /// The graph node of an extracted symbol, owned by `file_id`.
    pub fn from_symbol(symbol: &Symbol, file_id: FileId) -> (r: SymbolNode)
        ensures
            r.id == symbol.id,
            r.name == symbol.name,
            r.kind == symbol.kind,
            r.file_id == file_id,
            r.visibility == symbol.visibility,
            r.source_range == symbol.source_range,
    {
        SymbolNode {
            id: symbol.id,
            name: symbol.name.clone(),
            kind: symbol.kind,
            file_id,
            visibility: symbol.visibility,
            source_range: symbol.source_range,
        }
    }
}

impl DataGraphNode {
    /// The graph node of an extracted data node.
    pub fn from_data_node(data: &DataNode) -> (r: DataGraphNode)
        ensures
            r.id == data.id,
            r.symbol_id == data.symbol_id,
            r.name == data.name,
            r.scope == data.scope,
            r.type_hint == data.type_hint,
            r.source_range == data.source_range,
    {
        DataGraphNode {
            id: data.id,
            symbol_id: data.symbol_id,
            name: clone_opt_string(&data.name),
            scope: data.scope,
            type_hint: clone_opt_string(&data.type_hint),
            source_range: data.source_range,
        }
    }
}

} // verus!
