//! Identifiers, source ranges and the per-file extraction record.
use vstd::prelude::*;

use crate::error::Diagnostic;
use crate::lang::LangId;
use crate::scanner::CallSite;

verus! {

/// Stable identifier of a source file within one analysis.
#[derive(Debug, Clone, Copy, PartialEq, Eq, Structural, Hash, PartialOrd, Ord)]
pub struct FileId(pub u32);

/// Stable identifier of an extracted symbol.
#[derive(Debug, Clone, Copy, PartialEq, Eq, Structural, Hash, PartialOrd, Ord)]
pub struct SymbolId(pub u32);

/// Identifier of one analysis snapshot.
#[derive(Debug, Clone, Copy, PartialEq, Eq, Structural, Hash, PartialOrd, Ord)]
pub struct SnapshotId(pub u32);

/// Identifier of a data-bearing node of the data/flow subgraph.
#[derive(Debug, Clone, Copy, PartialEq, Eq, Structural, Hash, PartialOrd, Ord)]
pub struct DataNodeId(pub u32);

impl FileId {
    /// A file identifier; raw identifiers start at 1.
    pub fn new(raw: u32) -> (r: Option<FileId>)
        ensures
            r == (if raw == 0 { None } else { Some(FileId(raw)) }),
    {
        if raw == 0 { None } else { Some(FileId(raw)) }
    }

    pub fn to_raw(self) -> (r: u32)
        ensures
            r == self.0,
    {
        self.0
    }
}

impl From<u32> for FileId {
    fn from(raw: u32) -> (r: FileId) {
        FileId(raw)
    }
}

impl vstd::std_specs::convert::FromSpecImpl<u32> for FileId {
    open spec fn obeys_from_spec() -> bool {
        true
    }

    open spec fn from_spec(v: u32) -> FileId {
        FileId(v)
    }
}

impl SymbolId {
    /// A symbol identifier; raw identifiers start at 1.
    pub fn new(raw: u32) -> (r: Option<SymbolId>)
        ensures
            r == (if raw == 0 { None } else { Some(SymbolId(raw)) }),
    {
        if raw == 0 { None } else { Some(SymbolId(raw)) }
    }

    pub fn to_raw(self) -> (r: u32)
        ensures
            r == self.0,
    {
        self.0
    }
}

impl From<u32> for SymbolId {
    fn from(raw: u32) -> (r: SymbolId) {
        SymbolId(raw)
    }
}

impl vstd::std_specs::convert::FromSpecImpl<u32> for SymbolId {
    open spec fn obeys_from_spec() -> bool {
        true
    }

    open spec fn from_spec(v: u32) -> SymbolId {
        SymbolId(v)
    }
}

impl SnapshotId {
    /// A snapshot identifier; raw identifiers start at 1.
    pub fn new(raw: u32) -> (r: Option<SnapshotId>)
        ensures
            r == (if raw == 0 { None } else { Some(SnapshotId(raw)) }),
    {
        if raw == 0 { None } else { Some(SnapshotId(raw)) }
    }

    pub fn to_raw(self) -> (r: u32)
        ensures
            r == self.0,
    {
        self.0
    }
}

impl From<u32> for SnapshotId {
    fn from(raw: u32) -> (r: SnapshotId) {
        SnapshotId(raw)
    }
}

impl vstd::std_specs::convert::FromSpecImpl<u32> for SnapshotId {
    open spec fn obeys_from_spec() -> bool {
        true
    }

    open spec fn from_spec(v: u32) -> SnapshotId {
        SnapshotId(v)
    }
}

impl DataNodeId {
    pub fn to_raw(self) -> (r: u32)
        ensures
            r == self.0,
    {
        self.0
    }
}

/// A zero-based line and column.
#[derive(Debug, Clone, Copy, PartialEq, Eq, Structural)]
pub struct LineColumn {
    pub line: usize,
    pub column: usize,
}

/// A byte range of a source file with its line/column endpoints.
#[derive(Debug, Clone, Copy, PartialEq, Eq, Structural)]
pub struct SourceRange {
    pub byte_start: usize,
    pub byte_end: usize,
    pub start: LineColumn,
    pub end: LineColumn,
}

/// Kind of an extracted symbol.
#[derive(Debug, Clone, Copy, PartialEq, Eq, Structural, Hash)]
pub enum SymbolKind {
    Function,
    Method,
    Class,
    Struct,
    Enum,
    Interface,
    Trait,
    Module,
    Constant,
    Variable,
    TypeAlias,
}

impl SymbolKind {
    /// Lower-case name of the kind.
    pub open spec fn spec_name(self) -> Seq<char> {
        match self {
            SymbolKind::Function => "function"@,
            SymbolKind::Method => "method"@,
            SymbolKind::Class => "class"@,
            SymbolKind::Struct => "struct"@,
            SymbolKind::Enum => "enum"@,
            SymbolKind::Interface => "interface"@,
            SymbolKind::Trait => "trait"@,
            SymbolKind::Module => "module"@,
            SymbolKind::Constant => "constant"@,
            SymbolKind::Variable => "variable"@,
            SymbolKind::TypeAlias => "typealias"@,
        }
    }

    /// Lower-case name of the kind.
    pub fn name(self) -> (r: &'static str)
        ensures
            r@ == self.spec_name(),
    {
        match self {
            SymbolKind::Function => "function",
            SymbolKind::Method => "method",
            SymbolKind::Class => "class",
            SymbolKind::Struct => "struct",
            SymbolKind::Enum => "enum",
            SymbolKind::Interface => "interface",
            SymbolKind::Trait => "trait",
            SymbolKind::Module => "module",
            SymbolKind::Constant => "constant",
            SymbolKind::Variable => "variable",
            SymbolKind::TypeAlias => "typealias",
        }
    }
}

/// Declared visibility of a symbol.
#[derive(Debug, Clone, Copy, PartialEq, Eq, Structural, Hash)]
pub enum Visibility {
    Public,
    Private,
}

/// Scope of a data-bearing node.
#[derive(Debug, Clone, Copy, PartialEq, Eq, Structural, Hash)]
pub enum DataScope {
    Local,
    Parameter,
    Field,
    Global,
}

/// An extracted symbol definition.
#[derive(Debug, Clone)]
pub struct Symbol {
    pub id: SymbolId,
    pub name: String,
    pub kind: SymbolKind,
    pub language: LangId,
    pub file_path: String,
    pub source_range: SourceRange,
    pub visibility: Option<Visibility>,
    pub signature: Option<String>,
    pub docstring: Option<String>,
    pub is_async: bool,
}

/// An extracted data-bearing node (variable, parameter, field).
#[derive(Debug, Clone)]
pub struct DataNode {
    pub id: DataNodeId,
    pub symbol_id: Option<SymbolId>,
    pub name: Option<String>,
    pub scope: DataScope,
    pub type_hint: Option<String>,
    pub source_range: SourceRange,
}

/// An import as spelled in the source, before resolution.
#[derive(Debug, Clone)]
pub struct UnresolvedImport {
    pub import_specifier: String,
    pub alias: Option<String>,
    pub symbol: Option<String>,
    pub star: bool,
    pub range: SourceRange,
}

/// A use of a name, before resolution.
#[derive(Debug, Clone)]
pub struct UnresolvedReference {
    pub name: String,
    pub range: SourceRange,
}

/// Everything extracted from one file.
#[derive(Debug, Clone)]
pub struct FileExtraction {
    pub path: String,
    pub lang: LangId,
    pub symbols: Vec<Symbol>,
    pub data_nodes: Vec<DataNode>,
    pub imports: Vec<UnresolvedImport>,
    pub references: Vec<UnresolvedReference>,
    pub diagnostics: Vec<Diagnostic>,
    pub ast_node_count: usize,
    pub call_sites: Vec<CallSite>,
}

impl FileExtraction {
    /// An extraction of `path` with nothing in it.
    pub fn empty(path: String, lang: LangId) -> (r: FileExtraction)
        ensures
            r.path == path,
            r.lang == lang,
            r.symbols@.len() == 0,
            r.data_nodes@.len() == 0,
            r.imports@.len() == 0,
            r.references@.len() == 0,
            r.diagnostics@.len() == 0,
            r.ast_node_count == 0,
            r.call_sites@.len() == 0,
    {
        FileExtraction {
            path,
            lang,
            symbols: Vec::new(),
            data_nodes: Vec::new(),
            imports: Vec::new(),
            references: Vec::new(),
            diagnostics: Vec::new(),
            ast_node_count: 0,
            call_sites: Vec::new(),
        }
    }
}

} // verus!
