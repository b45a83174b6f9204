//! Incremental construction of the code graph from extraction results.
use vstd::prelude::*;

use crate::assoc::{keys_distinct, lemma_lookup_at, lemma_lookup_push, lemma_lookup_some, lookup};
use crate::edge::{clamp_confidence, EdgeData, EdgeKind, CONFIDENCE_CROSS_LANGUAGE, CONFIDENCE_OWN_OR_DIRECT};
use crate::error::{diagnostic_view, Diagnostic, Error, Severity};
use crate::graph::{edges_normalized, is_file_node, lemma_merge_edge_twice, merge_edge, CodeGraph};
use crate::lang::LangId;
use crate::model::{FileExtraction, FileId, SnapshotId, SourceRange, Symbol, SymbolId};
use crate::node::{FileNode, NodeData, SymbolNode};
use crate::paths::{paths_equal, same_path};
use crate::config::opt_view;
use crate::dependency::{trim_class, trim_of, Trim};
use crate::model::UnresolvedImport;
use crate::resolver::{
    all_references, binding_view, cache_order, cache_warnings, extraction_languages, file_scope, fold_references, import_binding_for,
    resolve_all_references, scope_view, spec_import_binding, spec_symbol_index, FlattenedScopeCache, ImportBinding, ReferenceEdge,
    ResolutionContext,
};
use crate::order::stable_sorted;
use crate::client_call::{client_pass, file_projection, load_pass, resolve_client_call_projections, symbol_projection};
use crate::index::{ordered_entries, registered_file_ids, registered_paths};
use crate::scanner::{site_view, CallSite};
use crate::deploy::{call_sites_of, extraction_sites};
use crate::scc::SccAnalysis;
use crate::model::Visibility;
use crate::text::{chars_of, string_of};
use crate::pg::index_limit;

verus! {

/// Builder for incremental graph construction.
pub struct GraphBuilder {
    /// The graph under construction.
    pub code: CodeGraph,
    /// File path to file id, for resolving import targets.
    pub path_to_file: Vec<(String, FileId)>,
    /// Raw value of the next file id.
    pub next_file_id: u32,
}

/// The file id registered under a path equal to `p`, component-wise.
pub open spec fn path_lookup(s: Seq<(String, FileId)>, p: Seq<char>) -> Option<FileId> {
    if exists|i: int| 0 <= i < s.len() && same_path((#[trigger] s[i]).0@, p) {
        Some(s[choose|i: int| 0 <= i < s.len() && same_path((#[trigger] s[i]).0@, p)].1)
    } else {
        None
    }
}

/// The language of an import edge's confidence: same language is a direct
/// import, anything else crosses a language boundary.
pub open spec fn import_confidence(source: LangId, target: LangId) -> u32 {
    if source == target { CONFIDENCE_OWN_OR_DIRECT } else { CONFIDENCE_CROSS_LANGUAGE }
}

/// The observable state of a builder: the nodes and edges of its graph, the
/// registered paths, the next file id, and the graph's indexes.
pub struct BuildState {
    pub nodes: Seq<NodeData>,
    pub edges: Seq<(usize, usize, EdgeData)>,
    pub files: Seq<(String, FileId)>,
    pub next_file_id: u32,
    pub file_index: Seq<(FileId, usize)>,
    pub symbol_index: Seq<(SymbolId, usize)>,
    pub external: Seq<(Seq<char>, usize)>,
}

/// `add_file`: a path already registered keeps its id; a new path gets the
/// next id and a file node.
pub open spec fn spec_add_file(st: BuildState, path: String, language: LangId, snapshot_id: SnapshotId) -> BuildState {
    match path_lookup(st.files, path@) {
        Some(_) => st,
        None => {
            let id = FileId(st.next_file_id);
            BuildState {
                nodes: st.nodes.push(NodeData::File(FileNode { id, path, language, snapshot_id })),
                files: st.files.push((path, id)),
                next_file_id: (st.next_file_id + 1) as u32,
                file_index: st.file_index.push((id, st.nodes.len() as usize)),
                ..st
            }
        },
    }
}

/// The graph node of a symbol owned by the file `file_id`.
pub open spec fn symbol_node_of(symbol: Symbol, file_id: FileId) -> SymbolNode {
    SymbolNode {
        id: symbol.id,
        name: symbol.name,
        kind: symbol.kind,
        file_id,
        visibility: symbol.visibility,
        source_range: symbol.source_range,
    }
}

/// `add_symbol` fails: the symbol is new and its file is not registered.
pub open spec fn symbol_fails(st: BuildState, symbol: Symbol) -> bool {
    lookup(st.symbol_index, symbol.id) is None && path_lookup(st.files, symbol.file_path@) is None
}

/// `add_symbol`: a symbol already present changes nothing; a symbol of a
/// registered file gets a node and an ownership edge from its file.
pub open spec fn spec_add_symbol(st: BuildState, symbol: Symbol) -> BuildState {
    match lookup(st.symbol_index, symbol.id) {
        Some(_) => st,
        None => match path_lookup(st.files, symbol.file_path@) {
            None => st,
            Some(fid) => {
                let file_idx = lookup(st.file_index, fid)->0;
                let idx = st.nodes.len() as usize;
                BuildState {
                    nodes: st.nodes.push(NodeData::Symbol(symbol_node_of(symbol, fid))),
                    symbol_index: st.symbol_index.push((symbol.id, idx)),
                    edges: merge_edge(st.edges, file_idx, idx, EdgeKind::Ownership, CONFIDENCE_OWN_OR_DIRECT),
                    ..st
                }
            },
        },
    }
}

/// `add_import`: an import of a registered file joins the two files; any
/// other path becomes (or reuses) an external node.
pub open spec fn spec_add_import(st: BuildState, from: FileId, to: String) -> BuildState {
    match lookup(st.file_index, from) {
        None => st,
        Some(from_idx) => {
            let source_language = st.nodes[from_idx as int]->File_0.language;
            match path_lookup(st.files, to@) {
                Some(to_id) => {
                    let to_idx = lookup(st.file_index, to_id)->0;
                    let target_language = st.nodes[to_idx as int]->File_0.language;
                    BuildState {
                        edges: merge_edge(st.edges, from_idx, to_idx, EdgeKind::Import, import_confidence(source_language, target_language)),
                        ..st
                    }
                },
                None => match lookup(st.external, to@) {
                    Some(ext) => BuildState {
                        edges: merge_edge(st.edges, from_idx, ext, EdgeKind::Import, CONFIDENCE_OWN_OR_DIRECT),
                        ..st
                    },
                    None => {
                        let ext = st.nodes.len() as usize;
                        BuildState {
                            nodes: st.nodes.push(NodeData::External(crate::node::ExternalNode {
                                raw_path: to,
                                language: source_language,
                                classification: None,
                            })),
                            external: st.external.push((to@, ext)),
                            edges: merge_edge(st.edges, from_idx, ext, EdgeKind::Import, CONFIDENCE_OWN_OR_DIRECT),
                            ..st
                        }
                    },
                },
            }
        },
    }
}

/// `add_reference`: an edge between two registered symbols, merged with
/// any edge already there.
pub open spec fn spec_add_reference(st: BuildState, from: SymbolId, to: SymbolId, confidence: int) -> BuildState {
    match (lookup(st.symbol_index, from), lookup(st.symbol_index, to)) {
        (Some(a), Some(b)) => BuildState {
            edges: merge_edge(st.edges, a, b, EdgeKind::Reference, clamp_confidence(confidence)),
            ..st
        },
        _ => st,
    }
}

impl GraphBuilder {
    pub open spec fn nodes(&self) -> Seq<NodeData> {
        self.code.nodes()
    }

    /// The observable state of the builder.
    pub open spec fn state(&self) -> BuildState {
        BuildState {
            nodes: self.code.nodes(),
            edges: self.code.edges(),
            files: self.path_to_file@,
            next_file_id: self.next_file_id,
            file_index: self.code.file_to_index@,
            symbol_index: self.code.symbol_to_index@,
            external: self.code.external_keys(),
        }
    }

    pub open spec fn edges(&self) -> Seq<(usize, usize, EdgeData)> {
        self.code.edges()
    }

    /// Well-formedness: the graph is well formed, every registered path maps
    /// to a distinct file whose node carries that path, and ids below
    /// `next_file_id` are the only ones in use.
    pub open spec fn wf(&self) -> bool {
        let ps = self.path_to_file@;
        &&& self.code.wf()
        &&& self.next_file_id >= 1
        &&& forall|i: int, j: int| 0 <= i < ps.len() && 0 <= j < ps.len() && i != j ==>
            !same_path((#[trigger] ps[i]).0@, (#[trigger] ps[j]).0@) && ps[i].1 != ps[j].1
        &&& forall|i: int| 0 <= i < ps.len() ==> {
            &&& lookup(self.code.file_to_index@, (#[trigger] ps[i]).1) is Some
            &&& self.nodes()[lookup(self.code.file_to_index@, ps[i].1)->0 as int]->File_0.path == ps[i].0
        }
        &&& forall|i: int| 0 <= i < self.code.file_to_index@.len() ==> (#[trigger] self.code.file_to_index@[i]).0.0 < self.next_file_id
    }

    /// Room for `k` more nodes, edges and file ids.
    pub open spec fn has_room(&self, k: nat) -> bool {
        &&& self.nodes().len() + k + 1 < index_limit()
        &&& self.edges().len() + k + 1 < index_limit()
        &&& self.next_file_id + k < u32::MAX
    }

    /// A builder for the given snapshot.
    pub fn new(snapshot_id: SnapshotId) -> (r: GraphBuilder)
        ensures
            r.wf(),
            r.nodes().len() == 0,
            r.edges().len() == 0,
            r.path_to_file@.len() == 0,
            r.code.snapshot_id == snapshot_id,
            r.state() == empty_state(),
    {
        let b = GraphBuilder { code: CodeGraph::new(snapshot_id), path_to_file: Vec::new(), next_file_id: 1 };
        proof {
            assert(b.code.external_keys() =~= Seq::<(Seq<char>, usize)>::empty());
            assert(b.code.nodes() =~= Seq::<NodeData>::empty());
            assert(b.code.edges() =~= Seq::<(usize, usize, EdgeData)>::empty());
            assert(b.path_to_file@ =~= Seq::<(String, FileId)>::empty());
            assert(b.code.file_to_index@ =~= Seq::<(FileId, usize)>::empty());
            assert(b.code.symbol_to_index@ =~= Seq::<(SymbolId, usize)>::empty());
        }
        b
    }

    /// The file id registered for a path.
    pub fn file_id_for_path(&self, path: &str) -> (r: Option<FileId>)
        requires
            self.wf(),
        ensures
            r == path_lookup(self.path_to_file@, path@),
    {
        let mut i: usize = 0;
        while i < self.path_to_file.len()
            invariant
                self.wf(),
                0 <= i <= self.path_to_file@.len(),
                forall|j: int| 0 <= j < i ==> !same_path((#[trigger] self.path_to_file@[j]).0@, path@),
            decreases self.path_to_file@.len() - i,
        {
            if paths_equal(self.path_to_file[i].0.as_str(), path) {
                proof {
                    let ps = self.path_to_file@;
                    let c = choose|j: int| 0 <= j < ps.len() && same_path((#[trigger] ps[j]).0@, path@);
                    if c != i {
                        crate::builder::lemma_same_path_symmetric_transitive(ps[c].0@, path@, ps[i as int].0@);
                    }
                }
                return Some(self.path_to_file[i].1);
            }
            i = i + 1;
        }
        None
    }

    /// Adds a file node; a path already registered returns its file id.
    pub fn add_file(&mut self, path: String, language: LangId) -> (r: FileId)
        requires
            old(self).wf(),
            old(self).has_room(1),
        ensures
            final(self).wf(),
            final(self).edges() == old(self).edges(),
            final(self).code.symbol_to_index == old(self).code.symbol_to_index,
            final(self).code.external_index == old(self).code.external_index,
            final(self).code.snapshot_id == old(self).code.snapshot_id,
            final(self).state() == spec_add_file(old(self).state(), path, language, old(self).code.snapshot_id),
            path_lookup(final(self).path_to_file@, path@) == Some(r),
            match path_lookup(old(self).path_to_file@, path@) {
                Some(id) => r == id && *final(self) == *old(self),
                None => {
                    &&& r == FileId(old(self).next_file_id)
                    &&& final(self).nodes() == old(self).nodes().push(NodeData::File(FileNode {
                        id: r,
                        path,
                        language,
                        snapshot_id: old(self).code.snapshot_id,
                    }))
                    &&& final(self).next_file_id == old(self).next_file_id + 1
                },
            },
    {
        if let Some(existing) = self.file_id_for_path(path.as_str()) {
            return existing;
        }
        let id = FileId(self.next_file_id);
        let ghost before = *self;
        let node = FileNode { id, path: path.clone(), language, snapshot_id: self.code.snapshot_id };
        proof {
            assert forall|i: int| 0 <= i < self.code.file_to_index@.len() implies (#[trigger] self.code.file_to_index@[i]).0 != id by {}
            crate::assoc::lemma_lookup_none(self.code.file_to_index@, id);
        }
        let idx = self.code.add_file_node(node);
        self.next_file_id = self.next_file_id + 1;
        self.path_to_file.push((path, id));
        proof {
            let ps = self.path_to_file@;
            let n = before.path_to_file@.len();
            assert(ps[n as int].0 == path);
            assert forall|i: int, j: int| 0 <= i < ps.len() && 0 <= j < ps.len() && i != j implies
                !same_path((#[trigger] ps[i]).0@, (#[trigger] ps[j]).0@) && ps[i].1 != ps[j].1 by {
                if i < n && j < n {
                    assert(ps[i] == before.path_to_file@[i] && ps[j] == before.path_to_file@[j]);
                } else if i == n {
                    assert(ps[j] == before.path_to_file@[j]);
                    assert(!same_path(before.path_to_file@[j].0@, path@));
                    lemma_same_path_symmetric_transitive(path@, ps[j].0@, path@);
                    assert(lookup(before.code.file_to_index@, ps[j].1) is Some);
                    lemma_lookup_some(before.code.file_to_index@, ps[j].1);
                } else {
                    assert(ps[i] == before.path_to_file@[i]);
                    assert(lookup(before.code.file_to_index@, ps[i].1) is Some);
                    lemma_lookup_some(before.code.file_to_index@, ps[i].1);
                }
            }
            assert forall|i: int| 0 <= i < ps.len() implies {
                &&& lookup(self.code.file_to_index@, (#[trigger] ps[i]).1) is Some
                &&& self.nodes()[lookup(self.code.file_to_index@, ps[i].1)->0 as int]->File_0.path == ps[i].0
            } by {
                if i < n {
                    assert(ps[i] == before.path_to_file@[i]);
                    crate::assoc::lemma_lookup_push(before.code.file_to_index@, id, idx, ps[i].1);
                    lemma_lookup_some(before.code.file_to_index@, ps[i].1);
                    let k = choose|k: int| 0 <= k < before.code.file_to_index@.len() && (#[trigger] before.code.file_to_index@[k]).0 == ps[i].1
                        && before.code.file_to_index@[k].1 == lookup(before.code.file_to_index@, ps[i].1)->0;
                    assert(is_file_node(before.nodes(), before.code.file_to_index@[k].1, before.code.file_to_index@[k].0));
                } else {
                    crate::assoc::lemma_lookup_push(before.code.file_to_index@, id, idx, id);
                }
            }
            assert forall|i: int| 0 <= i < self.code.file_to_index@.len() implies (#[trigger] self.code.file_to_index@[i]).0.0 < self.next_file_id by {
                if i < before.code.file_to_index@.len() {
                    assert(self.code.file_to_index@[i] == before.code.file_to_index@[i]);
                }
            }
            assert(same_path(ps[n as int].0@, path@));
            assert(path_lookup(ps, path@) == Some(id)) by {
                let c = choose|j: int| 0 <= j < ps.len() && same_path((#[trigger] ps[j]).0@, path@);
                if c != n {
                    assert(!same_path(ps[c].0@, ps[n as int].0@));
                }
            }
        }
        id
    }
}

impl GraphBuilder {
    /// Frame lemma: a step that keeps the paths and files keeps the builder
    /// facts on top of a well-formed graph.
    proof fn lemma_keeps_wf(&self, before: GraphBuilder)
        requires
            before.wf(),
            self.code.wf(),
            self.path_to_file == before.path_to_file,
            self.next_file_id == before.next_file_id,
            self.code.file_to_index == before.code.file_to_index,
            self.nodes().len() >= before.nodes().len(),
            forall|i: int| 0 <= i < before.nodes().len() ==> self.nodes()[i] == before.nodes()[i],
        ensures
            self.wf(),
    {
        let ps = self.path_to_file@;
        assert forall|i: int| 0 <= i < ps.len() implies {
            &&& lookup(self.code.file_to_index@, (#[trigger] ps[i]).1) is Some
            &&& self.nodes()[lookup(self.code.file_to_index@, ps[i].1)->0 as int]->File_0.path == ps[i].0
        } by {
            assert(lookup(before.code.file_to_index@, ps[i].1) is Some);
            lemma_lookup_some(before.code.file_to_index@, ps[i].1);
            let k = choose|k: int| 0 <= k < before.code.file_to_index@.len() && (#[trigger] before.code.file_to_index@[k]).0 == ps[i].1
                && before.code.file_to_index@[k].1 == lookup(before.code.file_to_index@, ps[i].1)->0;
            assert(is_file_node(before.nodes(), before.code.file_to_index@[k].1, before.code.file_to_index@[k].0));
        }
    }

    /// Adds an edge through the normalization rule, with the confidence
    /// clamped into `[0, 1000]`: a repeated triple keeps the larger confidence.
    fn insert_edge(&mut self, source: usize, target: usize, kind: EdgeKind, confidence: i64)
        requires
            old(self).wf(),
            old(self).has_room(0),
            source < old(self).nodes().len(),
            target < old(self).nodes().len(),
        ensures
            final(self).wf(),
            final(self).nodes() == old(self).nodes(),
            final(self).edges() == merge_edge(old(self).edges(), source, target, kind, clamp_confidence(confidence as int)),
            final(self).path_to_file == old(self).path_to_file,
            final(self).next_file_id == old(self).next_file_id,
            final(self).code.file_to_index == old(self).code.file_to_index,
            final(self).code.symbol_to_index == old(self).code.symbol_to_index,
            final(self).code.external_index == old(self).code.external_index,
            final(self).code.snapshot_id == old(self).code.snapshot_id,
    {
        let c = EdgeData::with_confidence(kind, confidence).confidence;
        let ghost before = *self;
        self.code.add_edge_normalized(source, target, kind, c);
        proof { self.lemma_keeps_wf(before); }
    }

    /// Adds a symbol node and its ownership edge from the containing file.
    ///
    /// The file must already be registered under the symbol's path. A symbol
    /// already present returns its node.
    pub fn add_symbol(&mut self, symbol: &Symbol) -> (r: Result<usize, Error>)
        requires
            old(self).wf(),
            old(self).has_room(1),
        ensures
            final(self).wf(),
            final(self).path_to_file == old(self).path_to_file,
            final(self).next_file_id == old(self).next_file_id,
            final(self).code.file_to_index == old(self).code.file_to_index,
            final(self).code.external_index == old(self).code.external_index,
            final(self).code.snapshot_id == old(self).code.snapshot_id,
            final(self).state() == spec_add_symbol(old(self).state(), *symbol),
            r is Err <==> symbol_fails(old(self).state(), *symbol),
            match lookup(old(self).code.symbol_to_index@, symbol.id) {
                Some(i) => r == Ok::<usize, Error>(i) && *final(self) == *old(self),
                None => match path_lookup(old(self).path_to_file@, symbol.file_path@) {
                    None => r matches Err(Error::Graph(m)) && m@ == "file must be added before its symbols"@
                        && *final(self) == *old(self),
                    Some(fid) => {
                        let file_idx = lookup(old(self).code.file_to_index@, fid)->0;
                        let idx = old(self).nodes().len() as usize;
                        &&& r == Ok::<usize, Error>(idx)
                        &&& final(self).nodes() == old(self).nodes().push(NodeData::Symbol(SymbolNode {
                            id: symbol.id,
                            name: symbol.name,
                            kind: symbol.kind,
                            file_id: fid,
                            visibility: symbol.visibility,
                            source_range: symbol.source_range,
                        }))
                        &&& final(self).code.symbol_to_index@ == old(self).code.symbol_to_index@.push((symbol.id, idx))
                        &&& final(self).edges() == merge_edge(old(self).edges(), file_idx, idx, EdgeKind::Ownership, CONFIDENCE_OWN_OR_DIRECT)
                    },
                },
            },
    {
        if let Some(existing) = self.code.symbol_node_index(symbol.id) {
            return Ok(existing);
        }
        let file_id = match self.file_id_for_path(symbol.file_path.as_str()) {
            Some(fid) => fid,
            None => {
                return Err(Error::Graph(crate::text::string_from("file must be added before its symbols")));
            },
        };
        proof {
            let ps = self.path_to_file@;
            let c = choose|j: int| 0 <= j < ps.len() && same_path((#[trigger] ps[j]).0@, symbol.file_path@);
            assert(lookup(self.code.file_to_index@, ps[c].1) is Some);
        }
        let file_idx = match self.code.file_node_index(file_id) {
            Some(i) => i,
            None => {
                return Err(Error::Graph(crate::text::string_from("file index must exist")));
            },
        };
        proof {
            lemma_lookup_some(self.code.file_to_index@, file_id);
            let k = choose|k: int| 0 <= k < self.code.file_to_index@.len() && (#[trigger] self.code.file_to_index@[k]).0 == file_id
                && self.code.file_to_index@[k].1 == file_idx;
            assert(is_file_node(self.nodes(), self.code.file_to_index@[k].1, self.code.file_to_index@[k].0));
        }
        let node = SymbolNode::from_symbol(symbol, file_id);
        let ghost before = *self;
        let sym_idx = self.code.add_node(NodeData::Symbol(node));
        let ghost mid = *self;
        self.code.symbol_to_index.push((symbol.id, sym_idx));
        proof {
            crate::assoc::lemma_lookup_push(before.code.symbol_to_index@, symbol.id, sym_idx, symbol.id);
            assert forall|i: int| 0 <= i < self.code.symbol_to_index@.len() implies
                crate::graph::is_symbol_node(self.nodes(), (#[trigger] self.code.symbol_to_index@[i]).1, self.code.symbol_to_index@[i].0) by {
                if i < before.code.symbol_to_index@.len() {
                    assert(self.code.symbol_to_index@[i] == before.code.symbol_to_index@[i]);
                    assert(crate::graph::is_symbol_node(before.nodes(), before.code.symbol_to_index@[i].1, before.code.symbol_to_index@[i].0));
                }
            }
            assert(self.code.wf());
            self.lemma_keeps_wf(before);
        }
        self.insert_edge(file_idx, sym_idx, EdgeKind::Ownership, 1000);
        Ok(sym_idx)
    }

    /// Adds an import edge from a file to a path.
    ///
    /// A path registered as a project file gets a direct import edge (full
    /// confidence within one language, cross-language confidence otherwise).
    /// Any other path becomes an external node, shared by every importer, with
    /// a full-confidence import edge. An unknown source file adds nothing.
    pub fn add_import(&mut self, from: FileId, to: String)
        requires
            old(self).wf(),
            old(self).has_room(1),
        ensures
            final(self).wf(),
            final(self).path_to_file == old(self).path_to_file,
            final(self).next_file_id == old(self).next_file_id,
            final(self).code.file_to_index == old(self).code.file_to_index,
            final(self).code.symbol_to_index == old(self).code.symbol_to_index,
            final(self).code.snapshot_id == old(self).code.snapshot_id,
            final(self).state() == spec_add_import(old(self).state(), from, to),
            match lookup(old(self).code.file_to_index@, from) {
                None => *final(self) == *old(self),
                Some(from_idx) => {
                    let source_language = old(self).nodes()[from_idx as int]->File_0.language;
                    match path_lookup(old(self).path_to_file@, to@) {
                        Some(to_id) => {
                            let to_idx = lookup(old(self).code.file_to_index@, to_id)->0;
                            let target_language = old(self).nodes()[to_idx as int]->File_0.language;
                            &&& final(self).nodes() == old(self).nodes()
                            &&& final(self).code.external_index == old(self).code.external_index
                            &&& final(self).edges() == merge_edge(old(self).edges(), from_idx, to_idx, EdgeKind::Import,
                                import_confidence(source_language, target_language))
                        },
                        None => {
                            let ext = lookup(final(self).code.external_keys(), to@)->0;
                            &&& lookup(final(self).code.external_keys(), to@) is Some
                            &&& crate::graph::is_external_node(final(self).nodes(), ext, to@)
                            &&& (lookup(old(self).code.external_keys(), to@) is None ==>
                                final(self).nodes() == old(self).nodes().push(NodeData::External(crate::node::ExternalNode {
                                    raw_path: to,
                                    language: source_language,
                                    classification: None,
                                })))
                            &&& (lookup(old(self).code.external_keys(), to@) is Some ==>
                                final(self).nodes() == old(self).nodes())
                            &&& final(self).edges() == merge_edge(old(self).edges(), from_idx, ext, EdgeKind::Import, CONFIDENCE_OWN_OR_DIRECT)
                        },
                    }
                },
            },
    {
        let from_idx = match self.code.file_node_index(from) {
            Some(i) => i,
            None => return,
        };
        proof {
            lemma_lookup_some(self.code.file_to_index@, from);
            let k = choose|k: int| 0 <= k < self.code.file_to_index@.len() && (#[trigger] self.code.file_to_index@[k]).0 == from
                && self.code.file_to_index@[k].1 == from_idx;
            assert(is_file_node(self.nodes(), self.code.file_to_index@[k].1, self.code.file_to_index@[k].0));
        }
        let source_language = match self.code.node(from_idx) {
            NodeData::File(f) => f.language,
            _ => return,
        };
        if let Some(to_id) = self.file_id_for_path(to.as_str()) {
            proof {
                let ps = self.path_to_file@;
                let c = choose|j: int| 0 <= j < ps.len() && same_path((#[trigger] ps[j]).0@, to@);
                assert(lookup(self.code.file_to_index@, ps[c].1) is Some);
            }
            if let Some(to_idx) = self.code.file_node_index(to_id) {
                proof {
                    lemma_lookup_some(self.code.file_to_index@, to_id);
                    let k = choose|k: int| 0 <= k < self.code.file_to_index@.len() && (#[trigger] self.code.file_to_index@[k]).0 == to_id
                        && self.code.file_to_index@[k].1 == to_idx;
                    assert(is_file_node(self.nodes(), self.code.file_to_index@[k].1, self.code.file_to_index@[k].0));
                }
                let target_language = match self.code.node(to_idx) {
                    NodeData::File(f) => f.language,
                    _ => return,
                };
                let confidence: i64 = if target_language == source_language { 1000 } else { 600 };
                self.insert_edge(from_idx, to_idx, EdgeKind::Import, confidence);
            }
            return;
        }
        let ghost before = *self;
        let to_idx = self.code.get_or_create_external_node(to, source_language);
        proof { self.lemma_keeps_wf(before); }
        self.insert_edge(from_idx, to_idx, EdgeKind::Import, 1000);
    }

    /// Adds a reference edge between two registered symbols; the confidence
    /// is clamped into `[0, 1000]` and a repeated edge keeps the larger one.
    pub fn add_reference(&mut self, from: SymbolId, to: SymbolId, confidence: i64)
        requires
            old(self).wf(),
            old(self).has_room(0),
        ensures
            final(self).wf(),
            final(self).nodes() == old(self).nodes(),
            final(self).path_to_file == old(self).path_to_file,
            final(self).code.file_to_index == old(self).code.file_to_index,
            final(self).code.symbol_to_index == old(self).code.symbol_to_index,
            final(self).code.external_index == old(self).code.external_index,
            final(self).code.snapshot_id == old(self).code.snapshot_id,
            final(self).next_file_id == old(self).next_file_id,
            final(self).state() == spec_add_reference(old(self).state(), from, to, confidence as int),
            match (lookup(old(self).code.symbol_to_index@, from), lookup(old(self).code.symbol_to_index@, to)) {
                (Some(a), Some(b)) => final(self).edges() == merge_edge(old(self).edges(), a, b, EdgeKind::Reference,
                    clamp_confidence(confidence as int)),
                _ => final(self).edges() == old(self).edges(),
            },
    {
        let from_idx = match self.code.symbol_node_index(from) {
            Some(i) => i,
            None => return,
        };
        let to_idx = match self.code.symbol_node_index(to) {
            Some(i) => i,
            None => return,
        };
        proof {
            lemma_lookup_some(self.code.symbol_to_index@, from);
            lemma_lookup_some(self.code.symbol_to_index@, to);
            let k = choose|k: int| 0 <= k < self.code.symbol_to_index@.len() && (#[trigger] self.code.symbol_to_index@[k]).0 == from
                && self.code.symbol_to_index@[k].1 == from_idx;
            assert(crate::graph::is_symbol_node(self.nodes(), self.code.symbol_to_index@[k].1, self.code.symbol_to_index@[k].0));
            let k2 = choose|k: int| 0 <= k < self.code.symbol_to_index@.len() && (#[trigger] self.code.symbol_to_index@[k]).0 == to
                && self.code.symbol_to_index@[k].1 == to_idx;
            assert(crate::graph::is_symbol_node(self.nodes(), self.code.symbol_to_index@[k2].1, self.code.symbol_to_index@[k2].0));
        }
        self.insert_edge(from_idx, to_idx, EdgeKind::Reference, confidence);
    }

    /// Number of nodes so far.
    pub fn node_count(&self) -> (r: usize)
        ensures
            r == self.nodes().len(),
    {
        self.code.node_count()
    }

    /// Number of edges so far.
    pub fn edge_count(&self) -> (r: usize)
        ensures
            r == self.edges().len(),
    {
        self.code.edge_count()
    }

    /// Number of external dependency nodes.
    pub fn external_count(&self) -> (r: usize)
        ensures
            r == self.code.external_index@.len(),
    {
        self.code.external_count()
    }

    /// Finalizes the graph.
    pub fn build(self) -> (r: CodeGraph)
        requires
            self.wf(),
        ensures
            r == self.code,
            r.wf(),
    {
        self.code
    }
}

/// Component-wise path equality is an equivalence.
pub proof fn lemma_same_path_symmetric_transitive(a: Seq<char>, b: Seq<char>, c: Seq<char>)
    ensures
        same_path(a, b) ==> same_path(b, a),
        same_path(a, b) && same_path(b, c) ==> same_path(a, c),
        same_path(a, a),
{
}

/// The state after registering the file of every extraction, in order.
pub open spec fn files_stage(st: BuildState, exs: Seq<FileExtraction>, snapshot_id: SnapshotId) -> BuildState
    decreases exs.len(),
{
    if exs.len() == 0 {
        st
    } else {
        spec_add_file(files_stage(st, exs.drop_last(), snapshot_id), exs.last().path, exs.last().lang, snapshot_id)
    }
}

proof fn lemma_files_stage_growth(st: BuildState, exs: Seq<FileExtraction>, snapshot_id: SnapshotId)
    ensures
        files_stage(st, exs, snapshot_id).nodes.len() <= st.nodes.len() + exs.len(),
        files_stage(st, exs, snapshot_id).next_file_id <= st.next_file_id + exs.len(),
        files_stage(st, exs, snapshot_id).edges == st.edges,
    decreases exs.len(),
{
    if exs.len() > 0 {
        lemma_files_stage_growth(st, exs.drop_last(), snapshot_id);
    }
}

/// Registers the file of every extraction as a node, in order; a path
/// registered before keeps its file.
pub fn register_files(builder: &mut GraphBuilder, extractions: &Vec<FileExtraction>)
    requires
        old(builder).wf(),
        old(builder).has_room(extractions@.len()),
    ensures
        final(builder).wf(),
        final(builder).state() == files_stage(old(builder).state(), extractions@, old(builder).code.snapshot_id),
        final(builder).code.snapshot_id == old(builder).code.snapshot_id,
{
    let ghost st0 = builder.state();
    let ghost snap = builder.code.snapshot_id;
    let ghost n = extractions@.len();
    let mut i: usize = 0;
    while i < extractions.len()
        invariant
            builder.wf(),
            n == extractions@.len(),
            0 <= i <= n,
            builder.code.snapshot_id == snap,
            builder.state() == files_stage(st0, extractions@.take(i as int), snap),
            st0.nodes.len() + n + 1 < index_limit(),
            st0.edges.len() + n + 1 < index_limit(),
            st0.next_file_id + n < u32::MAX,
        decreases n - i,
    {
        proof {
            lemma_files_stage_growth(st0, extractions@.take(i as int), snap);
            assert(extractions@.take(i + 1).drop_last() =~= extractions@.take(i as int));
            assert(extractions@.take(i + 1).last() == extractions@[i as int]);
        }
        builder.add_file(extractions[i].path.clone(), extractions[i].lang);
        i = i + 1;
    }
    proof {
        assert(extractions@.take(n as int) =~= extractions@);
    }
}

/// A diagnostic as plain values.
pub type DiagnosticView = (Seq<char>, Severity, Seq<char>, Option<SourceRange>);

/// The message of a symbol whose file is not registered.
pub open spec fn symbol_failure_message() -> Seq<char> {
    "failed to add symbol to graph: graph: file must be added before its symbols"@
}

/// Adding the symbols of one file, in order, with a warning at the file's
/// path for each symbol that fails.
pub open spec fn file_symbols_stage(st: BuildState, symbols: Seq<Symbol>, path: Seq<char>) -> (BuildState, Seq<DiagnosticView>)
    decreases symbols.len(),
{
    if symbols.len() == 0 {
        (st, Seq::empty())
    } else {
        let prev = file_symbols_stage(st, symbols.drop_last(), path);
        let s = symbols.last();
        (
            spec_add_symbol(prev.0, s),
            if symbol_fails(prev.0, s) {
                prev.1.push((path, Severity::Warning, symbol_failure_message(), None))
            } else {
                prev.1
            },
        )
    }
}

/// Adding the symbols of every extraction, file after file.
pub open spec fn symbols_stage(st: BuildState, exs: Seq<FileExtraction>) -> (BuildState, Seq<DiagnosticView>)
    decreases exs.len(),
{
    if exs.len() == 0 {
        (st, Seq::empty())
    } else {
        let prev = symbols_stage(st, exs.drop_last());
        let step = file_symbols_stage(prev.0, exs.last().symbols@, exs.last().path@);
        (step.0, prev.1 + step.1)
    }
}

/// The number of symbols of the extractions.
pub open spec fn symbol_count(exs: Seq<FileExtraction>) -> nat
    decreases exs.len(),
{
    if exs.len() == 0 {
        0
    } else {
        symbol_count(exs.drop_last()) + exs.last().symbols@.len()
    }
}

proof fn lemma_merge_edge_len(es: Seq<(usize, usize, EdgeData)>, src: usize, dst: usize, kind: EdgeKind, confidence: u32)
    ensures
        merge_edge(es, src, dst, kind, confidence).len() <= es.len() + 1,
{
}

proof fn lemma_file_symbols_growth(st: BuildState, symbols: Seq<Symbol>, path: Seq<char>)
    ensures
        file_symbols_stage(st, symbols, path).0.nodes.len() <= st.nodes.len() + symbols.len(),
        file_symbols_stage(st, symbols, path).0.edges.len() <= st.edges.len() + symbols.len(),
        file_symbols_stage(st, symbols, path).0.next_file_id == st.next_file_id,
        file_symbols_stage(st, symbols, path).0.files == st.files,
    decreases symbols.len(),
{
    if symbols.len() > 0 {
        let prev = file_symbols_stage(st, symbols.drop_last(), path);
        lemma_file_symbols_growth(st, symbols.drop_last(), path);
        match lookup(prev.0.symbol_index, symbols.last().id) {
            Some(_) => {},
            None => match path_lookup(prev.0.files, symbols.last().file_path@) {
                None => {},
                Some(fid) => {
                    lemma_merge_edge_len(prev.0.edges, lookup(prev.0.file_index, fid)->0, prev.0.nodes.len() as usize, EdgeKind::Ownership, CONFIDENCE_OWN_OR_DIRECT);
                },
            },
        }
    }
}

proof fn lemma_symbols_growth(st: BuildState, exs: Seq<FileExtraction>)
    ensures
        symbols_stage(st, exs).0.nodes.len() <= st.nodes.len() + symbol_count(exs),
        symbols_stage(st, exs).0.edges.len() <= st.edges.len() + symbol_count(exs),
        symbols_stage(st, exs).0.next_file_id == st.next_file_id,
        symbols_stage(st, exs).0.files == st.files,
    decreases exs.len(),
{
    if exs.len() > 0 {
        lemma_symbols_growth(st, exs.drop_last());
        let prev = symbols_stage(st, exs.drop_last());
        lemma_file_symbols_growth(prev.0, exs.last().symbols@, exs.last().path@);
    }
}

/// Registers every symbol with its ownership edge, file after file. A
/// symbol whose file is not registered is a warning at its extraction's
/// path: the extraction order broke, and the rest of the graph is still
/// usable.
pub fn register_symbols(builder: &mut GraphBuilder, extractions: &Vec<FileExtraction>, diagnostics: &mut Vec<Diagnostic>)
    requires
        old(builder).wf(),
        old(builder).has_room(symbol_count(extractions@)),
    ensures
        final(builder).wf(),
        final(builder).state() == symbols_stage(old(builder).state(), extractions@).0,
        final(diagnostics)@.map_values(|d: Diagnostic| diagnostic_view(d)) == old(diagnostics)@.map_values(|d: Diagnostic| diagnostic_view(d))
            + symbols_stage(old(builder).state(), extractions@).1,
        final(builder).code.snapshot_id == old(builder).code.snapshot_id,
{
    let ghost st0 = builder.state();
    let ghost snap = builder.code.snapshot_id;
    let ghost d0 = diagnostics@.map_values(|d: Diagnostic| diagnostic_view(d));
    let ghost total = symbol_count(extractions@);
    let n = extractions.len();
    let mut i: usize = 0;
    while i < n
        invariant
            builder.wf(),
            n == extractions@.len(),
            0 <= i <= n,
            builder.code.snapshot_id == snap,
            builder.state() == symbols_stage(st0, extractions@.take(i as int)).0,
            diagnostics@.map_values(|d: Diagnostic| diagnostic_view(d)) == d0 + symbols_stage(st0, extractions@.take(i as int)).1,
            symbol_count(extractions@.take(i as int)) <= total,
            total == symbol_count(extractions@),
            st0.nodes.len() + total + 1 < index_limit(),
            st0.edges.len() + total + 1 < index_limit(),
            st0.next_file_id + total < u32::MAX,
        decreases n - i,
    {
        let ghost s_i = builder.state();
        let ghost di = diagnostics@.map_values(|d: Diagnostic| diagnostic_view(d));
        let ghost done = symbol_count(extractions@.take(i as int));
        proof {
            assert(extractions@.take(i + 1).drop_last() =~= extractions@.take(i as int));
            assert(extractions@.take(i + 1).last() == extractions@[i as int]);
            lemma_symbol_count_prefix(extractions@, i as int);
            lemma_symbols_growth(st0, extractions@.take(i as int));
        }
        let file = &extractions[i];
        let m = file.symbols.len();
        let mut j: usize = 0;
        while j < m
            invariant
                builder.wf(),
                n == extractions@.len(),
                0 <= i < n,
                *file == extractions@[i as int],
                m == file.symbols@.len(),
                0 <= j <= m,
                builder.code.snapshot_id == snap,
                builder.state() == file_symbols_stage(s_i, file.symbols@.take(j as int), file.path@).0,
                diagnostics@.map_values(|d: Diagnostic| diagnostic_view(d)) == di + file_symbols_stage(s_i, file.symbols@.take(j as int), file.path@).1,
                s_i.nodes.len() + m + 1 < index_limit(),
                s_i.edges.len() + m + 1 < index_limit(),
                s_i.next_file_id + m < u32::MAX,
            decreases m - j,
        {
            proof {
                assert(file.symbols@.take(j + 1).drop_last() =~= file.symbols@.take(j as int));
                assert(file.symbols@.take(j + 1).last() == file.symbols@[j as int]);
                lemma_file_symbols_growth(s_i, file.symbols@.take(j as int), file.path@);
            }
            let ghost before = builder.state();
            let ghost dbefore = diagnostics@;
            let added = builder.add_symbol(&file.symbols[j]);
            if added.is_err() {
                let mut message = crate::text::string_from("failed to add symbol to graph: graph: file must be added before its symbols");
                proof {
                    reveal_strlit("failed to add symbol to graph: graph: file must be added before its symbols");
                }
                diagnostics.push(Diagnostic { path: file.path.clone(), severity: Severity::Warning, message, source_range: None });
                proof {
                    assert(diagnostics@.map_values(|d: Diagnostic| diagnostic_view(d)) =~= dbefore.map_values(|d: Diagnostic| diagnostic_view(d)).push(
                        (file.path@, Severity::Warning, symbol_failure_message(), None),
                    ));
                }
            }
            j = j + 1;
        }
        proof {
            assert(file.symbols@.take(m as int) =~= file.symbols@);
        }
        i = i + 1;
    }
    proof {
        assert(extractions@.take(n as int) =~= extractions@);
    }
}

proof fn lemma_symbol_count_prefix(exs: Seq<FileExtraction>, i: int)
    requires
        0 <= i < exs.len(),
    ensures
        symbol_count(exs.take(i + 1)) == symbol_count(exs.take(i)) + exs[i].symbols@.len(),
        symbol_count(exs.take(i + 1)) <= symbol_count(exs),
    decreases exs.len() - i,
{
    assert(exs.take(i + 1).drop_last() =~= exs.take(i));
    if i + 1 < exs.len() {
        lemma_symbol_count_prefix(exs, i + 1);
    } else {
        assert(exs.take(i + 1) =~= exs);
    }
}

/// What the language resolver answered for one import: the specifier it
/// was given and the path it resolved to, if any.
#[derive(Debug, Clone)]
pub struct ImportQuery {
    pub specifier: String,
    pub target: Option<String>,
}

/// A specifier that addresses the project: after its quotes, it starts
/// with `.` or `/`.
pub open spec fn is_relative_specifier(s: Seq<char>) -> bool {
    let t = trim_class(s, Trim::ImportQuote);
    t.len() > 0 && (t[0] == '.' || t[0] == '/')
}

/// The node name of an unresolved import that does not address the
/// project: the specifier without its include delimiters (C and C++) or
/// its quotes (every other language).
pub open spec fn external_name(lang: LangId, s: Seq<char>) -> Seq<char> {
    if lang == LangId::C || lang == LangId::Cpp {
        trim_class(s, Trim::IncludeDelimiter)
    } else {
        trim_class(s, Trim::ImportQuote)
    }
}

/// The warning of a relative import that resolves to no file.
pub open spec fn relative_import_message(s: Seq<char>) -> Seq<char> {
    "unresolved relative import: "@ + s
}

/// Whether a specifier addresses the project (see [`is_relative_specifier`]).
pub fn relative_specifier(s: &str) -> (r: bool)
    ensures
        r == is_relative_specifier(s@),
{
    let cs = chars_of(s);
    let t = trim_of(cs.as_slice(), Trim::ImportQuote);
    t.len() > 0 && (t[0] == '.' || t[0] == '/')
}

/// The node name of an unresolved, non-relative import (see [`external_name`]).
pub fn external_name_of(lang: LangId, s: &str) -> (r: String)
    ensures
        r@ == external_name(lang, s@),
{
    let cs = chars_of(s);
    let t = match lang {
        LangId::C | LangId::Cpp => trim_of(cs.as_slice(), Trim::IncludeDelimiter),
        _ => trim_of(cs.as_slice(), Trim::ImportQuote),
    };
    string_of(t.as_slice())
}

/// A binding as plain values, with its importer and target.
pub type BindingView = (FileId, FileId, (int, Seq<char>, Seq<char>));

/// The effect of one import of the file at `path` (id `from`): a resolved
/// target is imported, and a project target also records the import's
/// binding; an unresolved relative import is a warning; any other
/// unresolved import joins the external node `name`.
pub open spec fn import_step(
    st: BuildState,
    path: Seq<char>,
    lang: LangId,
    from: FileId,
    import: UnresolvedImport,
    q: ImportQuery,
    name: String,
) -> (BuildState, Seq<DiagnosticView>, Seq<BindingView>) {
    match q.target {
        Some(t) => (
            spec_add_import(st, from, t),
            Seq::empty(),
            match path_lookup(st.files, t@) {
                Some(tid) => seq![(from, tid, spec_import_binding(lang, import.star, opt_view(import.symbol), opt_view(import.alias)))],
                None => Seq::empty(),
            },
        ),
        None => if is_relative_specifier(q.specifier@) {
            (st, seq![(path, Severity::Warning, relative_import_message(q.specifier@), Some(import.range))], Seq::empty())
        } else {
            (spec_add_import(st, from, name), Seq::empty(), Seq::empty())
        },
    }
}

/// The imports of one file, in order (`queries[k]` answers `imports[k]`,
/// `names[k]` is its external name).
pub open spec fn file_imports_stage(
    st: BuildState,
    path: Seq<char>,
    lang: LangId,
    from: FileId,
    imports: Seq<UnresolvedImport>,
    queries: Seq<ImportQuery>,
    names: Seq<String>,
) -> (BuildState, Seq<DiagnosticView>, Seq<BindingView>)
    decreases queries.len(),
{
    if queries.len() == 0 {
        (st, Seq::empty(), Seq::empty())
    } else {
        let k = queries.len() - 1;
        let prev = file_imports_stage(st, path, lang, from, imports, queries.drop_last(), names);
        let step = import_step(prev.0, path, lang, from, imports[k], queries.last(), names[k]);
        (step.0, prev.1 + step.1, prev.2 + step.2)
    }
}

/// The imports of every extraction whose file is registered, file after
/// file.
pub open spec fn imports_stage(
    st: BuildState,
    exs: Seq<FileExtraction>,
    queries: Seq<Vec<ImportQuery>>,
    names: Seq<Seq<String>>,
) -> (BuildState, Seq<DiagnosticView>, Seq<BindingView>)
    decreases exs.len(),
{
    if exs.len() == 0 {
        (st, Seq::empty(), Seq::empty())
    } else {
        let i = exs.len() - 1;
        let prev = imports_stage(st, exs.drop_last(), queries, names);
        let ex = exs.last();
        match path_lookup(prev.0.files, ex.path@) {
            None => prev,
            Some(from) => {
                let step = file_imports_stage(prev.0, ex.path@, ex.lang, from, ex.imports@, queries[i]@, names[i]);
                (step.0, prev.1 + step.1, prev.2 + step.2)
            },
        }
    }
}

/// The names of the imports are their external names.
pub open spec fn names_match(exs: Seq<FileExtraction>, queries: Seq<Vec<ImportQuery>>, names: Seq<Seq<String>>) -> bool {
    &&& names.len() == exs.len()
    &&& forall|i: int| 0 <= i < exs.len() ==> (#[trigger] names[i]).len() == queries[i]@.len()
    &&& forall|i: int, k: int| 0 <= i < exs.len() && 0 <= k < names[i].len() ==> (#[trigger] names[i][k])@ == external_name(
        exs[i].lang,
        queries[i]@[k].specifier@,
    )
}

/// The number of imports of the extractions.
pub open spec fn import_count(exs: Seq<FileExtraction>) -> nat
    decreases exs.len(),
{
    if exs.len() == 0 {
        0
    } else {
        import_count(exs.drop_last()) + exs.last().imports@.len()
    }
}

proof fn lemma_add_import_growth(st: BuildState, from: FileId, to: String)
    ensures
        spec_add_import(st, from, to).nodes.len() <= st.nodes.len() + 1,
        spec_add_import(st, from, to).edges.len() <= st.edges.len() + 1,
        spec_add_import(st, from, to).files == st.files,
        spec_add_import(st, from, to).next_file_id == st.next_file_id,
{
    match lookup(st.file_index, from) {
        None => {},
        Some(from_idx) => {
            let source_language = st.nodes[from_idx as int]->File_0.language;
            match path_lookup(st.files, to@) {
                Some(to_id) => {
                    let to_idx = lookup(st.file_index, to_id)->0;
                    let target_language = st.nodes[to_idx as int]->File_0.language;
                    lemma_merge_edge_len(st.edges, from_idx, to_idx, EdgeKind::Import, import_confidence(source_language, target_language));
                },
                None => match lookup(st.external, to@) {
                    Some(ext) => lemma_merge_edge_len(st.edges, from_idx, ext, EdgeKind::Import, CONFIDENCE_OWN_OR_DIRECT),
                    None => lemma_merge_edge_len(st.edges, from_idx, st.nodes.len() as usize, EdgeKind::Import, CONFIDENCE_OWN_OR_DIRECT),
                },
            }
        },
    }
}

proof fn lemma_file_imports_growth(
    st: BuildState,
    path: Seq<char>,
    lang: LangId,
    from: FileId,
    imports: Seq<UnresolvedImport>,
    queries: Seq<ImportQuery>,
    names: Seq<String>,
)
    ensures
        file_imports_stage(st, path, lang, from, imports, queries, names).0.nodes.len() <= st.nodes.len() + queries.len(),
        file_imports_stage(st, path, lang, from, imports, queries, names).0.edges.len() <= st.edges.len() + queries.len(),
        file_imports_stage(st, path, lang, from, imports, queries, names).0.files == st.files,
        file_imports_stage(st, path, lang, from, imports, queries, names).0.next_file_id == st.next_file_id,
    decreases queries.len(),
{
    if queries.len() > 0 {
        let k = queries.len() - 1;
        lemma_file_imports_growth(st, path, lang, from, imports, queries.drop_last(), names);
        let prev = file_imports_stage(st, path, lang, from, imports, queries.drop_last(), names);
        match queries.last().target {
            Some(t) => lemma_add_import_growth(prev.0, from, t),
            None => lemma_add_import_growth(prev.0, from, names[k]),
        }
    }
}

proof fn lemma_imports_growth(st: BuildState, exs: Seq<FileExtraction>, queries: Seq<Vec<ImportQuery>>, names: Seq<Seq<String>>)
    requires
        queries.len() >= exs.len(),
        forall|i: int| 0 <= i < exs.len() ==> (#[trigger] queries[i])@.len() == exs[i].imports@.len(),
    ensures
        imports_stage(st, exs, queries, names).0.nodes.len() <= st.nodes.len() + import_count(exs),
        imports_stage(st, exs, queries, names).0.edges.len() <= st.edges.len() + import_count(exs),
        imports_stage(st, exs, queries, names).0.files == st.files,
        imports_stage(st, exs, queries, names).0.next_file_id == st.next_file_id,
    decreases exs.len(),
{
    if exs.len() > 0 {
        let i = exs.len() - 1;
        lemma_imports_growth(st, exs.drop_last(), queries, names);
        let prev = imports_stage(st, exs.drop_last(), queries, names);
        match path_lookup(prev.0.files, exs.last().path@) {
            None => {},
            Some(from) => {
                lemma_file_imports_growth(prev.0, exs.last().path@, exs.last().lang, from, exs.last().imports@, queries[i]@, names[i]);
            },
        }
    }
}

proof fn lemma_import_count_prefix(exs: Seq<FileExtraction>, i: int)
    requires
        0 <= i < exs.len(),
    ensures
        import_count(exs.take(i + 1)) == import_count(exs.take(i)) + exs[i].imports@.len(),
        import_count(exs.take(i + 1)) <= import_count(exs),
    decreases exs.len() - i,
{
    assert(exs.take(i + 1).drop_last() =~= exs.take(i));
    if i + 1 < exs.len() {
        lemma_import_count_prefix(exs, i + 1);
    } else {
        assert(exs.take(i + 1) =~= exs);
    }
}

proof fn lemma_file_imports_names(
    st: BuildState,
    path: Seq<char>,
    lang: LangId,
    from: FileId,
    imports: Seq<UnresolvedImport>,
    queries: Seq<ImportQuery>,
    n1: Seq<String>,
    n2: Seq<String>,
)
    requires
        forall|j: int| 0 <= j < queries.len() ==> n1[j] == n2[j],
    ensures
        file_imports_stage(st, path, lang, from, imports, queries, n1) == file_imports_stage(st, path, lang, from, imports, queries, n2),
    decreases queries.len(),
{
    if queries.len() > 0 {
        lemma_file_imports_names(st, path, lang, from, imports, queries.drop_last(), n1, n2);
    }
}

proof fn lemma_imports_names(st: BuildState, exs: Seq<FileExtraction>, queries: Seq<Vec<ImportQuery>>, n1: Seq<Seq<String>>, n2: Seq<Seq<String>>)
    requires
        forall|j: int| 0 <= j < exs.len() ==> n1[j] == n2[j],
    ensures
        imports_stage(st, exs, queries, n1) == imports_stage(st, exs, queries, n2),
    decreases exs.len(),
{
    if exs.len() > 0 {
        lemma_imports_names(st, exs.drop_last(), queries, n1, n2);
    }
}

/// The outcome of the import stage, for some choice of external names.
pub open spec fn imports_outcome(
    st: BuildState,
    exs: Seq<FileExtraction>,
    queries: Seq<Vec<ImportQuery>>,
    names: Seq<Seq<String>>,
    after: BuildState,
    added: Seq<DiagnosticView>,
    bindings: Seq<BindingView>,
) -> bool {
    &&& names_match(exs, queries, names)
    &&& imports_stage(st, exs, queries, names) == (after, added, bindings)
}

/// A binding with its importer and target, as plain values.
pub open spec fn binding_entry_view(e: (FileId, FileId, ImportBinding)) -> BindingView {
    (e.0, e.1, binding_view(e.2))
}

/// Bindings as plain values.
pub open spec fn binding_views(bs: Seq<(FileId, FileId, ImportBinding)>) -> Seq<BindingView> {
    bs.map_values(|e: (FileId, FileId, ImportBinding)| binding_entry_view(e))
}

/// Diagnostics as plain values.
pub open spec fn diag_views(ds: Seq<Diagnostic>) -> Seq<DiagnosticView> {
    ds.map_values(|d: Diagnostic| diagnostic_view(d))
}

/// Resolves the imports of every extraction whose file is registered, from
/// what the language resolver answered for each (`queries[i][k]` answers
/// the `k`-th import of the `i`-th extraction).
///
/// A resolved target gets an import edge, and a project target also records
/// the import's binding, which the result lists. An unresolved relative
/// import is a warning, because the file it names is missing from the
/// tree; any other unresolved import becomes an external node.
pub fn resolve_imports(
    builder: &mut GraphBuilder,
    extractions: &Vec<FileExtraction>,
    queries: &Vec<Vec<ImportQuery>>,
    diagnostics: &mut Vec<Diagnostic>,
) -> (bindings: Vec<(FileId, FileId, ImportBinding)>)
    requires
        old(builder).wf(),
        old(builder).has_room(import_count(extractions@)),
        queries@.len() == extractions@.len(),
        forall|i: int| 0 <= i < extractions@.len() ==> (#[trigger] queries@[i])@.len() == extractions@[i].imports@.len(),
    ensures
        final(builder).wf(),
        final(builder).code.snapshot_id == old(builder).code.snapshot_id,
        exists|names: Seq<Seq<String>>|
            #[trigger] imports_outcome(
                old(builder).state(),
                extractions@,
                queries@,
                names,
                final(builder).state(),
                diag_views(final(diagnostics)@).skip(old(diagnostics)@.len() as int),
                binding_views(bindings@),
            ),
        final(diagnostics)@.len() >= old(diagnostics)@.len(),
        final(diagnostics)@.take(old(diagnostics)@.len() as int) == old(diagnostics)@,
{
    let ghost st0 = builder.state();
    let ghost snap = builder.code.snapshot_id;
    let ghost d0 = diagnostics@;
    let ghost total = import_count(extractions@);
    let ghost mut names: Seq<Seq<String>> = Seq::empty();
    let mut bindings: Vec<(FileId, FileId, ImportBinding)> = Vec::new();
    let n = extractions.len();
    let mut i: usize = 0;
    while i < n
        invariant
            builder.wf(),
            n == extractions@.len(),
            queries@.len() == n,
            forall|q: int| 0 <= q < n ==> (#[trigger] queries@[q])@.len() == extractions@[q].imports@.len(),
            0 <= i <= n,
            builder.code.snapshot_id == snap,
            names.len() == i,
            names_match(extractions@.take(i as int), queries@, names),
            imports_stage(st0, extractions@.take(i as int), queries@, names) == (
                builder.state(),
                diag_views(diagnostics@).skip(d0.len() as int),
                binding_views(bindings@),
            ),
            diagnostics@.len() >= d0.len(),
            diagnostics@.take(d0.len() as int) == d0,
            builder.state().files == st0.files,
            builder.state().next_file_id == st0.next_file_id,
            import_count(extractions@.take(i as int)) <= total,
            total == import_count(extractions@),
            builder.state().nodes.len() <= st0.nodes.len() + import_count(extractions@.take(i as int)),
            builder.state().edges.len() <= st0.edges.len() + import_count(extractions@.take(i as int)),
            st0.nodes.len() + total + 1 < index_limit(),
            st0.edges.len() + total + 1 < index_limit(),
            st0.next_file_id + total < u32::MAX,
        decreases n - i,
    {
        proof {
            assert(extractions@.take(i + 1).drop_last() =~= extractions@.take(i as int));
            assert(extractions@.take(i + 1).last() == extractions@[i as int]);
            lemma_import_count_prefix(extractions@, i as int);
        }
        let file = &extractions[i];
        let file_queries = &queries[i];
        let source = builder.file_id_for_path(file.path.as_str());
        let ghost s_i = builder.state();
        let ghost dv_i = diag_views(diagnostics@).skip(d0.len() as int);
        let ghost b_i = binding_views(bindings@);
        let ghost mut file_names: Seq<String> = Seq::empty();
        let m = file_queries.len();
        let mut k: usize = 0;
        while k < m
            invariant
                builder.wf(),
                n == extractions@.len(),
                0 <= i < n,
                *file == extractions@[i as int],
                *file_queries == queries@[i as int],
                m == file_queries@.len(),
                m == file.imports@.len(),
                0 <= k <= m,
                builder.code.snapshot_id == snap,
                source == path_lookup(s_i.files, file.path@),
                file_names.len() == k,
                forall|j: int| 0 <= j < k ==> (#[trigger] file_names[j])@ == external_name(file.lang, file_queries@[j].specifier@),
                diagnostics@.len() >= d0.len(),
                diagnostics@.take(d0.len() as int) == d0,
                source is None ==> builder.state() == s_i && diag_views(diagnostics@).skip(d0.len() as int) == dv_i
                    && binding_views(bindings@) == b_i,
                source is Some ==> builder.state() == file_imports_stage(s_i, file.path@, file.lang, source->0, file.imports@, file_queries@.take(k as int), file_names).0,
                source is Some ==> diag_views(diagnostics@).skip(d0.len() as int) == dv_i + file_imports_stage(s_i, file.path@, file.lang, source->0, file.imports@, file_queries@.take(k as int), file_names).1,
                source is Some ==> binding_views(bindings@) == b_i + file_imports_stage(s_i, file.path@, file.lang, source->0, file.imports@, file_queries@.take(k as int), file_names).2,
                builder.state().files == s_i.files,
                builder.state().next_file_id == s_i.next_file_id,
                builder.state().nodes.len() <= s_i.nodes.len() + k,
                builder.state().edges.len() <= s_i.edges.len() + k,
                s_i.nodes.len() + m + 1 < index_limit(),
                s_i.edges.len() + m + 1 < index_limit(),
                s_i.next_file_id + m < u32::MAX,
            decreases m - k,
        {
            let q = &file_queries[k];
            let import = &file.imports[k];
            let name = external_name_of(file.lang, q.specifier.as_str());
            let ghost before = builder.state();
            let ghost dbefore = diagnostics@;
            let ghost bbefore = bindings@;
            proof {
                assert(file_queries@.take(k + 1).drop_last() =~= file_queries@.take(k as int));
                assert(file_queries@.take(k + 1).last() == file_queries@[k as int]);
            }
            if let Some(from) = source {
                proof {
                    lemma_add_import_growth(before, from, name);
                }
                match &q.target {
                    Some(t) => {
                        let target_id = builder.file_id_for_path(t.as_str());
                        proof {
                            lemma_add_import_growth(before, from, *t);
                        }
                        builder.add_import(from, t.clone());
                        if let Some(tid) = target_id {
                            let binding = import_binding_for(file.lang, import);
                            bindings.push((from, tid, binding));
                            proof {
                                assert(binding_views(bindings@) =~= binding_views(bbefore).push((from, tid, binding_view(binding))));
                            }
                        }
                    },
                    None => {
                        if relative_specifier(q.specifier.as_str()) {
                            let mut message = crate::text::string_from("unresolved relative import: ");
                            crate::text::push_str(&mut message, q.specifier.as_str());
                            proof {
                                reveal_strlit("unresolved relative import: ");
                            }
                            diagnostics.push(Diagnostic {
                                path: file.path.clone(),
                                severity: Severity::Warning,
                                message,
                                source_range: Some(import.range),
                            });
                            proof {
                                assert(diagnostics@.take(d0.len() as int) =~= d0);
                                assert(diag_views(diagnostics@).skip(d0.len() as int) =~= diag_views(dbefore).skip(d0.len() as int).push(
                                    (file.path@, Severity::Warning, relative_import_message(q.specifier@), Some(import.range)),
                                ));
                            }
                        } else {
                            builder.add_import(from, name.clone());
                        }
                    },
                }
            }
            proof {
                let old_names = file_names;
                file_names = file_names.push(name);
                if let Some(from) = source {
                    lemma_file_imports_names(s_i, file.path@, file.lang, from, file.imports@, file_queries@.take(k as int), old_names, file_names);
                }
            }
            k = k + 1;
        }
        proof {
            assert(file_queries@.take(m as int) =~= file_queries@);
            let old_all = names;
            names = names.push(file_names);
            lemma_imports_names(st0, extractions@.take(i as int), queries@, old_all, names);
        }
        i = i + 1;
    }
    proof {
        assert(extractions@.take(n as int) =~= extractions@);
        assert(imports_outcome(
            st0,
            extractions@,
            queries@,
            names,
            builder.state(),
            diag_views(diagnostics@).skip(d0.len() as int),
            binding_views(bindings@),
        ));
    }
    bindings
}

/// The file registered at a node index (the last registration naming it).
pub open spec fn index_file(f2i: Seq<(FileId, usize)>, idx: usize) -> Option<FileId>
    decreases f2i.len(),
{
    if f2i.len() == 0 {
        None
    } else if f2i.last().1 == idx {
        Some(f2i.last().0)
    } else {
        index_file(f2i.drop_last(), idx)
    }
}

/// The position of the (last) entry of a key.
pub open spec fn key_index(adj: Seq<(FileId, Seq<FileId>)>, a: FileId) -> Option<int>
    decreases adj.len(),
{
    if adj.len() == 0 {
        None
    } else if adj.last().0 == a {
        Some(adj.len() - 1)
    } else {
        key_index(adj.drop_last(), a)
    }
}

proof fn lemma_key_index(adj: Seq<(FileId, Seq<FileId>)>, a: FileId)
    ensures
        key_index(adj, a) matches Some(p) ==> 0 <= p < adj.len() && adj[p].0 == a,
    decreases adj.len(),
{
    if adj.len() > 0 {
        lemma_key_index(adj.drop_last(), a);
    }
}

/// `b` joins the neighbours of `a`; a new key comes last.
pub open spec fn add_neighbor(adj: Seq<(FileId, Seq<FileId>)>, a: FileId, b: FileId) -> Seq<(FileId, Seq<FileId>)> {
    match key_index(adj, a) {
        Some(p) => adj.update(p, (a, adj[p].1.push(b))),
        None => adj.push((a, seq![b])),
    }
}

/// For every import edge between two registered files, in edge order, the
/// target joins the source's neighbours.
pub open spec fn import_adjacency_of(f2i: Seq<(FileId, usize)>, edges: Seq<(usize, usize, EdgeData)>) -> Seq<(FileId, Seq<FileId>)>
    decreases edges.len(),
{
    if edges.len() == 0 {
        Seq::empty()
    } else {
        let prev = import_adjacency_of(f2i, edges.drop_last());
        let e = edges.last();
        if e.2.kind == EdgeKind::Import && index_file(f2i, e.0) is Some && index_file(f2i, e.1) is Some {
            add_neighbor(prev, index_file(f2i, e.0)->0, index_file(f2i, e.1)->0)
        } else {
            prev
        }
    }
}

/// An adjacency as plain values.
pub open spec fn adjacency_view(v: Seq<(FileId, Vec<FileId>)>) -> Seq<(FileId, Seq<FileId>)> {
    v.map_values(|e: (FileId, Vec<FileId>)| (e.0, e.1@))
}

fn index_file_of(f2i: &Vec<(FileId, usize)>, idx: usize) -> (r: Option<FileId>)
    ensures
        r == index_file(f2i@, idx),
{
    let mut i: usize = f2i.len();
    proof { assert(f2i@.take(i as int) =~= f2i@); }
    while i > 0
        invariant
            0 <= i <= f2i@.len(),
            index_file(f2i@, idx) == index_file(f2i@.take(i as int), idx),
        decreases i,
    {
        proof {
            assert(f2i@.take(i as int).last() == f2i@[i - 1]);
            assert(f2i@.take(i as int).drop_last() =~= f2i@.take(i - 1));
        }
        if f2i[i - 1].1 == idx {
            return Some(f2i[i - 1].0);
        }
        i = i - 1;
    }
    None
}

fn push_neighbor(adj: &mut Vec<(FileId, Vec<FileId>)>, a: FileId, b: FileId)
    ensures
        adjacency_view(final(adj)@) == add_neighbor(adjacency_view(old(adj)@), a, b),
{
    let ghost v0 = adjacency_view(adj@);
    let mut i: usize = adj.len();
    proof { assert(v0.take(i as int) =~= v0); }
    while i > 0
        invariant
            0 <= i <= adj@.len(),
            adj@ == old(adj)@,
            v0 == adjacency_view(adj@),
            key_index(v0, a) == key_index(v0.take(i as int), a),
        decreases i,
    {
        proof {
            assert(v0.take(i as int).last() == v0[i - 1]);
            assert(v0.take(i as int).drop_last() =~= v0.take(i - 1));
        }
        if adj[i - 1].0 == a {
            proof {
                assert(v0[i - 1].0 == a);
                assert(key_index(v0, a) == Some(i - 1));
            }
            let mut entry = adj.remove(i - 1);
            entry.1.push(b);
            adj.insert(i - 1, entry);
            proof {
                assert(adjacency_view(adj@) =~= v0.update(i - 1, (a, v0[i - 1].1.push(b))));
                assert(add_neighbor(v0, a, b) == v0.update(i - 1, (a, v0[i - 1].1.push(b))));
                assert(v0 == adjacency_view(old(adj)@));
            }
            return;
        }
        i = i - 1;
    }
    let nb = vec![b];
    proof {
        assert(nb@ =~= seq![b]);
        assert(v0.take(0) =~= Seq::<(FileId, Seq<FileId>)>::empty());
    }
    adj.push((a, nb));
    proof {
        assert(adjacency_view(adj@) =~= v0.push((a, seq![b])));
    }
}

impl GraphBuilder {
    /// The files each file imports, from the import edges between registered
    /// files, in edge order.
    pub fn import_adjacency(&self) -> (r: Vec<(FileId, Vec<FileId>)>)
        ensures
            adjacency_view(r@) == import_adjacency_of(self.code.file_to_index@, self.edges()),
    {
        let mut adj: Vec<(FileId, Vec<FileId>)> = Vec::new();
        let m = self.code.edge_count();
        let mut i: usize = 0;
        while i < m
            invariant
                m == self.edges().len(),
                0 <= i <= m,
                adjacency_view(adj@) == import_adjacency_of(self.code.file_to_index@, self.edges().take(i as int)),
            decreases m - i,
        {
            proof {
                assert(self.edges().take(i + 1).drop_last() =~= self.edges().take(i as int));
                assert(self.edges().take(i + 1).last() == self.edges()[i as int]);
            }
            let e = self.code.edge(i);
            if e.2.kind == EdgeKind::Import {
                let from = index_file_of(&self.code.file_to_index, e.0);
                let to = index_file_of(&self.code.file_to_index, e.1);
                if let (Some(a), Some(b)) = (from, to) {
                    push_neighbor(&mut adj, a, b);
                }
            }
            i = i + 1;
        }
        proof { assert(self.edges().take(m as int) =~= self.edges()); }
        adj
    }
}

/// The path-to-file table of the extractions whose file is registered, in
/// extraction order.
pub open spec fn file_ids_of(files: Seq<(String, FileId)>, exs: Seq<FileExtraction>) -> Seq<(String, FileId)>
    decreases exs.len(),
{
    if exs.len() == 0 {
        Seq::empty()
    } else {
        let prev = file_ids_of(files, exs.drop_last());
        match path_lookup(files, exs.last().path@) {
            Some(id) => prev.push((exs.last().path, id)),
            None => prev,
        }
    }
}

/// Maps every registered file of the extractions to its id, for the
/// resolver.
pub fn path_to_file_id(builder: &GraphBuilder, extractions: &Vec<FileExtraction>) -> (r: Vec<(String, FileId)>)
    requires
        builder.wf(),
    ensures
        r@ == file_ids_of(builder.path_to_file@, extractions@),
{
    let mut out: Vec<(String, FileId)> = Vec::new();
    let mut i: usize = 0;
    while i < extractions.len()
        invariant
            builder.wf(),
            0 <= i <= extractions@.len(),
            out@ == file_ids_of(builder.path_to_file@, extractions@.take(i as int)),
        decreases extractions@.len() - i,
    {
        proof {
            assert(extractions@.take(i + 1).drop_last() =~= extractions@.take(i as int));
            assert(extractions@.take(i + 1).last() == extractions@[i as int]);
        }
        if let Some(id) = builder.file_id_for_path(extractions[i].path.as_str()) {
            out.push((extractions[i].path.clone(), id));
        }
        i = i + 1;
    }
    proof { assert(extractions@.take(i as int) =~= extractions@); }
    out
}

/// The reference edges, in order, added to a state.
pub open spec fn references_stage(st: BuildState, refs: Seq<(SymbolId, SymbolId, u32)>) -> BuildState
    decreases refs.len(),
{
    if refs.len() == 0 {
        st
    } else {
        let prev = references_stage(st, refs.drop_last());
        spec_add_reference(prev, refs.last().0, refs.last().1, refs.last().2 as int)
    }
}

proof fn lemma_references_growth(st: BuildState, refs: Seq<(SymbolId, SymbolId, u32)>)
    ensures
        references_stage(st, refs).nodes == st.nodes,
        references_stage(st, refs).edges.len() <= st.edges.len() + refs.len(),
        references_stage(st, refs).files == st.files,
        references_stage(st, refs).next_file_id == st.next_file_id,
    decreases refs.len(),
{
    if refs.len() > 0 {
        lemma_references_growth(st, refs.drop_last());
        let prev = references_stage(st, refs.drop_last());
        match (lookup(prev.symbol_index, refs.last().0), lookup(prev.symbol_index, refs.last().1)) {
            (Some(a), Some(b)) => lemma_merge_edge_len(prev.edges, a, b, EdgeKind::Reference, clamp_confidence(refs.last().2 as int)),
            _ => {},
        }
    }
}

/// The context a set of extractions resolves against: their symbol index,
/// the language and path of each file, the import adjacency and the
/// bindings of the resolved imports.
pub open spec fn context_from(
    ctx: ResolutionContext,
    exs: Seq<FileExtraction>,
    ptf: Seq<(String, FileId)>,
    adjacency: Seq<(FileId, Seq<FileId>)>,
    bindings: Seq<BindingView>,
) -> bool {
    &&& ctx.symbol_index@.map_values(|e: (FileId, Vec<(SymbolId, String, LangId, Option<Visibility>)>)| (e.0, e.1@)) == spec_symbol_index(exs, ptf)
    &&& ctx.file_languages@ == extraction_languages(exs, ptf)
    &&& ctx.file_paths@ == ptf.map_values(|e: (String, FileId)| (e.1, e.0))
    &&& adjacency_view(ctx.import_adjacency@) == adjacency
    &&& binding_views(ctx.import_bindings@) == bindings
}

/// The scope cache of a context: the scope of every file, in cache order.
pub open spec fn cache_of(cache: FlattenedScopeCache, ctx: ResolutionContext) -> bool {
    &&& cache.scopes@.len() == cache_order(ctx).len()
    &&& forall|k: int| 0 <= k < cache.scopes@.len() ==> (#[trigger] cache.scopes@[k]).0 == cache_order(ctx)[k].file
        && scope_view(cache.scopes@[k].1) == file_scope(ctx, cache_order(ctx)[k].file)
}

/// The reference edges of a scope cache, folded per symbol pair and sorted.
pub open spec fn reference_triples(cache: FlattenedScopeCache, exs: Seq<FileExtraction>, ptf: Seq<(String, FileId)>) -> Seq<(SymbolId, SymbolId, u32)> {
    stable_sorted(fold_references(all_references(cache, exs, ptf).0)).map_values(|e: ReferenceEdge| (e.source, e.target, e.confidence))
}

/// The outcome of the reference stage over a context and its cache.
pub open spec fn references_outcome(
    ctx: ResolutionContext,
    cache: FlattenedScopeCache,
    exs: Seq<FileExtraction>,
    ptf: Seq<(String, FileId)>,
    adjacency: Seq<(FileId, Seq<FileId>)>,
    bindings: Seq<BindingView>,
    added: Seq<DiagnosticView>,
) -> bool {
    &&& context_from(ctx, exs, ptf, adjacency, bindings)
    &&& cache_of(cache, ctx)
    &&& added == cache_warnings(ctx, cache_order(ctx)) + all_references(cache, exs, ptf).1
}

/// Resolves the cross-file references against the flattened scopes and adds
/// their edges; returns the scope cache they were resolved against.
///
/// The edges are added when the graph has room for all of them, which the
/// second result tells; the graph is left as it was otherwise.
pub fn resolve_references(
    builder: &mut GraphBuilder,
    extractions: &Vec<FileExtraction>,
    path_to_file_id: &Vec<(String, FileId)>,
    bindings: Vec<(FileId, FileId, ImportBinding)>,
    diagnostics: &mut Vec<Diagnostic>,
) -> (r: (FlattenedScopeCache, bool))
    requires
        old(builder).wf(),
    ensures
        final(builder).wf(),
        final(builder).code.snapshot_id == old(builder).code.snapshot_id,
        exists|ctx: ResolutionContext| #[trigger] references_outcome(
            ctx,
            r.0,
            extractions@,
            path_to_file_id@,
            import_adjacency_of(old(builder).code.file_to_index@, old(builder).edges()),
            binding_views(bindings@),
            diag_views(final(diagnostics)@).skip(old(diagnostics)@.len() as int),
        ),
        final(diagnostics)@.len() >= old(diagnostics)@.len(),
        diag_views(final(diagnostics)@).take(old(diagnostics)@.len() as int) == diag_views(old(diagnostics)@),
        r.1 == old(builder).has_room(reference_triples(r.0, extractions@, path_to_file_id@).len()),
        r.1 ==> final(builder).state() == references_stage(old(builder).state(), reference_triples(r.0, extractions@, path_to_file_id@)),
        !r.1 ==> final(builder).state() == old(builder).state(),
{
    let ghost d0 = diagnostics@;
    let ghost snap = builder.code.snapshot_id;
    let ghost adj_spec = import_adjacency_of(old(builder).code.file_to_index@, old(builder).edges());
    let adjacency = builder.import_adjacency();
    let ghost bviews = binding_views(bindings@);
    let ctx = ResolutionContext::from_extractions(extractions, path_to_file_id, adjacency, bindings);
    let cache = FlattenedScopeCache::build(&ctx, diagnostics);
    let ghost d1 = diagnostics@;
    let refs = resolve_all_references(extractions, path_to_file_id, &cache, diagnostics);
    proof {
        assert(diag_views(d1) =~= diag_views(d0) + cache_warnings(ctx, cache_order(ctx)));
        assert(diag_views(diagnostics@) =~= diag_views(d1) + all_references(cache, extractions@, path_to_file_id@).1);
        assert(diag_views(diagnostics@).skip(d0.len() as int) =~= cache_warnings(ctx, cache_order(ctx)) + all_references(cache, extractions@, path_to_file_id@).1);
        assert(diag_views(diagnostics@).take(d0.len() as int) =~= diag_views(d0));
        assert(references_outcome(ctx, cache, extractions@, path_to_file_id@, adj_spec, bviews,
            diag_views(diagnostics@).skip(d0.len() as int)));
    }
    let k = refs.len();
    let n = builder.node_count();
    let m = builder.edge_count();
    let next = builder.next_file_id;
    let room = k < 0xffff_fffe && n < 0xffff_fffe - k && m < 0xffff_fffe - k && (next as usize) < 0xffff_ffff - k;
    if room {
        let ghost st0 = builder.state();
        let mut i: usize = 0;
        while i < k
            invariant
                builder.wf(),
                k == refs@.len(),
                0 <= i <= k,
                builder.state() == references_stage(st0, refs@.take(i as int)),
                builder.code.snapshot_id == snap,
                st0.nodes.len() + k + 1 < index_limit(),
                st0.edges.len() + k + 1 < index_limit(),
                st0.next_file_id + k < u32::MAX,
            decreases k - i,
        {
            proof {
                assert(refs@.take(i + 1).drop_last() =~= refs@.take(i as int));
                assert(refs@.take(i + 1).last() == refs@[i as int]);
                lemma_references_growth(st0, refs@.take(i as int));
            }
            let (a, b, c) = refs[i];
            builder.add_reference(a, b, c as i64);
            i = i + 1;
        }
        proof { assert(refs@.take(k as int) =~= refs@); }
    }
    proof {
        assert(references_outcome(ctx, cache, extractions@, path_to_file_id@, import_adjacency_of(old(builder).code.file_to_index@, old(builder).edges()), bviews,
            diag_views(diagnostics@).skip(old(diagnostics)@.len() as int)));
    }
    let r = (cache, room);
    proof {
        assert(references_outcome(ctx, r.0, extractions@, path_to_file_id@, import_adjacency_of(old(builder).code.file_to_index@, old(builder).edges()), bviews,
            diag_views(diagnostics@).skip(old(diagnostics)@.len() as int)));
    }
    r
}

/// The client-call projections of a graph: file-to-symbol edges,
/// symbol-to-symbol edges and the warnings of the resolution.
pub open spec fn client_outcome(
    g: CodeGraph,
    exs: Seq<FileExtraction>,
    sites: Seq<CallSite>,
    reads: Seq<Option<Result<Vec<u8>, String>>>,
    root: Seq<char>,
) -> (Seq<(usize, usize, u32)>, Seq<(SymbolId, SymbolId, u32)>, Seq<DiagnosticView>) {
    let entries = registered_paths(g);
    let loaded = load_pass(g, entries, ordered_entries(entries), sites, reads, root, sites.len() as int);
    let calls = client_pass(g, entries, registered_file_ids(g), loaded.0, exs, sites, sites.len() as int);
    (file_projection(g, entries, calls.0), symbol_projection(exs, calls.0), loaded.1 + calls.1)
}

/// Reference edges from file nodes, merged in order (edges that name a
/// node outside the graph are left out).
pub open spec fn file_edges_stage(es: Seq<(usize, usize, EdgeData)>, n: nat, fes: Seq<(usize, usize, u32)>) -> Seq<(usize, usize, EdgeData)>
    decreases fes.len(),
{
    if fes.len() == 0 {
        es
    } else {
        let prev = file_edges_stage(es, n, fes.drop_last());
        let e = fes.last();
        if e.0 < n && e.1 < n {
            merge_edge(prev, e.0, e.1, EdgeKind::Reference, clamp_confidence(e.2 as int))
        } else {
            prev
        }
    }
}

/// Reference edges between registered symbols, merged in order.
pub open spec fn symbol_edges_stage(
    es: Seq<(usize, usize, EdgeData)>,
    s2i: Seq<(SymbolId, usize)>,
    ses: Seq<(SymbolId, SymbolId, u32)>,
) -> Seq<(usize, usize, EdgeData)>
    decreases ses.len(),
{
    if ses.len() == 0 {
        es
    } else {
        let prev = symbol_edges_stage(es, s2i, ses.drop_last());
        let e = ses.last();
        match (lookup(s2i, e.0), lookup(s2i, e.1)) {
            (Some(a), Some(b)) => merge_edge(prev, a, b, EdgeKind::Reference, clamp_confidence(e.2 as int)),
            _ => prev,
        }
    }
}

proof fn lemma_file_edges_growth(es: Seq<(usize, usize, EdgeData)>, n: nat, fes: Seq<(usize, usize, u32)>)
    ensures
        file_edges_stage(es, n, fes).len() <= es.len() + fes.len(),
    decreases fes.len(),
{
    if fes.len() > 0 {
        lemma_file_edges_growth(es, n, fes.drop_last());
        let prev = file_edges_stage(es, n, fes.drop_last());
        let e = fes.last();
        lemma_merge_edge_len(prev, e.0, e.1, EdgeKind::Reference, clamp_confidence(e.2 as int));
    }
}

proof fn lemma_symbol_edges_growth(es: Seq<(usize, usize, EdgeData)>, s2i: Seq<(SymbolId, usize)>, ses: Seq<(SymbolId, SymbolId, u32)>)
    ensures
        symbol_edges_stage(es, s2i, ses).len() <= es.len() + ses.len(),
    decreases ses.len(),
{
    if ses.len() > 0 {
        lemma_symbol_edges_growth(es, s2i, ses.drop_last());
        let prev = symbol_edges_stage(es, s2i, ses.drop_last());
        let e = ses.last();
        match (lookup(s2i, e.0), lookup(s2i, e.1)) {
            (Some(a), Some(b)) => lemma_merge_edge_len(prev, a, b, EdgeKind::Reference, clamp_confidence(e.2 as int)),
            _ => {},
        }
    }
}

fn clamp_thousandths(c: u32) -> (r: u32)
    ensures
        r == clamp_confidence(c as int),
{
    if c > 1000 {
        1000
    } else {
        c
    }
}

/// Adds the client-call projections as ordinary reference edges: the
/// calling file to the target symbol, and the enclosing symbol to the
/// target symbol. Navigation and SCC see them like any other reference.
///
/// Resolution needs the file and symbol nodes, so this runs on the built
/// graph. `reads` holds, at the position of each configuration load site,
/// what reading its configuration gave. The warnings are appended; the
/// edges are added when the graph has room for all of them, which the
/// result tells.
pub fn inject_client_call_edges(
    graph: &mut CodeGraph,
    extractions: &Vec<FileExtraction>,
    call_sites: &Vec<CallSite>,
    reads: &Vec<Option<Result<Vec<u8>, String>>>,
    root: &str,
    diagnostics: &mut Vec<Diagnostic>,
) -> (applied: bool)
    requires
        old(graph).wf(),
    ensures
        final(graph).wf(),
        final(graph).nodes() == old(graph).nodes(),
        final(graph).file_to_index == old(graph).file_to_index,
        final(graph).symbol_to_index == old(graph).symbol_to_index,
        final(graph).external_index == old(graph).external_index,
        final(graph).snapshot_id == old(graph).snapshot_id,
        ({
            let out = client_outcome(*old(graph), extractions@, call_sites@, reads@, root@);
            &&& diag_views(final(diagnostics)@) == diag_views(old(diagnostics)@) + out.2
            &&& applied == (old(graph).nodes().len() + 1 < index_limit()
                && old(graph).edges().len() + out.0.len() + out.1.len() + 1 < index_limit())
            &&& applied ==> final(graph).edges() == symbol_edges_stage(
                file_edges_stage(old(graph).edges(), old(graph).nodes().len(), out.0),
                old(graph).symbol_to_index@,
                out.1,
            )
            &&& !applied ==> final(graph).edges() == old(graph).edges()
        }),
{
    let ghost g0 = *graph;
    let ghost d0 = diagnostics@;
    let projections = resolve_client_call_projections(graph, extractions, call_sites, reads, root);
    let mut extra = projections.diagnostics;
    let ghost added = extra@;
    let mut k: usize = 0;
    let ghost dstart = diagnostics@;
    while k < extra.len()
        invariant
            0 <= k <= extra@.len(),
            extra@ == added,
            diag_views(diagnostics@) == diag_views(dstart) + diag_views(added.take(k as int)),
        decreases extra@.len() - k,
    {
        let d = extra[k].duplicate();
        let ghost dbefore = diagnostics@;
        diagnostics.push(d);
        proof {
            assert(diag_views(diagnostics@) =~= diag_views(dbefore).push(diagnostic_view(d)));
            assert(added.take(k + 1).drop_last() =~= added.take(k as int));
            assert(diag_views(added.take(k + 1)) =~= diag_views(added.take(k as int)).push(diagnostic_view(added[k as int])));
            assert(diag_views(diagnostics@) =~= diag_views(dstart) + diag_views(added.take(k + 1)));
        }
        k = k + 1;
    }
    proof {
        assert(added.take(k as int) =~= added);
    }
    let fe = &projections.file_edges;
    let se = &projections.symbol_edges;
    let n = graph.node_count();
    let m = graph.edge_count();
    let applied = fe.len() < 0xffff_fffe && se.len() < 0xffff_fffe - fe.len() && n < 0xffff_fffe
        && m < 0xffff_fffe - fe.len() - se.len();
    if applied {
        let mut i: usize = 0;
        while i < fe.len()
            invariant
                graph.wf(),
                0 <= i <= fe@.len(),
                fe@ == projections.file_edges@,
                n == g0.nodes().len(),
                graph.nodes() == g0.nodes(),
                graph.file_to_index == g0.file_to_index,
                graph.symbol_to_index == g0.symbol_to_index,
                graph.external_index == g0.external_index,
                graph.snapshot_id == g0.snapshot_id,
                graph.edges() == file_edges_stage(g0.edges(), g0.nodes().len(), fe@.take(i as int)),
                g0.nodes().len() + 1 < index_limit(),
                g0.edges().len() + fe@.len() + se@.len() + 1 < index_limit(),
            decreases fe@.len() - i,
        {
            proof {
                assert(fe@.take(i + 1).drop_last() =~= fe@.take(i as int));
                assert(fe@.take(i + 1).last() == fe@[i as int]);
                lemma_file_edges_growth(g0.edges(), g0.nodes().len(), fe@.take(i as int));
            }
            let (a, b, c) = fe[i];
            if a < n && b < n {
                graph.add_edge_normalized(a, b, EdgeKind::Reference, clamp_thousandths(c));
            }
            i = i + 1;
        }
        proof {
            assert(fe@.take(fe@.len() as int) =~= fe@);
            lemma_file_edges_growth(g0.edges(), g0.nodes().len(), fe@);
        }
        let ghost e1 = graph.edges();
        let mut j: usize = 0;
        while j < se.len()
            invariant
                graph.wf(),
                0 <= j <= se@.len(),
                se@ == projections.symbol_edges@,
                graph.nodes() == g0.nodes(),
                graph.file_to_index == g0.file_to_index,
                graph.symbol_to_index == g0.symbol_to_index,
                graph.external_index == g0.external_index,
                graph.snapshot_id == g0.snapshot_id,
                graph.edges() == symbol_edges_stage(e1, g0.symbol_to_index@, se@.take(j as int)),
                e1.len() <= g0.edges().len() + fe@.len(),
                g0.nodes().len() + 1 < index_limit(),
                g0.edges().len() + fe@.len() + se@.len() + 1 < index_limit(),
            decreases se@.len() - j,
        {
            proof {
                assert(se@.take(j + 1).drop_last() =~= se@.take(j as int));
                assert(se@.take(j + 1).last() == se@[j as int]);
                lemma_symbol_edges_growth(e1, g0.symbol_to_index@, se@.take(j as int));
            }
            let (a, b, c) = se[j];
            let from = graph.symbol_node_index(a);
            let to = graph.symbol_node_index(b);
            if let (Some(x), Some(y)) = (from, to) {
                proof {
                    crate::assoc::lemma_lookup_some(graph.symbol_to_index@, a);
                    crate::assoc::lemma_lookup_some(graph.symbol_to_index@, b);
                    let p = choose|p: int| 0 <= p < graph.symbol_to_index@.len() && (#[trigger] graph.symbol_to_index@[p]).0 == a
                        && graph.symbol_to_index@[p].1 == x;
                    let q = choose|q: int| 0 <= q < graph.symbol_to_index@.len() && (#[trigger] graph.symbol_to_index@[q]).0 == b
                        && graph.symbol_to_index@[q].1 == y;
                    assert(crate::graph::is_symbol_node(graph.nodes(), graph.symbol_to_index@[p].1, graph.symbol_to_index@[p].0));
                    assert(crate::graph::is_symbol_node(graph.nodes(), graph.symbol_to_index@[q].1, graph.symbol_to_index@[q].0));
                }
                graph.add_edge_normalized(x, y, EdgeKind::Reference, clamp_thousandths(c));
            }
            j = j + 1;
        }
        proof { assert(se@.take(se@.len() as int) =~= se@); }
    }
    applied
}

/// The state of a new builder.
pub open spec fn empty_state() -> BuildState {
    BuildState {
        nodes: Seq::empty(),
        edges: Seq::empty(),
        files: Seq::empty(),
        next_file_id: 1,
        file_index: Seq::empty(),
        symbol_index: Seq::empty(),
        external: Seq::empty(),
    }
}

/// Room in a state for `k` more nodes, edges and file ids.
pub open spec fn state_has_room(st: BuildState, k: nat) -> bool {
    &&& st.nodes.len() + k + 1 < index_limit()
    &&& st.edges.len() + k + 1 < index_limit()
    &&& st.next_file_id + k < u32::MAX
}

/// A graph shows a builder state.
pub open spec fn graph_shows(g: CodeGraph, st: BuildState) -> bool {
    &&& g.nodes() == st.nodes
    &&& g.edges() == st.edges
    &&& g.file_to_index@ == st.file_index
    &&& g.symbol_to_index@ == st.symbol_index
    &&& g.external_keys() == st.external
}

/// What building a graph from extractions gives, for some choice of the
/// external import names, the resolution context, the call sites (as
/// values; their views are those of the extractions) and the graph before
/// the client-call edges:
///
/// files, then symbols, then imports are registered; the references are
/// resolved against the returned scope cache and added when the graph has
/// room; the client-call projections of that graph are added when it has
/// room. `added` is every diagnostic of the run, in stage order.
pub open spec fn pipeline_outcome(
    exs: Seq<FileExtraction>,
    queries: Seq<Vec<ImportQuery>>,
    reads: Seq<Option<Result<Vec<u8>, String>>>,
    root: Seq<char>,
    snapshot_id: SnapshotId,
    names: Seq<Seq<String>>,
    ctx: ResolutionContext,
    sites: Seq<CallSite>,
    g4: CodeGraph,
    graph: CodeGraph,
    cache: FlattenedScopeCache,
    added: Seq<DiagnosticView>,
) -> bool {
    let s1 = files_stage(empty_state(), exs, snapshot_id);
    let s2 = symbols_stage(s1, exs);
    let s3 = imports_stage(s2.0, exs, queries, names);
    let ptf = file_ids_of(s3.0.files, exs);
    let refs = reference_triples(cache, exs, ptf);
    let s4 = if state_has_room(s3.0, refs.len()) { references_stage(s3.0, refs) } else { s3.0 };
    let client = client_outcome(g4, exs, sites, reads, root);
    let client_applied = g4.nodes().len() + 1 < index_limit() && g4.edges().len() + client.0.len() + client.1.len() + 1 < index_limit();
    &&& names_match(exs, queries, names)
    &&& context_from(ctx, exs, ptf, import_adjacency_of(s3.0.file_index, s3.0.edges), s3.2)
    &&& cache_of(cache, ctx)
    &&& sites.map_values(|c: CallSite| site_view(c)) == extraction_sites(exs)
    &&& g4.wf()
    &&& graph_shows(g4, s4)
    &&& g4.snapshot_id == snapshot_id
    &&& graph.nodes() == g4.nodes()
    &&& graph.file_to_index == g4.file_to_index
    &&& graph.symbol_to_index == g4.symbol_to_index
    &&& graph.external_index == g4.external_index
    &&& graph.snapshot_id == snapshot_id
    &&& graph.edges() == if client_applied {
        symbol_edges_stage(file_edges_stage(g4.edges(), g4.nodes().len(), client.0), g4.symbol_to_index@, client.1)
    } else {
        g4.edges()
    }
    &&& added == s2.1 + s3.1 + cache_warnings(ctx, cache_order(ctx)) + all_references(cache, exs, ptf).1 + client.2
}

proof fn lemma_take_skip<A>(v: Seq<A>, u: Seq<A>, n: int)
    requires
        0 <= n <= v.len(),
        v.take(n) == u,
    ensures
        v == u + v.skip(n),
{
    assert(v =~= v.take(n) + v.skip(n));
}

impl GraphBuilder {
    /// Builds the graph, its SCC analysis and the flattened scope cache of a
    /// set of extractions (see [`pipeline_outcome`]).
    ///
    /// `queries[i][k]` is what the language resolver answered for the
    /// `k`-th import of the `i`-th extraction; `reads` holds, at the
    /// position of each configuration load site of the extractions, what
    /// reading its configuration gave. Problems on the way are appended to
    /// `diagnostics` and never stop the build.
    #[verifier::spinoff_prover]
    #[verifier::rlimit(60)]
    pub fn from_extractions_with_scope(
        extractions: &Vec<FileExtraction>,
        queries: &Vec<Vec<ImportQuery>>,
        reads: &Vec<Option<Result<Vec<u8>, String>>>,
        root: &str,
        snapshot_id: SnapshotId,
        diagnostics: &mut Vec<Diagnostic>,
    ) -> (r: (CodeGraph, SccAnalysis, FlattenedScopeCache))
        requires
            queries@.len() == extractions@.len(),
            forall|i: int| 0 <= i < extractions@.len() ==> (#[trigger] queries@[i])@.len() == extractions@[i].imports@.len(),
            extractions@.len() + symbol_count(extractions@) + import_count(extractions@) + 2 < index_limit(),
        ensures
            r.0.wf(),
            r.1.describes(r.0.graph),
            exists|names: Seq<Seq<String>>, ctx: ResolutionContext, sites: Seq<CallSite>, g4: CodeGraph| #[trigger] pipeline_outcome(
                extractions@,
                queries@,
                reads@,
                root@,
                snapshot_id,
                names,
                ctx,
                sites,
                g4,
                r.0,
                r.2,
                diag_views(final(diagnostics)@).skip(old(diagnostics)@.len() as int),
            ),
            diag_views(final(diagnostics)@).take(old(diagnostics)@.len() as int) == diag_views(old(diagnostics)@),
            final(diagnostics)@.len() >= old(diagnostics)@.len(),
    {
        let ghost d0 = diagnostics@;
        let ghost exs = extractions@;
        let ghost total = exs.len() + symbol_count(exs) + import_count(exs);
        let mut builder = GraphBuilder::new(snapshot_id);
        proof {
            lemma_files_stage_growth(empty_state(), exs, snapshot_id);
        }
        register_files(&mut builder, extractions);
        let ghost s1 = builder.state();
        proof {
            lemma_symbols_growth(s1, exs);
        }
        register_symbols(&mut builder, extractions, diagnostics);
        let ghost s2 = builder.state();
        let ghost d1 = diagnostics@;
        proof {
            lemma_imports_growth(s2, exs, queries@, Seq::empty());
        }
        let bindings = resolve_imports(&mut builder, extractions, queries, diagnostics);
        let ghost s3 = builder.state();
        let ghost d2 = diagnostics@;
        let ghost names = choose|names: Seq<Seq<String>>| #[trigger] imports_outcome(
            s2,
            exs,
            queries@,
            names,
            s3,
            diag_views(d2).skip(d1.len() as int),
            binding_views(bindings@),
        );
        let ptf = path_to_file_id(&builder, extractions);
        let (cache, refs_applied) = resolve_references(&mut builder, extractions, &ptf, bindings, diagnostics);
        let ghost s4 = builder.state();
        let ghost d3 = diagnostics@;
        let ghost ctx = choose|ctx: ResolutionContext| #[trigger] references_outcome(
            ctx,
            cache,
            exs,
            ptf@,
            import_adjacency_of(s3.file_index, s3.edges),
            binding_views(bindings@),
            diag_views(d3).skip(d2.len() as int),
        );
        let mut graph = builder.build();
        let ghost g4 = graph;
        let call_sites = call_sites_of(extractions);
        inject_client_call_edges(&mut graph, extractions, &call_sites, reads, root, diagnostics);
        let scc = SccAnalysis::analyze(graph.graph());
        proof {
            assert(diag_views(d2).take(d1.len() as int) =~= diag_views(d2.take(d1.len() as int)));
            lemma_take_skip(diag_views(d2), diag_views(d1), d1.len() as int);
            lemma_take_skip(diag_views(d3), diag_views(d2), d2.len() as int);
            let dall = diag_views(diagnostics@);
            assert(dall.take(d0.len() as int) =~= diag_views(d0));
            assert(dall.skip(d0.len() as int) =~= symbols_stage(s1, exs).1 + diag_views(d2).skip(d1.len() as int)
                + diag_views(d3).skip(d2.len() as int) + client_outcome(g4, exs, call_sites@, reads@, root@).2);
            let ss1 = files_stage(empty_state(), exs, snapshot_id);
            assert(ss1 == s1);
            let ss2 = symbols_stage(ss1, exs);
            assert(ss2.0 == s2);
            let ss3 = imports_stage(ss2.0, exs, queries@, names);
            assert(ss3.0 == s3);
            assert(ss3.2 == binding_views(bindings@));
            assert(ss3.1 == diag_views(d2).skip(d1.len() as int));
            let ptf_s = file_ids_of(ss3.0.files, exs);
            assert(ptf_s == ptf@);
            let refs = reference_triples(cache, exs, ptf_s);
            let ss4 = if state_has_room(ss3.0, refs.len()) { references_stage(ss3.0, refs) } else { ss3.0 };
            assert(ss4 == s4);
            assert(graph_shows(g4, ss4));
            assert(context_from(ctx, exs, ptf_s, import_adjacency_of(ss3.0.file_index, ss3.0.edges), ss3.2));
            assert(cache_of(cache, ctx));
            assert(names_match(exs, queries@, names));
            assert(call_sites@.map_values(|c: CallSite| site_view(c)) == extraction_sites(exs));
            assert(g4.wf());
            assert(g4.snapshot_id == snapshot_id);
            assert(graph.snapshot_id == snapshot_id);
            let client = client_outcome(g4, exs, call_sites@, reads@, root@);
            let client_applied = g4.nodes().len() + 1 < index_limit() && g4.edges().len() + client.0.len() + client.1.len() + 1 < index_limit();
            assert(graph.edges() == if client_applied {
                symbol_edges_stage(file_edges_stage(g4.edges(), g4.nodes().len(), client.0), g4.symbol_to_index@, client.1)
            } else {
                g4.edges()
            });
            assert(diag_views(d3).skip(d2.len() as int) == cache_warnings(ctx, cache_order(ctx)) + all_references(cache, exs, ptf_s).1);
            assert(dall.skip(d0.len() as int) =~= ss2.1 + ss3.1 + cache_warnings(ctx, cache_order(ctx)) + all_references(cache, exs, ptf_s).1 + client.2);
            assert(pipeline_outcome(exs, queries@, reads@, root@, snapshot_id, names, ctx, call_sites@, g4, graph, cache, dall.skip(d0.len() as int)));
        }
        let r = (graph, scc, cache);
        proof {
            assert(pipeline_outcome(exs, queries@, reads@, root@, snapshot_id, names, ctx, call_sites@, g4, r.0, r.2,
                diag_views(diagnostics@).skip(old(diagnostics)@.len() as int)));
        }
        r
    }

    /// Builds the graph and its SCC analysis of a set of extractions (see
    /// [`GraphBuilder::from_extractions_with_scope`]).
    pub fn from_extractions(
        extractions: &Vec<FileExtraction>,
        queries: &Vec<Vec<ImportQuery>>,
        reads: &Vec<Option<Result<Vec<u8>, String>>>,
        root: &str,
        snapshot_id: SnapshotId,
        diagnostics: &mut Vec<Diagnostic>,
    ) -> (r: (CodeGraph, SccAnalysis))
        requires
            queries@.len() == extractions@.len(),
            forall|i: int| 0 <= i < extractions@.len() ==> (#[trigger] queries@[i])@.len() == extractions@[i].imports@.len(),
            extractions@.len() + symbol_count(extractions@) + import_count(extractions@) + 2 < index_limit(),
        ensures
            r.0.wf(),
            r.1.describes(r.0.graph),
            exists|names: Seq<Seq<String>>, ctx: ResolutionContext, sites: Seq<CallSite>, g4: CodeGraph, cache: FlattenedScopeCache|
                #[trigger] pipeline_outcome(
                extractions@,
                queries@,
                reads@,
                root@,
                snapshot_id,
                names,
                ctx,
                sites,
                g4,
                r.0,
                cache,
                diag_views(final(diagnostics)@).skip(old(diagnostics)@.len() as int),
            ),
            diag_views(final(diagnostics)@).take(old(diagnostics)@.len() as int) == diag_views(old(diagnostics)@),
            final(diagnostics)@.len() >= old(diagnostics)@.len(),
    {
        let (graph, scc, _cache) = GraphBuilder::from_extractions_with_scope(extractions, queries, reads, root, snapshot_id, diagnostics);
        (graph, scc)
    }
}

/// Adding the same import twice is adding it once: the edge is merged, and
/// an external node made by the first call is reused by the second.
pub proof fn lemma_add_import_twice(st: BuildState, from: FileId, to: String)
    requires
        edges_normalized(st.edges),
        keys_distinct(st.external),
        keys_distinct(st.file_index),
        forall|i: int| 0 <= i < st.file_index.len() ==> (#[trigger] st.file_index[i]).1 < st.nodes.len(),
    ensures
        spec_add_import(spec_add_import(st, from, to), from, to) == spec_add_import(st, from, to),
{
    let once = spec_add_import(st, from, to);
    if lookup(st.file_index, from) is Some {
        let from_idx = lookup(st.file_index, from)->0;
        lemma_lookup_some(st.file_index, from);
        assert(from_idx < st.nodes.len());
        match path_lookup(st.files, to@) {
            Some(to_id) => {
                let to_idx = lookup(st.file_index, to_id)->0;
                let c = import_confidence(st.nodes[from_idx as int]->File_0.language, st.nodes[to_idx as int]->File_0.language);
                lemma_merge_edge_twice(st.edges, from_idx, to_idx, EdgeKind::Import, c, c);
            },
            None => match lookup(st.external, to@) {
                Some(ext) => {
                    lemma_merge_edge_twice(st.edges, from_idx, ext, EdgeKind::Import, CONFIDENCE_OWN_OR_DIRECT, CONFIDENCE_OWN_OR_DIRECT);
                },
                None => {
                    let ext = st.nodes.len() as usize;
                    lemma_lookup_push(st.external, to@, ext, to@);
                    assert(once.nodes[from_idx as int] == st.nodes[from_idx as int]);
                    lemma_merge_edge_twice(st.edges, from_idx, ext, EdgeKind::Import, CONFIDENCE_OWN_OR_DIRECT, CONFIDENCE_OWN_OR_DIRECT);
                },
            },
        }
    }
}

/// Registering the files of the extractions registers every one of them,
/// and keeps what was registered before.
pub proof fn lemma_files_stage_registers(st: BuildState, exs: Seq<FileExtraction>, snapshot_id: SnapshotId)
    ensures
        forall|i: int| 0 <= i < exs.len() ==> path_lookup(files_stage(st, exs, snapshot_id).files, (#[trigger] exs[i]).path@) is Some,
        forall|p: Seq<char>| path_lookup(st.files, p) is Some ==> #[trigger] path_lookup(files_stage(st, exs, snapshot_id).files, p) is Some,
    decreases exs.len(),
{
    if exs.len() > 0 {
        let prev = files_stage(st, exs.drop_last(), snapshot_id);
        lemma_files_stage_registers(st, exs.drop_last(), snapshot_id);
        let last = exs.last();
        let next = files_stage(st, exs, snapshot_id);
        assert forall|p: Seq<char>| path_lookup(prev.files, p) is Some implies path_lookup(next.files, p) is Some by {
            if path_lookup(prev.files, last.path@) is None {
                let k = choose|k: int| 0 <= k < prev.files.len() && same_path((#[trigger] prev.files[k]).0@, p);
                assert(next.files[k] == prev.files[k]);
            }
        }
        if path_lookup(prev.files, last.path@) is None {
            let n = prev.files.len() as int;
            assert(next.files[n].0 == last.path);
            assert(same_path(next.files[n].0@, last.path@));
        }
        assert forall|i: int| 0 <= i < exs.len() implies path_lookup(next.files, (#[trigger] exs[i]).path@) is Some by {
            if i < exs.len() - 1 {
                assert(exs.drop_last()[i] == exs[i]);
            }
        }
    }
}

} // verus!
