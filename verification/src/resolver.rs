//! Reference resolution through a flattened scope per file.
//!
//! The visible scope of a file is its own symbols plus the public symbols of
//! the files it imports, directly or transitively, found breadth first over
//! the import graph. Nearer definitions shadow farther ones, and the
//! confidence decays with the distance: 1.0 for the own file and a direct
//! same-language import, 0.8 for a transitive one, 0.6 across languages.
use vstd::prelude::*;

use crate::assoc::{distinct_keys, latest, lemma_filter_take_step};
use crate::edge::{CONFIDENCE_CROSS_LANGUAGE, CONFIDENCE_OWN_OR_DIRECT, CONFIDENCE_TRANSITIVE};
use crate::error::{diagnostic_view, Diagnostic, Severity};
use crate::model::SourceRange;
use crate::order::{int_order, lemma_stable_sorted_members, sort_stable, stable_sorted, SortKey};
use crate::paths::{compare_paths, lemma_path_order, path_order};
use crate::text::{decimal, push_decimal, push_str, string_from};
use crate::config::opt_view;
use crate::lang::LangId;
use crate::index::{lookup_file_id, path_value};
use crate::client_call::{innermost, innermost_of};
use crate::model::{FileExtraction, FileId, Symbol, SymbolId, UnresolvedImport, UnresolvedReference, Visibility};
use crate::text::str_eq;

verus! {

/// How one resolved import exposes the target file's names.
#[derive(Debug, Clone, PartialEq, Eq)]
pub enum ImportBinding {
    /// `from x import *`: every public name is visible.
    Star,
    /// `from x import helper`, `import {helper as h}`: one original name
    /// under one local spelling.
    Named { original: String, local: String },
    /// Any other import: the names stay file-level.
    Unfiltered,
}

/// A binding as plain values: its kind (star, named, unfiltered) and, for a
/// named binding, the original and local spellings.
pub open spec fn binding_view(b: ImportBinding) -> (int, Seq<char>, Seq<char>) {
    match b {
        ImportBinding::Star => (0, Seq::empty(), Seq::empty()),
        ImportBinding::Named { original, local } => (1, original@, local@),
        ImportBinding::Unfiltered => (2, Seq::empty(), Seq::empty()),
    }
}

impl ImportBinding {
    /// A field-for-field copy.
    pub fn duplicate(&self) -> (r: ImportBinding)
        ensures
            r == *self,
    {
        match self {
            ImportBinding::Star => ImportBinding::Star,
            ImportBinding::Named { original, local } => ImportBinding::Named { original: original.clone(), local: local.clone() },
            ImportBinding::Unfiltered => ImportBinding::Unfiltered,
        }
    }
}

/// Two bindings with the same kind and spellings.
pub fn same_binding(a: &ImportBinding, b: &ImportBinding) -> (r: bool)
    ensures
        r == (binding_view(*a) == binding_view(*b)),
{
    match (a, b) {
        (ImportBinding::Star, ImportBinding::Star) => true,
        (ImportBinding::Unfiltered, ImportBinding::Unfiltered) => true,
        (ImportBinding::Named { original: o1, local: l1 }, ImportBinding::Named { original: o2, local: l2 }) => str_eq(o1.as_str(), o2.as_str())
            && str_eq(l1.as_str(), l2.as_str()),
        _ => false,
    }
}

/// The binding of an extracted import: a star import opens the target; a
/// captured symbol names the original, renamed by the alias when there is
/// one, and, in Python only, kept under its own name without one; every
/// other shape stays file-level.
pub open spec fn spec_import_binding(lang: LangId, star: bool, symbol: Option<Seq<char>>, alias: Option<Seq<char>>) -> (int, Seq<char>, Seq<char>) {
    if star {
        (0, Seq::empty(), Seq::empty())
    } else {
        match (symbol, alias) {
            (Some(o), Some(a)) => (1, o, a),
            (Some(o), None) => if lang == LangId::Python {
                (1, o, o)
            } else {
                (2, Seq::empty(), Seq::empty())
            },
            _ => (2, Seq::empty(), Seq::empty()),
        }
    }
}

/// Classifies one extracted import into its binding (see
/// [`spec_import_binding`]).
pub fn import_binding_for(lang: LangId, import: &UnresolvedImport) -> (r: ImportBinding)
    ensures
        binding_view(r) == spec_import_binding(lang, import.star, opt_view(import.symbol), opt_view(import.alias)),
{
    if import.star {
        return ImportBinding::Star;
    }
    match (&import.symbol, &import.alias) {
        (Some(original), Some(alias)) => ImportBinding::Named { original: original.clone(), local: alias.clone() },
        (Some(original), None) => {
            if lang == LangId::Python {
                ImportBinding::Named { original: original.clone(), local: original.clone() }
            } else {
                ImportBinding::Unfiltered
            }
        },
        _ => ImportBinding::Unfiltered,
    }
}

/// A binding that names exactly what it exposes (star or named).
pub open spec fn is_precise(b: ImportBinding) -> bool {
    b is Star || b is Named
}

/// The local spellings the named bindings of `name` declare, in binding
/// order. A spelling equal to `name` counts only when `keep_own` holds:
/// otherwise the own name is in scope already.
pub open spec fn renamings(l: Seq<ImportBinding>, name: Seq<char>, keep_own: bool) -> Seq<String>
    decreases l.len(),
{
    if l.len() == 0 {
        Seq::empty()
    } else {
        let prev = renamings(l.drop_last(), name, keep_own);
        match l.last() {
            ImportBinding::Named { original, local } => if original@ == name && (local@ != name || keep_own) {
                prev.push(local)
            } else {
                prev
            },
            _ => prev,
        }
    }
}

/// The names under which a symbol named `name` enters the importer's scope.
///
/// A direct import whose bindings are all named exposes exactly the local
/// names they declare for the symbol (`from lib import helper` exposes
/// `helper`); a star or any file-level binding keeps the symbol's own
/// name, and each renaming adds its local spelling. Deeper levels always
/// keep the own name.
pub open spec fn spec_exposed_names(distance: nat, name: String, bindings: Option<Seq<ImportBinding>>) -> Seq<String> {
    let list = direct_list(distance, bindings);
    (if is_open(list) {
        seq![name]
    } else {
        Seq::empty()
    }) + match list {
        Some(l) => renamings(l, name@, !is_open(list)),
        None => Seq::empty(),
    }
}

/// The bindings that apply at a distance: a direct import's only.
pub open spec fn direct_list(distance: nat, bindings: Option<Seq<ImportBinding>>) -> Option<Seq<ImportBinding>> {
    if distance == 1 {
        bindings
    } else {
        None
    }
}

/// Every binding is star or named, and there is one.
pub open spec fn all_precise(l: Seq<ImportBinding>) -> bool {
    l.len() > 0 && forall|i: int| 0 <= i < l.len() ==> is_precise(#[trigger] l[i])
}

/// Some binding is a star.
pub open spec fn any_star(l: Seq<ImportBinding>) -> bool {
    exists|i: int| 0 <= i < l.len() && (#[trigger] l[i]) is Star
}

/// The symbol keeps its own name: no binding list, a file-level binding
/// in it, or a star.
pub open spec fn is_open(list: Option<Seq<ImportBinding>>) -> bool {
    match list {
        Some(l) => !all_precise(l) || any_star(l),
        None => true,
    }
}

/// The names under which a symbol enters the importer's scope (see
/// [`spec_exposed_names`]).
pub fn exposed_names(distance: usize, name: &String, bindings: Option<&Vec<ImportBinding>>) -> (r: Vec<String>)
    ensures
        r@ == spec_exposed_names(
            distance as nat,
            *name,
            match bindings {
                Some(v) => Some(v@),
                None => None,
            },
        ),
{
    let ghost bv = match bindings {
        Some(v) => Some(v@),
        None => None::<Seq<ImportBinding>>,
    };
    let list: Option<&Vec<ImportBinding>> = if distance == 1 { bindings } else { None };
    let mut precise = false;
    let mut has_star = false;
    match list {
        Some(l) => {
            let mut all = true;
            let mut i: usize = 0;
            while i < l.len()
                invariant
                    0 <= i <= l@.len(),
                    all == (forall|j: int| 0 <= j < i ==> is_precise(#[trigger] l@[j])),
                    has_star == (exists|j: int| 0 <= j < i && (#[trigger] l@[j]) is Star),
                decreases l@.len() - i,
            {
                match &l[i] {
                    ImportBinding::Star => {
                        has_star = true;
                    },
                    ImportBinding::Named { .. } => {},
                    ImportBinding::Unfiltered => {
                        all = false;
                    },
                }
                proof {
                    assert(has_star == (exists|j: int| 0 <= j < i + 1 && (#[trigger] l@[j]) is Star)) by {
                        if has_star && !(l@[i as int] is Star) {
                            let j = choose|j: int| 0 <= j < i && (#[trigger] l@[j]) is Star;
                        }
                    }
                }
                i = i + 1;
            }
            precise = l.len() > 0 && all;
        },
        None => {},
    }
    let ghost sl = if distance == 1 { bv } else { None::<Seq<ImportBinding>> };
    proof {
        assert(sl == match list {
            Some(l) => Some(l@),
            None => None::<Seq<ImportBinding>>,
        });
        assert(precise == match sl {
            Some(l) => l.len() > 0 && forall|i: int| 0 <= i < l.len() ==> is_precise(#[trigger] l[i]),
            None => false,
        });
        assert(has_star == match sl {
            Some(l) => exists|i: int| 0 <= i < l.len() && (#[trigger] l[i]) is Star,
            None => false,
        });
    }
    let open = !precise || has_star;
    let mut out: Vec<String> = Vec::new();
    if open {
        out.push(name.clone());
    }
    let ghost head = out@;
    match list {
        Some(l) => {
            let mut i: usize = 0;
            proof { assert(head + renamings(l@.take(0), name@, !open) =~= head); }
            while i < l.len()
                invariant
                    0 <= i <= l@.len(),
                    out@ == head + renamings(l@.take(i as int), name@, !open),
                decreases l@.len() - i,
            {
                proof {
                    assert(l@.take(i + 1).drop_last() =~= l@.take(i as int));
                    assert(l@.take(i + 1).last() == l@[i as int]);
                }
                match &l[i] {
                    ImportBinding::Named { original, local } => {
                        if str_eq(original.as_str(), name.as_str()) && (!str_eq(local.as_str(), name.as_str()) || !open) {
                            out.push(local.clone());
                        }
                    },
                    _ => {},
                }
                i = i + 1;
            }
            proof { assert(l@.take(i as int) =~= l@); }
        },
        None => {
            proof { assert(head + Seq::<String>::empty() =~= head); }
        },
    }
    proof {
        assert(head == (if open { seq![*name] } else { Seq::<String>::empty() }));
        assert(out@ == head + match sl {
            Some(l) => renamings(l, name@, !open),
            None => Seq::<String>::empty(),
        });
        assert(out@ == spec_exposed_names(distance as nat, *name, bv));
    }
    out
}

/// A symbol as the scope sees it: id, name, language, declared visibility.
pub open spec fn entry_of(s: Symbol) -> (SymbolId, String, LangId, Option<Visibility>) {
    (s.id, s.name, s.language, s.visibility)
}

/// Everything the scope computation reads. Each table maps a key to the
/// value of its last entry.
#[derive(Debug)]
pub struct ResolutionContext {
    /// The symbols of each file.
    pub symbol_index: Vec<(FileId, Vec<(SymbolId, String, LangId, Option<Visibility>)>)>,
    /// The files each file imports, in import order.
    pub import_adjacency: Vec<(FileId, Vec<FileId>)>,
    pub file_languages: Vec<(FileId, LangId)>,
    pub file_paths: Vec<(FileId, String)>,
    /// Resolved direct imports with their bindings: importer, target,
    /// binding. A pair without a record behaves as file-level.
    pub import_bindings: Vec<(FileId, FileId, ImportBinding)>,
}

/// The symbols of the extractions that map to a file, in extraction order.
pub open spec fn symbols_of_file(exs: Seq<FileExtraction>, ptf: Seq<(String, FileId)>, f: FileId) -> Seq<(SymbolId, String, LangId, Option<Visibility>)>
    decreases exs.len(),
{
    if exs.len() == 0 {
        Seq::empty()
    } else {
        let prev = symbols_of_file(exs.drop_last(), ptf, f);
        if path_value(ptf, exs.last().path@) == Some(f) {
            prev + exs.last().symbols@.map_values(|s: Symbol| entry_of(s))
        } else {
            prev
        }
    }
}

/// The files of the extractions that map to one, in order of first
/// appearance.
pub open spec fn indexed_files(exs: Seq<FileExtraction>, ptf: Seq<(String, FileId)>) -> Seq<FileId>
    decreases exs.len(),
{
    if exs.len() == 0 {
        Seq::empty()
    } else {
        let prev = indexed_files(exs.drop_last(), ptf);
        match path_value(ptf, exs.last().path@) {
            Some(f) => if prev.contains(f) {
                prev
            } else {
                prev.push(f)
            },
            None => prev,
        }
    }
}

/// The symbol index of a table: each file with its symbols, the files in
/// order of first appearance.
pub open spec fn spec_symbol_index(exs: Seq<FileExtraction>, ptf: Seq<(String, FileId)>) -> Seq<(FileId, Seq<(SymbolId, String, LangId, Option<Visibility>)>)> {
    indexed_files(exs, ptf).map_values(|f: FileId| (f, symbols_of_file(exs, ptf, f)))
}

/// The symbol index of the extractions (see [`spec_symbol_index`]).
pub fn build_symbol_index(extractions: &Vec<FileExtraction>, path_to_file_id: &Vec<(String, FileId)>) -> (r: Vec<(FileId, Vec<(SymbolId, String, LangId, Option<Visibility>)>)>)
    ensures
        r@.map_values(|e: (FileId, Vec<(SymbolId, String, LangId, Option<Visibility>)>)| (e.0, e.1@)) == spec_symbol_index(extractions@, path_to_file_id@),
{
    // The files first.
    let mut files: Vec<FileId> = Vec::new();
    let mut i: usize = 0;
    while i < extractions.len()
        invariant
            0 <= i <= extractions@.len(),
            files@ == indexed_files(extractions@.take(i as int), path_to_file_id@),
        decreases extractions@.len() - i,
    {
        proof {
            assert(extractions@.take(i + 1).drop_last() =~= extractions@.take(i as int));
            assert(extractions@.take(i + 1).last() == extractions@[i as int]);
        }
        match lookup_file_id(path_to_file_id, extractions[i].path.as_str()) {
            Some(f) => {
                if !contains_file(&files, f) {
                    files.push(f);
                }
            },
            None => {},
        }
        i = i + 1;
    }
    proof { assert(extractions@.take(i as int) =~= extractions@); }
    let ghost fv = files@;
    let mut out: Vec<(FileId, Vec<(SymbolId, String, LangId, Option<Visibility>)>)> = Vec::new();
    let mut k: usize = 0;
    while k < files.len()
        invariant
            0 <= k <= files@.len(),
            fv == files@,
            fv == indexed_files(extractions@, path_to_file_id@),
            out@.map_values(|e: (FileId, Vec<(SymbolId, String, LangId, Option<Visibility>)>)| (e.0, e.1@)) == fv.take(k as int).map_values(
                |f: FileId| (f, symbols_of_file(extractions@, path_to_file_id@, f)),
            ),
        decreases files@.len() - k,
    {
        let f = files[k];
        let mut list: Vec<(SymbolId, String, LangId, Option<Visibility>)> = Vec::new();
        let mut j: usize = 0;
        while j < extractions.len()
            invariant
                0 <= j <= extractions@.len(),
                list@ == symbols_of_file(extractions@.take(j as int), path_to_file_id@, f),
            decreases extractions@.len() - j,
        {
            proof {
                assert(extractions@.take(j + 1).drop_last() =~= extractions@.take(j as int));
                assert(extractions@.take(j + 1).last() == extractions@[j as int]);
            }
            let x = &extractions[j];
            if lookup_file_id(path_to_file_id, x.path.as_str()) == Some(f) {
                let ghost before = list@;
                let mut q: usize = 0;
                while q < x.symbols.len()
                    invariant
                        0 <= q <= x.symbols@.len(),
                        list@ == before + x.symbols@.take(q as int).map_values(|s: Symbol| entry_of(s)),
                    decreases x.symbols@.len() - q,
                {
                    let s = &x.symbols[q];
                    list.push((s.id, s.name.clone(), s.language, s.visibility));
                    proof {
                        assert(x.symbols@.take(q + 1).map_values(|s: Symbol| entry_of(s)) =~= x.symbols@.take(q as int).map_values(
                            |s: Symbol| entry_of(s),
                        ).push(entry_of(x.symbols@[q as int])));
                    }
                    q = q + 1;
                }
                proof { assert(x.symbols@.take(q as int) =~= x.symbols@); }
            }
            j = j + 1;
        }
        proof { assert(extractions@.take(j as int) =~= extractions@); }
        let ghost before = out@;
        out.push((f, list));
        proof {
            assert(out@.map_values(|e: (FileId, Vec<(SymbolId, String, LangId, Option<Visibility>)>)| (e.0, e.1@)) =~= before.map_values(
                |e: (FileId, Vec<(SymbolId, String, LangId, Option<Visibility>)>)| (e.0, e.1@),
            ).push((f, symbols_of_file(extractions@, path_to_file_id@, f))));
            assert(fv.take(k + 1).map_values(|f: FileId| (f, symbols_of_file(extractions@, path_to_file_id@, f))) =~= fv.take(k as int).map_values(
                |f: FileId| (f, symbols_of_file(extractions@, path_to_file_id@, f)),
            ).push((f, symbols_of_file(extractions@, path_to_file_id@, f))));
        }
        k = k + 1;
    }
    proof { assert(fv.take(k as int) =~= fv); }
    out
}

fn contains_file(files: &Vec<FileId>, f: FileId) -> (r: bool)
    ensures
        r == files@.contains(f),
{
    let mut i: usize = 0;
    while i < files.len()
        invariant
            0 <= i <= files@.len(),
            forall|j: int| 0 <= j < i ==> files@[j] != f,
        decreases files@.len() - i,
    {
        if files[i] == f {
            return true;
        }
        i = i + 1;
    }
    false
}

/// The file languages of the extractions that map to a file, in order.
pub open spec fn extraction_languages(exs: Seq<FileExtraction>, ptf: Seq<(String, FileId)>) -> Seq<(FileId, LangId)>
    decreases exs.len(),
{
    if exs.len() == 0 {
        Seq::empty()
    } else {
        let prev = extraction_languages(exs.drop_last(), ptf);
        match path_value(ptf, exs.last().path@) {
            Some(f) => prev.push((f, exs.last().lang)),
            None => prev,
        }
    }
}

impl ResolutionContext {
    /// The context of a set of extractions: their symbol index, the
    /// language of each file (the last extraction of a file wins), the path
    /// of each file id, and the given imports and bindings.
    pub fn from_extractions(
        extractions: &Vec<FileExtraction>,
        path_to_file_id: &Vec<(String, FileId)>,
        import_adjacency: Vec<(FileId, Vec<FileId>)>,
        import_bindings: Vec<(FileId, FileId, ImportBinding)>,
    ) -> (r: ResolutionContext)
        ensures
            r.symbol_index@.map_values(|e: (FileId, Vec<(SymbolId, String, LangId, Option<Visibility>)>)| (e.0, e.1@)) == spec_symbol_index(
                extractions@,
                path_to_file_id@,
            ),
            r.file_languages@ == extraction_languages(extractions@, path_to_file_id@),
            r.file_paths@ == path_to_file_id@.map_values(|e: (String, FileId)| (e.1, e.0)),
            r.import_adjacency == import_adjacency,
            r.import_bindings == import_bindings,
    {
        let symbol_index = build_symbol_index(extractions, path_to_file_id);
        let mut file_languages: Vec<(FileId, LangId)> = Vec::new();
        let mut i: usize = 0;
        while i < extractions.len()
            invariant
                0 <= i <= extractions@.len(),
                file_languages@ == extraction_languages(extractions@.take(i as int), path_to_file_id@),
            decreases extractions@.len() - i,
        {
            proof {
                assert(extractions@.take(i + 1).drop_last() =~= extractions@.take(i as int));
                assert(extractions@.take(i + 1).last() == extractions@[i as int]);
            }
            match lookup_file_id(path_to_file_id, extractions[i].path.as_str()) {
                Some(f) => {
                    file_languages.push((f, extractions[i].lang));
                },
                None => {},
            }
            i = i + 1;
        }
        proof { assert(extractions@.take(i as int) =~= extractions@); }
        let mut file_paths: Vec<(FileId, String)> = Vec::new();
        let mut k: usize = 0;
        while k < path_to_file_id.len()
            invariant
                0 <= k <= path_to_file_id@.len(),
                file_paths@ == path_to_file_id@.take(k as int).map_values(|e: (String, FileId)| (e.1, e.0)),
            decreases path_to_file_id@.len() - k,
        {
            file_paths.push((path_to_file_id[k].1, path_to_file_id[k].0.clone()));
            proof {
                assert(path_to_file_id@.take(k + 1).map_values(|e: (String, FileId)| (e.1, e.0)) =~= path_to_file_id@.take(k as int).map_values(
                    |e: (String, FileId)| (e.1, e.0),
                ).push((path_to_file_id@[k as int].1, path_to_file_id@[k as int].0)));
            }
            k = k + 1;
        }
        proof { assert(path_to_file_id@.take(k as int) =~= path_to_file_id@); }
        ResolutionContext { symbol_index, import_adjacency, file_languages, file_paths, import_bindings }
    }
}

/// The files a file imports, in import order.
pub open spec fn imports_of(adj: Seq<(FileId, Vec<FileId>)>, f: FileId) -> Seq<FileId> {
    match latest(adj, f) {
        Some(v) => v@,
        None => Seq::empty(),
    }
}

/// `acc` extended by the files of `ns` that are neither seen nor already in
/// it, in order.
pub open spec fn add_new(acc: Seq<FileId>, seen: Seq<FileId>, ns: Seq<FileId>) -> Seq<FileId>
    decreases ns.len(),
{
    if ns.len() == 0 {
        acc
    } else {
        let a = add_new(acc, seen, ns.drop_last());
        let n = ns.last();
        if seen.contains(n) || a.contains(n) {
            a
        } else {
            a.push(n)
        }
    }
}

/// The next breadth-first layer: the imports of the frontier, in frontier
/// and import order, each once, none already seen.
pub open spec fn next_layer(adj: Seq<(FileId, Vec<FileId>)>, seen: Seq<FileId>, frontier: Seq<FileId>) -> Seq<FileId>
    decreases frontier.len(),
{
    if frontier.len() == 0 {
        Seq::empty()
    } else {
        add_new(next_layer(adj, seen, frontier.drop_last()), seen, imports_of(adj, frontier.last()))
    }
}

/// The files of a visit list.
pub open spec fn visited_files(vs: Seq<(FileId, nat)>) -> Seq<FileId> {
    vs.map_values(|v: (FileId, nat)| v.0)
}

/// After `k` layers: every file reached with its distance, in
/// breadth-first order, and the last layer.
pub open spec fn bfs_state(adj: Seq<(FileId, Vec<FileId>)>, root: FileId, k: nat) -> (Seq<(FileId, nat)>, Seq<FileId>)
    decreases k,
{
    if k == 0 {
        (seq![(root, 0nat)], seq![root])
    } else {
        let prev = bfs_state(adj, root, (k - 1) as nat);
        let nx = next_layer(adj, visited_files(prev.0), prev.1);
        (prev.0 + nx.map_values(|f: FileId| (f, k)), nx)
    }
}

/// Every file the imports reach from `root`, with its breadth-first
/// distance, in breadth-first order.
pub open spec fn reached_files(adj: Seq<(FileId, Vec<FileId>)>, root: FileId) -> Seq<(FileId, nat)> {
    bfs_state(adj, root, choose|k: nat| bfs_state(adj, root, k).1.len() == 0).0
}

proof fn lemma_bfs_stays(adj: Seq<(FileId, Vec<FileId>)>, root: FileId, k: nat, m: nat)
    requires
        bfs_state(adj, root, k).1.len() == 0,
        k <= m,
    ensures
        bfs_state(adj, root, m) == bfs_state(adj, root, k),
    decreases m - k,
{
    if m > k {
        lemma_bfs_stays(adj, root, k, (m - 1) as nat);
        let prev = bfs_state(adj, root, (m - 1) as nat);
        assert(next_layer(adj, visited_files(prev.0), prev.1) =~= Seq::<FileId>::empty());
        assert(prev.0 + Seq::<FileId>::empty().map_values(|f: FileId| (f, m)) =~= prev.0);
    }
}

/// The breadth-first visit list is the state of any layer whose frontier is
/// empty.
proof fn lemma_reached_files(adj: Seq<(FileId, Vec<FileId>)>, root: FileId, k: nat)
    requires
        bfs_state(adj, root, k).1.len() == 0,
    ensures
        reached_files(adj, root) == bfs_state(adj, root, k).0,
{
    let c = choose|k: nat| bfs_state(adj, root, k).1.len() == 0;
    if c <= k {
        lemma_bfs_stays(adj, root, c, k);
    } else {
        lemma_bfs_stays(adj, root, k, c);
    }
}

/// Every file of the import lists, after `root`.
pub open spec fn all_imports(adj: Seq<(FileId, Vec<FileId>)>) -> Seq<FileId>
    decreases adj.len(),
{
    if adj.len() == 0 {
        Seq::empty()
    } else {
        all_imports(adj.drop_last()) + adj.last().1@
    }
}

proof fn lemma_imports_listed(adj: Seq<(FileId, Vec<FileId>)>, f: FileId, x: FileId)
    requires
        imports_of(adj, f).contains(x),
    ensures
        all_imports(adj).contains(x),
    decreases adj.len(),
{
    if adj.len() > 0 {
        if adj.last().0 == f {
            let j = choose|j: int| 0 <= j < adj.last().1@.len() && adj.last().1@[j] == x;
            assert((all_imports(adj.drop_last()) + adj.last().1@)[all_imports(adj.drop_last()).len() + j] == x);
        } else {
            lemma_imports_listed(adj.drop_last(), f, x);
            let j = choose|j: int| 0 <= j < all_imports(adj.drop_last()).len() && all_imports(adj.drop_last())[j] == x;
            assert((all_imports(adj.drop_last()) + adj.last().1@)[j] == x);
        }
    }
}

proof fn lemma_add_new(acc: Seq<FileId>, seen: Seq<FileId>, ns: Seq<FileId>, u: Seq<FileId>)
    requires
        acc.no_duplicates(),
        forall|x: FileId| acc.contains(x) ==> !seen.contains(x) && u.contains(x),
        forall|x: FileId| ns.contains(x) ==> u.contains(x),
    ensures
        add_new(acc, seen, ns).no_duplicates(),
        forall|x: FileId| add_new(acc, seen, ns).contains(x) ==> !seen.contains(x) && u.contains(x),
        add_new(acc, seen, ns).len() >= acc.len(),
    decreases ns.len(),
{
    if ns.len() > 0 {
        assert forall|x: FileId| ns.drop_last().contains(x) implies u.contains(x) by {
            let j = choose|j: int| 0 <= j < ns.drop_last().len() && ns.drop_last()[j] == x;
            assert(ns[j] == x);
        }
        lemma_add_new(acc, seen, ns.drop_last(), u);
        let a = add_new(acc, seen, ns.drop_last());
        let n = ns.last();
        assert(ns.contains(n)) by {
            assert(ns[ns.len() - 1] == n);
        }
        if !(seen.contains(n) || a.contains(n)) {
            let b = a.push(n);
            assert forall|i: int, j: int| 0 <= i < b.len() && 0 <= j < b.len() && i != j implies b[i] != b[j] by {
                if i < a.len() && j < a.len() {
                } else if i == a.len() {
                    assert(a.contains(b[j]) ==> b[j] != n);
                    assert(a[j] == b[j]);
                } else {
                    assert(a[i] == b[i]);
                }
            }
            assert forall|x: FileId| b.contains(x) implies !seen.contains(x) && u.contains(x) by {
                let j = choose|j: int| 0 <= j < b.len() && b[j] == x;
                if j < a.len() {
                    assert(a[j] == x);
                }
            }
        }
    }
}

proof fn lemma_next_layer(adj: Seq<(FileId, Vec<FileId>)>, seen: Seq<FileId>, frontier: Seq<FileId>, u: Seq<FileId>)
    requires
        forall|x: FileId| all_imports(adj).contains(x) ==> u.contains(x),
    ensures
        next_layer(adj, seen, frontier).no_duplicates(),
        forall|x: FileId| next_layer(adj, seen, frontier).contains(x) ==> !seen.contains(x) && u.contains(x),
    decreases frontier.len(),
{
    if frontier.len() > 0 {
        lemma_next_layer(adj, seen, frontier.drop_last(), u);
        let ns = imports_of(adj, frontier.last());
        assert forall|x: FileId| ns.contains(x) implies u.contains(x) by {
            lemma_imports_listed(adj, frontier.last(), x);
        }
        lemma_add_new(next_layer(adj, seen, frontier.drop_last()), seen, ns, u);
    }
}

/// A duplicate-free sequence inside another holds at most as many items.
proof fn lemma_distinct_within(s: Seq<FileId>, u: Seq<FileId>)
    requires
        s.no_duplicates(),
        forall|x: FileId| s.contains(x) ==> u.contains(x),
    ensures
        s.len() <= u.len(),
{
    s.unique_seq_to_set();
    u.lemma_cardinality_of_set();
    assert(s.to_set().subset_of(u.to_set()));
    vstd::set_lib::lemma_len_subset(s.to_set(), u.to_set());
}

/// The import list of a file (see [`imports_of`]).
fn imports_of_file(adj: &Vec<(FileId, Vec<FileId>)>, f: FileId) -> (r: Option<&Vec<FileId>>)
    ensures
        match r {
            Some(v) => latest(adj@, f) == Some(*v),
            None => latest(adj@, f) is None,
        },
{
    let mut i: usize = adj.len();
    proof { assert(adj@.take(i as int) =~= adj@); }
    while i > 0
        invariant
            0 <= i <= adj@.len(),
            latest(adj@, f) == latest(adj@.take(i as int), f),
        decreases i,
    {
        proof {
            assert(adj@.take(i as int).last() == adj@[i - 1]);
            assert(adj@.take(i as int).drop_last() =~= adj@.take(i - 1));
        }
        if adj[i - 1].0 == f {
            return Some(&adj[i - 1].1);
        }
        i = i - 1;
    }
    None
}

/// The next layer (see [`next_layer`]).
fn next_layer_of(adj: &Vec<(FileId, Vec<FileId>)>, seen: &Vec<FileId>, frontier: &Vec<FileId>) -> (r: Vec<FileId>)
    ensures
        r@ == next_layer(adj@, seen@, frontier@),
{
    let mut acc: Vec<FileId> = Vec::new();
    let mut i: usize = 0;
    while i < frontier.len()
        invariant
            0 <= i <= frontier@.len(),
            acc@ == next_layer(adj@, seen@, frontier@.take(i as int)),
        decreases frontier@.len() - i,
    {
        proof {
            assert(frontier@.take(i + 1).drop_last() =~= frontier@.take(i as int));
            assert(frontier@.take(i + 1).last() == frontier@[i as int]);
        }
        match imports_of_file(adj, frontier[i]) {
            Some(ns) => {
                let ghost start = acc@;
                let mut k: usize = 0;
                while k < ns.len()
                    invariant
                        0 <= k <= ns@.len(),
                        acc@ == add_new(start, seen@, ns@.take(k as int)),
                    decreases ns@.len() - k,
                {
                    proof {
                        assert(ns@.take(k + 1).drop_last() =~= ns@.take(k as int));
                        assert(ns@.take(k + 1).last() == ns@[k as int]);
                    }
                    let n = ns[k];
                    if !contains_file(seen, n) && !contains_file(&acc, n) {
                        acc.push(n);
                    }
                    k = k + 1;
                }
                proof { assert(ns@.take(k as int) =~= ns@); }
            },
            None => {},
        }
        i = i + 1;
    }
    proof { assert(frontier@.take(i as int) =~= frontier@); }
    acc
}

/// A visit list as plain values.
pub open spec fn visits_view(v: Seq<(FileId, usize)>) -> Seq<(FileId, nat)> {
    v.map_values(|e: (FileId, usize)| (e.0, e.1 as nat))
}

/// The files the imports reach from `root`, with their distance, in
/// breadth-first order (see [`reached_files`]).
pub fn breadth_first(adj: &Vec<(FileId, Vec<FileId>)>, root: FileId) -> (r: Vec<(FileId, usize)>)
    ensures
        visits_view(r@) == reached_files(adj@, root),
{
    let ghost u = seq![root] + all_imports(adj@);
    let mut visits: Vec<(FileId, usize)> = Vec::new();
    visits.push((root, 0));
    let mut seen: Vec<FileId> = Vec::new();
    seen.push(root);
    let mut frontier: Vec<FileId> = Vec::new();
    frontier.push(root);
    let mut d: usize = 0;
    proof {
        assert(visits_view(visits@) =~= bfs_state(adj@, root, 0).0);
        assert(frontier@ =~= bfs_state(adj@, root, 0).1);
        assert(seen@ =~= visited_files(bfs_state(adj@, root, 0).0));
        assert(u[0] == root);
        assert forall|x: FileId| seen@.contains(x) implies u.contains(x) by {
            assert(seen@[0] == root);
        }
        assert forall|x: FileId| all_imports(adj@).contains(x) implies u.contains(x) by {
            let j = choose|j: int| 0 <= j < all_imports(adj@).len() && all_imports(adj@)[j] == x;
            assert(u[j + 1] == x);
        }
    }
    while frontier.len() > 0
        invariant
            visits_view(visits@) == bfs_state(adj@, root, d as nat).0,
            frontier@ == bfs_state(adj@, root, d as nat).1,
            seen@ == visited_files(visits_view(visits@)),
            seen@.no_duplicates(),
            forall|x: FileId| seen@.contains(x) ==> u.contains(x),
            forall|x: FileId| all_imports(adj@).contains(x) ==> u.contains(x),
            u == seq![root] + all_imports(adj@),
            visits@.len() == seen@.len(),
            d <= visits@.len(),
            frontier@.len() > 0 ==> d < visits@.len(),
        decreases u.len() - visits@.len(), frontier@.len(),
    {
        proof { lemma_distinct_within(seen@, u); }
        let next = next_layer_of(adj, &seen, &frontier);
        proof { lemma_next_layer(adj@, seen@, frontier@, u); }
        let ghost vb = visits@;
        let ghost sb = seen@;
        let vn = visits.len();
        assert(d < vn);
        let mut k: usize = 0;
        while k < next.len()
            invariant
                0 <= k <= next@.len(),
                d < usize::MAX,
                visits@ == vb + next@.take(k as int).map_values(|f: FileId| (f, (d + 1) as usize)),
                seen@ == sb + next@.take(k as int),
            decreases next@.len() - k,
        {
            visits.push((next[k], d + 1));
            seen.push(next[k]);
            proof {
                assert(next@.take(k + 1).map_values(|f: FileId| (f, (d + 1) as usize)) =~= next@.take(k as int).map_values(
                    |f: FileId| (f, (d + 1) as usize),
                ).push((next@[k as int], (d + 1) as usize)));
                assert(next@.take(k + 1) =~= next@.take(k as int).push(next@[k as int]));
            }
            k = k + 1;
        }
        proof {
            assert(next@.take(k as int) =~= next@);
            let nd = (d + 1) as nat;
            assert(visits_view(visits@) =~= bfs_state(adj@, root, nd).0);
            assert(seen@ =~= visited_files(visits_view(visits@)));
            assert forall|i: int, j: int| 0 <= i < seen@.len() && 0 <= j < seen@.len() && i != j implies seen@[i] != seen@[j] by {
                if i < sb.len() && j < sb.len() {
                } else if i >= sb.len() && j >= sb.len() {
                    assert(seen@[i] == next@[i - sb.len()]);
                    assert(seen@[j] == next@[j - sb.len()]);
                } else if i < sb.len() {
                    assert(seen@[j] == next@[j - sb.len()]);
                    assert(next@.contains(seen@[j]));
                    assert(sb.contains(seen@[i]));
                } else {
                    assert(seen@[i] == next@[i - sb.len()]);
                    assert(next@.contains(seen@[i]));
                    assert(sb.contains(seen@[j]));
                }
            }
            assert forall|x: FileId| seen@.contains(x) implies u.contains(x) by {
                let j = choose|j: int| 0 <= j < seen@.len() && seen@[j] == x;
                if j < sb.len() {
                    assert(sb[j] == x);
                    assert(sb.contains(x));
                } else {
                    assert(next@[j - sb.len()] == x);
                    assert(next@.contains(x));
                }
            }
            lemma_distinct_within(seen@, u);
        }
        frontier = next;
        d = d + 1;
    }
    proof { lemma_reached_files(adj@, root, d as nat); }
    visits
}

/// One visible symbol before shadowing and ranking.
#[derive(Debug)]
pub struct Candidate {
    pub symbol: SymbolId,
    /// Confidence in thousandths.
    pub confidence: u32,
    /// Shadowing class: own file 0, direct same-language import 1,
    /// transitive same-language 2, anything else 3.
    pub rank: u8,
    /// Path of the file that defines the symbol, when known.
    pub path: Option<String>,
    /// The name the symbol is visible under.
    pub name: String,
}

/// The path of a candidate, empty when unknown.
pub open spec fn candidate_path(c: Candidate) -> Seq<char> {
    match c.path {
        Some(p) => p@,
        None => Seq::empty(),
    }
}

/// Candidates are ranked by shadowing class, then higher confidence, then
/// path, then symbol id.
impl SortKey for Candidate {
    open spec fn key_order(self, other: Self) -> int {
        if self.rank != other.rank {
            int_order(self.rank as int, other.rank as int)
        } else if self.confidence != other.confidence {
            int_order(other.confidence as int, self.confidence as int)
        } else if path_order(candidate_path(self), candidate_path(other)) != 0 {
            path_order(candidate_path(self), candidate_path(other))
        } else {
            int_order(self.symbol.0 as int, other.symbol.0 as int)
        }
    }

    proof fn lemma_key_order(a: Self, b: Self, c: Self) {
        let (x, y, z) = (candidate_path(a), candidate_path(b), candidate_path(c));
        lemma_path_order(x, y, z);
        lemma_path_order(x, z, y);
        lemma_path_order(y, x, z);
        lemma_path_order(y, z, x);
        lemma_path_order(z, x, y);
        lemma_path_order(z, y, x);
    }

    fn compare_keys(&self, other: &Self) -> (r: i8) {
        if self.rank != other.rank {
            if self.rank < other.rank { -1 } else { 1 }
        } else if self.confidence != other.confidence {
            if other.confidence < self.confidence { -1 } else { 1 }
        } else {
            let a = match &self.path {
                Some(p) => p.as_str(),
                None => "",
            };
            let b = match &other.path {
                Some(p) => p.as_str(),
                None => "",
            };
            proof {
                reveal_strlit("");
                assert(a@ == candidate_path(*self));
                assert(b@ == candidate_path(*other));
            }
            let p = compare_paths(a, b);
            if p != 0 {
                p
            } else if self.symbol.0 < other.symbol.0 {
                -1
            } else if self.symbol.0 == other.symbol.0 {
                0
            } else {
                1
            }
        }
    }
}

/// A symbol of file `f` is visible from `root`: declared public, private
/// but in `root` itself, or undeclared where the file's language makes
/// undeclared symbols public (an unknown language does).
pub open spec fn visible(ctx: ResolutionContext, root: FileId, f: FileId, vis: Option<Visibility>) -> bool {
    match vis {
        Some(Visibility::Public) => true,
        Some(Visibility::Private) => f == root,
        None => public_by_default_in(ctx, f) || f == root,
    }
}

/// An undeclared symbol of `f` is public: by its language, or when the
/// language is unknown.
pub open spec fn public_by_default_in(ctx: ResolutionContext, f: FileId) -> bool {
    match latest(ctx.file_languages@, f) {
        Some(l) => l.spec_public_by_default(),
        None => true,
    }
}

/// The confidence of a symbol of language `l` at a distance: 1.0 in the
/// own file or a direct same-language import, 0.6 across known languages,
/// 0.8 otherwise.
pub open spec fn confidence_at(d: nat, source: Option<LangId>, l: LangId) -> u32 {
    if d == 0 || (d == 1 && source == Some(l)) {
        CONFIDENCE_OWN_OR_DIRECT
    } else if source is Some && source != Some(l) {
        CONFIDENCE_CROSS_LANGUAGE
    } else {
        CONFIDENCE_TRANSITIVE
    }
}

/// The shadowing class of a symbol of language `l` at a distance.
pub open spec fn rank_at(d: nat, source: Option<LangId>, l: LangId) -> u8 {
    if d == 0 {
        0
    } else if d == 1 && source == Some(l) {
        1
    } else if source == Some(l) {
        2
    } else {
        3
    }
}

/// The bindings, first occurrences only.
pub open spec fn dedup_bindings(bs: Seq<ImportBinding>) -> Seq<ImportBinding>
    decreases bs.len(),
{
    if bs.len() == 0 {
        Seq::empty()
    } else {
        let prev = dedup_bindings(bs.drop_last());
        if exists|i: int| 0 <= i < prev.len() && binding_view(#[trigger] prev[i]) == binding_view(bs.last()) {
            prev
        } else {
            prev.push(bs.last())
        }
    }
}

/// The binding records from `root` to `f`, in order.
pub open spec fn bindings_between(records: Seq<(FileId, FileId, ImportBinding)>, root: FileId, f: FileId) -> Seq<ImportBinding>
    decreases records.len(),
{
    if records.len() == 0 {
        Seq::empty()
    } else {
        let prev = bindings_between(records.drop_last(), root, f);
        if records.last().0 == root && records.last().1 == f {
            prev.push(records.last().2)
        } else {
            prev
        }
    }
}

/// The distinct bindings of `root`'s direct import of `f`, when it has any.
pub open spec fn direct_bindings(ctx: ResolutionContext, root: FileId, f: FileId) -> Option<Seq<ImportBinding>> {
    let d = dedup_bindings(bindings_between(ctx.import_bindings@, root, f));
    if d.len() == 0 {
        None
    } else {
        Some(d)
    }
}

/// The candidates one symbol of `f` at distance `d` gives.
pub open spec fn symbol_candidates(ctx: ResolutionContext, root: FileId, f: FileId, d: nat, e: (SymbolId, String, LangId, Option<Visibility>)) -> Seq<Candidate> {
    if visible(ctx, root, f, e.3) {
        let source = latest(ctx.file_languages@, root);
        spec_exposed_names(d, e.1, direct_bindings(ctx, root, f)).map_values(
            |n: String| Candidate {
                symbol: e.0,
                confidence: confidence_at(d, source, e.2),
                rank: rank_at(d, source, e.2),
                path: latest(ctx.file_paths@, f),
                name: n,
            },
        )
    } else {
        Seq::empty()
    }
}

/// The candidates of a list of symbols of `f`, in order.
pub open spec fn file_candidates(ctx: ResolutionContext, root: FileId, f: FileId, d: nat, entries: Seq<(SymbolId, String, LangId, Option<Visibility>)>) -> Seq<Candidate>
    decreases entries.len(),
{
    if entries.len() == 0 {
        Seq::empty()
    } else {
        file_candidates(ctx, root, f, d, entries.drop_last()) + symbol_candidates(ctx, root, f, d, entries.last())
    }
}

/// The symbols of a file.
pub open spec fn symbols_at(ctx: ResolutionContext, f: FileId) -> Seq<(SymbolId, String, LangId, Option<Visibility>)> {
    match latest(ctx.symbol_index@, f) {
        Some(v) => v@,
        None => Seq::empty(),
    }
}

/// The candidates of the visited files, in visit order.
pub open spec fn visit_candidates(ctx: ResolutionContext, root: FileId, visits: Seq<(FileId, nat)>) -> Seq<Candidate>
    decreases visits.len(),
{
    if visits.len() == 0 {
        Seq::empty()
    } else {
        let v = visits.last();
        visit_candidates(ctx, root, visits.drop_last()) + file_candidates(ctx, root, v.0, v.1, symbols_at(ctx, v.0))
    }
}

/// The names of the candidates, first appearances only.
pub open spec fn scope_names(cs: Seq<Candidate>) -> Seq<Seq<char>>
    decreases cs.len(),
{
    if cs.len() == 0 {
        Seq::empty()
    } else {
        let prev = scope_names(cs.drop_last());
        if prev.contains(cs.last().name@) {
            prev
        } else {
            prev.push(cs.last().name@)
        }
    }
}

/// The lowest shadowing class of the candidates (0 when there is none).
pub open spec fn min_rank(cs: Seq<Candidate>) -> u8
    decreases cs.len(),
{
    if cs.len() == 0 {
        0
    } else if cs.len() == 1 {
        cs[0].rank
    } else {
        let m = min_rank(cs.drop_last());
        if cs.last().rank < m {
            cs.last().rank
        } else {
            m
        }
    }
}

/// What a name resolves to: its candidates of the lowest class, ranked.
pub open spec fn scope_value(cs: Seq<Candidate>, n: Seq<char>) -> Seq<(SymbolId, u32)> {
    ranked_entries(stable_sorted(with_rank(with_name(cs, n), min_rank(with_name(cs, n)))))
}

/// The candidates visible under a name.
pub open spec fn with_name(cs: Seq<Candidate>, n: Seq<char>) -> Seq<Candidate> {
    cs.filter(name_is(n))
}

/// The test of a candidate's name.
pub open spec fn name_is(n: Seq<char>) -> spec_fn(Candidate) -> bool {
    |c: Candidate| c.name@ == n
}

/// The test of a candidate's class.
pub open spec fn rank_is(m: u8) -> spec_fn(Candidate) -> bool {
    |c: Candidate| c.rank == m
}

/// The candidates of one shadowing class.
pub open spec fn with_rank(cs: Seq<Candidate>, m: u8) -> Seq<Candidate> {
    cs.filter(rank_is(m))
}

/// The symbols and confidences of the candidates.
pub open spec fn ranked_entries(cs: Seq<Candidate>) -> Seq<(SymbolId, u32)> {
    cs.map_values(|c: Candidate| (c.symbol, c.confidence))
}

/// The scope of a candidate list: each name with what it resolves to.
pub open spec fn spec_scope(cs: Seq<Candidate>) -> Seq<(Seq<char>, Seq<(SymbolId, u32)>)> {
    scope_names(cs).map_values(|n: Seq<char>| (n, scope_value(cs, n)))
}

/// A path, or `<unknown>`.
pub open spec fn path_or_unknown(p: Option<String>) -> Seq<char> {
    match p {
        Some(s) => s@,
        None => "<unknown>"@,
    }
}

/// The warning of an import of `root` from the visited file `f`.
pub open spec fn cycle_warning(ctx: ResolutionContext, root: FileId, f: FileId) -> (Seq<char>, Severity, Seq<char>, Option<SourceRange>) {
    (
        path_or_unknown(latest(ctx.file_paths@, f)),
        Severity::Warning,
        "circular import: "@ + decimal(f.0 as nat) + " -> "@ + path_or_unknown(latest(ctx.file_paths@, root)),
        None,
    )
}

/// One warning per import of `root` in the list.
pub open spec fn root_imports(ctx: ResolutionContext, root: FileId, f: FileId, ns: Seq<FileId>) -> Seq<(Seq<char>, Severity, Seq<char>, Option<SourceRange>)>
    decreases ns.len(),
{
    if ns.len() == 0 {
        Seq::empty()
    } else {
        let prev = root_imports(ctx, root, f, ns.drop_last());
        if ns.last() == root {
            prev.push(cycle_warning(ctx, root, f))
        } else {
            prev
        }
    }
}

/// The circular-import warnings of the visited files: one per import of
/// `root` by a visited file, in visit and import order.
pub open spec fn cycle_warnings(ctx: ResolutionContext, root: FileId, visits: Seq<(FileId, nat)>) -> Seq<(Seq<char>, Severity, Seq<char>, Option<SourceRange>)>
    decreases visits.len(),
{
    if visits.len() == 0 {
        Seq::empty()
    } else {
        let f = visits.last().0;
        cycle_warnings(ctx, root, visits.drop_last()) + root_imports(ctx, root, f, imports_of(ctx.import_adjacency@, f))
    }
}

impl Candidate {
    /// A field-for-field copy.
    pub fn duplicate(&self) -> (r: Candidate)
        ensures
            r == *self,
    {
        Candidate {
            symbol: self.symbol,
            confidence: self.confidence,
            rank: self.rank,
            path: match &self.path {
                Some(p) => Some(p.clone()),
                None => None,
            },
            name: self.name.clone(),
        }
    }
}

fn latest_language(v: &Vec<(FileId, LangId)>, f: FileId) -> (r: Option<LangId>)
    ensures
        r == latest(v@, f),
{
    let mut i: usize = v.len();
    proof { assert(v@.take(i as int) =~= v@); }
    while i > 0
        invariant
            0 <= i <= v@.len(),
            latest(v@, f) == latest(v@.take(i as int), f),
        decreases i,
    {
        proof {
            assert(v@.take(i as int).last() == v@[i - 1]);
            assert(v@.take(i as int).drop_last() =~= v@.take(i - 1));
        }
        if v[i - 1].0 == f {
            return Some(v[i - 1].1);
        }
        i = i - 1;
    }
    None
}

fn latest_path(v: &Vec<(FileId, String)>, f: FileId) -> (r: Option<String>)
    ensures
        r == latest(v@, f),
{
    let mut i: usize = v.len();
    proof { assert(v@.take(i as int) =~= v@); }
    while i > 0
        invariant
            0 <= i <= v@.len(),
            latest(v@, f) == latest(v@.take(i as int), f),
        decreases i,
    {
        proof {
            assert(v@.take(i as int).last() == v@[i - 1]);
            assert(v@.take(i as int).drop_last() =~= v@.take(i - 1));
        }
        if v[i - 1].0 == f {
            return Some(v[i - 1].1.clone());
        }
        i = i - 1;
    }
    None
}

fn symbols_of_index(v: &Vec<(FileId, Vec<(SymbolId, String, LangId, Option<Visibility>)>)>, f: FileId) -> (r: Option<&Vec<(SymbolId, String, LangId, Option<Visibility>)>>)
    ensures
        match r {
            Some(x) => latest(v@, f) == Some(*x),
            None => latest(v@, f) is None,
        },
{
    let mut i: usize = v.len();
    proof { assert(v@.take(i as int) =~= v@); }
    while i > 0
        invariant
            0 <= i <= v@.len(),
            latest(v@, f) == latest(v@.take(i as int), f),
        decreases i,
    {
        proof {
            assert(v@.take(i as int).last() == v@[i - 1]);
            assert(v@.take(i as int).drop_last() =~= v@.take(i - 1));
        }
        if v[i - 1].0 == f {
            return Some(&v[i - 1].1);
        }
        i = i - 1;
    }
    None
}

/// The distinct bindings of `root`'s import of `f` (see [`direct_bindings`]).
fn direct_bindings_of(ctx: &ResolutionContext, root: FileId, f: FileId) -> (r: Option<Vec<ImportBinding>>)
    ensures
        match r {
            Some(v) => direct_bindings(*ctx, root, f) == Some(v@),
            None => direct_bindings(*ctx, root, f) is None,
        },
{
    let records = &ctx.import_bindings;
    let mut out: Vec<ImportBinding> = Vec::new();
    let mut i: usize = 0;
    while i < records.len()
        invariant
            0 <= i <= records@.len(),
            out@ == dedup_bindings(bindings_between(records@.take(i as int), root, f)),
        decreases records@.len() - i,
    {
        proof {
            assert(records@.take(i + 1).drop_last() =~= records@.take(i as int));
            assert(records@.take(i + 1).last() == records@[i as int]);
        }
        let rec = &records[i];
        if rec.0 == root && rec.1 == f {
            let mut found = false;
            let mut k: usize = 0;
            while k < out.len()
                invariant
                    0 <= k <= out@.len(),
                    found == (exists|j: int| 0 <= j < k && binding_view(#[trigger] out@[j]) == binding_view(rec.2)),
                decreases out@.len() - k,
            {
                if same_binding(&out[k], &rec.2) {
                    found = true;
                }
                proof {
                    if found && !(binding_view(out@[k as int]) == binding_view(rec.2)) {
                        let j = choose|j: int| 0 <= j < k && binding_view(#[trigger] out@[j]) == binding_view(rec.2);
                    }
                }
                k = k + 1;
            }
            proof {
                let bb = bindings_between(records@.take(i as int), root, f);
                assert(bindings_between(records@.take(i + 1), root, f) == bb.push(rec.2));
                assert(bb.push(rec.2).drop_last() =~= bb);
                assert(bb.push(rec.2).last() == rec.2);
            }
            if !found {
                out.push(rec.2.duplicate());
            }
        }
        i = i + 1;
    }
    proof { assert(records@.take(i as int) =~= records@); }
    if out.len() == 0 {
        None
    } else {
        Some(out)
    }
}

fn cycle_diagnostic(ctx: &ResolutionContext, root: FileId, f: FileId) -> (r: Diagnostic)
    ensures
        diagnostic_view(r) == cycle_warning(*ctx, root, f),
{
    let path = match latest_path(&ctx.file_paths, f) {
        Some(p) => p,
        None => string_from("<unknown>"),
    };
    let root_path = match latest_path(&ctx.file_paths, root) {
        Some(p) => p,
        None => string_from("<unknown>"),
    };
    let mut m = String::new();
    push_str(&mut m, "circular import: ");
    push_decimal(&mut m, f.0 as usize);
    push_str(&mut m, " -> ");
    push_str(&mut m, root_path.as_str());
    proof {
        assert(root_path@ == path_or_unknown(latest(ctx.file_paths@, root)));
        assert(m@ =~= "circular import: "@ + decimal(f.0 as nat) + " -> "@ + path_or_unknown(latest(ctx.file_paths@, root)));
    }
    Diagnostic { path, severity: Severity::Warning, message: m, source_range: None }
}

/// The candidates of the visited files (see [`visit_candidates`]), with
/// the circular-import warnings (see [`cycle_warnings`]).
fn collect_candidates(ctx: &ResolutionContext, root: FileId, visits: &Vec<(FileId, usize)>) -> (r: (Vec<Candidate>, Vec<Diagnostic>))
    ensures
        r.0@ == visit_candidates(*ctx, root, visits_view(visits@)),
        r.1@.map_values(|d: Diagnostic| diagnostic_view(d)) == cycle_warnings(*ctx, root, visits_view(visits@)),
{
    let source = latest_language(&ctx.file_languages, root);
    let mut cands: Vec<Candidate> = Vec::new();
    let mut diags: Vec<Diagnostic> = Vec::new();
    let mut i: usize = 0;
    while i < visits.len()
        invariant
            0 <= i <= visits@.len(),
            source == latest(ctx.file_languages@, root),
            cands@ == visit_candidates(*ctx, root, visits_view(visits@.take(i as int))),
            diags@.map_values(|d: Diagnostic| diagnostic_view(d)) == cycle_warnings(*ctx, root, visits_view(visits@.take(i as int))),
        decreases visits@.len() - i,
    {
        proof {
            assert(visits_view(visits@.take(i + 1)).drop_last() =~= visits_view(visits@.take(i as int)));
            assert(visits_view(visits@.take(i + 1)).last() == (visits@[i as int].0, visits@[i as int].1 as nat));
        }
        let (f, d) = visits[i];
        // Circular imports back to the root.
        let ghost d0 = diags@.map_values(|d: Diagnostic| diagnostic_view(d));
        match imports_of_file(&ctx.import_adjacency, f) {
            Some(ns) => {
                let mut k: usize = 0;
                proof { assert(d0 + root_imports(*ctx, root, f, ns@.take(0)) =~= d0); }
                while k < ns.len()
                    invariant
                        0 <= k <= ns@.len(),
                        diags@.map_values(|d: Diagnostic| diagnostic_view(d)) == d0 + root_imports(*ctx, root, f, ns@.take(k as int)),
                    decreases ns@.len() - k,
                {
                    proof {
                        assert(ns@.take(k + 1).drop_last() =~= ns@.take(k as int));
                        assert(ns@.take(k + 1).last() == ns@[k as int]);
                    }
                    if ns[k] == root {
                        let dg = cycle_diagnostic(ctx, root, f);
                        let ghost before = diags@;
                        diags.push(dg);
                        proof {
                            assert(diags@.map_values(|d: Diagnostic| diagnostic_view(d)) =~= before.map_values(|d: Diagnostic| diagnostic_view(d)).push(
                                diagnostic_view(dg),
                            ));
                        }
                    }
                    k = k + 1;
                }
                proof { assert(ns@.take(k as int) =~= ns@); }
            },
            None => {
                proof { assert(d0 + Seq::empty() =~= d0); }
            },
        }
        // The symbols of the file.
        let ghost c0 = cands@;
        let direct = direct_bindings_of(ctx, root, f);
        let path = latest_path(&ctx.file_paths, f);
        match symbols_of_index(&ctx.symbol_index, f) {
            Some(entries) => {
                let mut k: usize = 0;
                proof { assert(c0 + file_candidates(*ctx, root, f, d as nat, entries@.take(0)) =~= c0); }
                while k < entries.len()
                    invariant
                        0 <= k <= entries@.len(),
                        source == latest(ctx.file_languages@, root),
                        path == latest(ctx.file_paths@, f),
                        match direct {
                            Some(v) => direct_bindings(*ctx, root, f) == Some(v@),
                            None => direct_bindings(*ctx, root, f) is None,
                        },
                        cands@ == c0 + file_candidates(*ctx, root, f, d as nat, entries@.take(k as int)),
                    decreases entries@.len() - k,
                {
                    proof {
                        assert(entries@.take(k + 1).drop_last() =~= entries@.take(k as int));
                        assert(entries@.take(k + 1).last() == entries@[k as int]);
                    }
                    let e = &entries[k];
                    let shown = match e.3 {
                        Some(Visibility::Public) => true,
                        Some(Visibility::Private) => f == root,
                        None => {
                            let by_language = match latest_language(&ctx.file_languages, f) {
                                Some(l) => l.public_by_default(),
                                None => true,
                            };
                            by_language || f == root
                        },
                    };
                    let ghost before = cands@;
                    if shown {
                        let same = match source {
                            Some(l) => l == e.2,
                            None => false,
                        };
                        let confidence = if d == 0 || (d == 1 && same) {
                            CONFIDENCE_OWN_OR_DIRECT
                        } else if source.is_some() && !same {
                            CONFIDENCE_CROSS_LANGUAGE
                        } else {
                            CONFIDENCE_TRANSITIVE
                        };
                        let rank: u8 = if d == 0 {
                            0
                        } else if d == 1 && same {
                            1
                        } else if same {
                            2
                        } else {
                            3
                        };
                        let names = match &direct {
                            Some(v) => exposed_names(d, &e.1, Some(v)),
                            None => exposed_names(d, &e.1, None),
                        };
                        let ghost sc = symbol_candidates(*ctx, root, f, d as nat, *e);
                        let mut q: usize = 0;
                        while q < names.len()
                            invariant
                                0 <= q <= names@.len(),
                                sc.len() == names@.len(),
                                forall|j: int| 0 <= j < names@.len() ==> #[trigger] sc[j] == (Candidate {
                                    symbol: e.0,
                                    confidence,
                                    rank,
                                    path,
                                    name: names@[j],
                                }),
                                cands@ == before + sc.take(q as int),
                            decreases names@.len() - q,
                        {
                            let c = Candidate {
                                symbol: e.0,
                                confidence,
                                rank,
                                path: match &path {
                                    Some(p) => Some(p.clone()),
                                    None => None,
                                },
                                name: names[q].clone(),
                            };
                            cands.push(c);
                            proof { assert(sc.take(q + 1) =~= sc.take(q as int).push(sc[q as int])); }
                            q = q + 1;
                        }
                        proof {
                            assert(sc.take(q as int) =~= sc);
                        }
                    } else {
                        proof { assert(before + symbol_candidates(*ctx, root, f, d as nat, *e) =~= before); }
                    }
                    k = k + 1;
                }
                proof { assert(entries@.take(k as int) =~= entries@); }
            },
            None => {
                proof { assert(c0 + file_candidates(*ctx, root, f, d as nat, Seq::empty()) =~= c0); }
            },
        }
        i = i + 1;
    }
    proof { assert(visits@.take(i as int) =~= visits@); }
    (cands, diags)
}

/// The scope of a candidate list (see [`spec_scope`]).
fn group_scope(cands: &Vec<Candidate>) -> (r: Vec<(String, Vec<(SymbolId, u32)>)>)
    ensures
        r@.map_values(|e: (String, Vec<(SymbolId, u32)>)| (e.0@, e.1@)) == spec_scope(cands@),
{
    // The names, first appearances only.
    let mut names: Vec<String> = Vec::new();
    let mut i: usize = 0;
    while i < cands.len()
        invariant
            0 <= i <= cands@.len(),
            names@.map_values(|n: String| n@) == scope_names(cands@.take(i as int)),
        decreases cands@.len() - i,
    {
        proof {
            assert(cands@.take(i + 1).drop_last() =~= cands@.take(i as int));
            assert(cands@.take(i + 1).last() == cands@[i as int]);
        }
        let mut found = false;
        let mut k: usize = 0;
        while k < names.len()
            invariant
                0 <= k <= names@.len(),
                i < cands@.len(),
                found == (exists|j: int| 0 <= j < k && (#[trigger] names@[j])@ == cands@[i as int].name@),
            decreases names@.len() - k,
        {
            if str_eq(names[k].as_str(), cands[i].name.as_str()) {
                found = true;
            }
            proof {
                if found && names@[k as int]@ != cands@[i as int].name@ {
                    let j = choose|j: int| 0 <= j < k && (#[trigger] names@[j])@ == cands@[i as int].name@;
                }
            }
            k = k + 1;
        }
        let ghost nv = names@.map_values(|n: String| n@);
        proof {
            if found {
                let j = choose|j: int| 0 <= j < names@.len() && (#[trigger] names@[j])@ == cands@[i as int].name@;
                assert(nv[j] == cands@[i as int].name@);
            } else {
                assert forall|j: int| 0 <= j < nv.len() implies nv[j] != cands@[i as int].name@ by {
                    assert(nv[j] == names@[j]@);
                }
            }
        }
        if !found {
            names.push(cands[i].name.clone());
            proof { assert(names@.map_values(|n: String| n@) =~= nv.push(cands@[i as int].name@)); }
        }
        i = i + 1;
    }
    proof { assert(cands@.take(i as int) =~= cands@); }
    let ghost nv = names@.map_values(|n: String| n@);
    let mut out: Vec<(String, Vec<(SymbolId, u32)>)> = Vec::new();
    let mut k: usize = 0;
    while k < names.len()
        invariant
            0 <= k <= names@.len(),
            nv == names@.map_values(|n: String| n@),
            nv == scope_names(cands@),
            out@.map_values(|e: (String, Vec<(SymbolId, u32)>)| (e.0@, e.1@)) == nv.take(k as int).map_values(
                |n: Seq<char>| (n, scope_value(cands@, n)),
            ),
        decreases names@.len() - k,
    {
        let ghost n = names@[k as int]@;
        // The candidates of the name.
        let mut group: Vec<Candidate> = Vec::new();
        let mut j: usize = 0;
        while j < cands.len()
            invariant
                0 <= j <= cands@.len(),
                k < names@.len(),
                n == names@[k as int]@,
                group@ == cands@.take(j as int).filter(name_is(n)),
            decreases cands@.len() - j,
        {
            proof { lemma_filter_take_step(cands@, j as int, name_is(n)); }
            if str_eq(cands[j].name.as_str(), names[k].as_str()) {
                group.push(cands[j].duplicate());
            }
            j = j + 1;
        }
        proof { assert(cands@.take(j as int) =~= cands@); }
        // The lowest class.
        let mut m: u8 = 0;
        let mut q: usize = 0;
        while q < group.len()
            invariant
                0 <= q <= group@.len(),
                m == min_rank(group@.take(q as int)),
            decreases group@.len() - q,
        {
            proof {
                assert(group@.take(q + 1).drop_last() =~= group@.take(q as int));
                assert(group@.take(q + 1).last() == group@[q as int]);
                if q == 0 {
                    assert(group@.take(1)[0] == group@[0]);
                }
            }
            if q == 0 || group[q].rank < m {
                m = group[q].rank;
            }
            q = q + 1;
        }
        proof { assert(group@.take(q as int) =~= group@); }
        let mut best: Vec<Candidate> = Vec::new();
        let mut q: usize = 0;
        while q < group.len()
            invariant
                0 <= q <= group@.len(),
                best@ == group@.take(q as int).filter(rank_is(m)),
            decreases group@.len() - q,
        {
            proof { lemma_filter_take_step(group@, q as int, rank_is(m)); }
            if group[q].rank == m {
                best.push(group[q].duplicate());
            }
            q = q + 1;
        }
        proof { assert(group@.take(q as int) =~= group@); }
        let sorted = sort_stable(best);
        let mut value: Vec<(SymbolId, u32)> = Vec::new();
        let mut q: usize = 0;
        while q < sorted.len()
            invariant
                0 <= q <= sorted@.len(),
                value@ == sorted@.take(q as int).map_values(|c: Candidate| (c.symbol, c.confidence)),
            decreases sorted@.len() - q,
        {
            value.push((sorted[q].symbol, sorted[q].confidence));
            proof {
                assert(sorted@.take(q + 1).map_values(|c: Candidate| (c.symbol, c.confidence)) =~= sorted@.take(q as int).map_values(
                    |c: Candidate| (c.symbol, c.confidence),
                ).push((sorted@[q as int].symbol, sorted@[q as int].confidence)));
            }
            q = q + 1;
        }
        proof {
            assert(sorted@.take(q as int) =~= sorted@);
            let g = with_name(cands@, n);
            assert(group@ == g);
            assert(m == min_rank(g));
            assert(best@ == with_rank(g, m));
            assert(sorted@ == stable_sorted(with_rank(g, m)));
            assert(value@ == ranked_entries(sorted@));
            assert(value@ == scope_value(cands@, n));
        }
        let ghost before = out@;
        out.push((names[k].clone(), value));
        proof {
            assert(out@.map_values(|e: (String, Vec<(SymbolId, u32)>)| (e.0@, e.1@)) =~= before.map_values(
                |e: (String, Vec<(SymbolId, u32)>)| (e.0@, e.1@),
            ).push((n, scope_value(cands@, n))));
            assert(nv.take(k + 1).map_values(|n: Seq<char>| (n, scope_value(cands@, n))) =~= nv.take(k as int).map_values(
                |n: Seq<char>| (n, scope_value(cands@, n)),
            ).push((n, scope_value(cands@, n))));
        }
        k = k + 1;
    }
    proof { assert(nv.take(k as int) =~= nv); }
    out
}

/// The scope of one file: every name visible in it with the symbols it
/// resolves to, ranked; and a warning for each import of the file by a
/// file it reaches.
///
/// The files are visited breadth first from `root` (see
/// [`reached_files`]); nearer definitions shadow farther ones, so a name
/// keeps only its candidates of the lowest shadowing class.
pub fn compute_scope(ctx: &ResolutionContext, root: FileId) -> (r: (Vec<(String, Vec<(SymbolId, u32)>)>, Vec<Diagnostic>))
    ensures
        r.0@.map_values(|e: (String, Vec<(SymbolId, u32)>)| (e.0@, e.1@)) == spec_scope(
            visit_candidates(*ctx, root, reached_files(ctx.import_adjacency@, root)),
        ),
        r.1@.map_values(|d: Diagnostic| diagnostic_view(d)) == cycle_warnings(*ctx, root, reached_files(ctx.import_adjacency@, root)),
{
    let visits = breadth_first(&ctx.import_adjacency, root);
    let (cands, diags) = collect_candidates(ctx, root, &visits);
    let scope = group_scope(&cands);
    (scope, diags)
}

/// The scope of a file (see [`compute_scope`]).
pub open spec fn file_scope(ctx: ResolutionContext, f: FileId) -> Seq<(Seq<char>, Seq<(SymbolId, u32)>)> {
    spec_scope(visit_candidates(ctx, f, reached_files(ctx.import_adjacency@, f)))
}

/// A file of the symbol index with its path, ordered by path (an unknown
/// path first).
pub struct FileKey {
    pub file: FileId,
    pub path: Option<String>,
}

impl SortKey for FileKey {
    open spec fn key_order(self, other: Self) -> int {
        match (self.path, other.path) {
            (None, None) => 0,
            (None, Some(_)) => -1,
            (Some(_), None) => 1,
            (Some(a), Some(b)) => path_order(a@, b@),
        }
    }

    proof fn lemma_key_order(a: Self, b: Self, c: Self) {
        match (a.path, b.path, c.path) {
            (Some(x), Some(y), Some(z)) => {
                lemma_path_order(x@, y@, z@);
            },
            (Some(x), Some(y), None) => {
                lemma_path_order(x@, y@, y@);
            },
            (None, Some(y), Some(z)) => {
                lemma_path_order(y@, z@, z@);
            },
            (Some(x), None, Some(z)) => {
                lemma_path_order(x@, z@, z@);
            },
            _ => {},
        }
    }

    fn compare_keys(&self, other: &Self) -> (r: i8) {
        match (&self.path, &other.path) {
            (None, None) => 0,
            (None, Some(_)) => -1,
            (Some(_), None) => 1,
            (Some(a), Some(b)) => compare_paths(a.as_str(), b.as_str()),
        }
    }
}

/// The files of the symbol index, each once, ordered by path (a stable
/// sort over index order).
pub open spec fn cache_order(ctx: ResolutionContext) -> Seq<FileKey> {
    stable_sorted(distinct_keys(ctx.symbol_index@).map_values(|f: FileId| FileKey { file: f, path: latest(ctx.file_paths@, f) }))
}

/// The scope of every file, pre-computed.
#[derive(Debug)]
pub struct FlattenedScopeCache {
    /// Each file with its scope: every visible name with what it
    /// resolves to.
    pub scopes: Vec<(FileId, Vec<(String, Vec<(SymbolId, u32)>)>)>,
}

/// A scope as plain values.
pub open spec fn scope_view(s: Vec<(String, Vec<(SymbolId, u32)>)>) -> Seq<(Seq<char>, Seq<(SymbolId, u32)>)> {
    s@.map_values(|e: (String, Vec<(SymbolId, u32)>)| (e.0@, e.1@))
}

/// The circular-import warnings of the files, in order.
pub open spec fn cache_warnings(ctx: ResolutionContext, keys: Seq<FileKey>) -> Seq<(Seq<char>, Severity, Seq<char>, Option<SourceRange>)>
    decreases keys.len(),
{
    if keys.len() == 0 {
        Seq::empty()
    } else {
        let f = keys.last().file;
        cache_warnings(ctx, keys.drop_last()) + cycle_warnings(ctx, f, reached_files(ctx.import_adjacency@, f))
    }
}

/// The value of the first entry of the name.
pub open spec fn name_lookup(scope: Seq<(Seq<char>, Seq<(SymbolId, u32)>)>, n: Seq<char>) -> Option<Seq<(SymbolId, u32)>>
    decreases scope.len(),
{
    if scope.len() == 0 {
        None
    } else {
        match name_lookup(scope.drop_last(), n) {
            Some(v) => Some(v),
            None => if scope.last().0 == n {
                Some(scope.last().1)
            } else {
                None
            },
        }
    }
}

fn distinct_index_files(v: &Vec<(FileId, Vec<(SymbolId, String, LangId, Option<Visibility>)>)>) -> (r: Vec<FileId>)
    ensures
        r@ == distinct_keys(v@),
{
    let mut out: Vec<FileId> = Vec::new();
    let mut i: usize = 0;
    while i < v.len()
        invariant
            0 <= i <= v@.len(),
            out@ == distinct_keys(v@.take(i as int)),
        decreases v@.len() - i,
    {
        proof {
            assert(v@.take(i + 1).drop_last() =~= v@.take(i as int));
            assert(v@.take(i + 1).last() == v@[i as int]);
        }
        if !contains_file(&out, v[i].0) {
            out.push(v[i].0);
        }
        i = i + 1;
    }
    proof { assert(v@.take(i as int) =~= v@); }
    out
}

impl FlattenedScopeCache {
    /// The scope of every file of the symbol index (see [`compute_scope`]);
    /// the circular-import warnings are appended file after file, in path
    /// order, so two runs report the same sequence.
    pub fn build(ctx: &ResolutionContext, diagnostics: &mut Vec<Diagnostic>) -> (r: FlattenedScopeCache)
        ensures
            r.scopes@.len() == cache_order(*ctx).len(),
            forall|k: int| 0 <= k < r.scopes@.len() ==> (#[trigger] r.scopes@[k]).0 == cache_order(*ctx)[k].file
                && scope_view(r.scopes@[k].1) == file_scope(*ctx, cache_order(*ctx)[k].file),
            final(diagnostics)@.map_values(|d: Diagnostic| diagnostic_view(d)) == old(diagnostics)@.map_values(|d: Diagnostic| diagnostic_view(d))
                + cache_warnings(*ctx, cache_order(*ctx)),
    {
        let files = distinct_index_files(&ctx.symbol_index);
        let mut keys: Vec<FileKey> = Vec::new();
        let mut i: usize = 0;
        while i < files.len()
            invariant
                0 <= i <= files@.len(),
                keys@ == files@.take(i as int).map_values(|f: FileId| FileKey { file: f, path: latest(ctx.file_paths@, f) }),
            decreases files@.len() - i,
        {
            keys.push(FileKey { file: files[i], path: latest_path(&ctx.file_paths, files[i]) });
            proof {
                assert(files@.take(i + 1).map_values(|f: FileId| FileKey { file: f, path: latest(ctx.file_paths@, f) }) =~= files@.take(
                    i as int,
                ).map_values(|f: FileId| FileKey { file: f, path: latest(ctx.file_paths@, f) }).push(
                    FileKey { file: files@[i as int], path: latest(ctx.file_paths@, files@[i as int]) },
                ));
            }
            i = i + 1;
        }
        proof { assert(files@.take(i as int) =~= files@); }
        let order = sort_stable(keys);
        let ghost d0 = diagnostics@.map_values(|d: Diagnostic| diagnostic_view(d));
        let mut scopes: Vec<(FileId, Vec<(String, Vec<(SymbolId, u32)>)>)> = Vec::new();
        let mut k: usize = 0;
        proof { assert(d0 + cache_warnings(*ctx, order@.take(0)) =~= d0); }
        while k < order.len()
            invariant
                0 <= k <= order@.len(),
                order@ == cache_order(*ctx),
                scopes@.len() == k,
                forall|j: int| 0 <= j < k ==> (#[trigger] scopes@[j]).0 == order@[j].file && scope_view(scopes@[j].1) == file_scope(
                    *ctx,
                    order@[j].file,
                ),
                diagnostics@.map_values(|d: Diagnostic| diagnostic_view(d)) == d0 + cache_warnings(*ctx, order@.take(k as int)),
            decreases order@.len() - k,
        {
            proof {
                assert(order@.take(k + 1).drop_last() =~= order@.take(k as int));
                assert(order@.take(k + 1).last() == order@[k as int]);
            }
            let f = order[k].file;
            let (scope, diags) = compute_scope(ctx, f);
            let ghost before = diagnostics@;
            let mut q: usize = 0;
            while q < diags.len()
                invariant
                    0 <= q <= diags@.len(),
                    diagnostics@ == before + diags@.take(q as int),
                decreases diags@.len() - q,
            {
                diagnostics.push(diags[q].duplicate());
                proof { assert(diagnostics@ =~= before + diags@.take(q + 1)); }
                q = q + 1;
            }
            proof {
                assert(diags@.take(q as int) =~= diags@);
                assert(diagnostics@.map_values(|d: Diagnostic| diagnostic_view(d)) =~= before.map_values(|d: Diagnostic| diagnostic_view(d))
                    + diags@.map_values(|d: Diagnostic| diagnostic_view(d)));
            }
            scopes.push((f, scope));
            k = k + 1;
        }
        proof { assert(order@.take(k as int) =~= order@); }
        FlattenedScopeCache { scopes }
    }

    /// The symbols a name resolves to in a file's scope, with confidence;
    /// `None` when the file has no scope or the name is not in it.
    pub fn resolve(&self, file_id: FileId, name: &str) -> (r: Option<&Vec<(SymbolId, u32)>>)
        ensures
            match latest(self.scopes@, file_id) {
                Some(s) => match name_lookup(scope_view(s), name@) {
                    Some(v) => r matches Some(x) && x@ == v,
                    None => r is None,
                },
                None => r is None,
            },
    {
        let mut i: usize = self.scopes.len();
        proof { assert(self.scopes@.take(i as int) =~= self.scopes@); }
        while i > 0
            invariant
                0 <= i <= self.scopes@.len(),
                latest(self.scopes@, file_id) == latest(self.scopes@.take(i as int), file_id),
            decreases i,
        {
            proof {
                assert(self.scopes@.take(i as int).last() == self.scopes@[i - 1]);
                assert(self.scopes@.take(i as int).drop_last() =~= self.scopes@.take(i - 1));
            }
            if self.scopes[i - 1].0 == file_id {
                let scope = &self.scopes[i - 1].1;
                let ghost sv = scope_view(*scope);
                proof { assert(latest(self.scopes@.take(i as int), file_id) == Some(*scope)); }
                let mut k: usize = 0;
                while k < scope.len()
                    invariant
                        0 <= k <= scope@.len(),
                        sv == scope_view(*scope),
                        latest(self.scopes@, file_id) == Some(*scope),
                        name_lookup(sv.take(k as int), name@) is None,
                    decreases scope@.len() - k,
                {
                    proof {
                        assert(sv.take(k + 1).drop_last() =~= sv.take(k as int));
                        assert(sv.take(k + 1).last() == sv[k as int]);
                    }
                    if str_eq(scope[k].0.as_str(), name) {
                        proof {
                            assert(sv[k as int] == (scope@[k as int].0@, scope@[k as int].1@));
                            lemma_name_lookup_prefix(sv, name@, k + 1);
                        }
                        return Some(&scope[k].1);
                    }
                    k = k + 1;
                }
                proof { assert(sv.take(k as int) =~= sv); }
                return None;
            }
            i = i - 1;
        }
        None
    }

    /// The full scope of a file: every visible name with its candidates.
    pub fn scope(&self, file_id: FileId) -> (r: Option<&Vec<(String, Vec<(SymbolId, u32)>)>>)
        ensures
            match latest(self.scopes@, file_id) {
                Some(s) => r matches Some(x) && *x == s,
                None => r is None,
            },
    {
        let mut i: usize = self.scopes.len();
        proof { assert(self.scopes@.take(i as int) =~= self.scopes@); }
        while i > 0
            invariant
                0 <= i <= self.scopes@.len(),
                latest(self.scopes@, file_id) == latest(self.scopes@.take(i as int), file_id),
            decreases i,
        {
            proof {
                assert(self.scopes@.take(i as int).last() == self.scopes@[i - 1]);
                assert(self.scopes@.take(i as int).drop_last() =~= self.scopes@.take(i - 1));
            }
            if self.scopes[i - 1].0 == file_id {
                return Some(&self.scopes[i - 1].1);
            }
            i = i - 1;
        }
        None
    }

    /// Every file scope, in cache order.
    pub fn iter_scopes(&self) -> (r: Vec<(FileId, &Vec<(String, Vec<(SymbolId, u32)>)>)>)
        ensures
            r@.len() == self.scopes@.len(),
            forall|k: int| 0 <= k < r@.len() ==> (#[trigger] r@[k]).0 == self.scopes@[k].0 && *r@[k].1 == self.scopes@[k].1,
    {
        let mut out: Vec<(FileId, &Vec<(String, Vec<(SymbolId, u32)>)>)> = Vec::new();
        let mut k: usize = 0;
        while k < self.scopes.len()
            invariant
                0 <= k <= self.scopes@.len(),
                out@.len() == k,
                forall|j: int| 0 <= j < k ==> (#[trigger] out@[j]).0 == self.scopes@[j].0 && *out@[j].1 == self.scopes@[j].1,
            decreases self.scopes@.len() - k,
        {
            out.push((self.scopes[k].0, &self.scopes[k].1));
            k = k + 1;
        }
        out
    }

    /// The number of scopes.
    pub fn len(&self) -> (r: usize)
        ensures
            r == self.scopes@.len(),
    {
        self.scopes.len()
    }

    /// No file has a scope.
    pub fn is_empty(&self) -> (r: bool)
        ensures
            r == (self.scopes@.len() == 0),
    {
        self.scopes.len() == 0
    }
}

proof fn lemma_name_lookup_prefix(scope: Seq<(Seq<char>, Seq<(SymbolId, u32)>)>, n: Seq<char>, m: int)
    requires
        0 <= m <= scope.len(),
        name_lookup(scope.take(m), n) is Some,
    ensures
        name_lookup(scope, n) == name_lookup(scope.take(m), n),
    decreases scope.len() - m,
{
    if m == scope.len() {
        assert(scope.take(m) =~= scope);
    } else {
        assert(scope.take(m + 1).drop_last() =~= scope.take(m));
        lemma_name_lookup_prefix(scope, n, m + 1);
    }
}

/// What a name resolves to in a file's scope, when anything.
pub open spec fn cache_resolve(cache: FlattenedScopeCache, f: FileId, n: Seq<char>) -> Option<Seq<(SymbolId, u32)>> {
    match latest(cache.scopes@, f) {
        Some(s) => name_lookup(scope_view(s), n),
        None => None,
    }
}

/// One resolved use of a name, with the site that produced it.
#[derive(Debug, Clone)]
pub struct ResolvedReference {
    /// Path of the referencing file, as extracted.
    pub file_path: String,
    /// Range of the reference itself.
    pub range: SourceRange,
    /// Symbol that contains the reference.
    pub source: SymbolId,
    /// Symbol the name resolves to.
    pub target: SymbolId,
    /// Confidence from the scope, in thousandths.
    pub confidence: u32,
}

/// A resolved reference as plain values.
pub open spec fn reference_view(r: ResolvedReference) -> (Seq<char>, SourceRange, SymbolId, SymbolId, u32) {
    (r.file_path@, r.range, r.source, r.target, r.confidence)
}

/// The records and warning of one reference of a file: one record per
/// symbol the name resolves to, from the innermost enclosing symbol; no
/// record when no symbol encloses it; a warning when the name is not in
/// scope.
pub open spec fn reference_outcome(cache: FlattenedScopeCache, x: FileExtraction, f: FileId, rf: UnresolvedReference) -> (Seq<(Seq<char>, SourceRange, SymbolId, SymbolId, u32)>, Seq<(Seq<char>, Severity, Seq<char>, Option<SourceRange>)>) {
    match cache_resolve(cache, f, rf.name@) {
        Some(matches) => match innermost(x.symbols@, rf.range) {
            Some(src) => (
                matches.map_values(|m: (SymbolId, u32)| (x.path@, rf.range, src.id, m.0, m.1)),
                Seq::empty(),
            ),
            None => (Seq::empty(), Seq::empty()),
        },
        None => (
            Seq::empty(),
            seq![(x.path@, Severity::Warning, "unresolved reference: '"@ + rf.name@ + "'"@, Some(rf.range))],
        ),
    }
}

/// The records and warnings of the first `n` references of a file.
pub open spec fn file_references(cache: FlattenedScopeCache, x: FileExtraction, f: FileId, n: int) -> (Seq<(Seq<char>, SourceRange, SymbolId, SymbolId, u32)>, Seq<(Seq<char>, Severity, Seq<char>, Option<SourceRange>)>)
    decreases n,
{
    if n <= 0 {
        (Seq::empty(), Seq::empty())
    } else {
        let prev = file_references(cache, x, f, n - 1);
        let step = reference_outcome(cache, x, f, x.references@[n - 1]);
        (prev.0 + step.0, prev.1 + step.1)
    }
}

/// The records and warnings of every extraction that maps to a file, in
/// extraction and reference order.
pub open spec fn all_references(cache: FlattenedScopeCache, exs: Seq<FileExtraction>, ptf: Seq<(String, FileId)>) -> (Seq<(Seq<char>, SourceRange, SymbolId, SymbolId, u32)>, Seq<(Seq<char>, Severity, Seq<char>, Option<SourceRange>)>)
    decreases exs.len(),
{
    if exs.len() == 0 {
        (Seq::empty(), Seq::empty())
    } else {
        let prev = all_references(cache, exs.drop_last(), ptf);
        let x = exs.last();
        match path_value(ptf, x.path@) {
            Some(f) => {
                let step = file_references(cache, x, f, x.references@.len() as int);
                (prev.0 + step.0, prev.1 + step.1)
            },
            None => prev,
        }
    }
}

/// Resolves every reference and keeps its use site (see
/// [`all_references`]); the warnings are appended to `diagnostics`.
///
/// A self-recursive reference keeps `source == target`.
pub fn resolve_references_detailed(
    extractions: &Vec<FileExtraction>,
    path_to_file_id: &Vec<(String, FileId)>,
    scope_cache: &FlattenedScopeCache,
    diagnostics: &mut Vec<Diagnostic>,
) -> (r: Vec<ResolvedReference>)
    ensures
        r@.map_values(|x: ResolvedReference| reference_view(x)) == all_references(*scope_cache, extractions@, path_to_file_id@).0,
        final(diagnostics)@.map_values(|d: Diagnostic| diagnostic_view(d)) == old(diagnostics)@.map_values(|d: Diagnostic| diagnostic_view(d))
            + all_references(*scope_cache, extractions@, path_to_file_id@).1,
{
    let ghost d0 = diagnostics@.map_values(|d: Diagnostic| diagnostic_view(d));
    let mut out: Vec<ResolvedReference> = Vec::new();
    let mut i: usize = 0;
    proof { assert(d0 + Seq::empty() =~= d0); }
    while i < extractions.len()
        invariant
            0 <= i <= extractions@.len(),
            out@.map_values(|x: ResolvedReference| reference_view(x)) == all_references(*scope_cache, extractions@.take(i as int), path_to_file_id@).0,
            diagnostics@.map_values(|d: Diagnostic| diagnostic_view(d)) == d0 + all_references(*scope_cache, extractions@.take(i as int), path_to_file_id@).1,
        decreases extractions@.len() - i,
    {
        proof {
            assert(extractions@.take(i + 1).drop_last() =~= extractions@.take(i as int));
            assert(extractions@.take(i + 1).last() == extractions@[i as int]);
        }
        let x = &extractions[i];
        match lookup_file_id(path_to_file_id, x.path.as_str()) {
            Some(f) => {
                let ghost o0 = out@.map_values(|x: ResolvedReference| reference_view(x));
                let ghost dd = diagnostics@.map_values(|d: Diagnostic| diagnostic_view(d));
                let mut k: usize = 0;
                proof {
                    assert(o0 + Seq::empty() =~= o0);
                    assert(dd + Seq::empty() =~= dd);
                }
                while k < x.references.len()
                    invariant
                        0 <= k <= x.references@.len(),
                        out@.map_values(|x: ResolvedReference| reference_view(x)) == o0 + file_references(*scope_cache, *x, f, k as int).0,
                        diagnostics@.map_values(|d: Diagnostic| diagnostic_view(d)) == dd + file_references(*scope_cache, *x, f, k as int).1,
                    decreases x.references@.len() - k,
                {
                    let rf = &x.references[k];
                    let ghost ob = out@.map_values(|x: ResolvedReference| reference_view(x));
                    let ghost db = diagnostics@.map_values(|d: Diagnostic| diagnostic_view(d));
                    match scope_cache.resolve(f, rf.name.as_str()) {
                        Some(matches) => {
                            match innermost_of(&x.symbols, rf.range) {
                                Some(source) => {
                                    let mut q: usize = 0;
                                    while q < matches.len()
                                        invariant
                                            0 <= q <= matches@.len(),
                                            out@.map_values(|x: ResolvedReference| reference_view(x)) == ob + matches@.take(q as int).map_values(
                                                |m: (SymbolId, u32)| (x.path@, rf.range, source, m.0, m.1),
                                            ),
                                        decreases matches@.len() - q,
                                    {
                                        let rec = ResolvedReference {
                                            file_path: x.path.clone(),
                                            range: rf.range,
                                            source,
                                            target: matches[q].0,
                                            confidence: matches[q].1,
                                        };
                                        let ghost before = out@;
                                        out.push(rec);
                                        proof {
                                            assert(out@.map_values(|x: ResolvedReference| reference_view(x)) =~= before.map_values(
                                                |x: ResolvedReference| reference_view(x),
                                            ).push(reference_view(rec)));
                                            assert(matches@.take(q + 1).map_values(|m: (SymbolId, u32)| (x.path@, rf.range, source, m.0, m.1))
                                                =~= matches@.take(q as int).map_values(|m: (SymbolId, u32)| (x.path@, rf.range, source, m.0, m.1)).push(
                                                (x.path@, rf.range, source, matches@[q as int].0, matches@[q as int].1),
                                            ));
                                        }
                                        q = q + 1;
                                    }
                                    proof {
                                        assert(matches@.take(q as int) =~= matches@);
                                        assert(db + Seq::empty() =~= db);
                                    }
                                },
                                None => {
                                    proof {
                                        assert(ob + Seq::empty() =~= ob);
                                        assert(db + Seq::empty() =~= db);
                                    }
                                },
                            }
                        },
                        None => {
                            let mut m = String::new();
                            push_str(&mut m, "unresolved reference: '");
                            push_str(&mut m, rf.name.as_str());
                            push_str(&mut m, "'");
                            proof { assert(m@ =~= "unresolved reference: '"@ + rf.name@ + "'"@); }
                            let dg = Diagnostic { path: x.path.clone(), severity: Severity::Warning, message: m, source_range: Some(rf.range) };
                            let ghost before = diagnostics@;
                            diagnostics.push(dg);
                            proof {
                                assert(diagnostics@.map_values(|d: Diagnostic| diagnostic_view(d)) =~= before.map_values(|d: Diagnostic| diagnostic_view(d)).push(
                                    diagnostic_view(dg),
                                ));
                                assert(ob + Seq::empty() =~= ob);
                            }
                        },
                    }
                    proof {
                        let prev = file_references(*scope_cache, *x, f, k as int);
                        let step = reference_outcome(*scope_cache, *x, f, x.references@[k as int]);
                        assert(o0 + (prev.0 + step.0) =~= o0 + prev.0 + step.0);
                        assert(dd + (prev.1 + step.1) =~= dd + prev.1 + step.1);
                    }
                    k = k + 1;
                }
                proof {
                    let prev = all_references(*scope_cache, extractions@.take(i as int), path_to_file_id@);
                    let step = file_references(*scope_cache, *x, f, x.references@.len() as int);
                    assert(prev.0 + step.0 == o0 + step.0);
                    assert(d0 + (prev.1 + step.1) =~= d0 + prev.1 + step.1);
                }
            },
            None => {},
        }
        i = i + 1;
    }
    proof { assert(extractions@.take(i as int) =~= extractions@); }
    out
}

/// One reference edge: the use sites of a (source, target) pair folded
/// into one, ordered by source id, then target id.
#[derive(Debug)]
pub struct ReferenceEdge {
    pub source: SymbolId,
    pub target: SymbolId,
    pub confidence: u32,
}

impl SortKey for ReferenceEdge {
    open spec fn key_order(self, other: Self) -> int {
        if self.source.0 != other.source.0 {
            int_order(self.source.0 as int, other.source.0 as int)
        } else {
            int_order(self.target.0 as int, other.target.0 as int)
        }
    }

    proof fn lemma_key_order(a: Self, b: Self, c: Self) {
    }

    fn compare_keys(&self, other: &Self) -> (r: i8) {
        if self.source.0 != other.source.0 {
            if self.source.0 < other.source.0 { -1 } else { 1 }
        } else if self.target.0 < other.target.0 {
            -1
        } else if self.target.0 == other.target.0 {
            0
        } else {
            1
        }
    }
}

/// The edges of the use sites in first-appearance order, each pair once
/// with the largest confidence.
pub open spec fn fold_references(refs: Seq<(Seq<char>, SourceRange, SymbolId, SymbolId, u32)>) -> Seq<ReferenceEdge>
    decreases refs.len(),
{
    if refs.len() == 0 {
        Seq::empty()
    } else {
        let acc = fold_references(refs.drop_last());
        let r = refs.last();
        if exists|i: int| 0 <= i < acc.len() && (#[trigger] acc[i]).source == r.2 && acc[i].target == r.3 {
            let i = choose|i: int| 0 <= i < acc.len() && (#[trigger] acc[i]).source == r.2 && acc[i].target == r.3;
            acc.update(i, ReferenceEdge {
                source: r.2,
                target: r.3,
                confidence: if acc[i].confidence >= r.4 { acc[i].confidence } else { r.4 },
            })
        } else {
            acc.push(ReferenceEdge { source: r.2, target: r.3, confidence: r.4 })
        }
    }
}

/// No two edges share a (source, target) pair.
pub open spec fn pairs_distinct(es: Seq<ReferenceEdge>) -> bool {
    forall|i: int, j: int| 0 <= i < es.len() && 0 <= j < es.len() && i != j ==> !((#[trigger] es[i]).source == (#[trigger] es[j]).source
        && es[i].target == es[j].target)
}

proof fn lemma_fold_distinct(refs: Seq<(Seq<char>, SourceRange, SymbolId, SymbolId, u32)>)
    ensures
        pairs_distinct(fold_references(refs)),
    decreases refs.len(),
{
    if refs.len() > 0 {
        lemma_fold_distinct(refs.drop_last());
        let acc = fold_references(refs.drop_last());
        let r = refs.last();
        let out = fold_references(refs);
        if exists|i: int| 0 <= i < acc.len() && (#[trigger] acc[i]).source == r.2 && acc[i].target == r.3 {
            let k = choose|i: int| 0 <= i < acc.len() && (#[trigger] acc[i]).source == r.2 && acc[i].target == r.3;
            assert forall|i: int, j: int| 0 <= i < out.len() && 0 <= j < out.len() && i != j implies !((#[trigger] out[i]).source
                == (#[trigger] out[j]).source && out[i].target == out[j].target) by {
                assert(out[i].source == acc[i].source && out[i].target == acc[i].target);
                assert(out[j].source == acc[j].source && out[j].target == acc[j].target);
            }
        } else {
            assert forall|i: int, j: int| 0 <= i < out.len() && 0 <= j < out.len() && i != j implies !((#[trigger] out[i]).source
                == (#[trigger] out[j]).source && out[i].target == out[j].target) by {
                if i < acc.len() && j < acc.len() {
                    assert(out[i] == acc[i] && out[j] == acc[j]);
                } else if i < acc.len() {
                    assert(out[i] == acc[i]);
                } else {
                    assert(out[j] == acc[j]);
                }
            }
        }
    }
}

/// Folds the use sites into one edge per (source, target) pair, with the
/// largest confidence, ordered by source id, then target id; the order does
/// not depend on discovery order. A self-recursive use folds into a self
/// edge.
pub fn reference_edges(resolved: &Vec<ResolvedReference>) -> (r: Vec<(SymbolId, SymbolId, u32)>)
    ensures
        r@ == stable_sorted(fold_references(resolved@.map_values(|x: ResolvedReference| reference_view(x)))).map_values(
            |e: ReferenceEdge| (e.source, e.target, e.confidence),
        ),
{
    let ghost rv = resolved@.map_values(|x: ResolvedReference| reference_view(x));
    let mut acc: Vec<ReferenceEdge> = Vec::new();
    let mut i: usize = 0;
    while i < resolved.len()
        invariant
            0 <= i <= resolved@.len(),
            rv == resolved@.map_values(|x: ResolvedReference| reference_view(x)),
            acc@ == fold_references(rv.take(i as int)),
        decreases resolved@.len() - i,
    {
        proof {
            assert(rv.take(i + 1).drop_last() =~= rv.take(i as int));
            assert(rv.take(i + 1).last() == rv[i as int]);
            lemma_fold_distinct(rv.take(i as int));
        }
        let r = &resolved[i];
        let mut k: usize = 0;
        let mut found: Option<usize> = None;
        while k < acc.len()
            invariant
                0 <= k <= acc@.len(),
                match found {
                    Some(j) => j < acc@.len() && acc@[j as int].source == r.source && acc@[j as int].target == r.target,
                    None => forall|j: int| 0 <= j < k ==> !((#[trigger] acc@[j]).source == r.source && acc@[j].target == r.target),
                },
            decreases acc@.len() - k,
        {
            if found.is_none() && acc[k].source == r.source && acc[k].target == r.target {
                found = Some(k);
            }
            k = k + 1;
        }
        match found {
            Some(j) => {
                proof {
                    let c = choose|q: int| 0 <= q < acc@.len() && (#[trigger] acc@[q]).source == r.source && acc@[q].target == r.target;
                    assert(c == j as int);
                }
                let c = if acc[j].confidence >= r.confidence { acc[j].confidence } else { r.confidence };
                acc.set(j, ReferenceEdge { source: r.source, target: r.target, confidence: c });
            },
            None => {
                acc.push(ReferenceEdge { source: r.source, target: r.target, confidence: r.confidence });
            },
        }
        i = i + 1;
    }
    proof { assert(rv.take(i as int) =~= rv); }
    let sorted = sort_stable(acc);
    let mut out: Vec<(SymbolId, SymbolId, u32)> = Vec::new();
    let mut q: usize = 0;
    while q < sorted.len()
        invariant
            0 <= q <= sorted@.len(),
            out@ == sorted@.take(q as int).map_values(|e: ReferenceEdge| (e.source, e.target, e.confidence)),
        decreases sorted@.len() - q,
    {
        out.push((sorted[q].source, sorted[q].target, sorted[q].confidence));
        proof {
            assert(sorted@.take(q + 1).map_values(|e: ReferenceEdge| (e.source, e.target, e.confidence)) =~= sorted@.take(q as int).map_values(
                |e: ReferenceEdge| (e.source, e.target, e.confidence),
            ).push((sorted@[q as int].source, sorted@[q as int].target, sorted@[q as int].confidence)));
        }
        q = q + 1;
    }
    proof { assert(sorted@.take(q as int) =~= sorted@); }
    out
}

/// Resolves every reference (see [`resolve_references_detailed`]) and
/// folds the use sites into reference edges (see [`reference_edges`]).
pub fn resolve_all_references(
    extractions: &Vec<FileExtraction>,
    path_to_file_id: &Vec<(String, FileId)>,
    scope_cache: &FlattenedScopeCache,
    diagnostics: &mut Vec<Diagnostic>,
) -> (r: Vec<(SymbolId, SymbolId, u32)>)
    ensures
        r@ == stable_sorted(fold_references(all_references(*scope_cache, extractions@, path_to_file_id@).0)).map_values(
            |e: ReferenceEdge| (e.source, e.target, e.confidence),
        ),
        final(diagnostics)@.map_values(|d: Diagnostic| diagnostic_view(d)) == old(diagnostics)@.map_values(|d: Diagnostic| diagnostic_view(d))
            + all_references(*scope_cache, extractions@, path_to_file_id@).1,
{
    let resolved = resolve_references_detailed(extractions, path_to_file_id, scope_cache, diagnostics);
    reference_edges(&resolved)
}

/// A confidence of the scope: 1.0 own or direct, 0.8 transitive, 0.6 across
/// languages (in thousandths).
pub open spec fn is_scope_confidence(c: u32) -> bool {
    c == CONFIDENCE_OWN_OR_DIRECT || c == CONFIDENCE_TRANSITIVE || c == CONFIDENCE_CROSS_LANGUAGE
}

proof fn lemma_file_candidate_levels(
    ctx: ResolutionContext,
    root: FileId,
    f: FileId,
    d: nat,
    entries: Seq<(SymbolId, String, LangId, Option<Visibility>)>,
)
    ensures
        forall|i: int| 0 <= i < file_candidates(ctx, root, f, d, entries).len() ==> is_scope_confidence(
            (#[trigger] file_candidates(ctx, root, f, d, entries)[i]).confidence,
        ),
    decreases entries.len(),
{
    if entries.len() > 0 {
        lemma_file_candidate_levels(ctx, root, f, d, entries.drop_last());
        let prev = file_candidates(ctx, root, f, d, entries.drop_last());
        let step = symbol_candidates(ctx, root, f, d, entries.last());
        assert forall|i: int| 0 <= i < (prev + step).len() implies is_scope_confidence(#[trigger] (prev + step)[i].confidence) by {
            if i >= prev.len() {
                assert((prev + step)[i] == step[i - prev.len()]);
            }
        }
    }
}

proof fn lemma_visit_candidate_levels(ctx: ResolutionContext, root: FileId, visits: Seq<(FileId, nat)>)
    ensures
        forall|i: int| 0 <= i < visit_candidates(ctx, root, visits).len() ==> is_scope_confidence(
            (#[trigger] visit_candidates(ctx, root, visits)[i]).confidence,
        ),
    decreases visits.len(),
{
    if visits.len() > 0 {
        lemma_visit_candidate_levels(ctx, root, visits.drop_last());
        let v = visits.last();
        lemma_file_candidate_levels(ctx, root, v.0, v.1, symbols_at(ctx, v.0));
        let prev = visit_candidates(ctx, root, visits.drop_last());
        let step = file_candidates(ctx, root, v.0, v.1, symbols_at(ctx, v.0));
        assert forall|i: int| 0 <= i < (prev + step).len() implies is_scope_confidence(#[trigger] (prev + step)[i].confidence) by {
            if i >= prev.len() {
                assert((prev + step)[i] == step[i - prev.len()]);
            }
        }
    }
}

/// Some candidate of the name and class gives the entry.
pub open spec fn entry_from(cs: Seq<Candidate>, n: Seq<char>, rank: u8, e: (SymbolId, u32)) -> bool {
    exists|i: int| 0 <= i < cs.len() && (#[trigger] cs[i]).name@ == n && cs[i].rank == rank && cs[i].symbol == e.0 && cs[i].confidence == e.1
}

/// The symbols a name resolves to are candidates of that name of the lowest
/// class present.
proof fn lemma_scope_value_members(cs: Seq<Candidate>, n: Seq<char>)
    ensures
        forall|j: int| 0 <= j < scope_value(cs, n).len() ==> entry_from(cs, n, min_rank(with_name(cs, n)), #[trigger] scope_value(cs, n)[j]),
{
    let named = with_name(cs, n);
    let m = min_rank(named);
    let ranked = with_rank(named, m);
    lemma_stable_sorted_members(ranked, |c: Candidate| c.symbol);
    let sorted = stable_sorted(ranked);
    assert forall|j: int| 0 <= j < scope_value(cs, n).len() implies entry_from(cs, n, min_rank(with_name(cs, n)), #[trigger] scope_value(cs, n)[j]) by {
        let c = sorted[j];
        assert(ranked.contains(c));
        let k = choose|k: int| 0 <= k < ranked.len() && ranked[k] == c;
        named.lemma_filter_pred(rank_is(m), k);
        named.lemma_filter_contains_rev(rank_is(m), c);
        let l = choose|l: int| 0 <= l < named.len() && named[l] == c;
        cs.lemma_filter_pred(name_is(n), l);
        cs.lemma_filter_contains_rev(name_is(n), c);
        let i = choose|i: int| 0 <= i < cs.len() && cs[i] == c;
        assert(ranked_entries(sorted)[j] == (c.symbol, c.confidence));
        assert(scope_value(cs, n)[j] == (c.symbol, c.confidence));
        assert(cs[i].name@ == n && cs[i].rank == m && cs[i].symbol == scope_value(cs, n)[j].0 && cs[i].confidence == scope_value(cs, n)[j].1);
        assert(0 <= i < cs.len() && (cs[i]).name@ == n && cs[i].rank == min_rank(with_name(cs, n))
            && cs[i].symbol == (scope_value(cs, n)[j]).0 && cs[i].confidence == scope_value(cs, n)[j].1);
    }
}

proof fn lemma_min_rank_zero(cs: Seq<Candidate>, i: int)
    requires
        0 <= i < cs.len(),
        cs[i].rank == 0,
    ensures
        min_rank(cs) == 0,
    decreases cs.len(),
{
    if cs.len() > 1 && i < cs.len() - 1 {
        lemma_min_rank_zero(cs.drop_last(), i);
    }
}

/// Every confidence of a file's scope is 1.0, 0.8 or 0.6 (in thousandths).
pub proof fn lemma_scope_confidence_levels(ctx: ResolutionContext, f: FileId)
    ensures
        forall|k: int, j: int| 0 <= k < file_scope(ctx, f).len() && 0 <= j < file_scope(ctx, f)[k].1.len() ==> is_scope_confidence(
            #[trigger] file_scope(ctx, f)[k].1[j].1,
        ),
{
    let cs = visit_candidates(ctx, f, reached_files(ctx.import_adjacency@, f));
    lemma_visit_candidate_levels(ctx, f, reached_files(ctx.import_adjacency@, f));
    assert forall|k: int, j: int| 0 <= k < file_scope(ctx, f).len() && 0 <= j < file_scope(ctx, f)[k].1.len() implies is_scope_confidence(
        #[trigger] file_scope(ctx, f)[k].1[j].1,
    ) by {
        let n = scope_names(cs)[k];
        assert(file_scope(ctx, f)[k] == (n, scope_value(cs, n)));
        lemma_scope_value_members(cs, n);
        let e = scope_value(cs, n)[j];
        assert(entry_from(cs, n, min_rank(with_name(cs, n)), e));
        let i = choose|i: int| 0 <= i < cs.len() && (#[trigger] cs[i]).name@ == n && cs[i].rank == min_rank(with_name(cs, n))
            && cs[i].symbol == e.0 && cs[i].confidence == e.1;
    }
}

/// A file's own definitions shadow everything it imports: when a name has
/// a candidate from the file itself (class 0, distance 0), the name resolves
/// only to such candidates, each with full confidence.
pub proof fn lemma_own_definitions_shadow(ctx: ResolutionContext, f: FileId, n: Seq<char>)
    requires
        exists|i: int| 0 <= i < visit_candidates(ctx, f, reached_files(ctx.import_adjacency@, f)).len()
            && (#[trigger] visit_candidates(ctx, f, reached_files(ctx.import_adjacency@, f))[i]).name@ == n
            && visit_candidates(ctx, f, reached_files(ctx.import_adjacency@, f))[i].rank == 0,
    ensures
        ({
            let cs = visit_candidates(ctx, f, reached_files(ctx.import_adjacency@, f));
            forall|j: int| 0 <= j < scope_value(cs, n).len() ==> entry_from(cs, n, 0, #[trigger] scope_value(cs, n)[j])
                && scope_value(cs, n)[j].1 == CONFIDENCE_OWN_OR_DIRECT
        }),
{
    let cs = visit_candidates(ctx, f, reached_files(ctx.import_adjacency@, f));
    let i0 = choose|i: int| 0 <= i < cs.len() && (#[trigger] cs[i]).name@ == n && cs[i].rank == 0;
    let named = with_name(cs, n);
    assert(name_is(n)(cs[i0]));
    cs.lemma_filter_contains(name_is(n), i0);
    let l = choose|l: int| 0 <= l < named.len() && named[l] == cs[i0];
    lemma_min_rank_zero(named, l);
    lemma_scope_value_members(cs, n);
    lemma_rank_zero_is_own(ctx, f, reached_files(ctx.import_adjacency@, f));
}

proof fn lemma_rank_zero_is_own(ctx: ResolutionContext, root: FileId, visits: Seq<(FileId, nat)>)
    ensures
        forall|i: int| 0 <= i < visit_candidates(ctx, root, visits).len() && (#[trigger] visit_candidates(ctx, root, visits)[i]).rank == 0
            ==> visit_candidates(ctx, root, visits)[i].confidence == CONFIDENCE_OWN_OR_DIRECT,
    decreases visits.len(),
{
    if visits.len() > 0 {
        lemma_rank_zero_is_own(ctx, root, visits.drop_last());
        let v = visits.last();
        lemma_file_rank_zero(ctx, root, v.0, v.1, symbols_at(ctx, v.0));
        let prev = visit_candidates(ctx, root, visits.drop_last());
        let step = file_candidates(ctx, root, v.0, v.1, symbols_at(ctx, v.0));
        assert forall|i: int| 0 <= i < (prev + step).len() && (#[trigger] (prev + step)[i]).rank == 0 implies (prev + step)[i].confidence
            == CONFIDENCE_OWN_OR_DIRECT by {
            if i >= prev.len() {
                assert((prev + step)[i] == step[i - prev.len()]);
            }
        }
    }
}

proof fn lemma_file_rank_zero(
    ctx: ResolutionContext,
    root: FileId,
    f: FileId,
    d: nat,
    entries: Seq<(SymbolId, String, LangId, Option<Visibility>)>,
)
    ensures
        forall|i: int| 0 <= i < file_candidates(ctx, root, f, d, entries).len() && (#[trigger] file_candidates(ctx, root, f, d, entries)[i]).rank
            == 0 ==> file_candidates(ctx, root, f, d, entries)[i].confidence == CONFIDENCE_OWN_OR_DIRECT,
    decreases entries.len(),
{
    if entries.len() > 0 {
        lemma_file_rank_zero(ctx, root, f, d, entries.drop_last());
        let prev = file_candidates(ctx, root, f, d, entries.drop_last());
        let step = symbol_candidates(ctx, root, f, d, entries.last());
        assert forall|i: int| 0 <= i < (prev + step).len() && (#[trigger] (prev + step)[i]).rank == 0 implies (prev + step)[i].confidence
            == CONFIDENCE_OWN_OR_DIRECT by {
            if i >= prev.len() {
                assert((prev + step)[i] == step[i - prev.len()]);
            }
        }
    }
}

/// Every declaration of `sid` in the symbol index is in a file other than
/// `root` and hidden from other files: declared private, or declared without
/// a visibility in a Rust file, where undeclared means private.
pub open spec fn hidden_elsewhere(ctx: ResolutionContext, root: FileId, sid: SymbolId) -> bool {
    forall|g: FileId, j: int|
        0 <= j < symbols_at(ctx, g).len() && (#[trigger] symbols_at(ctx, g)[j]).0 == sid ==> hidden_in(
            ctx,
            root,
            g,
            symbols_at(ctx, g)[j].3,
        )
}

/// A declaration in `g` with this visibility cannot be seen from `root`.
pub open spec fn hidden_in(ctx: ResolutionContext, root: FileId, g: FileId, vis: Option<Visibility>) -> bool {
    &&& g != root
    &&& (vis == Some(Visibility::Private) || (vis is None && latest(ctx.file_languages@, g) == Some(LangId::Rust)))
}

proof fn lemma_file_candidates_skip(
    ctx: ResolutionContext,
    root: FileId,
    f: FileId,
    d: nat,
    entries: Seq<(SymbolId, String, LangId, Option<Visibility>)>,
    sid: SymbolId,
)
    requires
        forall|j: int| 0 <= j < entries.len() && (#[trigger] entries[j]).0 == sid ==> hidden_in(ctx, root, f, entries[j].3),
    ensures
        forall|i: int| 0 <= i < file_candidates(ctx, root, f, d, entries).len() ==> (#[trigger] file_candidates(ctx, root, f, d, entries)[i]).symbol
            != sid,
    decreases entries.len(),
{
    if entries.len() > 0 {
        let t = entries.drop_last();
        assert forall|j: int| 0 <= j < t.len() && (#[trigger] t[j]).0 == sid implies hidden_in(ctx, root, f, t[j].3) by {
            assert(t[j] == entries[j]);
        }
        lemma_file_candidates_skip(ctx, root, f, d, t, sid);
        let prev = file_candidates(ctx, root, f, d, t);
        let e = entries.last();
        let step = symbol_candidates(ctx, root, f, d, e);
        assert(e == entries[entries.len() - 1]);
        assert forall|i: int| 0 <= i < (prev + step).len() implies (#[trigger] (prev + step)[i]).symbol != sid by {
            if i >= prev.len() {
                assert((prev + step)[i] == step[i - prev.len()]);
                assert(visible(ctx, root, f, e.3));
                assert(step[i - prev.len()].symbol == e.0);
            }
        }
    }
}

proof fn lemma_visit_candidates_skip(ctx: ResolutionContext, root: FileId, visits: Seq<(FileId, nat)>, sid: SymbolId)
    requires
        hidden_elsewhere(ctx, root, sid),
    ensures
        forall|i: int| 0 <= i < visit_candidates(ctx, root, visits).len() ==> (#[trigger] visit_candidates(ctx, root, visits)[i]).symbol
            != sid,
    decreases visits.len(),
{
    if visits.len() > 0 {
        lemma_visit_candidates_skip(ctx, root, visits.drop_last(), sid);
        let v = visits.last();
        let entries = symbols_at(ctx, v.0);
        assert forall|j: int| 0 <= j < entries.len() && (#[trigger] entries[j]).0 == sid implies hidden_in(ctx, root, v.0, entries[j].3) by {
            assert(symbols_at(ctx, v.0)[j].0 == sid);
        }
        lemma_file_candidates_skip(ctx, root, v.0, v.1, entries, sid);
        let prev = visit_candidates(ctx, root, visits.drop_last());
        let step = file_candidates(ctx, root, v.0, v.1, entries);
        assert forall|i: int| 0 <= i < (prev + step).len() implies (#[trigger] (prev + step)[i]).symbol != sid by {
            if i >= prev.len() {
                assert((prev + step)[i] == step[i - prev.len()]);
            }
        }
    }
}

/// A symbol declared private in a file other than `root` (or declared
/// without a visibility in such a Rust file), and nowhere else, is not in
/// `root`'s scope: no name of the scope resolves to it.
pub proof fn lemma_private_symbols_stay_home(ctx: ResolutionContext, root: FileId, sid: SymbolId)
    requires
        hidden_elsewhere(ctx, root, sid),
    ensures
        forall|k: int, j: int|
            0 <= k < file_scope(ctx, root).len() && 0 <= j < file_scope(ctx, root)[k].1.len() ==> (
            #[trigger] file_scope(ctx, root)[k].1[j]).0 != sid,
{
    let cs = visit_candidates(ctx, root, reached_files(ctx.import_adjacency@, root));
    lemma_visit_candidates_skip(ctx, root, reached_files(ctx.import_adjacency@, root), sid);
    assert forall|k: int, j: int|
        0 <= k < file_scope(ctx, root).len() && 0 <= j < file_scope(ctx, root)[k].1.len() implies (
        #[trigger] file_scope(ctx, root)[k].1[j]).0 != sid by {
        let n = scope_names(cs)[k];
        assert(file_scope(ctx, root)[k] == (n, scope_value(cs, n)));
        lemma_scope_value_members(cs, n);
        let e = scope_value(cs, n)[j];
        assert(entry_from(cs, n, min_rank(with_name(cs, n)), e));
        let i = choose|i: int| 0 <= i < cs.len() && (#[trigger] cs[i]).name@ == n && cs[i].rank == min_rank(with_name(cs, n))
            && cs[i].symbol == e.0 && cs[i].confidence == e.1;
        assert(cs[i].symbol != sid);
    }
}

} // verus!
