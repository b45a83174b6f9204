//! Assembly of per-file extraction results.
//!
//! Each file is read, parsed and queried on its own; what that gave is an
//! outcome. A file that cannot be read or parsed becomes an empty extraction
//! carrying one error diagnostic. A parsed file gets its symbols numbered from
//! a shared counter, so IDs are unique across the run, and, in symbol-only
//! mode, drops its imports and references. The extractions come out sorted by
//! path.
use vstd::prelude::*;

use crate::error::{Diagnostic, Severity};
use crate::input::DiscoveredFile;
use crate::lang::LangId;
use crate::model::{
    FileExtraction, SourceRange, Symbol, SymbolId, SymbolKind, UnresolvedImport,
    UnresolvedReference, Visibility,
};
use crate::order::{sort_stable, sorted_by_key, stable_sorted, SortKey};
use crate::paths::{compare_paths, lemma_path_order, path_order};
use crate::scanner::CallSite;
use crate::text::{push_str, string_from};

verus! {

/// Controls what the extraction pass produces.
#[derive(Debug, Clone, Copy)]
pub struct ExtractOptions {
    /// Keep only symbols and node counts: imports and references are not
    /// extracted, which halves the work of a symbol listing.
    pub skip_imports_and_refs: bool,
}

impl Default for ExtractOptions {
    /// Imports and references are extracted by default.
    fn default() -> (r: ExtractOptions)
        ensures
            !r.skip_imports_and_refs,
    {
        ExtractOptions { skip_imports_and_refs: false }
    }
}

/// A symbol as the language query reports it, before it has an ID.
#[derive(Debug, Clone)]
pub struct RawSymbol {
    pub name: String,
    pub kind: SymbolKind,
    pub source_range: SourceRange,
    pub visibility: Option<Visibility>,
    pub signature: Option<String>,
    pub docstring: Option<String>,
    pub is_async: bool,
}

/// What parsing and querying a readable file gave.
#[derive(Debug)]
pub struct ParsedFile {
    /// Number of nodes of the syntax tree.
    pub node_count: usize,
    /// The warning text when more than half of the tree is parse errors.
    pub error_warning: Option<String>,
    pub symbols: Vec<RawSymbol>,
    pub imports: Vec<UnresolvedImport>,
    pub references: Vec<UnresolvedReference>,
    pub call_sites: Vec<CallSite>,
}

/// What became of one file.
#[derive(Debug)]
pub enum FileOutcome {
    /// Reading failed, with the error's text.
    Unreadable(String),
    /// Parsing failed, with the error's text.
    Unparsable(String),
    /// The file parsed.
    Parsed(ParsedFile),
}

/// The extractions of a run.
#[derive(Debug)]
pub struct ExtractionResult {
    pub files: Vec<FileExtraction>,
}

impl SortKey for FileExtraction {
    open spec fn key_order(self, other: Self) -> int {
        path_order(self.path@, other.path@)
    }

    proof fn lemma_key_order(a: Self, b: Self, c: Self) {
        lemma_path_order(a.path@, b.path@, c.path@);
    }

    fn compare_keys(&self, other: &Self) -> (r: i8) {
        compare_paths(self.path.as_str(), other.path.as_str())
    }
}

/// The message of a file that could not be read.
pub open spec fn read_failure_message(error: Seq<char>) -> Seq<char> {
    "failed to read file: "@ + error
}

/// The symbol a raw symbol of `path` becomes under the ID `id`.
pub open spec fn numbered_symbol(raw: RawSymbol, id: u32, lang: LangId, path: String) -> Symbol {
    Symbol {
        id: SymbolId(id),
        name: raw.name,
        kind: raw.kind,
        language: lang,
        file_path: path,
        source_range: raw.source_range,
        visibility: raw.visibility,
        signature: raw.signature,
        docstring: raw.docstring,
        is_async: raw.is_async,
    }
}

/// The raw symbols numbered from `first`.
pub open spec fn numbered_symbols(raws: Seq<RawSymbol>, first: int, lang: LangId, path: String) -> Seq<Symbol> {
    Seq::new(raws.len(), |i: int| numbered_symbol(raws[i], (first + i) as u32, lang, path))
}

/// How many IDs an outcome takes.
pub open spec fn outcome_symbols(o: FileOutcome) -> nat {
    match o {
        FileOutcome::Parsed(p) => p.symbols@.len(),
        _ => 0,
    }
}

/// The empty extraction of a file, with one error diagnostic.
pub open spec fn is_failed_extraction(e: FileExtraction, path: String, lang: LangId, message: Seq<char>) -> bool {
    &&& e.path == path
    &&& e.lang == lang
    &&& e.symbols@.len() == 0
    &&& e.data_nodes@.len() == 0
    &&& e.imports@.len() == 0
    &&& e.references@.len() == 0
    &&& e.call_sites@.len() == 0
    &&& e.ast_node_count == 0
    &&& e.diagnostics@.len() == 1
    &&& e.diagnostics@[0].path == path
    &&& e.diagnostics@[0].severity == Severity::Error
    &&& e.diagnostics@[0].message@ == message
    &&& e.diagnostics@[0].source_range is None
}

/// The extraction of a file from its outcome, its symbols numbered from
/// `first`.
pub open spec fn is_extraction_of(e: FileExtraction, path: String, lang: LangId, o: FileOutcome, first: int, opts: ExtractOptions) -> bool {
    match o {
        FileOutcome::Unreadable(err) => is_failed_extraction(e, path, lang, read_failure_message(err@)),
        FileOutcome::Unparsable(err) => is_failed_extraction(e, path, lang, err@),
        FileOutcome::Parsed(p) => {
            &&& e.path == path
            &&& e.lang == lang
            &&& e.symbols@ == numbered_symbols(p.symbols@, first, lang, path)
            &&& e.data_nodes@.len() == 0
            &&& e.imports@ == if opts.skip_imports_and_refs { Seq::empty() } else { p.imports@ }
            &&& e.references@ == if opts.skip_imports_and_refs { Seq::empty() } else { p.references@ }
            &&& e.call_sites@ == p.call_sites@
            &&& e.ast_node_count == p.node_count
            &&& match p.error_warning {
                Some(w) => e.diagnostics@ == seq![Diagnostic {
                    path: path,
                    severity: Severity::Warning,
                    message: w,
                    source_range: None,
                }],
                None => e.diagnostics@.len() == 0,
            }
        },
    }
}

/// The extraction of one file from what reading and parsing it gave; its
/// symbols take the IDs from `next_id` on, and `next_id` moves past them.
pub fn extract_single_file(path: &String, lang: LangId, outcome: FileOutcome, next_id: &mut u32, opts: &ExtractOptions) -> (r: FileExtraction)
    requires
        *old(next_id) + outcome_symbols(outcome) <= u32::MAX,
    ensures
        is_extraction_of(r, *path, lang, outcome, *old(next_id) as int, *opts),
        *final(next_id) == *old(next_id) + outcome_symbols(outcome),
{
    match outcome {
        FileOutcome::Unreadable(error) => {
            let mut message = string_from("failed to read file: ");
            push_str(&mut message, error.as_str());
            proof {
                reveal_strlit("failed to read file: ");
            }
            failed(path, lang, message)
        },
        FileOutcome::Unparsable(error) => failed(path, lang, error),
        FileOutcome::Parsed(parsed) => {
            let ParsedFile { node_count, error_warning, symbols: raws, imports, references, call_sites } = parsed;
            let ghost raw_view = raws@;
            let ghost first = *next_id as int;
            let mut diagnostics: Vec<Diagnostic> = Vec::new();
            if let Some(w) = error_warning {
                diagnostics.push(Diagnostic { path: path.clone(), severity: Severity::Warning, message: w, source_range: None });
            }
            let mut rest = raws;
            let mut symbols: Vec<Symbol> = Vec::new();
            let n = rest.len();
            let mut k: usize = 0;
            while k < n
                invariant
                    n == raw_view.len(),
                    0 <= k <= n,
                    rest@ == raw_view.skip(k as int),
                    *next_id == first + k,
                    first + n <= u32::MAX,
                    symbols@ == numbered_symbols(raw_view.take(k as int), first, lang, *path),
                decreases n - k,
            {
                let raw = rest.remove(0);
                proof {
                    assert(raw == raw_view[k as int]);
                }
                let symbol = Symbol {
                    id: SymbolId(*next_id),
                    name: raw.name,
                    kind: raw.kind,
                    language: lang,
                    file_path: path.clone(),
                    source_range: raw.source_range,
                    visibility: raw.visibility,
                    signature: raw.signature,
                    docstring: raw.docstring,
                    is_async: raw.is_async,
                };
                symbols.push(symbol);
                *next_id = *next_id + 1;
                k = k + 1;
                proof {
                    assert(symbols@ =~= numbered_symbols(raw_view.take(k as int), first, lang, *path));
                }
            }
            proof {
                assert(raw_view.take(n as int) =~= raw_view);
            }
            let (imports, references) = if opts.skip_imports_and_refs {
                (Vec::new(), Vec::new())
            } else {
                (imports, references)
            };
            FileExtraction {
                path: path.clone(),
                lang,
                symbols,
                data_nodes: Vec::new(),
                imports,
                references,
                diagnostics,
                ast_node_count: node_count,
                call_sites,
            }
        },
    }
}

/// The empty extraction of a file with one error diagnostic.
fn failed(path: &String, lang: LangId, message: String) -> (r: FileExtraction)
    ensures
        is_failed_extraction(r, *path, lang, message@),
{
    let mut e = FileExtraction::empty(path.clone(), lang);
    e.diagnostics.push(Diagnostic { path: path.clone(), severity: Severity::Error, message, source_range: None });
    e
}

/// The number of IDs the outcomes take together.
pub open spec fn total_symbols(outcomes: Seq<FileOutcome>) -> nat
    decreases outcomes.len(),
{
    if outcomes.len() == 0 {
        0
    } else {
        total_symbols(outcomes.drop_last()) + outcome_symbols(outcomes.last())
    }
}

proof fn lemma_total_symbols_step(outcomes: Seq<FileOutcome>, k: int)
    requires
        0 <= k < outcomes.len(),
    ensures
        total_symbols(outcomes.take(k + 1)) == total_symbols(outcomes.take(k)) + outcome_symbols(outcomes[k]),
        total_symbols(outcomes.take(k + 1)) <= total_symbols(outcomes),
    decreases outcomes.len() - k,
{
    assert(outcomes.take(k + 1).drop_last() =~= outcomes.take(k));
    if k + 1 < outcomes.len() {
        lemma_total_symbols_step(outcomes, k + 1);
    } else {
        assert(outcomes.take(k + 1) =~= outcomes);
    }
}

/// The extractions of all files, in input order, their symbols numbered
/// from 1 across the run.
pub open spec fn extractions_in_order(files: Seq<DiscoveredFile>, outcomes: Seq<FileOutcome>, opts: ExtractOptions, es: Seq<FileExtraction>) -> bool {
    &&& es.len() == files.len()
    &&& forall|k: int| 0 <= k < es.len() ==> is_extraction_of(
        #[trigger] es[k],
        files[k].path,
        files[k].language,
        outcomes[k],
        1 + total_symbols(outcomes.take(k)) as int,
        opts,
    )
}

/// Extracts every file from its outcome (`outcomes[i]` for `files[i]`).
///
/// Symbol IDs run from 1 across the files in input order; the extractions
/// come out in path order.
pub fn extract_with_options(files: &Vec<DiscoveredFile>, outcomes: Vec<FileOutcome>, opts: &ExtractOptions) -> (r: ExtractionResult)
    requires
        outcomes@.len() == files@.len(),
        total_symbols(outcomes@) < u32::MAX,
    ensures
        exists|es: Seq<FileExtraction>| extractions_in_order(files@, outcomes@, *opts, es) && r.files@ == stable_sorted(es),
        sorted_by_key(r.files@),
{
    let ghost all = outcomes@;
    let mut rest = outcomes;
    let mut out: Vec<FileExtraction> = Vec::new();
    let mut next_id: u32 = 1;
    let n = files.len();
    let mut k: usize = 0;
    while k < n
        invariant
            n == files@.len(),
            all.len() == n,
            0 <= k <= n,
            rest@ == all.skip(k as int),
            next_id == 1 + total_symbols(all.take(k as int)),
            total_symbols(all) < u32::MAX,
            out@.len() == k,
            forall|j: int| 0 <= j < k ==> is_extraction_of(
                #[trigger] out@[j],
                files@[j].path,
                files@[j].language,
                all[j],
                1 + total_symbols(all.take(j)) as int,
                *opts,
            ),
        decreases n - k,
    {
        let outcome = rest.remove(0);
        proof {
            assert(outcome == all[k as int]);
            lemma_total_symbols_step(all, k as int);
        }
        let e = extract_single_file(&files[k].path, files[k].language, outcome, &mut next_id, opts);
        out.push(e);
        k = k + 1;
    }
    let ghost es = out@;
    let sorted = sort_stable(out);
    ExtractionResult { files: sorted }
}

/// Extracts every file from its outcome with the default options.
pub fn extract(files: &Vec<DiscoveredFile>, outcomes: Vec<FileOutcome>) -> (r: ExtractionResult)
    requires
        outcomes@.len() == files@.len(),
        total_symbols(outcomes@) < u32::MAX,
    ensures
        exists|es: Seq<FileExtraction>| extractions_in_order(files@, outcomes@, ExtractOptions { skip_imports_and_refs: false }, es)
            && r.files@ == stable_sorted(es),
        sorted_by_key(r.files@),
{
    let opts = ExtractOptions::default();
    extract_with_options(files, outcomes, &opts)
}

proof fn lemma_total_symbols_monotone(outcomes: Seq<FileOutcome>, a: int, b: int)
    requires
        0 <= a <= b <= outcomes.len(),
    ensures
        total_symbols(outcomes.take(a)) <= total_symbols(outcomes.take(b)),
        a < b ==> total_symbols(outcomes.take(a)) + outcome_symbols(outcomes[a]) <= total_symbols(outcomes.take(b)),
    decreases b - a,
{
    if a < b {
        lemma_total_symbols_monotone(outcomes, a + 1, b);
        assert(outcomes.take(a + 1).drop_last() =~= outcomes.take(a));
    }
}

/// The symbols of an extraction are numbered from its first ID, one after
/// the other.
proof fn lemma_symbol_ids(e: FileExtraction, path: String, lang: LangId, o: FileOutcome, first: int, opts: ExtractOptions, j: int)
    requires
        is_extraction_of(e, path, lang, o, first, opts),
        0 <= first,
        first + outcome_symbols(o) <= u32::MAX,
        0 <= j < e.symbols@.len(),
    ensures
        e.symbols@[j].id.0 == first + j,
        j < outcome_symbols(o),
{
}

/// Every symbol of a run gets its own ID: the IDs of the extractions are
/// pairwise distinct, across files and within each file.
pub proof fn lemma_extracted_ids_distinct(files: Seq<DiscoveredFile>, outcomes: Seq<FileOutcome>, opts: ExtractOptions, es: Seq<FileExtraction>)
    requires
        extractions_in_order(files, outcomes, opts, es),
        outcomes.len() == files.len(),
        total_symbols(outcomes) < u32::MAX,
    ensures
        forall|k1: int, j1: int, k2: int, j2: int|
            0 <= k1 < es.len() && 0 <= j1 < es[k1].symbols@.len() && 0 <= k2 < es.len() && 0 <= j2 < es[k2].symbols@.len()
                && (k1 != k2 || j1 != j2) ==> (#[trigger] es[k1].symbols@[j1]).id != (#[trigger] es[k2].symbols@[j2]).id,
{
    assert forall|k1: int, j1: int, k2: int, j2: int|
        0 <= k1 < es.len() && 0 <= j1 < es[k1].symbols@.len() && 0 <= k2 < es.len() && 0 <= j2 < es[k2].symbols@.len()
            && (k1 != k2 || j1 != j2) implies (#[trigger] es[k1].symbols@[j1]).id != (#[trigger] es[k2].symbols@[j2]).id by {
        let f1 = 1 + total_symbols(outcomes.take(k1)) as int;
        let f2 = 1 + total_symbols(outcomes.take(k2)) as int;
        lemma_total_symbols_monotone(outcomes, k1, outcomes.len() as int);
        lemma_total_symbols_monotone(outcomes, k2, outcomes.len() as int);
        assert(outcomes.take(outcomes.len() as int) =~= outcomes);
        lemma_symbol_ids(es[k1], files[k1].path, files[k1].language, outcomes[k1], f1, opts, j1);
        lemma_symbol_ids(es[k2], files[k2].path, files[k2].language, outcomes[k2], f2, opts, j2);
        if k1 < k2 {
            lemma_total_symbols_monotone(outcomes, k1, k2);
        } else if k2 < k1 {
            lemma_total_symbols_monotone(outcomes, k2, k1);
        }
    }
}

} // verus!
