//! What the commands decide between reading the project and writing their
//! documents.
use vstd::prelude::*;

use crate::error::Diagnostic;
use crate::model::{FileExtraction, Symbol};
use crate::paths::{file_stem, file_stem_of};
use crate::text::{push_str, string_from};

verus! {

/// The diagnostics of the extractions, file after file.
pub open spec fn all_diagnostics(files: Seq<FileExtraction>) -> Seq<Diagnostic>
    decreases files.len(),
{
    if files.len() == 0 {
        Seq::empty()
    } else {
        all_diagnostics(files.drop_last()) + files.last().diagnostics@
    }
}

/// The symbols of the extractions, file after file.
pub open spec fn all_symbols(files: Seq<FileExtraction>) -> Seq<Symbol>
    decreases files.len(),
{
    if files.len() == 0 {
        Seq::empty()
    } else {
        all_symbols(files.drop_last()) + files.last().symbols@
    }
}

/// What an inspection reports and lists: the diagnostics and the symbols
/// of every extraction, in file order.
pub fn inspection_of(files: Vec<FileExtraction>) -> (r: (Vec<Diagnostic>, Vec<Symbol>))
    ensures
        r.0@ == all_diagnostics(files@),
        r.1@ == all_symbols(files@),
{
    let ghost all = files@;
    let n = files.len();
    let mut rest = files;
    let mut diagnostics: Vec<Diagnostic> = Vec::new();
    let mut symbols: Vec<Symbol> = Vec::new();
    let mut i: usize = 0;
    while rest.len() > 0
        invariant
            i + rest@.len() == n,
            n == all.len(),
            rest@ == all.skip(i as int),
            diagnostics@ == all_diagnostics(all.take(i as int)),
            symbols@ == all_symbols(all.take(i as int)),
        decreases rest@.len(),
    {
        let mut file = rest.remove(0);
        proof {
            assert(all.take(i + 1).drop_last() =~= all.take(i as int));
            assert(all.take(i + 1).last() == all[i as int]);
            assert(rest@ =~= all.skip(i + 1));
        }
        diagnostics.append(&mut file.diagnostics);
        symbols.append(&mut file.symbols);
        i = i + 1;
    }
    proof { assert(all.take(i as int) =~= all); }
    (diagnostics, symbols)
}

/// The default dashboard file of a graph run: the input's file stem, or
/// `project` when the path has none, with the `.metast` suffix.
pub open spec fn dashboard_path(path: Seq<char>) -> Seq<char> {
    match file_stem(path) {
        Some(stem) => stem + ".metast"@,
        None => "project.metast"@,
    }
}

/// The default dashboard file of a graph run (see [`dashboard_path`]).
pub fn default_dashboard_path(path: &str) -> (r: String)
    ensures
        r@ == dashboard_path(path@),
{
    let mut name = match file_stem_of(path) {
        Some(stem) => stem,
        None => string_from("project"),
    };
    push_str(&mut name, ".metast");
    proof {
        reveal_strlit("project");
        reveal_strlit(".metast");
        reveal_strlit("project.metast");
    }
    name
}

} // verus!
