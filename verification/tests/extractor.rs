use std::collections::HashSet;

use meta_ast::error::Severity;
use meta_ast::extractor::{extract, extract_single_file, ExtractOptions, FileOutcome, ParsedFile, RawSymbol};
use meta_ast::input::DiscoveredFile;
use meta_ast::lang::LangId;
use meta_ast::model::{LineColumn, SourceRange, SymbolKind};

fn range(line: usize) -> SourceRange {
    SourceRange {
        byte_start: line * 20,
        byte_end: line * 20 + 17,
        start: LineColumn { line, column: 0 },
        end: LineColumn { line, column: 17 },
    }
}

fn raw(name: &str, kind: SymbolKind, line: usize) -> RawSymbol {
    RawSymbol {
        name: name.to_string(),
        kind,
        source_range: range(line),
        visibility: None,
        signature: None,
        docstring: None,
        is_async: false,
    }
}

/// What parsing a Python file that defines `symbols` gives.
fn parsed(symbols: Vec<RawSymbol>) -> FileOutcome {
    FileOutcome::Parsed(ParsedFile {
        node_count: 6 * symbols.len() + 1,
        error_warning: None,
        symbols,
        imports: Vec::new(),
        references: Vec::new(),
        call_sites: Vec::new(),
    })
}

fn python(path: &str) -> DiscoveredFile {
    DiscoveredFile { path: path.to_string(), language: LangId::Python }
}

fn names(result: &meta_ast::extractor::ExtractionResult) -> Vec<String> {
    result.files.iter().flat_map(|f| f.symbols.iter().map(|s| s.name.clone())).collect()
}

#[test]
fn extract_single_python_file() {
    let files = vec![python("/tmp/single.py")];
    let result = extract(&files, vec![parsed(vec![raw("hello", SymbolKind::Function, 0)])]);
    assert_eq!(result.files.len(), 1);
    assert!(!result.files[0].symbols.is_empty());
    assert!(result.files[0].diagnostics.is_empty());
    assert!(names(&result).contains(&"hello".to_string()));
}

#[test]
fn extract_multiple_files_parallel() {
    let files = vec![python("/tmp/file_a.py"), python("/tmp/file_b.py"), python("/tmp/file_c.py")];
    let outcomes = vec![
        parsed(vec![raw("alpha", SymbolKind::Function, 0)]),
        parsed(vec![raw("beta", SymbolKind::Function, 0), raw("gamma", SymbolKind::Function, 1)]),
        parsed(vec![raw("Delta", SymbolKind::Class, 0)]),
    ];
    let result = extract(&files, outcomes);
    let all_names = names(&result);
    for expected in ["alpha", "beta", "gamma", "Delta"] {
        assert!(all_names.contains(&expected.to_string()), "missing {expected}: {all_names:?}");
    }
}

#[test]
fn accumulate_diagnostics_on_malformed() {
    let files = vec![python("/tmp/nonexistent_broken.py")];
    let outcomes = vec![FileOutcome::Unreadable("No such file or directory (os error 2)".to_string())];
    let result = extract(&files, outcomes);
    assert!(!result.files[0].diagnostics.is_empty());
    assert_eq!(result.files[0].diagnostics[0].severity, Severity::Error);
    assert_eq!(
        result.files[0].diagnostics[0].message,
        "failed to read file: No such file or directory (os error 2)"
    );
}

#[test]
fn partial_extraction_on_errors() {
    let files = vec![python("/tmp/valid_partial.py"), python("/tmp/broken_partial.py")];
    let outcomes = vec![
        parsed(vec![raw("works", SymbolKind::Function, 0)]),
        FileOutcome::Unparsable("parse failed".to_string()),
    ];
    let result = extract(&files, outcomes);
    let names = names(&result);
    assert!(names.contains(&"works".to_string()), "valid file symbols should be present: {names:?}");
}

#[test]
fn output_deterministic() {
    let files = vec![python("/tmp/deterministic.py")];
    let outcome = || parsed(vec![raw("foo", SymbolKind::Function, 0), raw("bar", SymbolKind::Function, 1)]);
    let r1 = extract(&files, vec![outcome()]);
    let r2 = extract(&files, vec![outcome()]);
    assert_eq!(names(&r1), names(&r2));
}

#[test]
fn symbols_assigned_ids() {
    let files = vec![python("/tmp/ids.py")];
    let outcome = parsed(vec![
        raw("a", SymbolKind::Function, 0),
        raw("b", SymbolKind::Function, 1),
        raw("c", SymbolKind::Function, 2),
    ]);
    let result = extract(&files, vec![outcome]);
    let ids: Vec<u32> = result.files[0].symbols.iter().map(|s| s.id.to_raw()).collect();
    let mut sorted_ids = ids.clone();
    sorted_ids.sort();
    assert_eq!(ids, sorted_ids, "IDs should be sequential");
    for window in sorted_ids.windows(2) {
        assert_eq!(window[1] - window[0], 1, "IDs should be consecutive");
    }
    let unique: HashSet<u32> = ids.iter().copied().collect();
    assert_eq!(unique.len(), result.files[0].symbols.len(), "all IDs must be unique");
}

#[test]
fn extractions_come_back_sorted_by_path_with_ids_in_input_order() {
    let files = vec![python("/tmp/z.py"), python("/tmp/a.py")];
    let outcomes = vec![
        parsed(vec![raw("zeta", SymbolKind::Function, 0)]),
        parsed(vec![raw("alpha", SymbolKind::Function, 0)]),
    ];
    let result = extract(&files, outcomes);
    assert_eq!(result.files[0].path, "/tmp/a.py");
    assert_eq!(result.files[1].path, "/tmp/z.py");
    assert_eq!(result.files[0].symbols[0].id.to_raw(), 2);
    assert_eq!(result.files[1].symbols[0].id.to_raw(), 1);
}

#[test]
fn skipping_imports_and_references_keeps_symbols() {
    let outcome = FileOutcome::Parsed(ParsedFile {
        node_count: 9,
        error_warning: Some("more than half of the tree is parse errors".to_string()),
        symbols: vec![raw("kept", SymbolKind::Function, 0)],
        imports: vec![meta_ast::model::UnresolvedImport {
            import_specifier: "os".to_string(),
            alias: None,
            symbol: None,
            star: false,
            range: range(0),
        }],
        references: Vec::new(),
        call_sites: Vec::new(),
    });
    let mut next_id = 7;
    let opts = ExtractOptions { skip_imports_and_refs: true };
    let e = extract_single_file(&"/tmp/k.py".to_string(), LangId::Python, outcome, &mut next_id, &opts);
    assert_eq!(next_id, 8);
    assert_eq!(e.symbols[0].id.to_raw(), 7);
    assert!(e.imports.is_empty());
    assert_eq!(e.ast_node_count, 9);
    assert_eq!(e.diagnostics.len(), 1);
    assert_eq!(e.diagnostics[0].severity, Severity::Warning);
}
