use meta_ast::commands::{default_dashboard_path, inspection_of};
use meta_ast::error::{Diagnostic, Severity};
use meta_ast::lang::LangId;
use meta_ast::model::{FileExtraction, LineColumn, SourceRange, Symbol, SymbolId, SymbolKind};

fn symbol(id: u32, name: &str, path: &str) -> Symbol {
    Symbol {
        id: SymbolId::new(id).unwrap(),
        name: name.to_string(),
        kind: SymbolKind::Function,
        language: LangId::Python,
        file_path: path.to_string(),
        source_range: SourceRange {
            byte_start: 0,
            byte_end: 1,
            start: LineColumn { line: 0, column: 0 },
            end: LineColumn { line: 0, column: 1 },
        },
        visibility: None,
        signature: None,
        docstring: None,
        is_async: false,
    }
}

#[test]
fn dashboard_path_takes_the_input_stem() {
    assert_eq!(default_dashboard_path("./my-project"), "my-project.metast");
    assert_eq!(default_dashboard_path("src/app.tar.gz"), "app.tar.metast");
    assert_eq!(default_dashboard_path("/work/.hidden"), ".hidden.metast");
}

#[test]
fn dashboard_path_without_a_stem_is_project() {
    assert_eq!(default_dashboard_path("/"), "project.metast");
    assert_eq!(default_dashboard_path("."), "project.metast");
}

#[test]
fn inspection_lists_diagnostics_and_symbols_in_file_order() {
    let mut a = FileExtraction::empty("a.py".to_string(), LangId::Python);
    a.symbols = vec![symbol(1, "alpha", "a.py"), symbol(2, "beta", "a.py")];
    let mut b = FileExtraction::empty("b.py".to_string(), LangId::Python);
    b.diagnostics = vec![Diagnostic {
        path: "b.py".to_string(),
        severity: Severity::Warning,
        message: "half of the tree is errors".to_string(),
        source_range: None,
    }];
    b.symbols = vec![symbol(3, "gamma", "b.py")];
    let (diagnostics, symbols) = inspection_of(vec![a, b]);
    assert_eq!(diagnostics.len(), 1);
    assert_eq!(diagnostics[0].path, "b.py");
    let names: Vec<&str> = symbols.iter().map(|s| s.name.as_str()).collect();
    assert_eq!(names, vec!["alpha", "beta", "gamma"]);
}
