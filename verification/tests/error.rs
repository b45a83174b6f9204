use meta_ast::error::{Diagnostic, Error, Severity};
use meta_ast::lang::LangId;
use meta_ast::model::{LineColumn, SourceRange};

#[test]
fn io_error_from_std_io() {
    let io_err = std::io::Error::new(std::io::ErrorKind::NotFound, "file not found");
    let err: Error = io_err.into();
    assert!(matches!(err, Error::Io(_)));
    assert!(err.message().contains("file not found"));
}

#[test]
fn parse_error_display_format() {
    let err = Error::Parse {
        path: "foo.bar".to_string(),
        message: "bad syntax".into(),
    };
    let displayed = err.message();
    assert!(displayed.contains("foo.bar"), "{displayed}");
    assert!(displayed.contains("bad syntax"), "{displayed}");
    assert!(displayed.starts_with("parse error in"), "{displayed}");
}

#[test]
fn query_error_display_format() {
    let err = Error::Query {
        language: LangId::Rust,
        message: "no match".into(),
    };
    let displayed = err.message();
    assert!(displayed.contains("rust"), "{displayed}");
    assert!(displayed.contains("no match"), "{displayed}");
    assert!(displayed.starts_with("query error"), "{displayed}");
}

#[test]
fn config_error_display() {
    let err = Error::Config("bad setting".into());
    let displayed = err.message();
    assert!(displayed.starts_with("config:"), "{displayed}");
    assert!(displayed.contains("bad setting"), "{displayed}");
}

#[test]
fn diagnostic_construction() {
    let sr = SourceRange {
        byte_start: 0,
        byte_end: 10,
        start: LineColumn { line: 1, column: 0 },
        end: LineColumn { line: 1, column: 10 },
    };
    let d = Diagnostic {
        path: "test.rs".to_string(),
        severity: Severity::Error,
        message: "undefined variable".into(),
        source_range: Some(sr),
    };
    assert_eq!(d.path, "test.rs");
    assert_eq!(d.severity, Severity::Error);
    assert_eq!(d.message, "undefined variable");
    assert!(d.source_range.is_some());
    let range = d.source_range.unwrap();
    assert_eq!(range.byte_start, 0);
    assert_eq!(range.byte_end, 10);
}

#[test]
fn severity_variants() {
    assert_ne!(Severity::Warning, Severity::Error);
    let v = [Severity::Warning, Severity::Error];
    assert_eq!(v.len(), 2);
}
