use meta_ast::error::{Diagnostic, Error, Severity};
use meta_ast::report::{report_diagnostics, FailOn};

fn diagnostic(severity: Severity) -> Diagnostic {
    Diagnostic {
        path: "a.py".to_string(),
        severity,
        message: "problem".into(),
        source_range: None,
    }
}

#[test]
fn never_accepts_errors() {
    let diagnostics = [diagnostic(Severity::Error)];
    assert!(report_diagnostics(&diagnostics, FailOn::Never).is_ok());
}

#[test]
fn error_policy_ignores_warnings() {
    let diagnostics = [diagnostic(Severity::Warning)];
    assert!(report_diagnostics(&diagnostics, FailOn::Error).is_ok());
}

#[test]
fn error_policy_fails_on_an_error() {
    let diagnostics = [diagnostic(Severity::Warning), diagnostic(Severity::Error)];
    let error = report_diagnostics(&diagnostics, FailOn::Error).unwrap_err();
    assert!(matches!(error, Error::Diagnostics { errors: 1, warnings: 1 }));
}

#[test]
fn warning_policy_fails_on_a_warning() {
    let diagnostics = [diagnostic(Severity::Warning)];
    assert!(report_diagnostics(&diagnostics, FailOn::Warning).is_err());
}

#[test]
fn clean_run_never_fails() {
    assert!(report_diagnostics(&[], FailOn::Warning).is_ok());
}

#[test]
fn default_policy_fails_on_errors() {
    assert_eq!(FailOn::default(), FailOn::Error);
    assert!(FailOn::default().tripped(1, 0));
    assert!(!FailOn::default().tripped(0, 3));
}

#[test]
fn tripped_follows_the_policy_table() {
    assert!(!FailOn::Never.tripped(5, 5));
    assert!(FailOn::Warning.tripped(0, 1));
    assert!(FailOn::Warning.tripped(1, 0));
    assert!(!FailOn::Warning.tripped(0, 0));
}

#[test]
fn counts_reach_the_error() {
    let diagnostics = [
        diagnostic(Severity::Warning),
        diagnostic(Severity::Error),
        diagnostic(Severity::Error),
        diagnostic(Severity::Warning),
        diagnostic(Severity::Warning),
    ];
    let error = report_diagnostics(&diagnostics, FailOn::Warning).unwrap_err();
    assert!(matches!(error, Error::Diagnostics { errors: 2, warnings: 3 }));
    assert_eq!(error.message(), "diagnostic policy tripped: 2 errors, 3 warnings");
}
