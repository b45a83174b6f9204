//! Diagnostics and the library error type.
use vstd::prelude::*;

use crate::lang::LangId;
use crate::model::SourceRange;
use crate::order::{compare_text, lemma_text_order_total, text_order, SortKey};
use crate::paths::{compare_paths, lemma_path_order, path_order};
use crate::text::{chars_of, decimal, push_decimal, push_str};

verus! {

#[verifier::external_type_specification]
#[verifier::external_body]
pub struct ExIoError(std::io::Error);

/// Severity of a diagnostic.
#[derive(Debug, Clone, Copy, PartialEq, Eq, Structural)]
pub enum Severity {
    Warning,
    Error,
}

/// A problem found on the way, attached to a file and maybe a range.
#[derive(Debug, Clone)]
pub struct Diagnostic {
    pub path: String,
    pub severity: Severity,
    pub message: String,
    pub source_range: Option<SourceRange>,
}

/// A diagnostic as plain values.
pub open spec fn diagnostic_view(d: Diagnostic) -> (Seq<char>, Severity, Seq<char>, Option<SourceRange>) {
    (d.path@, d.severity, d.message@, d.source_range)
}

impl Diagnostic {
    /// A field-for-field copy.
    pub fn duplicate(&self) -> (r: Diagnostic)
        ensures
            r == *self,
    {
        Diagnostic {
            path: self.path.clone(),
            severity: self.severity,
            message: self.message.clone(),
            source_range: self.source_range,
        }
    }
}

/// Diagnostics are ordered by path, then by message.
impl SortKey for Diagnostic {
    open spec fn key_order(self, other: Self) -> int {
        if path_order(self.path@, other.path@) != 0 {
            path_order(self.path@, other.path@)
        } else {
            text_order(self.message@, other.message@)
        }
    }

    proof fn lemma_key_order(a: Self, b: Self, c: Self) {
        lemma_path_order(a.path@, b.path@, c.path@);
        lemma_path_order(a.path@, c.path@, b.path@);
        lemma_path_order(b.path@, a.path@, c.path@);
        lemma_path_order(b.path@, c.path@, a.path@);
        lemma_path_order(c.path@, a.path@, b.path@);
        lemma_path_order(c.path@, b.path@, a.path@);
        lemma_text_order_total();
        let t = |x: Seq<char>, y: Seq<char>| text_order(x, y);
        assert(-1 <= t(a.message@, b.message@) <= 1);
        assert(t(a.message@, b.message@) == -t(b.message@, a.message@));
        assert(t(a.message@, b.message@) <= 0 && t(b.message@, c.message@) <= 0 ==> t(a.message@, c.message@) <= 0);
    }

    fn compare_keys(&self, other: &Self) -> (r: i8) {
        let p = compare_paths(self.path.as_str(), other.path.as_str());
        if p != 0 {
            p
        } else {
            let a = chars_of(self.message.as_str());
            let b = chars_of(other.message.as_str());
            compare_text(a.as_slice(), b.as_slice())
        }
    }
}

/// Errors of the analysis.
#[derive(Debug)]
pub enum Error {
    Io(std::io::Error),
    Parse { path: String, message: String },
    Query { language: LangId, message: String },
    Config(String),
    Graph(String),
    Diagnostics { errors: usize, warnings: usize },
}

/// `std::io::Error` as `Display` renders it.
///
/// Calls `format!("{}", error)`. Nothing is claimed of the text: it comes from
/// the operating system.
#[verifier::external_body]
fn io_error_display(e: &std::io::Error) -> String {
    format!("{}", e)
}

impl From<std::io::Error> for Error {
    fn from(e: std::io::Error) -> (r: Error) {
        Error::Io(e)
    }
}

impl vstd::std_specs::convert::FromSpecImpl<std::io::Error> for Error {
    open spec fn obeys_from_spec() -> bool {
        true
    }

    open spec fn from_spec(v: std::io::Error) -> Error {
        Error::Io(v)
    }
}

impl Error {
    /// The rendered message of every error but `Io`.
    pub open spec fn spec_message(&self) -> Seq<char> {
        match self {
            Error::Io(_) => "IO: "@,
            Error::Parse { path, message } => "parse error in "@ + path@ + ": "@ + message@,
            Error::Query { language, message } => "query error ("@ + language.spec_name()
                + "): "@ + message@,
            Error::Config(m) => "config: "@ + m@,
            Error::Graph(m) => "graph: "@ + m@,
            Error::Diagnostics { errors, warnings } => "diagnostic policy tripped: "@
                + decimal(*errors as nat) + " errors, "@ + decimal(*warnings as nat)
                + " warnings"@,
        }
    }

    /// The rendered message. An `Io` error renders as `IO: ` followed by the
    /// operating system's text.
    pub fn message(&self) -> (r: String)
        ensures
            self is Io ==> r@.take(4) == self.spec_message(),
            !(self is Io) ==> r@ == self.spec_message(),
    {
        let mut out = String::new();
        match self {
            Error::Io(e) => {
                push_str(&mut out, "IO: ");
                proof {
                    reveal_strlit("IO: ");
                    assert(out@ =~= "IO: "@);
                }
                let text = io_error_display(e);
                let ghost head = out@;
                push_str(&mut out, text.as_str());
                proof { assert(out@.take(4) =~= head); }
            },
            Error::Parse { path, message } => {
                push_str(&mut out, "parse error in ");
                push_str(&mut out, path.as_str());
                push_str(&mut out, ": ");
                push_str(&mut out, message.as_str());
            },
            Error::Query { language, message } => {
                push_str(&mut out, "query error (");
                push_str(&mut out, language.as_str());
                push_str(&mut out, "): ");
                push_str(&mut out, message.as_str());
            },
            Error::Config(m) => {
                push_str(&mut out, "config: ");
                push_str(&mut out, m.as_str());
            },
            Error::Graph(m) => {
                push_str(&mut out, "graph: ");
                push_str(&mut out, m.as_str());
            },
            Error::Diagnostics { errors, warnings } => {
                push_str(&mut out, "diagnostic policy tripped: ");
                push_decimal(&mut out, *errors);
                push_str(&mut out, " errors, ");
                push_decimal(&mut out, *warnings);
                push_str(&mut out, " warnings");
            },
        }
        proof {
            reveal_strlit("IO: ");
            assert(Seq::<char>::empty() + "IO: "@ =~= "IO: "@);
        }
        out
    }
}

} // verus!
