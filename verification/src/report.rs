//! The diagnostic policy of a run.
//!
//! A run counts the diagnostics it collected by severity and decides from the
//! requested policy whether it fails. The policy never changes the emitted
//! document.
use vstd::prelude::*;

use crate::error::{Diagnostic, Error, Severity};

verus! {

/// How many diagnostics make a run fail.
#[derive(Debug, Clone, Copy, PartialEq, Eq, Structural)]
pub enum FailOn {
    /// Never fail on diagnostics.
    Never,
    /// Fail when the run reports an error diagnostic.
    Error,
    /// Fail when the run reports an error or a warning diagnostic.
    Warning,
}

impl Default for FailOn {
    /// Runs fail on errors unless asked otherwise.
    fn default() -> (r: FailOn)
        ensures
            r == FailOn::Error,
    {
        FailOn::Error
    }
}

impl FailOn {
    /// The policy is tripped by these counts.
    pub open spec fn spec_tripped(self, errors: int, warnings: int) -> bool {
        match self {
            FailOn::Never => false,
            FailOn::Error => errors > 0,
            FailOn::Warning => errors > 0 || warnings > 0,
        }
    }

    /// True when the collected diagnostics trip the policy.
    pub fn tripped(self, errors: usize, warnings: usize) -> (r: bool)
        ensures
            r == self.spec_tripped(errors as int, warnings as int),
    {
        match self {
            FailOn::Never => false,
            FailOn::Error => errors > 0,
            FailOn::Warning => errors > 0 || warnings > 0,
        }
    }
}

/// How many of the diagnostics have the severity.
pub open spec fn count_severity(diagnostics: Seq<Diagnostic>, severity: Severity) -> nat
    decreases diagnostics.len(),
{
    if diagnostics.len() == 0 {
        0
    } else {
        count_severity(diagnostics.drop_last(), severity) + if diagnostics.last().severity == severity {
            1nat
        } else {
            0nat
        }
    }
}

proof fn lemma_count_bounded(diagnostics: Seq<Diagnostic>, severity: Severity)
    ensures
        count_severity(diagnostics, severity) <= diagnostics.len(),
    decreases diagnostics.len(),
{
    if diagnostics.len() > 0 {
        lemma_count_bounded(diagnostics.drop_last(), severity);
    }
}

/// Count the diagnostics by severity and apply the policy.
///
/// Returns [`Error::Diagnostics`] with the counts when the policy is tripped,
/// so the caller can map it to the analysis exit code.
pub fn report_diagnostics(diagnostics: &[Diagnostic], fail_on: FailOn) -> (r: Result<(), Error>)
    ensures
        fail_on.spec_tripped(
            count_severity(diagnostics@, Severity::Error) as int,
            count_severity(diagnostics@, Severity::Warning) as int,
        ) ==> (r matches Err(Error::Diagnostics { errors, warnings }) && errors == count_severity(
            diagnostics@,
            Severity::Error,
        ) && warnings == count_severity(diagnostics@, Severity::Warning)),
        !fail_on.spec_tripped(
            count_severity(diagnostics@, Severity::Error) as int,
            count_severity(diagnostics@, Severity::Warning) as int,
        ) ==> r is Ok,
{
    let mut errors: usize = 0;
    let mut warnings: usize = 0;
    let mut i: usize = 0;
    while i < diagnostics.len()
        invariant
            0 <= i <= diagnostics@.len(),
            errors == count_severity(diagnostics@.take(i as int), Severity::Error),
            warnings == count_severity(diagnostics@.take(i as int), Severity::Warning),
        decreases diagnostics@.len() - i,
    {
        proof {
            assert(diagnostics@.take(i + 1).drop_last() =~= diagnostics@.take(i as int));
            lemma_count_bounded(diagnostics@.take(i as int), Severity::Error);
            lemma_count_bounded(diagnostics@.take(i as int), Severity::Warning);
        }
        match diagnostics[i].severity {
            Severity::Error => {
                errors = errors + 1;
            },
            Severity::Warning => {
                warnings = warnings + 1;
            },
        }
        i = i + 1;
    }
    proof {
        assert(diagnostics@.take(diagnostics@.len() as int) =~= diagnostics@);
    }
    if fail_on.tripped(errors, warnings) {
        return Err(Error::Diagnostics { errors, warnings });
    }
    Ok(())
}

/// The policies are nested: `never` is never tripped, and whatever trips
/// `error` trips `warning`.
pub proof fn lemma_policies_nested(errors: int, warnings: int)
    ensures
        !FailOn::Never.spec_tripped(errors, warnings),
        FailOn::Error.spec_tripped(errors, warnings) ==> FailOn::Warning.spec_tripped(errors, warnings),
{
}

} // verus!
