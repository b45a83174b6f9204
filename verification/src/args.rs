//! The command-line surface: commands, their arguments, and the parsing of
//! the values that name a format or a language.
use vstd::prelude::*;

use crate::lang::{spec_all_languages, spec_language_named, LangId};
use crate::report::FailOn;
use crate::text::{lowercase, push_str, str_eq, string_from, unicode_lowercase};

verus! {

/// Serialization format of an emitted document.
#[derive(Debug, Clone, Copy, PartialEq, Eq, Structural)]
pub enum OutputFormat {
    Json,
    Yaml,
}

impl OutputFormat {
    /// File extension of documents in this format.
    pub open spec fn spec_extension(self) -> Seq<char> {
        match self {
            OutputFormat::Json => "json"@,
            OutputFormat::Yaml => "yaml"@,
        }
    }

    /// File extension of documents in this format.
    pub fn extension(self) -> (r: &'static str)
        ensures
            r@ == self.spec_extension(),
    {
        match self {
            OutputFormat::Json => "json",
            OutputFormat::Yaml => "yaml",
        }
    }
}

/// The format a lower-case name selects.
pub open spec fn format_named(name: Seq<char>) -> Option<OutputFormat> {
    if name == "json"@ {
        Some(OutputFormat::Json)
    } else if name == "yaml"@ || name == "yml"@ {
        Some(OutputFormat::Yaml)
    } else {
        None
    }
}

/// The message for a value that names no format.
pub open spec fn format_error(s: Seq<char>) -> Seq<char> {
    "invalid format '"@ + s + "': expected 'json' or 'yaml'"@
}

/// Parse a format name, regardless of case: `json`, or `yaml` (also `yml`).
pub fn parse_format(s: &str) -> (r: Result<OutputFormat, String>)
    ensures
        match format_named(unicode_lowercase(s@)) {
            Some(f) => r matches Ok(g) && g == f,
            None => r matches Err(e) && e@ == format_error(s@),
        },
{
    let lower = lowercase(s);
    if str_eq(lower.as_str(), "json") {
        return Ok(OutputFormat::Json);
    }
    if str_eq(lower.as_str(), "yaml") || str_eq(lower.as_str(), "yml") {
        return Ok(OutputFormat::Yaml);
    }
    let mut msg = string_from("invalid format '");
    push_str(&mut msg, s);
    push_str(&mut msg, "': expected 'json' or 'yaml'");
    Err(msg)
}

/// The names of the languages, separated by `, `.
pub open spec fn joined_names(langs: Seq<LangId>) -> Seq<char>
    decreases langs.len(),
{
    if langs.len() == 0 {
        Seq::empty()
    } else if langs.len() == 1 {
        langs[0].spec_name()
    } else {
        joined_names(langs.drop_last()) + ", "@ + langs.last().spec_name()
    }
}

/// The message for a value that names no language: it lists every name.
pub open spec fn language_error(s: Seq<char>) -> Seq<char> {
    "invalid language '"@ + s + "': expected one of "@ + joined_names(spec_all_languages())
}

/// Parse a language name, regardless of case.
pub fn parse_language(s: &str) -> (r: Result<LangId, String>)
    ensures
        match spec_language_named(unicode_lowercase(s@)) {
            Some(l) => r matches Ok(m) && m == l,
            None => r matches Err(e) && e@ == language_error(s@),
        },
{
    let normalized = lowercase(s);
    match LangId::from_name(normalized.as_str()) {
        Some(lang) => Ok(lang),
        None => {
            let all = LangId::all();
            let mut names = string_from("");
            let mut i: usize = 0;
            proof {
                reveal_strlit("");
                assert(all@.take(0) =~= Seq::<LangId>::empty());
            }
            while i < all.len()
                invariant
                    all@ == spec_all_languages(),
                    0 <= i <= all@.len(),
                    names@ == joined_names(all@.take(i as int)),
                decreases all@.len() - i,
            {
                proof {
                    assert(all@.take(i + 1).drop_last() =~= all@.take(i as int));
                    assert(all@.take(i + 1).last() == all@[i as int]);
                    if i == 0 {
                        assert(all@.take(1)[0] == all@[0]);
                    }
                }
                if i > 0 {
                    push_str(&mut names, ", ");
                }
                push_str(&mut names, all[i].as_str());
                i = i + 1;
            }
            proof {
                assert(all@.take(all@.len() as int) =~= all@);
            }
            let mut msg = string_from("invalid language '");
            push_str(&mut msg, s);
            push_str(&mut msg, "': expected one of ");
            push_str(&mut msg, names.as_str());
            Err(msg)
        },
    }
}

/// Arguments of `inspect`: extract all symbol definitions of a project.
#[derive(Debug, Clone)]
pub struct InspectArgs {
    /// Root directory or source file to inspect.
    pub path: String,
    /// Output file path (prints to stdout if omitted).
    pub output: Option<String>,
    /// Force a specific language instead of detecting it.
    pub language: Option<LangId>,
    /// Output format for the extracted symbols.
    pub format: OutputFormat,
    /// Diagnostic policy of the run.
    pub fail_on: FailOn,
}

/// Arguments of `graph`: build the dependency graph and its SCC analysis.
#[derive(Debug, Clone)]
pub struct GraphArgs {
    /// Root directory to analyze.
    pub path: String,
    /// Output file path (prints to stdout if omitted).
    pub output: Option<String>,
    /// Force a specific language instead of detecting it.
    pub language: Option<LangId>,
    /// Output serialization format for the graph structure.
    pub format: OutputFormat,
    /// Generate an interactive HTML dashboard.
    pub html: bool,
    /// Diagnostic policy of the run.
    pub fail_on: FailOn,
}

/// Arguments of `deploy`: generate the MetaCall deployment manifests.
#[derive(Debug, Clone)]
pub struct DeployArgs {
    /// Root directory of the project to analyze.
    pub path: String,
    /// Output format for generated manifests.
    pub format: OutputFormat,
    /// Check the cut fairness instead of writing manifests.
    pub check: bool,
    /// Output directory for generated manifests and mesh annotation.
    pub out: String,
    /// Largest number of files in one pod.
    pub max_pod_size: usize,
    /// Diagnostic policy of the run.
    pub fail_on: FailOn,
}

/// The commands of the analyzer.
#[derive(Debug, Clone)]
pub enum Cli {
    /// Inspect a project directory or file and extract all symbol definitions.
    Inspect(InspectArgs),
    /// Build a cross-file dependency graph and analyze its strongly connected
    /// components.
    Graph(GraphArgs),
    /// Scan cross-language call sites and generate MetaCall deployment manifests.
    Deploy(DeployArgs),
}

} // verus!
