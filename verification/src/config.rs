//! MetaCall configuration files.
//!
//! A configuration names a `language_id`, an optional `path` and a
//! `scripts` array, as MetaCall's `loader_load_from_configuration` reads
//! them. A relative `path` resolves against the configuration's directory.
//! References are joined lexically and refused when they leave the project.
use vstd::prelude::*;

use crate::error::{Diagnostic, Severity};
use crate::json::{as_string, json_document, json_member, json_str, json_view, member, parse_json, Json, JsonValue};
use crate::model::SourceRange;
use crate::paths::{is_absolute, join, join_path, normalize, normalize_path, parent, parent_of, path_starts_with, paths_equal, same_path, starts_with};
use crate::scanner::CallSite;
use crate::text::{chars_of, push_str, string_of, trim_chars, trim_seq};

verus! {

/// Largest configuration file read, in bytes.
pub const MAX_CONFIG_BYTES: u64 = 1048576;

/// A parsed configuration.
#[derive(Debug, Clone)]
pub struct LoadConfiguration {
    pub language_id: Option<String>,
    pub context_path: Option<String>,
    pub scripts: Vec<String>,
}

/// The raw fields of a configuration document: the string values of
/// `language_id` and `path`, and the items of `scripts` (`None` for an item
/// that is not a string), each `None` when absent or of another type.
pub struct ConfigDocument {
    pub language_id: Option<String>,
    pub path: Option<String>,
    pub scripts: Option<Vec<Option<String>>>,
}

pub open spec fn opt_view(o: Option<String>) -> Option<Seq<char>> {
    match o {
        Some(s) => Some(s@),
        None => None,
    }
}

/// A document as plain values.
pub open spec fn document_view(d: ConfigDocument) -> (Option<Seq<char>>, Option<Seq<char>>, Option<Seq<Option<Seq<char>>>>) {
    (
        opt_view(d.language_id),
        opt_view(d.path),
        match d.scripts {
            Some(v) => Some(v@.map_values(|x: Option<String>| opt_view(x))),
            None => None,
        },
    )
}

/// The raw fields of a configuration document (see [`ConfigDocument`]):
/// the strings at `language_id` and `path`, and the items of `scripts`.
pub open spec fn document_fields(v: JsonValue) -> (Option<Seq<char>>, Option<Seq<char>>, Option<Seq<Option<Seq<char>>>>) {
    (
        match json_member(v, "language_id"@) {
            Some(x) => json_str(x),
            None => None,
        },
        match json_member(v, "path"@) {
            Some(x) => json_str(x),
            None => None,
        },
        match json_member(v, "scripts"@) {
            Some(JsonValue::Array(items)) => Some(items.map_values(|x: JsonValue| json_str(x))),
            _ => None,
        },
    )
}

/// What the bytes of a configuration hold: the raw fields of the JSON
/// document, or the text of the parser's error.
pub open spec fn json_configuration(bytes: Seq<u8>) -> Result<(Option<Seq<char>>, Option<Seq<char>>, Option<Seq<Option<Seq<char>>>>), Seq<char>> {
    match json_document(bytes) {
        Ok(v) => Ok(document_fields(v)),
        Err(e) => Err(e),
    }
}

fn string_member(j: &Json, key: &str) -> (r: Option<String>)
    ensures
        opt_view(r) == match json_member(json_view(*j), key@) {
            Some(x) => json_str(x),
            None => None,
        },
{
    match member(j, key) {
        Some(x) => as_string(x),
        None => None,
    }
}

/// The raw fields of a JSON document (see [`document_fields`]).
pub fn document_from_json(j: &Json) -> (r: ConfigDocument)
    ensures
        document_view(r) == document_fields(json_view(*j)),
{
    proof {
        reveal_strlit("language_id");
        reveal_strlit("path");
        reveal_strlit("scripts");
    }
    let language_id = string_member(j, "language_id");
    let path = string_member(j, "path");
    let scripts = match member(j, "scripts") {
        Some(Json::Array(items)) => {
            let ghost iv = json_view(Json::Array(*items))->Array_0;
            let mut out: Vec<Option<String>> = Vec::new();
            let mut i: usize = 0;
            while i < items.len()
                invariant
                    iv == json_view(Json::Array(*items))->Array_0,
                    iv.len() == items@.len(),
                    0 <= i <= items@.len(),
                    out@.map_values(|x: Option<String>| opt_view(x)) == iv.take(i as int).map_values(|x: JsonValue| json_str(x)),
                decreases items@.len() - i,
            {
                let item = as_string(&items[i]);
                let ghost before = out@;
                out.push(item);
                proof {
                    assert(iv[i as int] == json_view(items@[i as int]));
                    assert(opt_view(item) == json_str(iv[i as int]));
                    assert(out@ == before.push(item));
                    assert(out@.map_values(|x: Option<String>| opt_view(x)) =~= before.map_values(|x: Option<String>| opt_view(x)).push(opt_view(item)));
                    assert(iv.take(i + 1).map_values(|x: JsonValue| json_str(x)) =~= iv.take(i as int).map_values(|x: JsonValue| json_str(x)).push(json_str(iv[i as int])));
                    assert(out@.map_values(|x: Option<String>| opt_view(x)) =~= iv.take(i + 1).map_values(|x: JsonValue| json_str(x)));
                }
                i = i + 1;
            }
            proof { assert(iv.take(i as int) =~= iv); }
            Some(out)
        },
        _ => None,
    };
    ConfigDocument { language_id, path, scripts }
}

/// A trimmed field, kept only when something is left.
pub open spec fn trimmed_field(o: Option<Seq<char>>) -> Option<Seq<char>> {
    match o {
        Some(s) => if trim_seq(s).len() > 0 {
            Some(trim_seq(s))
        } else {
            None
        },
        None => None,
    }
}

/// The string items of a list, in order.
pub open spec fn string_items(items: Seq<Option<Seq<char>>>) -> Seq<Seq<char>>
    decreases items.len(),
{
    if items.len() == 0 {
        Seq::empty()
    } else {
        let prev = string_items(items.drop_last());
        match items.last() {
            Some(s) => prev.push(s),
            None => prev,
        }
    }
}

/// The configuration a document holds.
pub open spec fn configuration_of(d: (Option<Seq<char>>, Option<Seq<char>>, Option<Seq<Option<Seq<char>>>>)) -> (Option<Seq<char>>, Option<Seq<char>>, Seq<Seq<char>>) {
    (
        trimmed_field(d.0),
        trimmed_field(d.1),
        match d.2 {
            Some(items) => string_items(items),
            None => Seq::empty(),
        },
    )
}

/// A configuration as plain values.
pub open spec fn configuration_view(c: LoadConfiguration) -> (Option<Seq<char>>, Option<Seq<char>>, Seq<Seq<char>>) {
    (opt_view(c.language_id), opt_view(c.context_path), c.scripts@.map_values(|s: String| s@))
}

fn trimmed(o: &Option<String>) -> (r: Option<String>)
    ensures
        opt_view(r) == trimmed_field(opt_view(*o)),
{
    match o {
        Some(s) => {
            let cs = chars_of(s.as_str());
            let t = trim_chars(cs.as_slice());
            if t.len() > 0 {
                Some(string_of(t.as_slice()))
            } else {
                None
            }
        },
        None => None,
    }
}

/// The configuration a document holds: `language_id` and `path` trimmed and
/// dropped when empty, the string items of `scripts`.
pub fn configuration_from_document(d: &ConfigDocument) -> (r: LoadConfiguration)
    ensures
        configuration_view(r) == configuration_of(document_view(*d)),
{
    let language_id = trimmed(&d.language_id);
    let context_path = trimmed(&d.path);
    let mut scripts: Vec<String> = Vec::new();
    match &d.scripts {
        Some(items) => {
            let ghost iv = items@.map_values(|x: Option<String>| opt_view(x));
            let mut i: usize = 0;
            while i < items.len()
                invariant
                    iv == items@.map_values(|x: Option<String>| opt_view(x)),
                    0 <= i <= items@.len(),
                    scripts@.map_values(|s: String| s@) == string_items(iv.take(i as int)),
                decreases items@.len() - i,
            {
                proof {
                    assert(iv.take(i + 1).drop_last() =~= iv.take(i as int));
                    assert(iv.take(i + 1).last() == opt_view(items@[i as int]));
                }
                match &items[i] {
                    Some(s) => {
                        let ghost before = scripts@;
                        scripts.push(s.clone());
                        proof {
                            assert(scripts@.map_values(|s: String| s@) =~= before.map_values(|s: String| s@).push(s@));
                        }
                    },
                    None => {},
                }
                i = i + 1;
            }
            proof { assert(iv.take(i as int) =~= iv); }
        },
        None => {
            proof { assert(scripts@.map_values(|s: String| s@) =~= Seq::<Seq<char>>::empty()); }
        },
    }
    LoadConfiguration { language_id, context_path, scripts }
}

/// The message of an invalid configuration.
pub open spec fn invalid_json_message(e: Seq<char>) -> Seq<char> {
    "invalid MetaCall configuration JSON: "@ + e
}

/// Parses a configuration file: `Err` with the parser's message when the
/// bytes are not JSON, else the configuration the document holds.
pub fn parse_load_configuration(bytes: &[u8]) -> (r: Result<LoadConfiguration, String>)
    ensures
        match json_configuration(bytes@) {
            Ok(d) => r matches Ok(c) && configuration_view(c) == configuration_of(d),
            Err(e) => r matches Err(m) && m@ == invalid_json_message(e),
        },
{
    match parse_json(bytes) {
        Ok(j) => Ok(configuration_from_document(&document_from_json(&j))),
        Err(e) => {
            let mut m = String::new();
            push_str(&mut m, "invalid MetaCall configuration JSON: ");
            push_str(&mut m, e.as_str());
            proof { assert(m@ =~= invalid_json_message(e@)); }
            Err(m)
        },
    }
}

/// The joined reference when it stays inside the root.
pub open spec fn spec_join_contained(root: Seq<char>, reference: Seq<char>) -> Option<Seq<char>> {
    if is_absolute(reference) {
        None
    } else if starts_with(normalize(join(root, reference)), normalize(root)) {
        Some(join(root, reference))
    } else {
        None
    }
}

/// Joins a reference onto the root, refusing absolute references and `..`
/// escapes. The check is lexical.
pub fn join_contained(root: &str, reference: &str) -> (r: Option<String>)
    ensures
        opt_view(r) == spec_join_contained(root@, reference@),
{
    let cs = chars_of(reference);
    if cs.len() > 0 && cs[0] == '/' {
        return None;
    }
    let joined = join_path(root, reference);
    let a = normalize_path(joined.as_str());
    let b = normalize_path(root);
    if path_starts_with(a.as_str(), b.as_str()) {
        Some(joined)
    } else {
        None
    }
}

/// A script reference leaves its base.
pub open spec fn spec_escapes_base(base: Seq<char>, script: Seq<char>) -> bool {
    let b = normalize(base);
    let joined = if is_absolute(script) {
        normalize(script)
    } else {
        normalize(join(b, script))
    };
    !starts_with(joined, b)
}

/// True when a script reference escapes its resolution base.
pub fn escapes_base(base: &str, script: &str) -> (r: bool)
    ensures
        r == spec_escapes_base(base@, script@),
{
    let b = normalize_path(base);
    let cs = chars_of(script);
    let joined = if cs.len() > 0 && cs[0] == '/' {
        normalize_path(script)
    } else {
        let j = join_path(b.as_str(), script);
        normalize_path(j.as_str())
    };
    !path_starts_with(joined.as_str(), b.as_str())
}

/// The base scripts resolve against: an absolute `path`, or a relative one
/// joined to the configuration's directory, normalized; the fallback when
/// there is no `path`.
pub open spec fn spec_script_base(config_file: Seq<char>, context: Option<Seq<char>>, fallback: Seq<char>) -> Seq<char> {
    match context {
        None => fallback,
        Some(c) => if is_absolute(c) {
            normalize(c)
        } else {
            normalize(
                join(
                    match parent(config_file) {
                        Some(d) => d,
                        None => fallback,
                    },
                    c,
                ),
            )
        },
    }
}

/// Base directory for script resolution (see [`spec_script_base`]).
pub fn script_base(config_file: &str, config: &LoadConfiguration, fallback: &str) -> (r: String)
    ensures
        r@ == spec_script_base(config_file@, opt_view(config.context_path), fallback@),
{
    match &config.context_path {
        None => crate::text::string_from(fallback),
        Some(c) => {
            let cs = chars_of(c.as_str());
            if cs.len() > 0 && cs[0] == '/' {
                normalize_path(c.as_str())
            } else {
                let dir = match parent_of(config_file) {
                    Some(d) => d,
                    None => crate::text::string_from(fallback),
                };
                let j = join_path(dir.as_str(), c.as_str());
                normalize_path(j.as_str())
            }
        },
    }
}

/// A warning about a configuration, at a path and maybe a range.
pub fn config_diagnostic(path: &str, range: Option<SourceRange>, message: String) -> (r: Diagnostic)
    ensures
        r.path@ == path@,
        r.severity == Severity::Warning,
        r.message == message,
        r.source_range == range,
{
    Diagnostic { path: crate::text::string_from(path), severity: Severity::Warning, message, source_range: range }
}

impl LoadConfiguration {
    /// A field-for-field copy.
    pub fn duplicate(&self) -> (r: LoadConfiguration)
        ensures
            same_configuration(r, *self),
    {
        let mut scripts: Vec<String> = Vec::new();
        let mut i: usize = 0;
        while i < self.scripts.len()
            invariant
                0 <= i <= self.scripts@.len(),
                scripts@ == self.scripts@.take(i as int),
            decreases self.scripts@.len() - i,
        {
            scripts.push(self.scripts[i].clone());
            proof { assert(scripts@ =~= self.scripts@.take(i + 1)); }
            i = i + 1;
        }
        proof { assert(self.scripts@.take(i as int) =~= self.scripts@); }
        LoadConfiguration {
            language_id: match &self.language_id {
                Some(s) => Some(s.clone()),
                None => None,
            },
            context_path: match &self.context_path {
                Some(s) => Some(s.clone()),
                None => None,
            },
            scripts,
        }
    }
}

/// Two configurations with the same fields.
pub open spec fn same_configuration(a: LoadConfiguration, b: LoadConfiguration) -> bool {
    a.language_id == b.language_id && a.context_path == b.context_path && a.scripts@ == b.scripts@
}

/// One read and parse of each configuration file: sites sharing a file
/// read it once, and a broken file is reported once.
///
/// Resolving a site takes three steps: [`ConfigCache::locate`] names the
/// file, [`ConfigCache::store`] records what reading it gave (only when
/// [`ConfigCache::is_cached`] says it is not known yet), and
/// [`ConfigCache::finish`] turns the record into the site's answer.
#[derive(Debug)]
pub struct ConfigCache {
    /// The outcome per configuration file, in order of first use.
    pub entries: Vec<(String, Result<LoadConfiguration, String>)>,
    /// The files whose failure was reported.
    pub reported: Vec<String>,
}

/// The configuration behind one call site, with its project paths.
#[derive(Debug)]
pub struct ResolvedConfig {
    pub config: LoadConfiguration,
    /// Contained project path of the configuration file.
    pub config_file: String,
    /// Script resolution base: the configuration `path` or the root.
    pub base: String,
}

/// The recorded outcome for a file (the first entry of the same path).
pub open spec fn cached_outcome(entries: Seq<(String, Result<LoadConfiguration, String>)>, path: Seq<char>) -> Option<Result<LoadConfiguration, String>>
    decreases entries.len(),
{
    if entries.len() == 0 {
        None
    } else {
        match cached_outcome(entries.drop_last(), path) {
            Some(o) => Some(o),
            None => if same_path(entries.last().0@, path) {
                Some(entries.last().1)
            } else {
                None
            },
        }
    }
}

/// A failure of this file was reported.
pub open spec fn was_reported(reported: Seq<String>, path: Seq<char>) -> bool {
    exists|i: int| 0 <= i < reported.len() && same_path(#[trigger] reported[i]@, path)
}

/// The message of a configuration reference that leaves the project.
pub open spec fn escape_message(script: Seq<char>) -> Seq<char> {
    "MetaCall configuration escapes the project root: "@ + script
}

impl ConfigCache {
    /// An empty cache.
    pub fn new() -> (r: ConfigCache)
        ensures
            r.entries@.len() == 0,
            r.reported@.len() == 0,
    {
        ConfigCache { entries: Vec::new(), reported: Vec::new() }
    }

    /// The configuration file a site names: its first script joined onto the
    /// root. `Err(None)` when the site names no script; a warning at the
    /// site's source file when the reference leaves the root.
    pub fn locate(site: &CallSite, root: &str) -> (r: Result<String, Option<Diagnostic>>)
        ensures
            site.scripts@.len() == 0 ==> r matches Err(None),
            site.scripts@.len() > 0 ==> match spec_join_contained(root@, site.scripts@[0]@) {
                Some(p) => r matches Ok(f) && f@ == p,
                None => r matches Err(Some(d)) && d.path@ == site.source_file@ && d.severity == Severity::Warning
                    && d.message@ == escape_message(site.scripts@[0]@) && d.source_range == site.source_range,
            },
    {
        if site.scripts.len() == 0 {
            return Err(None);
        }
        let script = &site.scripts[0];
        match join_contained(root, script.as_str()) {
            Some(f) => Ok(f),
            None => {
                let mut m = String::new();
                push_str(&mut m, "MetaCall configuration escapes the project root: ");
                push_str(&mut m, script.as_str());
                proof { assert(m@ =~= escape_message(script@)); }
                Err(Some(config_diagnostic(site.source_file.as_str(), site.source_range, m)))
            },
        }
    }

    /// Whether the file's outcome is recorded.
    pub fn is_cached(&self, config_file: &str) -> (r: bool)
        ensures
            r == cached_outcome(self.entries@, config_file@) is Some,
    {
        let mut i: usize = 0;
        while i < self.entries.len()
            invariant
                0 <= i <= self.entries@.len(),
                cached_outcome(self.entries@.take(i as int), config_file@) is None,
            decreases self.entries@.len() - i,
        {
            proof {
                assert(self.entries@.take(i + 1).drop_last() =~= self.entries@.take(i as int));
                assert(self.entries@.take(i + 1).last() == self.entries@[i as int]);
            }
            if paths_equal(self.entries[i].0.as_str(), config_file) {
                proof { lemma_outcome_prefix(self.entries@, config_file@, i + 1); }
                return true;
            }
            i = i + 1;
        }
        proof { assert(self.entries@.take(i as int) =~= self.entries@); }
        false
    }

    /// Records what reading a configuration file gave: the parsed
    /// configuration, or the read or parse failure message. A file already
    /// recorded keeps its first outcome.
    pub fn store(&mut self, config_file: String, read: Result<Vec<u8>, String>)
        ensures
            final(self).reported == old(self).reported,
            cached_outcome(old(self).entries@, config_file@) is Some ==> final(self).entries == old(self).entries,
            cached_outcome(old(self).entries@, config_file@) is None ==> {
                &&& final(self).entries@.len() == old(self).entries@.len() + 1
                &&& final(self).entries@.drop_last() == old(self).entries@
                &&& final(self).entries@.last().0 == config_file
                &&& match read {
                    Ok(bytes) => match json_configuration(bytes@) {
                        Ok(d) => final(self).entries@.last().1 matches Ok(c) && configuration_view(c) == configuration_of(d),
                        Err(e) => final(self).entries@.last().1 matches Err(m) && m@ == invalid_json_message(e),
                    },
                    Err(m) => final(self).entries@.last().1 == Err::<LoadConfiguration, String>(m),
                }
            },
    {
        if self.is_cached(config_file.as_str()) {
            return;
        }
        let outcome = match read {
            Ok(bytes) => parse_load_configuration(bytes.as_slice()),
            Err(m) => Err(m),
        };
        let ghost before = self.entries@;
        self.entries.push((config_file, outcome));
        proof { assert(self.entries@.drop_last() =~= before); }
    }

    /// The answer for a site whose file was located and recorded: the
    /// configuration with its file and script base; for a failure, a
    /// warning at the configuration file the first time, nothing after.
    pub fn finish(&mut self, site: &CallSite, config_file: &str, root: &str) -> (r: Result<ResolvedConfig, Option<Diagnostic>>)
        ensures
            final(self).entries == old(self).entries,
            match cached_outcome(old(self).entries@, config_file@) {
                None => final(self).reported == old(self).reported && r matches Err(None),
                Some(Ok(c)) => final(self).reported == old(self).reported && (r matches Ok(rc) && same_configuration(rc.config, c)
                    && rc.config_file@ == config_file@ && rc.base@ == spec_script_base(config_file@, opt_view(c.context_path), root@)),
                Some(Err(m)) => if was_reported(old(self).reported@, config_file@) {
                    final(self).reported == old(self).reported && r matches Err(None)
                } else {
                    &&& final(self).reported@ == old(self).reported@.push(final(self).reported@.last())
                    &&& final(self).reported@.last()@ == config_file@
                    &&& r matches Err(Some(d)) && d.path@ == config_file@ && d.severity == Severity::Warning && d.message == m
                        && d.source_range == site.source_range
                },
            },
    {
        let mut i: usize = 0;
        while i < self.entries.len()
            invariant
                self.entries == old(self).entries,
                self.reported == old(self).reported,
                0 <= i <= self.entries@.len(),
                cached_outcome(self.entries@.take(i as int), config_file@) is None,
            decreases self.entries@.len() - i,
        {
            proof {
                assert(self.entries@.take(i + 1).drop_last() =~= self.entries@.take(i as int));
                assert(self.entries@.take(i + 1).last() == self.entries@[i as int]);
            }
            if paths_equal(self.entries[i].0.as_str(), config_file) {
                proof { lemma_outcome_prefix(self.entries@, config_file@, i + 1); }
                match &self.entries[i].1 {
                    Ok(c) => {
                        let base = script_base(config_file, c, root);
                        return Ok(ResolvedConfig { config: c.duplicate(), config_file: crate::text::string_from(config_file), base });
                    },
                    Err(m) => {
                        let message = m.clone();
                        if self.reported_already(config_file) {
                            return Err(None);
                        }
                        self.reported.push(crate::text::string_from(config_file));
                        return Err(Some(config_diagnostic(config_file, site.source_range, message)));
                    },
                }
            }
            i = i + 1;
        }
        proof { assert(self.entries@.take(i as int) =~= self.entries@); }
        Err(None)
    }

    fn reported_already(&self, config_file: &str) -> (r: bool)
        ensures
            r == was_reported(self.reported@, config_file@),
    {
        let mut i: usize = 0;
        while i < self.reported.len()
            invariant
                0 <= i <= self.reported@.len(),
                forall|j: int| 0 <= j < i ==> !same_path(#[trigger] self.reported@[j]@, config_file@),
            decreases self.reported@.len() - i,
        {
            if paths_equal(self.reported[i].as_str(), config_file) {
                return true;
            }
            i = i + 1;
        }
        false
    }
}

proof fn lemma_outcome_prefix(entries: Seq<(String, Result<LoadConfiguration, String>)>, path: Seq<char>, m: int)
    requires
        0 <= m <= entries.len(),
        cached_outcome(entries.take(m), path) is Some,
    ensures
        cached_outcome(entries, path) == cached_outcome(entries.take(m), path),
    decreases entries.len() - m,
{
    if m == entries.len() {
        assert(entries.take(m) =~= entries);
    } else {
        assert(entries.take(m + 1).drop_last() =~= entries.take(m));
        lemma_outcome_prefix(entries, path, m + 1);
    }
}

} // verus!
