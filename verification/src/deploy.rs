//! The deployment pipeline: the MetaCall load edges injected into the graph,
//! the partition into pods, the cuts, and the two manifests.
//!
//! Reading configuration files and writing the manifests is left to the
//! caller: the functions here take what was read and return what to write.
use vstd::prelude::*;

use crate::analysis::GraphAnalysis;
use crate::check::{check_cut_fairness, fairness_issues};
use crate::assoc::{keys_distinct, lemma_lookup_some, lookup};
use crate::cut::{CutAnnotation, component_cuts, cut_matches, find_cross_language_cuts, find_oversized_pod_cut, oversized_cut, CutEdge, CutPlan};
use crate::config::{config_diagnostic, configuration_of, invalid_json_message, json_configuration, parse_load_configuration, script_base, spec_script_base};
use crate::edge::{EdgeData, EdgeKind};
use crate::error::{diagnostic_view, Diagnostic, Severity};
use crate::graph::{merge_edge, CodeGraph};
use crate::dependency::{dependency_fold, dependency_lists_view, pod_entries, resolve_dependencies, DependencyEntry, ProjectFiles};
use crate::index::{
    entries_below, is_entry_value, lemma_ordered_entries_below, lemma_path_value_entry, lemma_resolve_below, lookup_path,
    ordered_entries, path_value, resolve_in, DeployIndex, PathEntry,
};
use crate::lang::LangId;
use crate::manifest::{
    cross_language_count, deployment_matches, dropped_count, edge_view as manifest_edge_view, generate_pod_manifest, manifest_edge_views,
    saturating_total, view_le, GlobalMetrics, ManifestEdge, PodManifest,
};
use crate::mesh::{
    all_language_tags, analysis_in_range, cross_language_components, distinct_in_order, edge_view as mesh_edge_view, emitted_components,
    generate_mesh_annotation, independent_units, mesh_edges, unit_matches, CrossLanguageEdge, MeshAnnotation,
};
use crate::metrics::{
    ast_total, compute_file_metrics, compute_pod_metrics, extraction_metrics, file_metrics_of, lemma_pods_fit_within_project, pod_totals_fit,
    project_totals_fit, project_totals_within, symbol_total, FileMetrics, PodMetrics,
};
use crate::model::{FileExtraction, SourceRange};
use crate::node::{ExternalNode, NodeData};
use crate::order::{sort_by, sort_stable, stable_sorted, SortKey};
use crate::paths::{compare_paths, file_name, file_name_of, join, join_path, lemma_path_order, path_order, paths_equal, same_path};
use crate::pod::{file_language, files_all_registered, files_by_path, files_registered, inter_pod_candidates, partition_into_pods, pods_follow_classes, Pod, PodPartition};
use crate::pg::index_limit;
use crate::scanner::{site_view, string_views, CallSite, CallSiteVariant};
use crate::scc::SccAnalysis;
use crate::tags::{from_metacall_tag, has_loader, metacall_tag, spec_from_metacall_tag, spec_metacall_tag};
use crate::text::{decimal, ends_with_text, push_decimal, push_str, starts_with_text, str_eq, string_from};

verus! {

/// The call sites of the extractions, file after file.
pub open spec fn extraction_sites(es: Seq<FileExtraction>) -> Seq<(Seq<char>, LangId, CallSiteVariant, Option<Seq<char>>, Seq<Seq<char>>, Option<Seq<char>>, bool, Option<SourceRange>, u32)>
    decreases es.len(),
{
    if es.len() == 0 {
        Seq::empty()
    } else {
        extraction_sites(es.drop_last()) + es.last().call_sites@.map_values(|c: CallSite| site_view(c))
    }
}

/// MetaCall call sites collected from an analysis: the extractions of the
/// run are reused, so no file is scanned twice.
pub fn scan_call_sites(analysis: &GraphAnalysis) -> (r: Vec<CallSite>)
    ensures
        r@.map_values(|c: CallSite| site_view(c)) == extraction_sites(analysis.extractions@),
{
    call_sites_of(&analysis.extractions)
}

/// The call sites of the extractions, file after file.
pub fn call_sites_of(es: &Vec<FileExtraction>) -> (r: Vec<CallSite>)
    ensures
        r@.map_values(|c: CallSite| site_view(c)) == extraction_sites(es@),
{
    let mut out: Vec<CallSite> = Vec::new();
    let mut i: usize = 0;
    while i < es.len()
        invariant
            0 <= i <= es@.len(),
            out@.map_values(|c: CallSite| site_view(c)) == extraction_sites(es@.take(i as int)),
        decreases es@.len() - i,
    {
        proof {
            assert(es@.take(i + 1).drop_last() =~= es@.take(i as int));
            assert(es@.take(i + 1).last() == es@[i as int]);
        }
        let sites = &es[i].call_sites;
        let ghost start = out@.map_values(|c: CallSite| site_view(c));
        let mut k: usize = 0;
        while k < sites.len()
            invariant
                0 <= k <= sites@.len(),
                out@.map_values(|c: CallSite| site_view(c)) == start + sites@.take(k as int).map_values(|c: CallSite| site_view(c)),
            decreases sites@.len() - k,
        {
            let ghost before = out@;
            out.push(sites[k].duplicate());
            proof {
                assert(out@.map_values(|c: CallSite| site_view(c)) =~= before.map_values(|c: CallSite| site_view(c)).push(site_view(sites@[k as int])));
                assert(sites@.take(k + 1).map_values(|c: CallSite| site_view(c)) =~= sites@.take(k as int).map_values(|c: CallSite| site_view(c)).push(site_view(sites@[k as int])));
            }
            k = k + 1;
        }
        proof { assert(sites@.take(k as int) =~= sites@); }
        i = i + 1;
    }
    proof { assert(es@.take(i as int) =~= es@); }
    out
}

/// Path and node index of every file node, in node order.
pub open spec fn file_index_of(nodes: Seq<NodeData>) -> Seq<(String, usize)>
    decreases nodes.len(),
{
    if nodes.len() == 0 {
        Seq::empty()
    } else {
        let prev = file_index_of(nodes.drop_last());
        match nodes.last() {
            NodeData::File(f) => prev.push((f.path, (nodes.len() - 1) as usize)),
            _ => prev,
        }
    }
}

/// Path to node index for every file node of the graph, in node order (a
/// later node of the same path wins a lookup).
pub fn file_index(graph: &CodeGraph) -> (r: Vec<(String, usize)>)
    requires
        graph.wf(),
    ensures
        r@ == file_index_of(graph.nodes()),
        forall|i: int| 0 <= i < r@.len() ==> (#[trigger] r@[i]).1 < graph.nodes().len(),
{
    let n = graph.node_count();
    let mut out: Vec<(String, usize)> = Vec::new();
    let mut i: usize = 0;
    while i < n
        invariant
            graph.wf(),
            n == graph.nodes().len(),
            0 <= i <= n,
            out@ == file_index_of(graph.nodes().take(i as int)),
            forall|k: int| 0 <= k < out@.len() ==> (#[trigger] out@[k]).1 < i,
        decreases n - i,
    {
        proof {
            assert(graph.nodes().take(i + 1).drop_last() =~= graph.nodes().take(i as int));
            assert(graph.nodes().take(i + 1).last() == graph.nodes()[i as int]);
        }
        match graph.node(i) {
            NodeData::File(f) => {
                out.push((f.path.clone(), i));
            },
            _ => {},
        }
        i = i + 1;
    }
    proof { assert(graph.nodes().take(i as int) =~= graph.nodes()); }
    out
}

/// One MetaCall edge to add: from the file node of a load call, for one
/// loaded script.
#[derive(Debug)]
pub struct LoadRequest {
    /// The file node of the call site.
    pub from: usize,
    /// The directory the script resolves against.
    pub base: String,
    pub variant: CallSiteVariant,
    pub target_lang: LangId,
    pub script: String,
    /// The external node the edge leads to when no project file matches.
    pub external_name: String,
    /// Confidence in thousandths.
    pub confidence: u32,
}

/// A load request as plain values.
pub open spec fn request_view(r: LoadRequest) -> (usize, Seq<char>, CallSiteVariant, LangId, Seq<char>, Seq<char>, u32) {
    (r.from, r.base@, r.variant, r.target_lang, r.script@, r.external_name@, r.confidence)
}

/// The external node of an unresolved script: a memory load is named after
/// its loader (its text is code, not a name), any other load after the script.
pub open spec fn spec_external_name(variant: CallSiteVariant, lang: LangId, script: Seq<char>) -> Seq<char> {
    if variant == CallSiteVariant::LoadFromMemory {
        "<memory:"@ + spec_metacall_tag(lang) + ">"@
    } else {
        script
    }
}

/// One request per script, in script order.
pub open spec fn script_requests(from: usize, base: Seq<char>, variant: CallSiteVariant, lang: LangId, scripts: Seq<Seq<char>>, confidence: u32) -> Seq<(usize, Seq<char>, CallSiteVariant, LangId, Seq<char>, Seq<char>, u32)> {
    scripts.map_values(|s: Seq<char>| (from, base, variant, lang, s, spec_external_name(variant, lang, s), confidence))
}

/// A single warning, and no request.
pub open spec fn warning_only(path: Seq<char>, message: Seq<char>, range: Option<SourceRange>) -> (Seq<(usize, Seq<char>, CallSiteVariant, LangId, Seq<char>, Seq<char>, u32)>, Seq<(Seq<char>, Severity, Seq<char>, Option<SourceRange>)>) {
    (Seq::empty(), seq![(path, Severity::Warning, message, range)])
}

/// Neither a request nor a warning.
pub open spec fn nothing_planned() -> (Seq<(usize, Seq<char>, CallSiteVariant, LangId, Seq<char>, Seq<char>, u32)>, Seq<(Seq<char>, Severity, Seq<char>, Option<SourceRange>)>) {
    (Seq::empty(), Seq::empty())
}

/// What reading the configuration file of a site gave, as plain values.
pub open spec fn read_view(read: Option<Result<Vec<u8>, String>>) -> Option<Result<Seq<u8>, Seq<char>>> {
    match read {
        None => None,
        Some(Ok(bytes)) => Some(Ok(bytes@)),
        Some(Err(e)) => Some(Err(e@)),
    }
}

/// The requests and warnings of a `metacall_load_from_configuration` site.
///
/// The configuration file is the first script joined onto the root. A file
/// that cannot be read or parsed, or that names no known language or no
/// script, gives a warning at the file; a site outside the graph gives
/// nothing; otherwise each script of the configuration is a request that
/// resolves against the configuration's base.
pub open spec fn config_site_plan(entries: Seq<(String, usize)>, site: CallSite, read: Option<Result<Seq<u8>, Seq<char>>>, root: Seq<char>) -> (Seq<(usize, Seq<char>, CallSiteVariant, LangId, Seq<char>, Seq<char>, u32)>, Seq<(Seq<char>, Severity, Seq<char>, Option<SourceRange>)>) {
    if site.variant != CallSiteVariant::LoadFromConfiguration || site.scripts@.len() == 0 {
        nothing_planned()
    } else {
        let config_file = join(root, site.scripts@[0]@);
        match read {
            None => nothing_planned(),
            Some(Err(e)) => warning_only(config_file, "unreadable MetaCall configuration: "@ + e, site.source_range),
            Some(Ok(bytes)) => match json_configuration(bytes) {
                Err(e) => warning_only(config_file, invalid_json_message(e), site.source_range),
                Ok(d) => {
                    let c = configuration_of(d);
                    match c.0 {
                        None => warning_only(config_file, "MetaCall configuration has no language_id"@, site.source_range),
                        Some(id) => match spec_from_metacall_tag(id) {
                            None => warning_only(config_file, "unknown MetaCall language_id '"@ + id + "'"@, site.source_range),
                            Some(lang) => if c.2.len() == 0 {
                                warning_only(config_file, "MetaCall configuration has no scripts"@, site.source_range)
                            } else {
                                match path_value(entries, site.source_file@) {
                                    None => nothing_planned(),
                                    Some(from) => (
                                        script_requests(
                                            from,
                                            spec_script_base(config_file, c.1, root),
                                            CallSiteVariant::LoadFromConfiguration,
                                            lang,
                                            c.2,
                                            site.confidence,
                                        ),
                                        Seq::empty(),
                                    ),
                                }
                            },
                        },
                    }
                },
            },
        }
    }
}

/// The requests and warnings of any other load site that names its loader:
/// each script resolves against the root. An unknown tag is a warning at
/// the source file; a known language without a MetaCall loader is a warning
/// too, and its edges are still added.
pub open spec fn plain_site_plan(entries: Seq<(String, usize)>, site: CallSite, root: Seq<char>) -> (Seq<(usize, Seq<char>, CallSiteVariant, LangId, Seq<char>, Seq<char>, u32)>, Seq<(Seq<char>, Severity, Seq<char>, Option<SourceRange>)>) {
    if site.variant == CallSiteVariant::LoadFromConfiguration {
        nothing_planned()
    } else {
        match site.target_lang {
            None => nothing_planned(),
            Some(tag) => match path_value(entries, site.source_file@) {
                None => nothing_planned(),
                Some(from) => match spec_from_metacall_tag(tag@) {
                    None => warning_only(site.source_file@, "unknown MetaCall load tag '"@ + tag@ + "'"@, site.source_range),
                    Some(lang) => (
                        script_requests(from, root, site.variant, lang, string_views(site.scripts@), site.confidence),
                        if lang != LangId::Go {
                            Seq::empty()
                        } else {
                            seq![(
                                site.source_file@,
                                Severity::Warning,
                                "no MetaCall loader for language '"@ + lang.spec_name() + "', the tag '"@ + tag@ + "' is a meta-ast tag"@,
                                site.source_range,
                            )]
                        },
                    ),
                },
            },
        }
    }
}

/// The read of site `i`, when one was made.
pub open spec fn read_at(reads: Seq<Option<Result<Vec<u8>, String>>>, i: int) -> Option<Result<Seq<u8>, Seq<char>>> {
    if 0 <= i < reads.len() {
        read_view(reads[i])
    } else {
        None
    }
}

/// The configuration sites among the first `n`, in order.
pub open spec fn config_pass(entries: Seq<(String, usize)>, sites: Seq<CallSite>, reads: Seq<Option<Result<Vec<u8>, String>>>, root: Seq<char>, n: int) -> (Seq<(usize, Seq<char>, CallSiteVariant, LangId, Seq<char>, Seq<char>, u32)>, Seq<(Seq<char>, Severity, Seq<char>, Option<SourceRange>)>)
    decreases n,
{
    if n <= 0 {
        nothing_planned()
    } else {
        let prev = config_pass(entries, sites, reads, root, n - 1);
        let step = config_site_plan(entries, sites[n - 1], read_at(reads, n - 1), root);
        (prev.0 + step.0, prev.1 + step.1)
    }
}

/// The other load sites among the first `n`, in order.
pub open spec fn plain_pass(entries: Seq<(String, usize)>, sites: Seq<CallSite>, root: Seq<char>, n: int) -> (Seq<(usize, Seq<char>, CallSiteVariant, LangId, Seq<char>, Seq<char>, u32)>, Seq<(Seq<char>, Severity, Seq<char>, Option<SourceRange>)>)
    decreases n,
{
    if n <= 0 {
        nothing_planned()
    } else {
        let prev = plain_pass(entries, sites, root, n - 1);
        let step = plain_site_plan(entries, sites[n - 1], root);
        (prev.0 + step.0, prev.1 + step.1)
    }
}

/// All requests and warnings: every configuration site first, then every
/// other site, each pass in site order.
pub open spec fn load_plan(entries: Seq<(String, usize)>, sites: Seq<CallSite>, reads: Seq<Option<Result<Vec<u8>, String>>>, root: Seq<char>) -> (Seq<(usize, Seq<char>, CallSiteVariant, LangId, Seq<char>, Seq<char>, u32)>, Seq<(Seq<char>, Severity, Seq<char>, Option<SourceRange>)>) {
    let c = config_pass(entries, sites, reads, root, sites.len() as int);
    let p = plain_pass(entries, sites, root, sites.len() as int);
    (c.0 + p.0, c.1 + p.1)
}

/// The name of the external node an unresolved script falls back to.
fn external_name(variant: CallSiteVariant, lang: LangId, script: &str) -> (r: String)
    ensures
        r@ == spec_external_name(variant, lang, script@),
{
    if variant == CallSiteVariant::LoadFromMemory {
        let mut m = String::new();
        push_str(&mut m, "<memory:");
        push_str(&mut m, metacall_tag(lang));
        push_str(&mut m, ">");
        proof { assert(m@ =~= "<memory:"@ + spec_metacall_tag(lang) + ">"@); }
        m
    } else {
        string_from(script)
    }
}

fn push_requests(
    requests: &mut Vec<LoadRequest>,
    from: usize,
    base: &str,
    variant: CallSiteVariant,
    lang: LangId,
    scripts: &Vec<String>,
    confidence: u32,
)
    ensures
        final(requests)@.map_values(|r: LoadRequest| request_view(r)) == old(requests)@.map_values(|r: LoadRequest| request_view(r))
            + script_requests(from, base@, variant, lang, string_views(scripts@), confidence),
        final(requests)@.len() >= old(requests)@.len(),
        forall|i: int| 0 <= i < old(requests)@.len() ==> #[trigger] final(requests)@[i] == old(requests)@[i],
        forall|i: int| old(requests)@.len() <= i < final(requests)@.len() ==> (#[trigger] final(requests)@[i]).from == from
            && final(requests)@[i].confidence == confidence,
{
    let ghost start = requests@;
    let mut k: usize = 0;
    while k < scripts.len()
        invariant
            0 <= k <= scripts@.len(),
            requests@.len() == start.len() + k,
            forall|i: int| 0 <= i < start.len() ==> #[trigger] requests@[i] == start[i],
            forall|i: int| start.len() <= i < requests@.len() ==> (#[trigger] requests@[i]).from == from
                && requests@[i].confidence == confidence,
            requests@.map_values(|r: LoadRequest| request_view(r)) == start.map_values(|r: LoadRequest| request_view(r))
                + script_requests(from, base@, variant, lang, string_views(scripts@.take(k as int)), confidence),
        decreases scripts@.len() - k,
    {
        let script = &scripts[k];
        let req = LoadRequest {
            from,
            base: string_from(base),
            variant,
            target_lang: lang,
            script: script.clone(),
            external_name: external_name(variant, lang, script.as_str()),
            confidence,
        };
        let ghost before = requests@;
        requests.push(req);
        proof {
            assert(string_views(scripts@.take(k + 1)) =~= string_views(scripts@.take(k as int)).push(script@));
            assert(requests@.map_values(|r: LoadRequest| request_view(r)) =~= before.map_values(|r: LoadRequest| request_view(r)).push(request_view(req)));
            assert(script_requests(from, base@, variant, lang, string_views(scripts@.take(k + 1)), confidence) =~= script_requests(
                from,
                base@,
                variant,
                lang,
                string_views(scripts@.take(k as int)),
                confidence,
            ).push(request_view(req)));
        }
        k = k + 1;
    }
    proof { assert(scripts@.take(k as int) =~= scripts@); }
}

/// The planning ensures shared by the two site planners.
pub open spec fn planned(
    old_requests: Seq<LoadRequest>,
    new_requests: Seq<LoadRequest>,
    old_diagnostics: Seq<Diagnostic>,
    new_diagnostics: Seq<Diagnostic>,
    entries: Seq<(String, usize)>,
    plan: (Seq<(usize, Seq<char>, CallSiteVariant, LangId, Seq<char>, Seq<char>, u32)>, Seq<(Seq<char>, Severity, Seq<char>, Option<SourceRange>)>),
    confidence: u32,
) -> bool {
    &&& new_requests.map_values(|r: LoadRequest| request_view(r)) == old_requests.map_values(|r: LoadRequest| request_view(r)) + plan.0
    &&& new_diagnostics.map_values(|d: Diagnostic| diagnostic_view(d)) == old_diagnostics.map_values(|d: Diagnostic| diagnostic_view(d)) + plan.1
    &&& new_requests.len() >= old_requests.len()
    &&& forall|i: int| 0 <= i < old_requests.len() ==> #[trigger] new_requests[i] == old_requests[i]
    &&& forall|i: int| old_requests.len() <= i < new_requests.len() ==> is_entry_value(entries, (#[trigger] new_requests[i]).from)
        && new_requests[i].confidence == confidence
}

fn warn(diagnostics: &mut Vec<Diagnostic>, path: &str, message: String, range: Option<SourceRange>)
    ensures
        final(diagnostics)@.map_values(|d: Diagnostic| diagnostic_view(d)) == old(diagnostics)@.map_values(|d: Diagnostic| diagnostic_view(d))
            + seq![(path@, Severity::Warning, message@, range)],
{
    let ghost before = diagnostics@;
    let d = config_diagnostic(path, range, message);
    diagnostics.push(d);
    proof {
        assert(diagnostics@.map_values(|d: Diagnostic| diagnostic_view(d)) =~= before.map_values(|d: Diagnostic| diagnostic_view(d))
            + seq![(path@, Severity::Warning, d.message@, range)]);
    }
}

/// Plans a `metacall_load_from_configuration` site (see [`config_site_plan`]).
pub fn plan_config_site(
    entries: &Vec<(String, usize)>,
    site: &CallSite,
    read: &Option<Result<Vec<u8>, String>>,
    root: &str,
    requests: &mut Vec<LoadRequest>,
    diagnostics: &mut Vec<Diagnostic>,
)
    ensures
        planned(old(requests)@, final(requests)@, old(diagnostics)@, final(diagnostics)@, entries@,
            config_site_plan(entries@, *site, read_view(*read), root@), site.confidence),
{
    proof {
        assert(requests@.map_values(|r: LoadRequest| request_view(r)) + Seq::empty() =~= requests@.map_values(|r: LoadRequest| request_view(r)));
        assert(diagnostics@.map_values(|d: Diagnostic| diagnostic_view(d)) + Seq::empty() =~= diagnostics@.map_values(|d: Diagnostic| diagnostic_view(d)));
    }
    if site.variant != CallSiteVariant::LoadFromConfiguration || site.scripts.len() == 0 {
        return;
    }
    let config_file = join_path(root, site.scripts[0].as_str());
    let parsed = match read {
        None => {
            return;
        },
        Some(Err(e)) => {
            let mut m = String::new();
            push_str(&mut m, "unreadable MetaCall configuration: ");
            push_str(&mut m, e.as_str());
            proof { assert(m@ =~= "unreadable MetaCall configuration: "@ + e@); }
            warn(diagnostics, config_file.as_str(), m, site.source_range);
            return;
        },
        Some(Ok(bytes)) => match parse_load_configuration(bytes.as_slice()) {
            Ok(c) => c,
            Err(m) => {
                warn(diagnostics, config_file.as_str(), m, site.source_range);
                return;
            },
        },
    };
    let language_id = match &parsed.language_id {
        None => {
            warn(diagnostics, config_file.as_str(), string_from("MetaCall configuration has no language_id"), site.source_range);
            return;
        },
        Some(l) => l,
    };
    let target_lang = match from_metacall_tag(language_id.as_str()) {
        None => {
            let mut m = String::new();
            push_str(&mut m, "unknown MetaCall language_id '");
            push_str(&mut m, language_id.as_str());
            push_str(&mut m, "'");
            proof { assert(m@ =~= "unknown MetaCall language_id '"@ + language_id@ + "'"@); }
            warn(diagnostics, config_file.as_str(), m, site.source_range);
            return;
        },
        Some(t) => t,
    };
    if parsed.scripts.len() == 0 {
        warn(diagnostics, config_file.as_str(), string_from("MetaCall configuration has no scripts"), site.source_range);
        return;
    }
    let from = match lookup_path(entries, site.source_file.as_str()) {
        None => {
            return;
        },
        Some(f) => f,
    };
    proof { lemma_path_value_entry(entries@, site.source_file@); }
    let base = script_base(config_file.as_str(), &parsed, root);
    push_requests(requests, from, base.as_str(), CallSiteVariant::LoadFromConfiguration, target_lang, &parsed.scripts, site.confidence);
}

/// Plans any other load site (see [`plain_site_plan`]).
pub fn plan_plain_site(
    entries: &Vec<(String, usize)>,
    site: &CallSite,
    root: &str,
    requests: &mut Vec<LoadRequest>,
    diagnostics: &mut Vec<Diagnostic>,
)
    ensures
        planned(old(requests)@, final(requests)@, old(diagnostics)@, final(diagnostics)@, entries@,
            plain_site_plan(entries@, *site, root@), site.confidence),
{
    proof {
        assert(requests@.map_values(|r: LoadRequest| request_view(r)) + Seq::empty() =~= requests@.map_values(|r: LoadRequest| request_view(r)));
        assert(diagnostics@.map_values(|d: Diagnostic| diagnostic_view(d)) + Seq::empty() =~= diagnostics@.map_values(|d: Diagnostic| diagnostic_view(d)));
    }
    if site.variant == CallSiteVariant::LoadFromConfiguration {
        return;
    }
    let tag = match &site.target_lang {
        None => {
            return;
        },
        Some(t) => t,
    };
    let from = match lookup_path(entries, site.source_file.as_str()) {
        None => {
            return;
        },
        Some(f) => f,
    };
    proof { lemma_path_value_entry(entries@, site.source_file@); }
    let lang = match from_metacall_tag(tag.as_str()) {
        None => {
            let mut m = String::new();
            push_str(&mut m, "unknown MetaCall load tag '");
            push_str(&mut m, tag.as_str());
            push_str(&mut m, "'");
            proof { assert(m@ =~= "unknown MetaCall load tag '"@ + tag@ + "'"@); }
            warn(diagnostics, site.source_file.as_str(), m, site.source_range);
            return;
        },
        Some(l) => l,
    };
    if !has_loader(lang) {
        let mut m = String::new();
        push_str(&mut m, "no MetaCall loader for language '");
        push_str(&mut m, lang.as_str());
        push_str(&mut m, "', the tag '");
        push_str(&mut m, tag.as_str());
        push_str(&mut m, "' is a meta-ast tag");
        proof {
            assert(m@ =~= "no MetaCall loader for language '"@ + lang.spec_name() + "', the tag '"@ + tag@ + "' is a meta-ast tag"@);
        }
        warn(diagnostics, site.source_file.as_str(), m, site.source_range);
    }
    push_requests(requests, from, root, site.variant, lang, &site.scripts, site.confidence);
}

/// Every request and warning of the load sites (see [`load_plan`]); `reads`
/// holds, at a configuration site's position, what reading its file gave.
pub fn plan_load_edges(
    entries: &Vec<(String, usize)>,
    sites: &Vec<CallSite>,
    reads: &Vec<Option<Result<Vec<u8>, String>>>,
    root: &str,
    diagnostics: &mut Vec<Diagnostic>,
) -> (r: Vec<LoadRequest>)
    ensures
        r@.map_values(|q: LoadRequest| request_view(q)) == load_plan(entries@, sites@, reads@, root@).0,
        final(diagnostics)@.map_values(|d: Diagnostic| diagnostic_view(d)) == old(diagnostics)@.map_values(|d: Diagnostic| diagnostic_view(d))
            + load_plan(entries@, sites@, reads@, root@).1,
        forall|i: int| 0 <= i < r@.len() ==> is_entry_value(entries@, (#[trigger] r@[i]).from)
            && exists|j: int| 0 <= j < sites@.len() && r@[i].confidence == (#[trigger] sites@[j]).confidence,
{
    let mut requests: Vec<LoadRequest> = Vec::new();
    let ghost d0 = diagnostics@.map_values(|d: Diagnostic| diagnostic_view(d));
    let none: Option<Result<Vec<u8>, String>> = None;
    let mut i: usize = 0;
    while i < sites.len()
        invariant
            0 <= i <= sites@.len(),
            requests@.map_values(|q: LoadRequest| request_view(q)) == config_pass(entries@, sites@, reads@, root@, i as int).0,
            diagnostics@.map_values(|d: Diagnostic| diagnostic_view(d)) == d0 + config_pass(entries@, sites@, reads@, root@, i as int).1,
            forall|k: int| 0 <= k < requests@.len() ==> is_entry_value(entries@, (#[trigger] requests@[k]).from)
                && exists|j: int| 0 <= j < sites@.len() && requests@[k].confidence == (#[trigger] sites@[j]).confidence,
            none is None,
        decreases sites@.len() - i,
    {
        let read = if i < reads.len() { &reads[i] } else { &none };
        proof { assert(read_view(*read) == read_at(reads@, i as int)); }
        let ghost before = requests@;
        plan_config_site(entries, &sites[i], read, root, &mut requests, diagnostics);
        proof {
            assert forall|k: int| 0 <= k < requests@.len() implies is_entry_value(entries@, (#[trigger] requests@[k]).from)
                && exists|j: int| 0 <= j < sites@.len() && requests@[k].confidence == (#[trigger] sites@[j]).confidence by {
                if k >= before.len() {
                    assert(requests@[k].confidence == sites@[i as int].confidence);
                } else {
                    assert(requests@[k] == before[k]);
                }
            }
            assert(d0 + config_pass(entries@, sites@, reads@, root@, i + 1).1 =~= d0 + config_pass(entries@, sites@, reads@, root@, i as int).1
                + config_site_plan(entries@, sites@[i as int], read_at(reads@, i as int), root@).1);
        }
        i = i + 1;
    }
    let ghost c = config_pass(entries@, sites@, reads@, root@, sites@.len() as int);
    let mut i: usize = 0;
    proof {
        assert(c.0 + plain_pass(entries@, sites@, root@, 0).0 =~= c.0);
        assert(d0 + c.1 + plain_pass(entries@, sites@, root@, 0).1 =~= d0 + c.1);
    }
    while i < sites.len()
        invariant
            0 <= i <= sites@.len(),
            c == config_pass(entries@, sites@, reads@, root@, sites@.len() as int),
            requests@.map_values(|q: LoadRequest| request_view(q)) == c.0 + plain_pass(entries@, sites@, root@, i as int).0,
            diagnostics@.map_values(|d: Diagnostic| diagnostic_view(d)) == d0 + c.1 + plain_pass(entries@, sites@, root@, i as int).1,
            forall|k: int| 0 <= k < requests@.len() ==> is_entry_value(entries@, (#[trigger] requests@[k]).from)
                && exists|j: int| 0 <= j < sites@.len() && requests@[k].confidence == (#[trigger] sites@[j]).confidence,
        decreases sites@.len() - i,
    {
        let ghost before = requests@;
        plan_plain_site(entries, &sites[i], root, &mut requests, diagnostics);
        proof {
            assert forall|k: int| 0 <= k < requests@.len() implies is_entry_value(entries@, (#[trigger] requests@[k]).from)
                && exists|j: int| 0 <= j < sites@.len() && requests@[k].confidence == (#[trigger] sites@[j]).confidence by {
                if k >= before.len() {
                    assert(requests@[k].confidence == sites@[i as int].confidence);
                } else {
                    assert(requests@[k] == before[k]);
                }
            }
            assert(c.0 + plain_pass(entries@, sites@, root@, i + 1).0 =~= c.0 + plain_pass(entries@, sites@, root@, i as int).0
                + plain_site_plan(entries@, sites@[i as int], root@).0);
            assert(d0 + c.1 + plain_pass(entries@, sites@, root@, i + 1).1 =~= d0 + c.1 + plain_pass(entries@, sites@, root@, i as int).1
                + plain_site_plan(entries@, sites@[i as int], root@).1);
        }
        i = i + 1;
    }
    proof {
        assert(d0 + c.1 + plain_pass(entries@, sites@, root@, sites@.len() as int).1 =~= d0 + load_plan(entries@, sites@, reads@, root@).1);
    }
    requests
}

/// The parts of a graph that loading edges changes: nodes, edges and the
/// external index.
pub open spec fn graph_state(g: CodeGraph) -> (Seq<NodeData>, Seq<(usize, usize, EdgeData)>, Seq<(Seq<char>, usize)>) {
    (g.nodes(), g.edges(), g.external_keys())
}

/// A load that carries code or a package name, which never names a
/// project file.
pub open spec fn names_no_file(variant: CallSiteVariant) -> bool {
    variant == CallSiteVariant::LoadFromMemory || variant == CallSiteVariant::LoadFromPackage
}

/// The graph after one request: an import edge from the site's file to the
/// file the script resolves to, else to the external node of its fallback
/// name, created when missing. A repeated edge keeps the larger confidence.
pub open spec fn load_step(
    s: (Seq<NodeData>, Seq<(usize, usize, EdgeData)>, Seq<(Seq<char>, usize)>),
    entries: Seq<(String, usize)>,
    ordered: Seq<PathEntry>,
    r: LoadRequest,
) -> (Seq<NodeData>, Seq<(usize, usize, EdgeData)>, Seq<(Seq<char>, usize)>) {
    let (nodes, edges, ext) = s;
    match nodes[r.from as int] {
        NodeData::File(f) => {
            let resolved = if names_no_file(r.variant) {
                None
            } else {
                resolve_in(entries, ordered, r.base@, r.script@, f.path@)
            };
            match resolved {
                Some(t) => (nodes, merge_edge(edges, r.from, t, EdgeKind::Import, r.confidence), ext),
                None => match lookup(ext, r.external_name@) {
                    Some(i) => (nodes, merge_edge(edges, r.from, i, EdgeKind::Import, r.confidence), ext),
                    None => {
                        let i = nodes.len() as usize;
                        (
                            nodes.push(NodeData::External(ExternalNode { raw_path: r.external_name, language: r.target_lang, classification: None })),
                            merge_edge(edges, r.from, i, EdgeKind::Import, r.confidence),
                            ext.push((r.external_name@, i)),
                        )
                    },
                },
            }
        },
        _ => s,
    }
}

/// The graph after the requests, applied in order.
pub open spec fn apply_requests(
    s: (Seq<NodeData>, Seq<(usize, usize, EdgeData)>, Seq<(Seq<char>, usize)>),
    entries: Seq<(String, usize)>,
    ordered: Seq<PathEntry>,
    reqs: Seq<LoadRequest>,
) -> (Seq<NodeData>, Seq<(usize, usize, EdgeData)>, Seq<(Seq<char>, usize)>)
    decreases reqs.len(),
{
    if reqs.len() == 0 {
        s
    } else {
        load_step(apply_requests(s, entries, ordered, reqs.drop_last()), entries, ordered, reqs.last())
    }
}

/// Adds the edge of one request (see [`load_step`]).
pub fn add_metacall_edge(graph: &mut CodeGraph, ix: &DeployIndex, request: &LoadRequest)
    requires
        old(graph).wf(),
        old(graph).nodes().len() + 2 < index_limit(),
        old(graph).edges().len() + 1 < index_limit(),
        request.from < old(graph).nodes().len(),
        request.confidence <= 1000,
        entries_below(ix.path_to_idx@, ix.ordered@, old(graph).nodes().len()),
    ensures
        final(graph).wf(),
        graph_state(*final(graph)) == load_step(graph_state(*old(graph)), ix.path_to_idx@, ix.ordered@, *request),
        final(graph).file_to_index == old(graph).file_to_index,
        final(graph).symbol_to_index == old(graph).symbol_to_index,
        final(graph).snapshot_id == old(graph).snapshot_id,
        old(graph).nodes().len() <= final(graph).nodes().len() <= old(graph).nodes().len() + 1,
        final(graph).edges().len() <= old(graph).edges().len() + 1,
{
    let source_file = match graph.node(request.from) {
        NodeData::File(f) => f.path.clone(),
        _ => {
            return;
        },
    };
    let resolved = match request.variant {
        CallSiteVariant::LoadFromMemory | CallSiteVariant::LoadFromPackage => None,
        _ => ix.resolve_script(request.base.as_str(), request.script.as_str(), source_file.as_str()),
    };
    proof {
        lemma_resolve_below(ix.path_to_idx@, ix.ordered@, request.base@, request.script@, source_file@, graph.nodes().len());
    }
    match resolved {
        Some(to) => {
            graph.add_edge_normalized(request.from, to, EdgeKind::Import, request.confidence);
        },
        None => {
            let to = graph.get_or_create_external_node(request.external_name.clone(), request.target_lang);
            graph.add_edge_normalized(request.from, to, EdgeKind::Import, request.confidence);
        },
    }
}

/// Adds the edges of the requests, in order (see [`apply_requests`]).
pub fn apply_load_requests(graph: &mut CodeGraph, ix: &DeployIndex, reqs: &Vec<LoadRequest>)
    requires
        old(graph).wf(),
        old(graph).nodes().len() + reqs@.len() + 1 < index_limit(),
        old(graph).edges().len() + reqs@.len() < index_limit(),
        forall|i: int| 0 <= i < reqs@.len() ==> (#[trigger] reqs@[i]).from < old(graph).nodes().len() && reqs@[i].confidence <= 1000,
        entries_below(ix.path_to_idx@, ix.ordered@, old(graph).nodes().len()),
    ensures
        final(graph).wf(),
        graph_state(*final(graph)) == apply_requests(graph_state(*old(graph)), ix.path_to_idx@, ix.ordered@, reqs@),
        final(graph).file_to_index == old(graph).file_to_index,
        final(graph).symbol_to_index == old(graph).symbol_to_index,
        final(graph).snapshot_id == old(graph).snapshot_id,
{
    let ghost s0 = graph_state(*graph);
    let ghost n0 = graph.nodes().len();
    let ghost e0 = graph.edges().len();
    let mut i: usize = 0;
    while i < reqs.len()
        invariant
            0 <= i <= reqs@.len(),
            graph.wf(),
            n0 <= graph.nodes().len() <= n0 + i,
            graph.edges().len() <= e0 + i,
            n0 + reqs@.len() + 1 < index_limit(),
            e0 + reqs@.len() < index_limit(),
            forall|k: int| 0 <= k < reqs@.len() ==> (#[trigger] reqs@[k]).from < n0 && reqs@[k].confidence <= 1000,
            entries_below(ix.path_to_idx@, ix.ordered@, n0),
            graph_state(*graph) == apply_requests(s0, ix.path_to_idx@, ix.ordered@, reqs@.take(i as int)),
            graph.file_to_index == old(graph).file_to_index,
            graph.symbol_to_index == old(graph).symbol_to_index,
            graph.snapshot_id == old(graph).snapshot_id,
        decreases reqs@.len() - i,
    {
        proof {
            assert(reqs@.take(i + 1).drop_last() =~= reqs@.take(i as int));
            assert(reqs@.take(i + 1).last() == reqs@[i as int]);
            assert(reqs@[i as int].from < n0);
        }
        add_metacall_edge(graph, ix, &reqs[i]);
        i = i + 1;
    }
    proof { assert(reqs@.take(i as int) =~= reqs@); }
}

/// What injecting the load edges did to an analysis (see
/// [`inject_load_edges`]).
pub open spec fn load_injection(
    before: GraphAnalysis,
    after: GraphAnalysis,
    call_sites: Seq<CallSite>,
    reads: Seq<Option<Result<Vec<u8>, String>>>,
    root: Seq<char>,
    applied: bool,
) -> bool {
    &&& after.graph.wf()
    &&& applied == (before.graph.nodes().len() + load_plan(file_index_of(before.graph.nodes()), call_sites, reads, root).0.len() + 1 < index_limit()
            && before.graph.edges().len() + load_plan(file_index_of(before.graph.nodes()), call_sites, reads, root).0.len() < index_limit())
    &&& applied ==> exists|reqs: Seq<LoadRequest>|
            reqs.map_values(|q: LoadRequest| request_view(q)) == load_plan(file_index_of(before.graph.nodes()), call_sites, reads, root).0
            && graph_state(after.graph) == #[trigger] apply_requests(
                graph_state(before.graph),
                file_index_of(before.graph.nodes()),
                ordered_entries(file_index_of(before.graph.nodes())),
                reqs,
            )
    &&& !applied ==> graph_state(after.graph) == graph_state(before.graph)
    &&& after.graph.file_to_index == before.graph.file_to_index
    &&& after.graph.symbol_to_index == before.graph.symbol_to_index
    &&& after.graph.snapshot_id == before.graph.snapshot_id
    &&& after.scc.describes(after.graph.graph)
    &&& after.snapshot_id == before.snapshot_id
    &&& after.extractions == before.extractions
}

/// Injects the edges of every MetaCall load site and recomputes the SCC
/// analysis over the injected graph.
///
/// `reads` holds, at the position of each `metacall_load_from_configuration`
/// site, what reading its configuration file gave (see
/// [`config_file_of`]). The warnings of the plan (see [`load_plan`]) are
/// appended to `diagnostics`. The planned edges are added when the graph
/// has room for them, which the result tells; the graph is left as it was
/// otherwise.
pub fn inject_load_edges(
    analysis: &mut GraphAnalysis,
    call_sites: &Vec<CallSite>,
    reads: &Vec<Option<Result<Vec<u8>, String>>>,
    root: &str,
    diagnostics: &mut Vec<Diagnostic>,
) -> (applied: bool)
    requires
        old(analysis).graph.wf(),
        forall|i: int| 0 <= i < call_sites@.len() ==> (#[trigger] call_sites@[i]).confidence <= 1000,
    ensures
        final(diagnostics)@.map_values(|d: Diagnostic| diagnostic_view(d)) == old(diagnostics)@.map_values(|d: Diagnostic| diagnostic_view(d))
            + load_plan(file_index_of(old(analysis).graph.nodes()), call_sites@, reads@, root@).1,
        load_injection(*old(analysis), *final(analysis), call_sites@, reads@, root@, applied),

{
    let entries = file_index(&analysis.graph);
    let ghost n0 = analysis.graph.nodes().len();
    let reqs = plan_load_edges(&entries, call_sites, reads, root, diagnostics);
    let ix = DeployIndex::from_index(entries);
    let n = analysis.graph.node_count();
    let m = analysis.graph.edge_count();
    let room_nodes: usize = 0xffff_fffe - n;
    let room_edges: usize = 0xffff_ffff - m;
    let applied = reqs.len() < room_nodes && reqs.len() < room_edges;
    if applied {
        proof {
            lemma_ordered_entries_below(ix.path_to_idx@, n0);
            assert forall|i: int| 0 <= i < reqs@.len() implies (#[trigger] reqs@[i]).from < n0 && reqs@[i].confidence <= 1000 by {
                let j = choose|j: int| 0 <= j < ix.path_to_idx@.len() && (#[trigger] ix.path_to_idx@[j]).1 == reqs@[i].from;
                let k = choose|k: int| 0 <= k < call_sites@.len() && reqs@[i].confidence == (#[trigger] call_sites@[k]).confidence;
            }
        }
        apply_load_requests(&mut analysis.graph, &ix, &reqs);
    }
    analysis.scc = SccAnalysis::analyze(analysis.graph.graph());
    applied
}

/// The configuration file a `metacall_load_from_configuration` site loads:
/// its first script joined onto the root. `None` for any other site.
pub fn config_file_of(site: &CallSite, root: &str) -> (r: Option<String>)
    ensures
        match r {
            Some(f) => site.variant == CallSiteVariant::LoadFromConfiguration && site.scripts@.len() > 0
                && f@ == join(root@, site.scripts@[0]@),
            None => site.variant != CallSiteVariant::LoadFromConfiguration || site.scripts@.len() == 0,
        },
{
    if site.variant == CallSiteVariant::LoadFromConfiguration && site.scripts.len() > 0 {
        Some(join_path(root, site.scripts[0].as_str()))
    } else {
        None
    }
}

/// The ids of the pods whose language MetaCall has no loader for, in pod
/// order; their loader tag is informational.
pub open spec fn spec_pods_without_loader(pods: Seq<Pod>) -> Seq<usize>
    decreases pods.len(),
{
    if pods.len() == 0 {
        Seq::empty()
    } else {
        let prev = spec_pods_without_loader(pods.drop_last());
        if pods.last().language == LangId::Go {
            prev.push(pods.last().id)
        } else {
            prev
        }
    }
}

/// The pods of a partition whose language has no MetaCall loader (see
/// [`spec_pods_without_loader`]).
pub fn pods_without_loader(partition: &PodPartition) -> (r: Vec<usize>)
    ensures
        r@ == spec_pods_without_loader(partition.pods@),
{
    let mut out: Vec<usize> = Vec::new();
    let mut i: usize = 0;
    while i < partition.pods.len()
        invariant
            0 <= i <= partition.pods@.len(),
            out@ == spec_pods_without_loader(partition.pods@.take(i as int)),
        decreases partition.pods@.len() - i,
    {
        proof {
            assert(partition.pods@.take(i + 1).drop_last() =~= partition.pods@.take(i as int));
            assert(partition.pods@.take(i + 1).last() == partition.pods@[i as int]);
        }
        let pod = &partition.pods[i];
        if !has_loader(pod.language) {
            out.push(pod.id);
        }
        i = i + 1;
    }
    proof { assert(partition.pods@.take(i as int) =~= partition.pods@); }
    out
}

/// A partition of a graph into same-language pods (see
/// [`partition_into_pods`]).
pub open spec fn partition_matches(g: CodeGraph, partition: PodPartition) -> bool {
    &&& pods_follow_classes(g, partition.pods@)
    &&& partition.inter_pod_edges@ == stable_sorted(inter_pod_candidates(g, partition.pods@))
    &&& partition.file_languages@ == files_by_path(g).map_values(|f: crate::model::FileId| (f, file_language(g, f)->0))
    &&& forall|p: int, f: crate::model::FileId| 0 <= p < partition.pods@.len() && #[trigger] partition.pods@[p].files@.contains(f)
        ==> file_language(g, f) == Some(partition.pods@[p].language)
}

/// The same-language deployment units of an analysis (see
/// [`partition_into_pods`]); the pods whose language has no loader yet are
/// named by [`pods_without_loader`].
pub fn partition_graph(analysis: &GraphAnalysis) -> (r: PodPartition)
    requires
        analysis.graph.wf(),
        files_registered(analysis.graph),
    ensures
        partition_matches(analysis.graph, r),
{
    partition_into_pods(&analysis.graph)
}

/// The warning about an oversized pod with no internal edge to cut.
pub open spec fn unsplittable_message(id: nat, size: nat, max_size: nat) -> Seq<char> {
    "pod "@ + decimal(id) + " holds "@ + decimal(size) + " files above the limit "@ + decimal(max_size)
        + " and has no internal edge to cut"@
}

/// The path a pod's warning names: its first file's, or the root when the
/// pod has no registered first file.
pub open spec fn pod_path(g: CodeGraph, pod: Pod, root: Seq<char>) -> Seq<char> {
    if pod.files@.len() > 0 {
        match lookup(g.file_to_index@, pod.files@[0]) {
            Some(i) => g.nodes()[i as int]->File_0.path@,
            None => root,
        }
    } else {
        root
    }
}

/// The cuts of the oversized pods, in pod order.
pub open spec fn rebalance_cuts(g: CodeGraph, pods: Seq<Pod>, max_size: usize) -> Seq<CutPlan>
    decreases pods.len(),
{
    if pods.len() == 0 {
        Seq::empty()
    } else {
        let prev = rebalance_cuts(g, pods.drop_last(), max_size);
        match oversized_cut(g, pods.last(), max_size) {
            Some(c) => prev.push(c),
            None => prev,
        }
    }
}

/// The warnings about the oversized pods that cannot be cut, in pod order.
pub open spec fn rebalance_warnings(g: CodeGraph, pods: Seq<Pod>, max_size: usize, root: Seq<char>) -> Seq<(Seq<char>, Severity, Seq<char>, Option<SourceRange>)>
    decreases pods.len(),
{
    if pods.len() == 0 {
        Seq::empty()
    } else {
        let prev = rebalance_warnings(g, pods.drop_last(), max_size, root);
        let pod = pods.last();
        if oversized_cut(g, pod, max_size) is None && pod.files@.len() > max_size {
            prev.push((
                pod_path(g, pod, root),
                Severity::Warning,
                unsplittable_message(pod.id as nat, pod.files@.len(), max_size as nat),
                None,
            ))
        } else {
            prev
        }
    }
}

/// Cuts every oversized pod and reports those that cannot be cut: a pod can
/// exceed the limit with no internal edge, and staying silent would hide a
/// unit the limit was meant to bound.
pub fn rebalance_oversized_pods(
    partition: &PodPartition,
    graph: &CodeGraph,
    max_pod_size: usize,
    root: &str,
    cuts: &mut Vec<CutEdge>,
    diagnostics: &mut Vec<Diagnostic>,
)
    requires
        graph.wf(),
    ensures
        final(cuts)@.len() == old(cuts)@.len() + rebalance_cuts(*graph, partition.pods@, max_pod_size).len(),
        forall|k: int| 0 <= k < old(cuts)@.len() ==> #[trigger] final(cuts)@[k] == old(cuts)@[k],
        forall|k: int| 0 <= k < rebalance_cuts(*graph, partition.pods@, max_pod_size).len() ==> cut_matches(
            #[trigger] final(cuts)@[old(cuts)@.len() + k],
            rebalance_cuts(*graph, partition.pods@, max_pod_size)[k],
        ),
        final(diagnostics)@.map_values(|d: Diagnostic| diagnostic_view(d)) == old(diagnostics)@.map_values(|d: Diagnostic| diagnostic_view(d))
            + rebalance_warnings(*graph, partition.pods@, max_pod_size, root@),
{
    let ghost c0 = cuts@;
    let ghost d0 = diagnostics@.map_values(|d: Diagnostic| diagnostic_view(d));
    let ghost pods = partition.pods@;
    let mut i: usize = 0;
    proof { assert(d0 + rebalance_warnings(*graph, pods.take(0), max_pod_size, root@) =~= d0); }
    while i < partition.pods.len()
        invariant
            graph.wf(),
            pods == partition.pods@,
            0 <= i <= pods.len(),
            cuts@.len() == c0.len() + rebalance_cuts(*graph, pods.take(i as int), max_pod_size).len(),
            forall|k: int| 0 <= k < c0.len() ==> #[trigger] cuts@[k] == c0[k],
            forall|k: int| 0 <= k < rebalance_cuts(*graph, pods.take(i as int), max_pod_size).len() ==> cut_matches(
                #[trigger] cuts@[c0.len() + k],
                rebalance_cuts(*graph, pods.take(i as int), max_pod_size)[k],
            ),
            diagnostics@.map_values(|d: Diagnostic| diagnostic_view(d)) == d0 + rebalance_warnings(*graph, pods.take(i as int), max_pod_size, root@),
        decreases pods.len() - i,
    {
        proof {
            assert(pods.take(i + 1).drop_last() =~= pods.take(i as int));
            assert(pods.take(i + 1).last() == pods[i as int]);
        }
        let pod = &partition.pods[i];
        let ghost before = cuts@;
        let ghost dbefore = diagnostics@;
        match find_oversized_pod_cut(pod, graph, max_pod_size) {
            Some(cut) => {
                cuts.push(cut);
                proof {
                    let prev = rebalance_cuts(*graph, pods.take(i as int), max_pod_size);
                    assert forall|k: int| 0 <= k < rebalance_cuts(*graph, pods.take(i + 1), max_pod_size).len() implies cut_matches(
                        #[trigger] cuts@[c0.len() + k],
                        rebalance_cuts(*graph, pods.take(i + 1), max_pod_size)[k],
                    ) by {
                        if k < prev.len() {
                            assert(cuts@[c0.len() + k] == before[c0.len() + k]);
                        }
                    }
                }
            },
            None => {
                if pod.files.len() > max_pod_size {
                    let path = if pod.files.len() > 0 {
                        match graph.file_node(pod.files[0]) {
                            Some(f) => f.path.clone(),
                            None => string_from(root),
                        }
                    } else {
                        string_from(root)
                    };
                    let mut m = String::new();
                    push_str(&mut m, "pod ");
                    push_decimal(&mut m, pod.id);
                    push_str(&mut m, " holds ");
                    push_decimal(&mut m, pod.files.len());
                    push_str(&mut m, " files above the limit ");
                    push_decimal(&mut m, max_pod_size);
                    push_str(&mut m, " and has no internal edge to cut");
                    proof {
                        assert(m@ =~= unsplittable_message(pod.id as nat, pod.files@.len(), max_pod_size as nat));
                        assert(path@ == pod_path(*graph, *pod, root@));
                    }
                    diagnostics.push(Diagnostic { path, severity: Severity::Warning, message: m, source_range: None });
                    proof {
                        assert(diagnostics@.map_values(|d: Diagnostic| diagnostic_view(d)) =~= dbefore.map_values(|d: Diagnostic| diagnostic_view(d)).push(
                            (pod_path(*graph, *pod, root@), Severity::Warning, unsplittable_message(pod.id as nat, pod.files@.len(), max_pod_size as nat), None),
                        ));
                    }
                }
            },
        }
        i = i + 1;
    }
    proof { assert(pods.take(i as int) =~= pods); }
}

/// The cuts of a partition: the cross-language SCC cuts, then the cuts of
/// the oversized pods (see [`detect_cuts`]).
pub open spec fn cuts_match(analysis: GraphAnalysis, partition: PodPartition, max_pod_size: usize, cuts: Seq<CutEdge>) -> bool {
    let planned = component_cuts(analysis.graph, partition.file_languages@, partition.pods@, analysis.scc.components@)
        + rebalance_cuts(analysis.graph, partition.pods@, max_pod_size);
    &&& cuts.len() == planned.len()
    &&& forall|k: int| 0 <= k < cuts.len() ==> cut_matches(#[trigger] cuts[k], planned[k])
}

/// The cross-language SCC cuts, then the cuts of the oversized pods; the
/// pods that cannot be cut are reported (see [`rebalance_oversized_pods`]).
pub fn detect_cuts(
    analysis: &GraphAnalysis,
    partition: &PodPartition,
    max_pod_size: usize,
    root: &str,
    diagnostics: &mut Vec<Diagnostic>,
) -> (r: Vec<CutEdge>)
    requires
        analysis.graph.wf(),
        keys_distinct(partition.file_languages@),
    ensures
        cuts_match(*analysis, *partition, max_pod_size, r@),
        final(diagnostics)@.map_values(|d: Diagnostic| diagnostic_view(d)) == old(diagnostics)@.map_values(|d: Diagnostic| diagnostic_view(d))
            + rebalance_warnings(analysis.graph, partition.pods@, max_pod_size, root@),
{
    let mut cuts = find_cross_language_cuts(&analysis.scc, &analysis.graph, &partition.file_languages, partition);
    let ghost first = cuts@;
    rebalance_oversized_pods(partition, &analysis.graph, max_pod_size, root, &mut cuts, diagnostics);
    proof {
        let a = component_cuts(analysis.graph, partition.file_languages@, partition.pods@, analysis.scc.components@);
        let b = rebalance_cuts(analysis.graph, partition.pods@, max_pod_size);
        assert forall|k: int| 0 <= k < cuts@.len() implies cut_matches(#[trigger] cuts@[k], (a + b)[k]) by {
            if k < first.len() {
                assert(cuts@[k] == first[k]);
            } else {
                let j = k - first.len();
                assert(cuts@[first.len() + j] == cuts@[k]);
            }
        }
    }
    cuts
}

/// Two diagnostics for the same path with the same message.
pub open spec fn same_entry(a: Diagnostic, b: Diagnostic) -> bool {
    same_path(a.path@, b.path@) && a.message@ == b.message@
}

/// The first of every run of consecutive diagnostics with the same path and
/// message.
pub open spec fn dedup_runs(s: Seq<Diagnostic>) -> Seq<Diagnostic>
    decreases s.len(),
{
    if s.len() == 0 {
        s
    } else {
        let prev = dedup_runs(s.drop_last());
        if s.len() >= 2 && same_entry(s[s.len() - 2], s.last()) {
            prev
        } else {
            prev.push(s.last())
        }
    }
}

/// Diagnostics in canonical order: sorted by path, then message (a stable
/// sort), with repeats of one path and message dropped.
pub fn canonical_diagnostics(diagnostics: Vec<Diagnostic>) -> (r: Vec<Diagnostic>)
    ensures
        r@ == dedup_runs(stable_sorted(diagnostics@)),
{
    let sorted = sort_stable(diagnostics);
    let mut out: Vec<Diagnostic> = Vec::new();
    let mut i: usize = 0;
    while i < sorted.len()
        invariant
            0 <= i <= sorted@.len(),
            out@ == dedup_runs(sorted@.take(i as int)),
        decreases sorted@.len() - i,
    {
        proof {
            assert(sorted@.take(i + 1).drop_last() =~= sorted@.take(i as int));
            assert(sorted@.take(i + 1).last() == sorted@[i as int]);
            if i >= 1 {
                assert(sorted@.take(i + 1)[i - 1] == sorted@[i - 1]);
            }
        }
        let repeat = i > 0 && paths_equal(sorted[i - 1].path.as_str(), sorted[i].path.as_str())
            && str_eq(sorted[i - 1].message.as_str(), sorted[i].message.as_str());
        if !repeat {
            out.push(sorted[i].duplicate());
        }
        i = i + 1;
    }
    proof { assert(sorted@.take(i as int) =~= sorted@); }
    out
}

/// A configuration file path, ordered as paths are.
pub struct ConfigPath {
    pub path: String,
}

impl SortKey for ConfigPath {
    open spec fn key_order(self, other: Self) -> int {
        path_order(self.path@, other.path@)
    }

    proof fn lemma_key_order(a: Self, b: Self, c: Self) {
        lemma_path_order(a.path@, b.path@, c.path@);
    }

    fn compare_keys(&self, other: &Self) -> (r: i8) {
        compare_paths(self.path.as_str(), other.path.as_str())
    }
}

/// The file names MetaCall reads a configuration from: `metacall.json` and
/// `metacall-*.json`.
pub open spec fn is_config_name(name: Seq<char>) -> bool {
    name == "metacall.json"@ || ("metacall-"@.is_prefix_of(name) && ".json"@.is_suffix_of(name))
}

/// Some configuration site loads the file at `p`.
pub open spec fn referenced_config(root: Seq<char>, sites: Seq<CallSite>, p: Seq<char>) -> bool {
    exists|i: int| 0 <= i < sites.len() && (#[trigger] sites[i]).variant == CallSiteVariant::LoadFromConfiguration
        && sites[i].scripts@.len() > 0 && same_path(join(root, sites[i].scripts@[0]@), p)
}

/// A file is an orphaned configuration: named like one, loaded by no site.
pub open spec fn is_orphan(root: Seq<char>, sites: Seq<CallSite>, p: Seq<char>) -> bool {
    file_name(p) matches Some(n) && is_config_name(n) && !referenced_config(root, sites, p)
}

/// The orphaned configurations among the files, in walk order.
pub open spec fn orphan_files(root: Seq<char>, sites: Seq<CallSite>, files: Seq<String>) -> Seq<ConfigPath>
    decreases files.len(),
{
    if files.len() == 0 {
        Seq::empty()
    } else {
        let prev = orphan_files(root, sites, files.drop_last());
        if is_orphan(root, sites, files.last()@) {
            prev.push(ConfigPath { path: files.last() })
        } else {
            prev
        }
    }
}

/// The warning for an orphaned configuration.
pub open spec fn orphan_message() -> Seq<char> {
    "orphaned MetaCall configuration file: not referenced by any metacall_load_from_configuration call"@
}

fn is_config_file_name(name: &str) -> (r: bool)
    ensures
        r == is_config_name(name@),
{
    str_eq(name, "metacall.json") || (starts_with_text(name, "metacall-") && ends_with_text(name, ".json"))
}

fn is_referenced(root: &str, sites: &Vec<CallSite>, p: &str) -> (r: bool)
    ensures
        r == referenced_config(root@, sites@, p@),
{
    let mut i: usize = 0;
    while i < sites.len()
        invariant
            0 <= i <= sites@.len(),
            forall|k: int| 0 <= k < i ==> !((#[trigger] sites@[k]).variant == CallSiteVariant::LoadFromConfiguration
                && sites@[k].scripts@.len() > 0 && same_path(join(root@, sites@[k].scripts@[0]@), p@)),
        decreases sites@.len() - i,
    {
        let site = &sites[i];
        if site.variant == CallSiteVariant::LoadFromConfiguration && site.scripts.len() > 0 {
            let f = join_path(root, site.scripts[0].as_str());
            if paths_equal(f.as_str(), p) {
                return true;
            }
        }
        i = i + 1;
    }
    false
}

/// Configuration files no `metacall_load_from_configuration` site loads:
/// MetaCall only reads a configuration a call names, so such a file is
/// inert. `files` are the regular files of the project walk; the warnings
/// come sorted by path.
pub fn orphaned_config_diagnostics(root: &str, call_sites: &Vec<CallSite>, files: &Vec<String>) -> (r: Vec<Diagnostic>)
    ensures
        r@.map_values(|d: Diagnostic| diagnostic_view(d)) == stable_sorted(orphan_files(root@, call_sites@, files@)).map_values(
            |c: ConfigPath| (c.path@, Severity::Warning, orphan_message(), None::<SourceRange>),
        ),
{
    let mut found: Vec<ConfigPath> = Vec::new();
    let mut i: usize = 0;
    while i < files.len()
        invariant
            0 <= i <= files@.len(),
            found@ == orphan_files(root@, call_sites@, files@.take(i as int)),
        decreases files@.len() - i,
    {
        proof {
            assert(files@.take(i + 1).drop_last() =~= files@.take(i as int));
            assert(files@.take(i + 1).last() == files@[i as int]);
        }
        let p = &files[i];
        let orphan = match file_name_of(p.as_str()) {
            Some(n) => is_config_file_name(n.as_str()) && !is_referenced(root, call_sites, p.as_str()),
            None => false,
        };
        if orphan {
            found.push(ConfigPath { path: p.clone() });
        }
        i = i + 1;
    }
    proof { assert(files@.take(i as int) =~= files@); }
    let sorted = sort_stable(found);
    let mut out: Vec<Diagnostic> = Vec::new();
    let mut k: usize = 0;
    while k < sorted.len()
        invariant
            0 <= k <= sorted@.len(),
            out@.map_values(|d: Diagnostic| diagnostic_view(d)) == sorted@.take(k as int).map_values(
                |c: ConfigPath| (c.path@, Severity::Warning, orphan_message(), None::<SourceRange>),
            ),
        decreases sorted@.len() - k,
    {
        let m = string_from("orphaned MetaCall configuration file: not referenced by any metacall_load_from_configuration call");
        let d = Diagnostic { path: sorted[k].path.clone(), severity: Severity::Warning, message: m, source_range: None };
        let ghost before = out@;
        out.push(d);
        proof {
            assert(out@.map_values(|d: Diagnostic| diagnostic_view(d)) =~= before.map_values(|d: Diagnostic| diagnostic_view(d)).push(diagnostic_view(d)));
            assert(sorted@.take(k + 1).map_values(|c: ConfigPath| (c.path@, Severity::Warning, orphan_message(), None::<SourceRange>))
                =~= sorted@.take(k as int).map_values(|c: ConfigPath| (c.path@, Severity::Warning, orphan_message(), None::<SourceRange>)).push(
                (sorted@[k as int].path@, Severity::Warning, orphan_message(), None::<SourceRange>),
            ));
        }
        k = k + 1;
    }
    proof { assert(sorted@.take(k as int) =~= sorted@); }
    out
}

/// The metrics table of the extractions: each path with its counts.
pub open spec fn metrics_table(exs: Seq<FileExtraction>) -> Seq<(String, FileMetrics)> {
    exs.map_values(|x: FileExtraction| (x.path, extraction_metrics(x)))
}

/// The metrics of each pod of a partition.
pub open spec fn spec_pod_metrics(g: CodeGraph, table: Seq<(String, FileMetrics)>, pods: Seq<Pod>) -> Seq<PodMetrics> {
    pods.map_values(
        |p: Pod| PodMetrics {
            total_ast_nodes: ast_total(g, table, p.files@) as usize,
            file_count: p.files@.len() as usize,
            symbol_count: symbol_total(g, table, p.files@) as usize,
        },
    )
}

/// The documents of a partition: the pod manifest and the mesh annotation
/// that [`build_documents`] gives.
pub open spec fn documents_match(
    analysis: GraphAnalysis,
    partition: PodPartition,
    cuts: Seq<CutEdge>,
    call_sites: Seq<CallSite>,
    project: ProjectFiles,
    manifest: PodManifest,
    mesh: MeshAnnotation,
) -> bool {
    &&& ({
            let g = analysis.graph;
            let pm = spec_pod_metrics(g, metrics_table(analysis.extractions@), partition.pods@);
            let m = manifest;
            &&& m.version@ == "1.1"@
            &&& m.deployments@.len() == partition.pods@.len()
            &&& exists|deps: Seq<(usize, Vec<DependencyEntry>)>|
                #![trigger dependency_lists_view(deps)]
                dependency_lists_view(deps) == dependency_fold(g, pod_entries(partition.pods@), project, g.edges()) && keys_distinct(deps)
                    && forall|i: int| 0 <= i < m.deployments@.len() ==> deployment_matches(#[trigger] m.deployments@[i], g, partition.pods@[i], i, pm, deps)
            &&& m.edges@.map_values(|e: ManifestEdge| manifest_edge_view(e)) == sort_by(
                manifest_edge_views(partition.inter_pod_edges@, cuts),
                |a: (usize, usize, Seq<char>, u32, bool, Seq<CutAnnotation>), b: (usize, usize, Seq<char>, u32, bool, Seq<CutAnnotation>)|
                    view_le(a, b),
            )
            &&& m.metrics == (GlobalMetrics {
                total_pods: partition.pods@.len() as usize,
                cross_language_edges: cross_language_count(m.edges@) as usize,
                total_ast_nodes: saturating_total(pm),
                dropped_files: dropped_count(g, partition.pods@, pm.len()) as usize,
            })
        })
    &&& mesh.version@ == "1.0"@
    &&& mesh.deployment_units@.len() == emitted_components(analysis.graph, analysis.scc.components@).len()
    &&& forall|k: int| 0 <= k < mesh.deployment_units@.len() ==> unit_matches(
            #[trigger] mesh.deployment_units@[k],
            analysis.graph,
            analysis.scc.components@,
            k,
        )
    &&& mesh.cross_language_edges@.map_values(|e: CrossLanguageEdge| mesh_edge_view(e)) == mesh_edges(
            analysis.graph,
            analysis.scc,
            call_sites,
            analysis.graph.edges(),
        )
    &&& mesh.stats.total_units == mesh.deployment_units@.len()
    &&& mesh.stats.cross_language_units == cross_language_components(analysis.graph, analysis.scc.components@)
    &&& mesh.stats.independent_candidates == independent_units(analysis.graph, analysis.scc.components@)
    &&& mesh.stats.languages@.map_values(|x: String| x@) == distinct_in_order(all_language_tags(analysis.graph, analysis.scc.components@))
}

/// The pod manifest and the mesh annotation of a partition: both are
/// functions of the analysis, the partition, the cuts and the project's
/// dependency files, so a repeated run over the same tree gives the same
/// documents.
pub fn build_documents(
    analysis: &GraphAnalysis,
    partition: &PodPartition,
    cuts: &Vec<CutEdge>,
    call_sites: &Vec<CallSite>,
    project: &ProjectFiles,
) -> (r: (PodManifest, MeshAnnotation))
    requires
        analysis.graph.wf(),
        pod_totals_fit(analysis.graph, metrics_table(analysis.extractions@), partition.pods@),
        dropped_count(analysis.graph, partition.pods@, partition.pods@.len()) + 1 <= usize::MAX,
        analysis_in_range(analysis.graph, analysis.scc),
    ensures
        documents_match(*analysis, *partition, cuts@, call_sites@, *project, r.0, r.1),

{
    let file_metrics = compute_file_metrics(&analysis.extractions);
    proof { assert(file_metrics@ =~= metrics_table(analysis.extractions@)); }
    let pod_metrics = compute_pod_metrics(partition, &file_metrics, &analysis.graph);
    proof { assert(pod_metrics@ =~= spec_pod_metrics(analysis.graph, metrics_table(analysis.extractions@), partition.pods@)); }
    let dependencies = resolve_dependencies(&analysis.graph, partition, project);
    let pod_manifest = generate_pod_manifest(partition, &pod_metrics, cuts, &dependencies, &analysis.graph);
    let mesh = generate_mesh_annotation(analysis, call_sites);
    (pod_manifest, mesh)
}

proof fn lemma_load_step_nodes(
    st: (Seq<NodeData>, Seq<(usize, usize, EdgeData)>, Seq<(Seq<char>, usize)>),
    entries: Seq<(String, usize)>,
    ordered: Seq<crate::index::PathEntry>,
    r: LoadRequest,
)
    ensures
        load_step(st, entries, ordered, r).0.len() >= st.0.len(),
        forall|i: int| 0 <= i < st.0.len() ==> load_step(st, entries, ordered, r).0[i] == st.0[i],
        forall|i: int| st.0.len() <= i < load_step(st, entries, ordered, r).0.len() ==> load_step(st, entries, ordered, r).0[i] is External,
{
}

proof fn lemma_apply_requests_nodes(
    st: (Seq<NodeData>, Seq<(usize, usize, EdgeData)>, Seq<(Seq<char>, usize)>),
    entries: Seq<(String, usize)>,
    ordered: Seq<crate::index::PathEntry>,
    reqs: Seq<LoadRequest>,
)
    ensures
        apply_requests(st, entries, ordered, reqs).0.len() >= st.0.len(),
        forall|i: int| 0 <= i < st.0.len() ==> apply_requests(st, entries, ordered, reqs).0[i] == st.0[i],
        forall|i: int| st.0.len() <= i < apply_requests(st, entries, ordered, reqs).0.len() ==> apply_requests(st, entries, ordered, reqs).0[i] is External,
    decreases reqs.len(),
{
    if reqs.len() > 0 {
        lemma_apply_requests_nodes(st, entries, ordered, reqs.drop_last());
        let mid = apply_requests(st, entries, ordered, reqs.drop_last());
        lemma_load_step_nodes(mid, entries, ordered, reqs.last());
    }
}

/// Injecting the load edges adds external nodes only, so every file and
/// symbol node stays attached to a registered file.
pub proof fn lemma_injection_keeps_files_registered(
    before: GraphAnalysis,
    after: GraphAnalysis,
    call_sites: Seq<CallSite>,
    reads: Seq<Option<Result<Vec<u8>, String>>>,
    root: Seq<char>,
    applied: bool,
)
    requires
        load_injection(before, after, call_sites, reads, root, applied),
        files_registered(before.graph),
    ensures
        files_registered(after.graph),
{
    if applied {
        let plan = load_plan(file_index_of(before.graph.nodes()), call_sites, reads, root).0;
        let reqs = choose|reqs: Seq<LoadRequest>|
            reqs.map_values(|q: LoadRequest| request_view(q)) == plan
            && graph_state(after.graph) == #[trigger] apply_requests(
                graph_state(before.graph),
                file_index_of(before.graph.nodes()),
                ordered_entries(file_index_of(before.graph.nodes())),
                reqs,
            );
        lemma_apply_requests_nodes(
            graph_state(before.graph),
            file_index_of(before.graph.nodes()),
            ordered_entries(file_index_of(before.graph.nodes())),
            reqs,
        );
    }
    let n0 = before.graph.nodes().len();
    assert forall|i: int| 0 <= i < after.graph.nodes().len() && (#[trigger] crate::pod::node_file(after.graph.nodes()[i])) is Some implies
        lookup(after.graph.file_to_index@, crate::pod::node_file(after.graph.nodes()[i])->0) is Some by {
        if i < n0 {
            assert(after.graph.nodes()[i] == before.graph.nodes()[i]);
        }
    }
}

/// The components of an SCC analysis name nodes of the graph, and every node
/// maps to a component.
pub proof fn lemma_describes_in_range(g: CodeGraph, scc: SccAnalysis)
    requires
        scc.describes(g.graph),
    ensures
        analysis_in_range(g, scc),
{
    let n = crate::pg::graph_nodes(g.graph).len();
    let es = crate::pg::graph_edges(g.graph);
    let comps = crate::pg::tarjan_components(n, crate::pg::dependency_pairs(es));
    assert forall|c: int, k: int| 0 <= c < scc.components@.len() && 0 <= k < scc.components@[c].nodes@.len() implies
        (#[trigger] scc.components@[c].nodes@[k]) < g.nodes().len() by {
        assert(scc.components@[c].nodes@ == comps[c]);
    }
    assert(scc.node_to_component.len() == scc.node_to_component@.len());
    assert forall|v: int| 0 <= v < scc.node_to_component@.len() implies (#[trigger] scc.node_to_component@[v]) < scc.components@.len() by {
        let u = v as usize;
        assert(u as int == v);
        assert(u < n);
        assert(crate::pg::listed(comps, u));
        let (c, k) = choose|c: int, k: int| 0 <= c < comps.len() && 0 <= k < comps[c].len() && #[trigger] comps[c][k] == u;
        assert(scc.node_to_component@[comps[c][k] as int] == c);
    }
}

/// The language table of a partition has one entry per file.
pub proof fn lemma_partition_keys_distinct(g: CodeGraph, partition: PodPartition)
    requires
        g.wf(),
        partition_matches(g, partition),
    ensures
        keys_distinct(partition.file_languages@),
{
    let es = crate::pod::file_entries(g);
    let id = |e: crate::pod::FileEntry| e.id;
    assert(crate::order::distinct_by(es, id)) by {
        assert forall|i: int, j: int| 0 <= i < es.len() && 0 <= j < es.len() && i != j implies id(#[trigger] es[i]) != id(#[trigger] es[j]) by {
            assert(es[i].id == g.file_to_index@[i].0);
            assert(es[j].id == g.file_to_index@[j].0);
        }
    }
    crate::order::lemma_stable_sorted_members(es, id);
    let sorted = crate::order::stable_sorted(es);
    assert forall|i: int, j: int| 0 <= i < partition.file_languages@.len() && 0 <= j < partition.file_languages@.len() && i != j implies
        (#[trigger] partition.file_languages@[i]).0 != (#[trigger] partition.file_languages@[j]).0 by {
        assert(partition.file_languages@[i].0 == sorted[i].id);
        assert(partition.file_languages@[j].0 == sorted[j].id);
        assert(id(sorted[i]) != id(sorted[j]));
    }
}

proof fn lemma_no_missing(g: CodeGraph, files: Seq<crate::model::FileId>)
    requires
        forall|k: int| 0 <= k < files.len() ==> crate::pod::file_language(g, #[trigger] files[k]) is Some,
    ensures
        crate::manifest::missing_files(g, files) == 0,
    decreases files.len(),
{
    if files.len() > 0 {
        assert forall|k: int| 0 <= k < files.drop_last().len() implies crate::pod::file_language(g, #[trigger] files.drop_last()[k]) is Some by {
            assert(files.drop_last()[k] == files[k]);
        }
        lemma_no_missing(g, files.drop_last());
        assert(crate::pod::file_language(g, files[files.len() - 1]) is Some);
    }
}

/// No file of a partition is dropped from the manifest.
proof fn lemma_nothing_dropped(g: CodeGraph, pods: Seq<Pod>, metrics_len: nat)
    requires
        pods.len() <= metrics_len,
        forall|p: int, f: crate::model::FileId| 0 <= p < pods.len() && #[trigger] pods[p].files@.contains(f)
            ==> crate::pod::file_language(g, f) is Some,
    ensures
        crate::manifest::dropped_count(g, pods, metrics_len) == 0,
    decreases pods.len(),
{
    if pods.len() > 0 {
        let last = pods.len() - 1;
        assert forall|p: int, f: crate::model::FileId| 0 <= p < pods.drop_last().len() && #[trigger] pods.drop_last()[p].files@.contains(f)
            implies crate::pod::file_language(g, f) is Some by {
            assert(pods.drop_last()[p] == pods[p]);
        }
        lemma_nothing_dropped(g, pods.drop_last(), metrics_len);
        assert forall|k: int| 0 <= k < pods[last].files@.len() implies crate::pod::file_language(g, #[trigger] pods[last].files@[k]) is Some by {
            assert(pods[last].files@.contains(pods[last].files@[k]));
        }
        lemma_no_missing(g, pods[last].files@);
    }
}

/// Where and how a deployment runs.
#[derive(Debug, Clone)]
pub struct DeployConfig {
    /// Root directory of the project.
    pub root: String,
    /// Directory the manifests are written to.
    pub out: String,
    pub format: crate::args::OutputFormat,
    /// Check the cut fairness instead of writing the manifests.
    pub check: bool,
    /// Largest number of files in one pod.
    pub max_pod_size: usize,
}

/// What a deployment run asks of its caller.
#[derive(Debug)]
pub enum DeployOutcome {
    /// Write the pod manifest and the mesh annotation.
    Write,
    /// The check found no fairness issue.
    CheckPassed,
    /// The check found these fairness issues; the run fails.
    CheckFailed(Vec<String>),
}

/// Everything a deployment run computed.
pub struct DeployRun {
    /// The analysis with the edges of the MetaCall loads.
    pub analysis: GraphAnalysis,
    /// Whether the graph had room for the load edges.
    pub load_edges_added: bool,
    /// The MetaCall call sites of the analysis.
    pub call_sites: Vec<CallSite>,
    pub partition: PodPartition,
    /// The pods whose language has no MetaCall loader yet.
    pub pods_without_loader: Vec<usize>,
    pub cuts: Vec<CutEdge>,
    pub manifest: PodManifest,
    pub mesh: MeshAnnotation,
    pub outcome: DeployOutcome,
    /// Every diagnostic of the run: the canonical diagnostics of the
    /// analysis, the loads and the orphaned configurations, then the
    /// warnings about pods that cannot be cut.
    pub diagnostics: Vec<Diagnostic>,
}

/// Why a deployment run stopped.
#[derive(Debug, Clone, Copy, PartialEq, Eq, Structural)]
pub enum DeployFailure {
    /// A pod must be allowed at least one file.
    ZeroPodSize,
    /// A file or symbol node of the graph names a file that is not registered.
    UnregisteredFile,
    /// The node or symbol count of the project's files does not fit the
    /// machine's counters.
    CountersOverflow,
}

impl DeployFailure {
    pub open spec fn spec_message(self) -> Seq<char> {
        match self {
            DeployFailure::ZeroPodSize => "max_pod_size must be at least 1"@,
            DeployFailure::UnregisteredFile => "the graph has a node of an unregistered file"@,
            DeployFailure::CountersOverflow => "the totals of the project's files overflow the machine's counters"@,
        }
    }

    /// The message of the failure.
    pub fn message(self) -> (r: &'static str)
        ensures
            r@ == self.spec_message(),
    {
        match self {
            DeployFailure::ZeroPodSize => "max_pod_size must be at least 1",
            DeployFailure::UnregisteredFile => "the graph has a node of an unregistered file",
            DeployFailure::CountersOverflow => "the totals of the project's files overflow the machine's counters",
        }
    }
}

/// The message of a failed fairness check.
pub open spec fn check_failure_text(n: nat) -> Seq<char> {
    "MetaCall deployment cut fairness check failed with "@ + decimal(n) + " issues"@
}

/// The message of a failed fairness check with `n` issues.
pub fn check_failure_message(n: usize) -> (r: String)
    ensures
        r@ == check_failure_text(n as nat),
{
    let mut out = string_from("MetaCall deployment cut fairness check failed with ");
    push_decimal(&mut out, n);
    push_str(&mut out, " issues");
    out
}

/// Diagnostics as plain values.
pub open spec fn views_of(ds: Seq<Diagnostic>) -> Seq<(Seq<char>, Severity, Seq<char>, Option<SourceRange>)> {
    ds.map_values(|d: Diagnostic| diagnostic_view(d))
}

/// The orphaned-configuration warnings of a project walk, as plain values.
pub open spec fn orphan_views(root: Seq<char>, sites: Seq<CallSite>, files: Seq<String>) -> Seq<(Seq<char>, Severity, Seq<char>, Option<SourceRange>)> {
    stable_sorted(orphan_files(root, sites, files)).map_values(
        |c: ConfigPath| (c.path@, Severity::Warning, orphan_message(), None::<SourceRange>),
    )
}

/// A successful run over an analysis (see [`run_deploy`]); `pre` are the
/// diagnostics before they were put in canonical order.
pub open spec fn run_matches(
    config: DeployConfig,
    before: GraphAnalysis,
    diagnostics: Seq<Diagnostic>,
    reads: Seq<Option<Result<Vec<u8>, String>>>,
    walked: Seq<String>,
    project: ProjectFiles,
    run: DeployRun,
    pre: Seq<Diagnostic>,
) -> bool {
    let root = config.root@;
    let sites = run.call_sites@;
    &&& run.call_sites@.map_values(|c: CallSite| site_view(c)) == extraction_sites(before.extractions@)
    &&& load_injection(before, run.analysis, sites, reads, root, run.load_edges_added)
    &&& views_of(pre) == views_of(diagnostics) + load_plan(file_index_of(before.graph.nodes()), sites, reads, root).1
        + orphan_views(root, sites, walked)
    &&& views_of(run.diagnostics@) == views_of(dedup_runs(stable_sorted(pre)))
        + rebalance_warnings(run.analysis.graph, run.partition.pods@, config.max_pod_size, root)
    &&& partition_matches(run.analysis.graph, run.partition)
    &&& run.pods_without_loader@ == spec_pods_without_loader(run.partition.pods@)
    &&& cuts_match(run.analysis, run.partition, config.max_pod_size, run.cuts@)
    &&& documents_match(run.analysis, run.partition, run.cuts@, sites, project, run.manifest, run.mesh)
    &&& match run.outcome {
        DeployOutcome::Write => !config.check,
        DeployOutcome::CheckPassed => config.check && fairness_issues(run.manifest.edges@, run.cuts@).len() == 0,
        DeployOutcome::CheckFailed(issues) => config.check && issues@.len() > 0
            && issues@.map_values(|x: String| x@) == fairness_issues(run.manifest.edges@, run.cuts@),
    }
}

/// Applying load requests keeps every node already there.
proof fn lemma_requests_keep_nodes(
    s: (Seq<NodeData>, Seq<(usize, usize, EdgeData)>, Seq<(Seq<char>, usize)>),
    entries: Seq<(String, usize)>,
    ordered: Seq<PathEntry>,
    reqs: Seq<LoadRequest>,
)
    ensures
        apply_requests(s, entries, ordered, reqs).0.len() >= s.0.len(),
        forall|i: int| 0 <= i < s.0.len() ==> #[trigger] apply_requests(s, entries, ordered, reqs).0[i] == s.0[i],
    decreases reqs.len(),
{
    if reqs.len() > 0 {
        lemma_requests_keep_nodes(s, entries, ordered, reqs.drop_last());
    }
}

/// Graphs that agree on the registered files and on the nodes of the
/// first graph give the same totals.
proof fn lemma_totals_carry(before: CodeGraph, after: CodeGraph, table: Seq<(String, FileMetrics)>, fs: Seq<crate::model::FileId>)
    requires
        before.wf(),
        after.file_to_index == before.file_to_index,
        after.nodes().len() >= before.nodes().len(),
        forall|i: int| 0 <= i < before.nodes().len() ==> #[trigger] after.nodes()[i] == before.nodes()[i],
    ensures
        ast_total(after, table, fs) == ast_total(before, table, fs),
        symbol_total(after, table, fs) == symbol_total(before, table, fs),
    decreases fs.len(),
{
    if fs.len() > 0 {
        lemma_totals_carry(before, after, table, fs.drop_last());
        let f = fs.last();
        if lookup(before.file_to_index@, f) is Some {
            lemma_lookup_some(before.file_to_index@, f);
            let k = choose|k: int| 0 <= k < before.file_to_index@.len() && (#[trigger] before.file_to_index@[k]).0 == f
                && before.file_to_index@[k].1 == lookup(before.file_to_index@, f)->0;
            assert(crate::graph::is_file_node(before.nodes(), before.file_to_index@[k].1, before.file_to_index@[k].0));
        }
        assert(file_metrics_of(after, table, f) == file_metrics_of(before, table, f));
    }
}

/// Injecting the loads keeps the files and the totals of the project.
proof fn lemma_injection_keeps_totals(
    before: GraphAnalysis,
    after: GraphAnalysis,
    sites: Seq<CallSite>,
    reads: Seq<Option<Result<Vec<u8>, String>>>,
    root: Seq<char>,
    applied: bool,
    table: Seq<(String, FileMetrics)>,
)
    requires
        before.graph.wf(),
        load_injection(before, after, sites, reads, root, applied),
        project_totals_fit(before.graph, table),
    ensures
        project_totals_fit(after.graph, table),
{
    let b = before.graph;
    let a = after.graph;
    if applied {
        let plan = load_plan(file_index_of(b.nodes()), sites, reads, root).0;
        let reqs = choose|reqs: Seq<LoadRequest>|
            reqs.map_values(|q: LoadRequest| request_view(q)) == plan
            && graph_state(a) == #[trigger] apply_requests(
                graph_state(b),
                file_index_of(b.nodes()),
                ordered_entries(file_index_of(b.nodes())),
                reqs,
            );
        lemma_requests_keep_nodes(graph_state(b), file_index_of(b.nodes()), ordered_entries(file_index_of(b.nodes())), reqs);
    }
    assert(a.nodes().len() >= b.nodes().len());
    assert forall|i: int| 0 <= i < b.nodes().len() implies #[trigger] a.nodes()[i] == b.nodes()[i] by {
        if applied {
            let reqs = choose|reqs: Seq<LoadRequest>|
                reqs.map_values(|q: LoadRequest| request_view(q)) == load_plan(file_index_of(b.nodes()), sites, reads, root).0
                && graph_state(a) == #[trigger] apply_requests(
                    graph_state(b),
                    file_index_of(b.nodes()),
                    ordered_entries(file_index_of(b.nodes())),
                    reqs,
                );
            lemma_requests_keep_nodes(graph_state(b), file_index_of(b.nodes()), ordered_entries(file_index_of(b.nodes())), reqs);
        }
    }
    assert(crate::pod::file_entries(a) =~= crate::pod::file_entries(b)) by {
        assert forall|k: int| 0 <= k < b.file_to_index@.len() implies
            (#[trigger] crate::pod::file_entries(a)[k]) == crate::pod::file_entries(b)[k] by {
            assert(crate::graph::is_file_node(b.nodes(), b.file_to_index@[k].1, b.file_to_index@[k].0));
        }
    }
    let fs = crate::pod::files_by_path(b);
    assert(crate::pod::files_by_path(a) == fs);
    lemma_totals_carry(b, a, table, fs);
}

/// Partitions an analysis into deployment units and computes the MetaCall
/// manifests.
///
/// The MetaCall loads become graph edges (`reads` holds, at the position of
/// each configuration load site, what reading its configuration gave), the
/// orphaned configurations of the walked files are reported, the
/// diagnostics are put in canonical order, the graph is partitioned into
/// pods, the cuts are found and the documents built. In check mode the cut
/// fairness decides the outcome; otherwise the caller writes the documents.
pub fn run_deploy(
    config: &DeployConfig,
    analysis: GraphAnalysis,
    diagnostics: Vec<Diagnostic>,
    reads: &Vec<Option<Result<Vec<u8>, String>>>,
    walked: &Vec<String>,
    project: &ProjectFiles,
) -> (r: Result<DeployRun, DeployFailure>)
    requires
        analysis.graph.wf(),
        forall|i: int| 0 <= i < extraction_sites(analysis.extractions@).len() ==> (#[trigger] extraction_sites(analysis.extractions@)[i]).8 <= 1000,
    ensures
        r == Err::<DeployRun, DeployFailure>(DeployFailure::ZeroPodSize) <==> config.max_pod_size == 0,
        r == Err::<DeployRun, DeployFailure>(DeployFailure::UnregisteredFile) <==> config.max_pod_size != 0 && !files_registered(analysis.graph),
        r == Err::<DeployRun, DeployFailure>(DeployFailure::CountersOverflow) <==> config.max_pod_size != 0 && files_registered(analysis.graph)
            && !project_totals_fit(analysis.graph, metrics_table(analysis.extractions@)),
        r is Ok <==> config.max_pod_size != 0 && files_registered(analysis.graph)
            && project_totals_fit(analysis.graph, metrics_table(analysis.extractions@)),
        r matches Ok(run) ==> exists|pre: Seq<Diagnostic>| #[trigger] run_matches(*config, analysis, diagnostics@, reads@, walked@, *project, run, pre),
{
    if config.max_pod_size == 0 {
        return Err(DeployFailure::ZeroPodSize);
    }
    if !files_all_registered(&analysis.graph) {
        return Err(DeployFailure::UnregisteredFile);
    }
    let table = compute_file_metrics(&analysis.extractions);
    proof {
        assert(table@ =~= metrics_table(analysis.extractions@));
    }
    if !project_totals_within(&table, &analysis.graph) {
        return Err(DeployFailure::CountersOverflow);
    }
    let ghost before = analysis;
    let ghost d_in = diagnostics@;
    let root = config.root.as_str();
    let call_sites = scan_call_sites(&analysis);
    proof {
        assert forall|i: int| 0 <= i < call_sites@.len() implies (#[trigger] call_sites@[i]).confidence <= 1000 by {
            assert(call_sites@.map_values(|c: CallSite| site_view(c))[i] == site_view(call_sites@[i]));
        }
    }
    let mut analysis = analysis;
    let mut diagnostics = diagnostics;
    let load_edges_added = inject_load_edges(&mut analysis, &call_sites, reads, root, &mut diagnostics);
    proof {
        lemma_injection_keeps_files_registered(before, analysis, call_sites@, reads@, root@, load_edges_added);
        lemma_describes_in_range(analysis.graph, analysis.scc);
    }
    let orphans = orphaned_config_diagnostics(root, &call_sites, walked);
    let ghost d_loaded = diagnostics@;
    let mut k: usize = 0;
    while k < orphans.len()
        invariant
            0 <= k <= orphans@.len(),
            views_of(diagnostics@) == views_of(d_loaded) + views_of(orphans@.take(k as int)),
        decreases orphans@.len() - k,
    {
        let d = orphans[k].duplicate();
        let ghost dbefore = diagnostics@;
        diagnostics.push(d);
        proof {
            assert(orphans@.take(k + 1).drop_last() =~= orphans@.take(k as int));
            assert(views_of(diagnostics@) =~= views_of(dbefore).push(diagnostic_view(d)));
            assert(views_of(orphans@.take(k + 1)) =~= views_of(orphans@.take(k as int)).push(diagnostic_view(orphans@[k as int])));
        }
        k = k + 1;
    }
    proof {
        assert(orphans@.take(k as int) =~= orphans@);
    }
    let ghost pre = diagnostics@;
    let mut diagnostics = canonical_diagnostics(diagnostics);
    let ghost canonical = diagnostics@;
    let partition = partition_graph(&analysis);
    proof {
        lemma_partition_keys_distinct(analysis.graph, partition);
    }
    let pods_without_loader = pods_without_loader(&partition);
    let cuts = detect_cuts(&analysis, &partition, config.max_pod_size, root, &mut diagnostics);
    proof {
        lemma_injection_keeps_totals(before, analysis, call_sites@, reads@, root@, load_edges_added, table@);
        lemma_pods_fit_within_project(analysis.graph, table@, partition.pods@);
        lemma_nothing_dropped(analysis.graph, partition.pods@, partition.pods@.len() as nat);
    }
    let (manifest, mesh) = build_documents(&analysis, &partition, &cuts, &call_sites, project);
    let outcome = if config.check {
        let issues = check_cut_fairness(&manifest, &cuts);
        if issues.len() == 0 {
            DeployOutcome::CheckPassed
        } else {
            DeployOutcome::CheckFailed(issues)
        }
    } else {
        DeployOutcome::Write
    };
    let run = DeployRun {
        analysis,
        load_edges_added,
        call_sites,
        partition,
        pods_without_loader,
        cuts,
        manifest,
        mesh,
        outcome,
        diagnostics,
    };
    proof {
        assert(views_of(pre) =~= views_of(d_in) + load_plan(file_index_of(before.graph.nodes()), run.call_sites@, reads@, root@).1
            + orphan_views(root@, run.call_sites@, walked@));
        assert(run_matches(*config, before, d_in, reads@, walked@, *project, run, pre));
    }
    Ok(run)
}

} // verus!
