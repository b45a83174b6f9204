use meta_ast::config::{parse_load_configuration, ConfigCache, ResolvedConfig};
use meta_ast::error::{Diagnostic, Severity};
use meta_ast::lang::LangId;
use meta_ast::scanner::{CallSite, CallSiteVariant};

fn config_site(source_file: &str, scripts: Vec<&str>) -> CallSite {
    CallSite {
        source_file: source_file.to_string(),
        caller_lang: LangId::Python,
        variant: CallSiteVariant::LoadFromConfiguration,
        target_lang: None,
        scripts: scripts.into_iter().map(str::to_string).collect(),
        function_name: None,
        is_async: false,
        source_range: None,
        confidence: 1000,
    }
}

/// Resolves a site the way a caller with a file system does: locate, read
/// the file once (from `files`, where an absent name is unreadable), finish.
fn resolve(
    cache: &mut ConfigCache,
    site: &CallSite,
    root: &str,
    files: &[(&str, &str)],
) -> Result<ResolvedConfig, Option<Diagnostic>> {
    let file = ConfigCache::locate(site, root)?;
    if !cache.is_cached(&file) {
        let read = match files.iter().find(|(path, _)| *path == file) {
            Some((_, text)) => Ok(text.as_bytes().to_vec()),
            None => Err(format!("MetaCall configuration unreadable: {file}")),
        };
        cache.store(file.clone(), read);
    }
    cache.finish(site, &file, root)
}

#[test]
fn parses_language_id_path_and_scripts() {
    let bytes = br#"{"language_id":"node","path":"../lib","scripts":["extra.js","other.js"]}"#;
    let parsed = parse_load_configuration(bytes).unwrap();
    assert_eq!(parsed.language_id.as_deref(), Some("node"));
    assert_eq!(parsed.context_path, Some("../lib".to_string()));
    assert_eq!(parsed.scripts, vec!["extra.js", "other.js"]);
}

#[test]
fn missing_fields_are_empty() {
    let parsed = parse_load_configuration(b"{}").unwrap();
    assert!(parsed.language_id.is_none());
    assert!(parsed.context_path.is_none());
    assert!(parsed.scripts.is_empty());
}

#[test]
fn invalid_json_is_an_error() {
    assert!(parse_load_configuration(b"not json").is_err());
}

#[test]
fn config_cache_reads_once() {
    let root = "/proj";
    let site = config_site("/proj/app.py", vec!["deploy.json"]);
    let mut cache = ConfigCache::new();
    let files = [("/proj/deploy.json", r#"{"language_id":"node","scripts":["a.js"]}"#)];
    let first = resolve(&mut cache, &site, root, &files).unwrap().config.scripts.clone();
    assert_eq!(first, vec!["a.js"]);

    let second = resolve(&mut cache, &site, root, &[]).unwrap().config.scripts.clone();
    assert_eq!(second, first, "the deleted file still resolves from the cache");
}

#[test]
fn shared_parse_failure_reports_once() {
    let root = "/proj";
    let files = [("/proj/broken.json", "not json")];
    let first_site = config_site("/proj/a.py", vec!["broken.json"]);
    let second_site = config_site("/proj/b.py", vec!["broken.json"]);

    let mut cache = ConfigCache::new();
    let first = resolve(&mut cache, &first_site, root, &files).unwrap_err();
    let diagnostic = first.as_ref().unwrap();
    assert_eq!(diagnostic.path, "/proj/broken.json");
    assert_eq!(diagnostic.severity, Severity::Warning);
    assert!(diagnostic.message.contains("invalid"), "unexpected message: {}", diagnostic.message);

    let second = resolve(&mut cache, &second_site, root, &files).unwrap_err();
    assert!(second.is_none(), "the second sharer reports nothing: {second:?}");
}

#[test]
fn shared_missing_file_reports_once() {
    let root = "/proj";
    let first_site = config_site("/proj/a.py", vec!["missing.json"]);
    let second_site = config_site("/proj/b.py", vec!["missing.json"]);

    let mut cache = ConfigCache::new();
    let first = resolve(&mut cache, &first_site, root, &[]).unwrap_err();
    assert!(first.is_some(), "the first missing read reports");
    let second = resolve(&mut cache, &second_site, root, &[]).unwrap_err();
    assert!(second.is_none(), "the second sharer reports nothing: {second:?}");
}

#[test]
fn escape_reports_per_site_with_source_path() {
    let root = "/proj";
    let first_site = config_site("/proj/a.py", vec!["../escape.json"]);
    let second_site = config_site("/proj/a.py", vec!["../escape.json"]);

    let mut cache = ConfigCache::new();
    for site in [&first_site, &second_site] {
        let error = resolve(&mut cache, site, root, &[]).unwrap_err();
        let diagnostic = error.as_ref().unwrap();
        assert_eq!(diagnostic.path, "/proj/a.py");
        assert!(diagnostic.message.contains("escapes"), "unexpected message: {}", diagnostic.message);
    }
}

#[test]
fn resolve_returns_config_path_and_base() {
    let root = "/proj";
    let files = [("/proj/cfg/deploy.json", r#"{"language_id":"node","path":"../lib","scripts":["a.js"]}"#)];
    let site = config_site("/proj/app.py", vec!["cfg/deploy.json"]);

    let mut cache = ConfigCache::new();
    let resolved = resolve(&mut cache, &site, root, &files).unwrap();
    assert_eq!(resolved.config.language_id.as_deref(), Some("node"));
    assert_eq!(resolved.config_file, "/proj/cfg/deploy.json");
    assert_eq!(resolved.base, "/proj/lib");
}

#[test]
fn missing_script_skips_silently() {
    let site = config_site("/proj/a.py", vec![]);
    let mut cache = ConfigCache::new();
    assert!(resolve(&mut cache, &site, "/proj", &[]).unwrap_err().is_none());
}

#[test]
fn fields_of_other_types_are_left_out() {
    let bytes = br#"{"language_id": 3, "path": null, "scripts": ["a.js", 7, {"x": [1, true]}, " b.js "]}"#;
    let parsed = parse_load_configuration(bytes).unwrap();
    assert!(parsed.language_id.is_none());
    assert!(parsed.context_path.is_none());
    assert_eq!(parsed.scripts, vec!["a.js", " b.js "]);
}

#[test]
fn a_document_that_is_not_an_object_has_no_fields() {
    let parsed = parse_load_configuration(b"[\"language_id\"]").unwrap();
    assert!(parsed.language_id.is_none());
    assert!(parsed.scripts.is_empty());
}
