use meta_ast::lang::LangId;
use meta_ast::model::{
    FileExtraction, FileId, LineColumn, SourceRange, Symbol, SymbolId, SymbolKind, UnresolvedImport,
    UnresolvedReference, Visibility,
};
use meta_ast::resolver::{
    import_binding_for, resolve_all_references, resolve_references_detailed, FlattenedScopeCache,
    ImportBinding, ResolutionContext,
};

type SymbolEntry = (SymbolId, String, LangId, Option<Visibility>);

fn fid(raw: u32) -> FileId {
    FileId::new(raw).unwrap()
}

fn sid(raw: u32) -> SymbolId {
    SymbolId::new(raw).unwrap()
}

fn entry(id: u32, name: &str, lang: LangId, vis: Option<Visibility>) -> SymbolEntry {
    (sid(id), name.to_string(), lang, vis)
}

fn context(
    symbol_index: Vec<(FileId, Vec<SymbolEntry>)>,
    import_adjacency: Vec<(FileId, Vec<FileId>)>,
    file_languages: Vec<(FileId, LangId)>,
    file_paths: Vec<(FileId, &str)>,
) -> ResolutionContext {
    ResolutionContext {
        symbol_index,
        import_adjacency,
        file_languages,
        file_paths: file_paths.into_iter().map(|(f, p)| (f, p.to_string())).collect(),
        import_bindings: Vec::new(),
    }
}

fn range(start: usize, end: usize) -> SourceRange {
    SourceRange {
        byte_start: start,
        byte_end: end,
        start: LineColumn { line: 0, column: start },
        end: LineColumn { line: 0, column: end },
    }
}

fn symbol(id: u32, name: &str, kind: SymbolKind, source_range: SourceRange, path: &str) -> Symbol {
    Symbol {
        id: sid(id),
        name: name.to_string(),
        kind,
        language: LangId::Python,
        file_path: path.to_string(),
        source_range,
        visibility: None,
        signature: None,
        docstring: None,
        is_async: false,
    }
}

fn helper_cache() -> FlattenedScopeCache {
    FlattenedScopeCache {
        scopes: vec![(fid(1), vec![("helper".to_string(), vec![(sid(99), 1000)])])],
    }
}

#[test]
fn empty_cache() {
    let cache = FlattenedScopeCache { scopes: Vec::new() };
    assert!(cache.is_empty());
    assert_eq!(cache.len(), 0);
    assert!(cache.resolve(fid(1), "foo").is_none());
}

#[test]
fn detailed_resolution_keeps_each_use_site_and_the_triples_are_unchanged() {
    let path = "a.py";
    let file_id = fid(1);
    let mut file = FileExtraction::empty(path.to_string(), LangId::Python);
    file.symbols = vec![
        symbol(1, "caller", SymbolKind::Function, range(0, 100), path),
        symbol(2, "helper", SymbolKind::Function, range(200, 210), path),
    ];
    file.references = vec![
        UnresolvedReference { name: "helper".into(), range: range(10, 16) },
        UnresolvedReference { name: "helper".into(), range: range(30, 36) },
    ];
    let ctx = context(
        vec![(
            file_id,
            vec![entry(1, "caller", LangId::Python, None), entry(2, "helper", LangId::Python, None)],
        )],
        Vec::new(),
        vec![(file_id, LangId::Python)],
        vec![(file_id, path)],
    );
    let cache = FlattenedScopeCache::build(&ctx, &mut Vec::new());
    let extractions = vec![file];
    let paths = vec![(path.to_string(), file_id)];

    let mut diagnostics = Vec::new();
    let resolved = resolve_references_detailed(&extractions, &paths, &cache, &mut diagnostics);

    assert!(diagnostics.is_empty());
    assert_eq!(resolved.len(), 2, "one record per use site");
    assert_eq!(resolved[0].range.byte_start, 10);
    assert_eq!(resolved[1].range.byte_start, 30);
    assert!(resolved.iter().all(|record| record.source == sid(1)));
    assert!(resolved.iter().all(|record| record.target == sid(2) && record.confidence == 1000));

    let mut wrapper_diagnostics = Vec::new();
    let triples = resolve_all_references(&extractions, &paths, &cache, &mut wrapper_diagnostics);
    assert!(wrapper_diagnostics.is_empty());
    assert_eq!(
        triples,
        vec![(sid(1), sid(2), 1000)],
        "the wrapper max-merges the two use sites into one edge"
    );
}

#[test]
fn scope_cache_resolve_own_file() {
    let ctx = context(
        vec![(fid(1), vec![entry(10, "main", LangId::Python, None)])],
        Vec::new(),
        vec![(fid(1), LangId::Python)],
        Vec::new(),
    );
    let cache = FlattenedScopeCache::build(&ctx, &mut Vec::new());
    let result = cache.resolve(fid(1), "main");
    assert!(result.is_some());
    let matches = result.unwrap();
    assert_eq!(matches.len(), 1);
    assert_eq!(matches[0].0, sid(10));
    assert_eq!(matches[0].1, 1000);
}

#[test]
fn scope_cache_resolve_imported_symbol() {
    let ctx = context(
        vec![
            (fid(1), vec![]),
            (fid(2), vec![entry(20, "helper", LangId::Python, Some(Visibility::Public))]),
        ],
        vec![(fid(1), vec![fid(2)])],
        vec![(fid(1), LangId::Python), (fid(2), LangId::Python)],
        Vec::new(),
    );
    let cache = FlattenedScopeCache::build(&ctx, &mut Vec::new());
    let result = cache.resolve(fid(1), "helper");
    assert!(result.is_some());
    let matches = result.unwrap();
    assert_eq!(matches.len(), 1);
    assert_eq!(matches[0].0, sid(20));
    assert_eq!(matches[0].1, 1000);
}

#[test]
fn scope_cache_missing_symbol() {
    let ctx = context(
        vec![(fid(1), vec![entry(10, "foo", LangId::Python, None)])],
        Vec::new(),
        vec![(fid(1), LangId::Python)],
        Vec::new(),
    );
    let cache = FlattenedScopeCache::build(&ctx, &mut Vec::new());
    assert!(cache.resolve(fid(1), "bar").is_none());
}

#[test]
fn scope_cache_cycle_safe() {
    let ctx = context(
        vec![
            (fid(1), vec![entry(10, "a", LangId::Python, Some(Visibility::Public))]),
            (fid(2), vec![entry(20, "b", LangId::Python, Some(Visibility::Public))]),
        ],
        vec![(fid(1), vec![fid(2)]), (fid(2), vec![fid(1)])],
        vec![(fid(1), LangId::Python), (fid(2), LangId::Python)],
        Vec::new(),
    );
    let cache = FlattenedScopeCache::build(&ctx, &mut Vec::new());
    assert!(cache.resolve(fid(1), "b").is_some());
    assert!(cache.resolve(fid(2), "a").is_some());
}

#[test]
fn scope_cache_cross_language_confidence() {
    let ctx = context(
        vec![
            (fid(1), vec![]),
            (fid(2), vec![entry(20, "util", LangId::Rust, Some(Visibility::Public))]),
        ],
        vec![(fid(1), vec![fid(2)])],
        vec![(fid(1), LangId::Python), (fid(2), LangId::Rust)],
        Vec::new(),
    );
    let cache = FlattenedScopeCache::build(&ctx, &mut Vec::new());
    let result = cache.resolve(fid(1), "util");
    assert!(result.is_some());
    assert_eq!(result.unwrap()[0].1, 600);
}

#[test]
fn resolve_references_creates_edges() {
    let sym_a = Symbol {
        id: sid(1),
        name: "caller".into(),
        kind: SymbolKind::Function,
        language: LangId::Python,
        file_path: "/proj/a.py".to_string(),
        source_range: SourceRange {
            byte_start: 0,
            byte_end: 50,
            start: LineColumn { line: 0, column: 0 },
            end: LineColumn { line: 2, column: 0 },
        },
        visibility: None,
        signature: None,
        docstring: None,
        is_async: false,
    };
    let mut file = FileExtraction::empty("/proj/a.py".to_string(), LangId::Python);
    file.symbols = vec![sym_a];
    file.references = vec![UnresolvedReference {
        name: "helper".into(),
        range: SourceRange {
            byte_start: 20,
            byte_end: 26,
            start: LineColumn { line: 1, column: 4 },
            end: LineColumn { line: 1, column: 10 },
        },
    }];
    let path_to_file_id = vec![("/proj/a.py".to_string(), fid(1))];
    let cache = helper_cache();

    let edges = resolve_all_references(&vec![file], &path_to_file_id, &cache, &mut Vec::new());
    assert_eq!(edges.len(), 1);
    assert_eq!(edges[0].0, sid(1));
    assert_eq!(edges[0].1, sid(99));
    assert_eq!(edges[0].2, 1000);
}

#[test]
fn resolve_references_selects_innermost_enclosing_symbol_regardless_of_vector_order() {
    let inner_method = Symbol {
        id: sid(1),
        name: "inner_method".into(),
        kind: SymbolKind::Method,
        language: LangId::Python,
        file_path: "/proj/a.py".to_string(),
        source_range: SourceRange {
            byte_start: 10,
            byte_end: 50,
            start: LineColumn { line: 1, column: 0 },
            end: LineColumn { line: 3, column: 0 },
        },
        visibility: None,
        signature: None,
        docstring: None,
        is_async: false,
    };
    let outer_class = Symbol {
        id: sid(2),
        name: "OuterClass".into(),
        kind: SymbolKind::Class,
        language: LangId::Python,
        file_path: "/proj/a.py".to_string(),
        source_range: SourceRange {
            byte_start: 0,
            byte_end: 100,
            start: LineColumn { line: 0, column: 0 },
            end: LineColumn { line: 5, column: 0 },
        },
        visibility: None,
        signature: None,
        docstring: None,
        is_async: false,
    };
    let mut file = FileExtraction::empty("/proj/a.py".to_string(), LangId::Python);
    file.symbols = vec![inner_method, outer_class];
    file.references = vec![UnresolvedReference {
        name: "helper".into(),
        range: SourceRange {
            byte_start: 20,
            byte_end: 26,
            start: LineColumn { line: 2, column: 4 },
            end: LineColumn { line: 2, column: 10 },
        },
    }];
    let path_to_file_id = vec![("/proj/a.py".to_string(), fid(1))];
    let cache = helper_cache();

    let edges = resolve_all_references(&vec![file], &path_to_file_id, &cache, &mut Vec::new());
    assert_eq!(edges.len(), 1);
    assert_eq!(
        edges[0].0,
        sid(1),
        "Reference should attach to innermost symbol SymbolId(1), but attached to SymbolId({})",
        edges[0].0.to_raw()
    );
    assert_eq!(edges[0].1, sid(99));
}

#[test]
fn local_symbol_shadows_the_imported_symbol() {
    let ctx = context(
        vec![
            (fid(1), vec![entry(10, "helper", LangId::Python, Some(Visibility::Public))]),
            (fid(2), vec![entry(20, "helper", LangId::Python, Some(Visibility::Public))]),
        ],
        vec![(fid(1), vec![fid(2)])],
        vec![(fid(1), LangId::Python), (fid(2), LangId::Python)],
        vec![(fid(1), "/proj/main.py"), (fid(2), "/proj/lib.py")],
    );
    let cache = FlattenedScopeCache::build(&ctx, &mut Vec::new());
    let matches = cache.resolve(fid(1), "helper").unwrap();
    assert_eq!(matches.len(), 1, "the local definition must shadow the imported one");
    assert_eq!(matches[0].0, sid(10));
    assert_eq!(matches[0].1, 1000);
}

#[test]
fn imported_candidates_are_ranked_by_path_not_by_id() {
    let ctx = context(
        vec![
            (fid(1), vec![]),
            (fid(2), vec![entry(30, "util", LangId::Python, Some(Visibility::Public))]),
            (fid(3), vec![entry(20, "util", LangId::Python, Some(Visibility::Public))]),
        ],
        vec![(fid(1), vec![fid(2), fid(3)])],
        vec![(fid(1), LangId::Python), (fid(2), LangId::Python), (fid(3), LangId::Python)],
        vec![(fid(1), "/proj/app.py"), (fid(2), "/proj/a_util.py"), (fid(3), "/proj/z_util.py")],
    );
    let cache = FlattenedScopeCache::build(&ctx, &mut Vec::new());
    let matches = cache.resolve(fid(1), "util").unwrap();
    assert_eq!(matches.len(), 2, "an ambiguous import keeps both candidates");
    assert_eq!(
        matches[0].0,
        sid(30),
        "candidate order must follow the file path, not the raw symbol id"
    );
}

fn binding_ctx(bindings: Vec<(FileId, FileId, ImportBinding)>) -> (ResolutionContext, FileId, SymbolId) {
    let app = fid(1);
    let lib = fid(2);
    let foo = sid(20);
    let mut ctx = context(
        vec![
            (app, vec![]),
            (
                lib,
                vec![
                    entry(20, "foo", LangId::JavaScript, Some(Visibility::Public)),
                    entry(21, "other", LangId::JavaScript, Some(Visibility::Public)),
                ],
            ),
        ],
        vec![(app, vec![lib])],
        vec![(app, LangId::JavaScript), (lib, LangId::JavaScript)],
        vec![(app, "/proj/app.js"), (lib, "/proj/utils.js")],
    );
    ctx.import_bindings = bindings;
    (ctx, app, foo)
}

fn named(original: &str, local: &str) -> ImportBinding {
    ImportBinding::Named { original: original.into(), local: local.into() }
}

#[test]
fn named_binding_exposes_the_local_spelling_only() {
    let (ctx, app, foo) = binding_ctx(vec![(fid(1), fid(2), named("foo", "bar"))]);
    let cache = FlattenedScopeCache::build(&ctx, &mut Vec::new());

    let bar = cache.resolve(app, "bar").unwrap();
    assert_eq!(bar.len(), 1);
    assert_eq!(bar[0].0, foo);
    assert_eq!(bar[0].1, 1000);
    assert!(cache.resolve(app, "foo").is_none(), "the original spelling is not in scope under a rename");
    assert!(cache.resolve(app, "other").is_none(), "names outside the import stay out of scope");
}

#[test]
fn star_binding_exposes_everything() {
    let (ctx, app, foo) = binding_ctx(vec![(fid(1), fid(2), ImportBinding::Star)]);
    let cache = FlattenedScopeCache::build(&ctx, &mut Vec::new());
    assert_eq!(cache.resolve(app, "foo").unwrap()[0].0, foo);
    assert!(cache.resolve(app, "other").is_some(), "a star import opens the whole target");
}

#[test]
fn unfiltered_binding_keeps_file_scope() {
    let (ctx, app, foo) = binding_ctx(vec![(fid(1), fid(2), ImportBinding::Unfiltered)]);
    let cache = FlattenedScopeCache::build(&ctx, &mut Vec::new());
    assert_eq!(cache.resolve(app, "foo").unwrap()[0].0, foo);
    assert!(cache.resolve(app, "other").is_some(), "plain imports keep the file-level behavior");
}

#[test]
fn mixed_pair_adds_the_local_spelling_without_narrowing() {
    let (ctx, app, foo) = binding_ctx(vec![
        (fid(1), fid(2), ImportBinding::Unfiltered),
        (fid(1), fid(2), named("foo", "bar")),
    ]);
    let cache = FlattenedScopeCache::build(&ctx, &mut Vec::new());

    let bar = cache.resolve(app, "bar").unwrap();
    assert_eq!(bar.len(), 1);
    assert_eq!(bar[0].0, foo);
    assert!(cache.resolve(app, "foo").is_some(), "the unfiltered record keeps the own spelling");
    assert!(cache.resolve(app, "other").is_some(), "the unfiltered record keeps the rest of the file");
}

#[test]
fn import_binding_for_classifies_extraction_shapes() {
    fn import(symbol: Option<&str>, alias: Option<&str>, star: bool) -> UnresolvedImport {
        UnresolvedImport {
            import_specifier: "target".into(),
            alias: alias.map(str::to_owned),
            symbol: symbol.map(str::to_owned),
            star,
            range: range(0, 6),
        }
    }

    assert_eq!(import_binding_for(LangId::Python, &import(None, None, true)), ImportBinding::Star);
    assert_eq!(
        import_binding_for(LangId::JavaScript, &import(Some("foo"), Some("bar"), false)),
        named("foo", "bar")
    );
    assert_eq!(
        import_binding_for(LangId::Python, &import(Some("helper"), None, false)),
        named("helper", "helper")
    );
    assert_eq!(
        import_binding_for(LangId::JavaScript, &import(Some("ns"), None, false)),
        ImportBinding::Unfiltered,
        "a bare captured name without alias keeps file scope"
    );
    assert_eq!(import_binding_for(LangId::Python, &import(None, None, false)), ImportBinding::Unfiltered);
    assert_eq!(import_binding_for(LangId::Go, &import(None, Some("alias"), false)), ImportBinding::Unfiltered);
}

#[test]
fn named_import_under_its_own_name_exposes_it() {
    let (ctx, app, _) = binding_ctx(vec![(fid(1), fid(2), named("foo", "foo"))]);
    let cache = FlattenedScopeCache::build(&ctx, &mut Vec::new());
    let foo = cache.resolve(app, "foo").unwrap();
    assert_eq!(foo.len(), 1);
    assert_eq!(foo[0].0, sid(20));
    assert!(cache.resolve(app, "other").is_none(), "names outside the import stay out of scope");
}
