use meta_ast::input::{detect_language, discover_files, RootProbe};
use meta_ast::lang::LangId;

#[test]
fn detect_python_extensions() {
    assert_eq!(detect_language("foo.py"), Some(LangId::Python));
    assert_eq!(detect_language("foo.pyi"), Some(LangId::Python));
}

#[test]
fn detect_javascript_extensions() {
    assert_eq!(detect_language("foo.js"), Some(LangId::JavaScript));
    assert_eq!(detect_language("foo.mjs"), Some(LangId::JavaScript));
    assert_eq!(detect_language("foo.cjs"), Some(LangId::JavaScript));
}

#[test]
fn detect_typescript_extensions() {
    assert_eq!(detect_language("foo.ts"), Some(LangId::TypeScript));
    assert_eq!(detect_language("foo.cts"), Some(LangId::TypeScript));
    assert_eq!(detect_language("foo.mts"), Some(LangId::TypeScript));
}

#[test]
fn detect_tsx_extension() {
    assert_eq!(detect_language("foo.tsx"), Some(LangId::Tsx));
    assert_ne!(detect_language("foo.tsx"), Some(LangId::TypeScript));
}

#[test]
fn detect_c_cpp_extensions() {
    assert_eq!(detect_language("foo.c"), Some(LangId::C));
    assert_eq!(detect_language("foo.cc"), Some(LangId::Cpp));
    assert_eq!(detect_language("foo.cpp"), Some(LangId::Cpp));
    assert_eq!(detect_language("foo.cxx"), Some(LangId::Cpp));
}

#[test]
fn detect_rust_go() {
    assert_eq!(detect_language("foo.rs"), Some(LangId::Rust));
    assert_eq!(detect_language("foo.go"), Some(LangId::Go));
}

#[test]
fn detect_unknown_returns_none() {
    assert_eq!(detect_language("foo.md"), None);
    assert_eq!(detect_language("foo.txt"), None);
    assert_eq!(detect_language("README"), None);
}

#[test]
fn detect_case_insensitive() {
    assert_eq!(detect_language("foo.PY"), Some(LangId::Python));
    assert_eq!(detect_language("foo.Rs"), Some(LangId::Rust));
}

#[test]
fn ext_map_covers_all_catalog_extensions() {
    for id in LangId::all() {
        for ext in id.extensions() {
            assert_eq!(
                detect_language(&format!("foo.{ext}")),
                Some(id),
                "extension {ext:?} should map to {id:?}"
            );
        }
    }
}

#[test]
fn detect_ignores_dot_files_and_directories() {
    assert_eq!(detect_language(".py"), None);
    assert_eq!(detect_language("src/pkg.py/"), Some(LangId::Python));
    assert_eq!(detect_language("a/b/module.tar.rb"), Some(LangId::Ruby));
    assert_eq!(detect_language("a/.."), None);
}

#[test]
fn discover_single_file_ignores_the_filter() {
    let root = RootProbe::File("project/main.py".to_string());
    let files = discover_files(&root, Some(&vec![LangId::Rust])).unwrap();
    assert_eq!(files.len(), 1);
    assert_eq!(files[0].path, "project/main.py");
    assert_eq!(files[0].language, LangId::Python);
}

#[test]
fn discover_single_unknown_file_is_empty() {
    let root = RootProbe::File("notes.md".to_string());
    assert!(discover_files(&root, None).unwrap().is_empty());
}

#[test]
fn discover_missing_root_is_an_error() {
    let root = RootProbe::Missing("/no/such/dir".to_string());
    let error = discover_files(&root, None).unwrap_err();
    assert_eq!(error, "path does not exist: /no/such/dir");
}

#[test]
fn discover_files_sorted_and_filtered() {
    let walked = vec![
        "p/z.py".to_string(),
        "p/README.md".to_string(),
        "p/a/b.js".to_string(),
        "p/a.py".to_string(),
        "p/m.rs".to_string(),
    ];
    let root = RootProbe::Directory(walked);
    let all = discover_files(&root, None).unwrap();
    let paths: Vec<&str> = all.iter().map(|f| f.path.as_str()).collect();
    assert_eq!(paths, vec!["p/a/b.js", "p/a.py", "p/m.rs", "p/z.py"]);

    let python = discover_files(&root, Some(&vec![LangId::Python])).unwrap();
    let paths: Vec<&str> = python.iter().map(|f| f.path.as_str()).collect();
    assert_eq!(paths, vec!["p/a.py", "p/z.py"]);
    assert!(python.iter().all(|f| f.language == LangId::Python));
}

#[test]
fn discover_files_empty_dir() {
    let root = RootProbe::Directory(Vec::new());
    assert!(discover_files(&root, None).unwrap().is_empty());
}

/// What walking the mixed fixture directory lists, in walk order.
fn mixed_walk() -> RootProbe {
    RootProbe::Directory(vec![
        "tests/fixtures/mixed/service.go".to_string(),
        "tests/fixtures/mixed/app.py".to_string(),
        "tests/fixtures/mixed/README.md".to_string(),
        "tests/fixtures/mixed/web/index.ts".to_string(),
        "tests/fixtures/mixed/lib/util.js".to_string(),
        "tests/fixtures/mixed/lib/helpers.py".to_string(),
    ])
}

#[test]
fn discover_files_finds_fixtures() {
    let root = RootProbe::Directory(vec![
        "tests/fixtures/python/simple_functions.py".to_string(),
        "tests/fixtures/python/classes.py".to_string(),
        "tests/fixtures/python/imports.py".to_string(),
    ]);
    let files = discover_files(&root, None).unwrap();
    assert!(!files.is_empty());
    assert!(files.iter().all(|f| f.language == LangId::Python));
}

#[test]
fn discover_files_filters_by_language() {
    let files = discover_files(&mixed_walk(), Some(&vec![LangId::Python])).unwrap();
    assert!(files.iter().all(|f| f.language == LangId::Python));
    assert!(!files.is_empty());
}

#[test]
fn discover_single_file() {
    let root = RootProbe::File("tests/fixtures/python/simple_functions.py".to_string());
    let files = discover_files(&root, None).unwrap();
    assert_eq!(files.len(), 1);
    assert_eq!(files[0].language, LangId::Python);
}

#[test]
fn discover_files_sorted() {
    let files = discover_files(&mixed_walk(), None).unwrap();
    let paths: Vec<&String> = files.iter().map(|f| &f.path).collect();
    let mut sorted = paths.clone();
    sorted.sort();
    assert_eq!(paths, sorted);
}
