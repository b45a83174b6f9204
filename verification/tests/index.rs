use meta_ast::index::DeployIndex;

#[test]
fn resolve_script_to_file_basename_collision_is_deterministic() {
    let index = DeployIndex::from_index(vec![("b/math.js".to_string(), 1), ("a/math.js".to_string(), 0)]);
    let resolved = index.resolve_script(".", "math.js", "orchestrator.py");
    assert_eq!(resolved, Some(0));
}

#[test]
fn resolve_script_to_file_strategies() {
    let root_relative = 1;
    let source_relative = 2;
    let filename_fallback = 3;
    let index = DeployIndex::from_index(vec![
        ("proj/lib/math.js".to_string(), root_relative),
        ("proj/src/util.js".to_string(), source_relative),
        ("vendor/third_party/legacy.js".to_string(), filename_fallback),
    ]);
    let root = "proj";
    let source_file = "proj/src/main.py";

    assert_eq!(index.resolve_script(root, "lib/math.js", source_file), Some(root_relative));
    assert_eq!(index.resolve_script(root, "util.js", source_file), Some(source_relative));
    assert_eq!(index.resolve_script(root, "deep/path/legacy.js", source_file), Some(filename_fallback));
    assert_eq!(index.resolve_script(root, "missing.js", source_file), None);
}

#[test]
fn windows_script_path_resolves_on_unix() {
    let dir = "/tmp/meta_ast_index_windows_path";
    let index = DeployIndex::from_index(vec![(format!("{dir}/sub/util.js"), 0)]);
    let source = format!("{dir}/app.py");
    let resolved = index.resolve_script(dir, "sub\\util.js", &source);
    assert!(resolved.is_some(), "a Windows-authored script path must resolve on Unix");
}
