use meta_ast::config::{escapes_base, join_contained, script_base, LoadConfiguration};

#[test]
fn relative_path_joins_the_config_directory() {
    let config = LoadConfiguration {
        language_id: Some("node".to_string()),
        context_path: Some("../lib".to_string()),
        scripts: Vec::new(),
    };
    let base = script_base("/proj/cfg/deploy.json", &config, "/proj");
    assert_eq!(base, "/proj/lib");
}

#[test]
fn absolute_path_wins() {
    let config = LoadConfiguration {
        language_id: None,
        context_path: Some("/opt/lib".to_string()),
        scripts: Vec::new(),
    };
    let base = script_base("/proj/cfg/deploy.json", &config, "/proj");
    assert_eq!(base, "/opt/lib");
}

#[test]
fn fallback_applies_without_path() {
    let config = LoadConfiguration {
        language_id: None,
        context_path: None,
        scripts: Vec::new(),
    };
    let base = script_base("/proj/cfg/deploy.json", &config, "/proj");
    assert_eq!(base, "/proj");
}

#[test]
fn contained_join_accepts_inside_references() {
    let root = "/proj";
    assert_eq!(
        join_contained(root, "cfg/deploy.json"),
        Some("/proj/cfg/deploy.json".to_string())
    );
    assert_eq!(
        join_contained(root, "sub/../deploy.json"),
        Some("/proj/sub/../deploy.json".to_string()),
        "a dot-dot that stays inside resolves"
    );
}

#[test]
fn contained_join_refuses_escapes() {
    let root = "/proj";
    assert_eq!(join_contained(root, "/etc/x.json"), None);
    assert_eq!(join_contained(root, "../../etc/x.json"), None);
    assert_eq!(join_contained(root, "../project/x.json"), None);
}

#[test]
fn escapes_base_flags_outside_scripts() {
    let base = "/proj";
    assert!(!escapes_base(base, "sum.js"));
    assert!(!escapes_base(base, "sub/../sum.js"));
    assert!(!escapes_base(base, "/proj/sum.js"));
    assert!(escapes_base(base, "/etc/passwd"));
    assert!(escapes_base(base, "../../etc/passwd"));
}
