use meta_ast::lang::LangId;
use meta_ast::tags::{from_metacall_tag, has_loader, metacall_tag};

#[test]
fn forward_mapping_is_canonical() {
    assert_eq!(metacall_tag(LangId::Python), "py");
    assert_eq!(metacall_tag(LangId::JavaScript), "node");
    assert_eq!(metacall_tag(LangId::TypeScript), "ts");
    assert_eq!(metacall_tag(LangId::Tsx), "ts");
    assert_eq!(metacall_tag(LangId::C), "c");
    assert_eq!(metacall_tag(LangId::Cpp), "c");
    assert_eq!(metacall_tag(LangId::Rust), "rs");
    assert_eq!(metacall_tag(LangId::Go), "go");
    assert_eq!(metacall_tag(LangId::Ruby), "rb");
}

#[test]
fn aliases_resolve() {
    let cases = [
        ("python", LangId::Python),
        ("PY", LangId::Python),
        ("nodejs", LangId::JavaScript),
        ("js", LangId::JavaScript),
        ("mjs", LangId::JavaScript),
        ("cjs", LangId::JavaScript),
        ("typescript", LangId::TypeScript),
        ("tsx", LangId::TypeScript),
        ("jsx", LangId::TypeScript),
        ("c++", LangId::Cpp),
        ("cxx", LangId::Cpp),
        ("cc", LangId::Cpp),
        ("rust", LangId::Rust),
        ("ruby", LangId::Ruby),
        ("golang", LangId::Go),
        (" Node ", LangId::JavaScript),
    ];
    for (tag, expected) in cases {
        assert_eq!(from_metacall_tag(tag), Some(expected), "tag {tag}");
    }
}

#[test]
fn cpp_shares_the_c_loader() {
    assert_eq!(metacall_tag(LangId::Cpp), "c");
    assert_eq!(from_metacall_tag("c"), Some(LangId::C));
    assert_eq!(from_metacall_tag("cpp"), Some(LangId::Cpp));
}

#[test]
fn go_has_no_loader() {
    assert_eq!(metacall_tag(LangId::Go), "go");
    assert!(!has_loader(LangId::Go));
    assert!(has_loader(LangId::Python));
    assert!(has_loader(LangId::Cpp));
}

#[test]
fn unknown_tags_are_rejected() {
    assert_eq!(from_metacall_tag("wasm"), None);
    assert_eq!(from_metacall_tag(""), None);
}
