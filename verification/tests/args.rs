use meta_ast::args::{parse_format, parse_language, OutputFormat};
use meta_ast::lang::LangId;

#[test]
fn parse_language_valid_lowercase() {
    assert_eq!(parse_language("python"), Ok(LangId::Python));
    assert_eq!(parse_language("typescript"), Ok(LangId::TypeScript));
}

#[test]
fn parse_language_case_insensitive() {
    assert_eq!(parse_language("Python"), Ok(LangId::Python));
    assert_eq!(parse_language("TYPESCRIPT"), Ok(LangId::TypeScript));
}

#[test]
fn parse_language_invalid_returns_all_names() {
    let err = parse_language("pytho").unwrap_err();
    for id in LangId::all() {
        let name: &str = id.as_str();
        assert!(err.contains(name), "error {err:?} should list the valid name {name:?}");
    }
}

#[test]
fn parse_language_empty_returns_err() {
    assert!(parse_language("").is_err());
}

#[test]
fn parse_language_error_text() {
    assert_eq!(
        parse_language("cobol").unwrap_err(),
        "invalid language 'cobol': expected one of python, javascript, typescript, tsx, c, cpp, rust, go, ruby"
    );
}

#[test]
fn parse_format_names() {
    assert_eq!(parse_format("json"), Ok(OutputFormat::Json));
    assert_eq!(parse_format("JSON"), Ok(OutputFormat::Json));
    assert_eq!(parse_format("yaml"), Ok(OutputFormat::Yaml));
    assert_eq!(parse_format("Yml"), Ok(OutputFormat::Yaml));
    assert_eq!(
        parse_format("toml"),
        Err("invalid format 'toml': expected 'json' or 'yaml'".to_string())
    );
    assert_eq!(OutputFormat::Json.extension(), "json");
    assert_eq!(OutputFormat::Yaml.extension(), "yaml");
}
