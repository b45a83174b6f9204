use std::sync::Arc;

use meta_ast::cache::{fingerprint, ExtractionCache, Fingerprint};
use meta_ast::lang::LangId;
use meta_ast::model::{FileExtraction, LineColumn, SourceRange, Symbol, SymbolId, SymbolKind};

#[test]
fn blake3_fingerprint_is_deterministic() {
    let content = b"fn main() { println!(\"hello\"); }";
    let fp1 = fingerprint(content);
    let fp2 = fingerprint(content);
    assert_eq!(fp1, fp2);
    assert_eq!(
        blake3::hash(content).as_bytes(),
        fp1.as_bytes(),
        "Fingerprint must match BLAKE3 hash"
    );
}

#[test]
fn fingerprints_differ_with_content() {
    assert_ne!(fingerprint(b"a"), fingerprint(b"b"));
    assert_eq!(Fingerprint::of(b"x"), fingerprint(b"x"));
    assert_ne!(&fingerprint(b"").as_bytes()[..], &[0u8; 32][..]);
}

#[test]
fn cache_update_and_remove() {
    let mut cache = ExtractionCache::new();
    let path = "foo.py".to_string();
    let bytes = b"def foo(): pass\n";
    let fp = fingerprint(bytes);
    let mut base = FileExtraction::empty(path.clone(), LangId::Python);
    base.ast_node_count = 5;
    let extraction = Arc::new(base);

    cache.update(path.clone(), fp, Arc::clone(&extraction));
    assert_eq!(cache.len(), 1);
    assert_eq!(cache.fingerprint_of(&path), Some(fp));

    let cached = cache.get(&path).unwrap();
    assert!(Arc::ptr_eq(&extraction, cached));

    cache.remove(&path);
    assert!(cache.is_empty());
    assert!(cache.fingerprint_of(&path).is_none());
}

fn symbol(id: u32, path: &str) -> Symbol {
    Symbol {
        id: SymbolId::new(id).unwrap(),
        name: "seven".to_string(),
        kind: SymbolKind::Function,
        language: LangId::Python,
        file_path: path.to_string(),
        source_range: SourceRange {
            byte_start: 0,
            byte_end: 1,
            start: LineColumn { line: 0, column: 0 },
            end: LineColumn { line: 0, column: 1 },
        },
        visibility: None,
        signature: None,
        docstring: None,
        is_async: false,
    }
}

#[test]
fn max_symbol_id_scans_cached_files() {
    let mut cache = ExtractionCache::new();
    assert_eq!(cache.max_symbol_id(), 0);
    let path = "a.py".to_string();
    let mut file = FileExtraction::empty(path.clone(), LangId::Python);
    file.symbols.push(symbol(7, "a.py"));
    cache.update(path, fingerprint(b"x"), Arc::new(file));
    assert_eq!(cache.max_symbol_id(), 7);
}

#[test]
fn update_replaces_an_equal_path() {
    let mut cache = ExtractionCache::new();
    let first = FileExtraction::empty("src/a.py".to_string(), LangId::Python);
    let mut second = FileExtraction::empty("src/a.py".to_string(), LangId::Python);
    second.symbols.push(symbol(3, "src/a.py"));
    cache.update("src/a.py".to_string(), fingerprint(b"1"), Arc::new(first));
    cache.update("src//./a.py".to_string(), fingerprint(b"2"), Arc::new(second));
    assert_eq!(cache.len(), 1);
    assert_eq!(cache.fingerprint_of("src/a.py"), Some(fingerprint(b"2")));
    assert_eq!(cache.max_symbol_id(), 3);
    assert_eq!(cache.paths(), vec!["src/a.py".to_string()]);
}

#[test]
fn max_ids_span_every_file() {
    let mut cache = ExtractionCache::new();
    let mut a = FileExtraction::empty("a.py".to_string(), LangId::Python);
    a.symbols.push(symbol(4, "a.py"));
    a.symbols.push(symbol(11, "a.py"));
    let mut b = FileExtraction::empty("b.py".to_string(), LangId::Python);
    b.symbols.push(symbol(9, "b.py"));
    cache.update("a.py".to_string(), fingerprint(b"a"), Arc::new(a));
    cache.update("b.py".to_string(), fingerprint(b"b"), Arc::new(b));
    assert_eq!(cache.max_symbol_id(), 11);
    assert_eq!(cache.max_data_node_id(), 0);
    cache.remove("a.py");
    assert_eq!(cache.max_symbol_id(), 9);
    assert!(cache.get("a.py").is_none());
    assert!(cache.get("b.py").is_some());
}
