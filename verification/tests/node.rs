use meta_ast::lang::LangId;
use meta_ast::model::{
    DataNode, DataNodeId, DataScope, FileId, LineColumn, SnapshotId, SourceRange, Symbol,
    SymbolId, SymbolKind, Visibility,
};
use meta_ast::node::{DataGraphNode, FileNode, NodeData, SymbolNode};

fn test_path() -> String {
    "src/test.rs".to_string()
}

fn test_source_range() -> SourceRange {
    SourceRange {
        byte_start: 0,
        byte_end: 10,
        start: LineColumn { line: 0, column: 0 },
        end: LineColumn { line: 0, column: 10 },
    }
}

#[test]
fn file_node_creation() {
    let file_id = FileId::from(0);
    let snapshot_id = SnapshotId::from(1);
    let node = FileNode::new(file_id, test_path(), LangId::Rust, snapshot_id);

    assert_eq!(node.id, file_id);
    assert_eq!(node.path, test_path());
    assert_eq!(node.language, LangId::Rust);
    assert_eq!(node.snapshot_id, snapshot_id);
}

#[test]
fn file_node_file_name() {
    let node = FileNode::new(
        FileId::from(0),
        "src/main.rs".to_string(),
        LangId::Rust,
        SnapshotId::from(0),
    );
    assert_eq!(node.file_name().as_deref(), Some("main.rs"));
}

#[test]
fn file_node_extension() {
    let node = FileNode::new(
        FileId::from(0),
        "test.py".to_string(),
        LangId::Python,
        SnapshotId::from(0),
    );
    assert_eq!(node.extension().as_deref(), Some("py"));
}

#[test]
fn symbol_node_creation() {
    let symbol = Symbol {
        id: SymbolId::from(42),
        name: "test_function".to_string(),
        kind: SymbolKind::Function,
        language: LangId::Rust,
        file_path: test_path(),
        source_range: test_source_range(),
        visibility: Some(Visibility::Public),
        signature: None,
        docstring: None,
        is_async: false,
    };

    let file_id = FileId::from(7);
    let node = SymbolNode::from_symbol(&symbol, file_id);

    assert_eq!(node.id, SymbolId::from(42));
    assert_eq!(node.name, "test_function");
    assert_eq!(node.kind, SymbolKind::Function);
    assert_eq!(node.file_id, file_id);
    assert_eq!(node.visibility, Some(Visibility::Public));
}

#[test]
fn node_data_file_variant() {
    let file_node = FileNode::new(FileId::from(0), test_path(), LangId::Rust, SnapshotId::from(0));
    let node_data = NodeData::File(file_node);

    assert_eq!(node_data.kind_str(), "file");
    assert!(node_data.as_file().is_some());
    assert!(node_data.as_symbol().is_none());
    assert_eq!(node_data.file_path(), Some(&test_path()));
    assert_eq!(node_data.symbol_name(), None);
}

#[test]
fn node_data_symbol_variant() {
    let symbol_node = SymbolNode {
        id: SymbolId::from(1),
        name: "my_func".to_string(),
        kind: SymbolKind::Function,
        file_id: FileId::from(0),
        visibility: None,
        source_range: test_source_range(),
    };
    let node_data = NodeData::Symbol(symbol_node);

    assert_eq!(node_data.kind_str(), "symbol");
    assert!(node_data.as_symbol().is_some());
    assert!(node_data.as_file().is_none());
    assert_eq!(node_data.file_path(), None);
    assert_eq!(node_data.symbol_name().map(|s| s.as_str()), Some("my_func"));
}

#[test]
fn data_graph_node_from_model() {
    let data = DataNode {
        id: DataNodeId(5),
        symbol_id: None,
        name: Some("var_x".into()),
        scope: DataScope::Local,
        type_hint: Some("int".into()),
        source_range: test_source_range(),
    };
    let gnode = DataGraphNode::from_data_node(&data);
    assert_eq!(gnode.id, DataNodeId(5));
    assert_eq!(gnode.name.as_deref(), Some("var_x"));
    assert_eq!(gnode.scope, DataScope::Local);
    assert_eq!(gnode.type_hint.as_deref(), Some("int"));
    assert!(gnode.symbol_id.is_none());
}

#[test]
fn node_data_data_variant() {
    let dnode = DataGraphNode {
        id: DataNodeId(1),
        symbol_id: Some(SymbolId::from(3)),
        name: Some("param".into()),
        scope: DataScope::Parameter,
        type_hint: Some("str".into()),
        source_range: test_source_range(),
    };
    let node_data = NodeData::Data(dnode);
    assert_eq!(node_data.kind_str(), "data");
    assert!(node_data.as_data().is_some());
    assert!(node_data.as_file().is_none());
    assert!(node_data.as_symbol().is_none());
    assert_eq!(node_data.as_data().unwrap().name.as_deref(), Some("param"));
}
