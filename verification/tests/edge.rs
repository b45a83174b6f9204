use meta_ast::edge::EdgeKind;

#[test]
fn edge_kind_scc_participation() {
    assert!(!EdgeKind::Ownership.participates_in_scc());
    assert!(EdgeKind::Import.participates_in_scc());
    assert!(EdgeKind::Reference.participates_in_scc());
}

#[test]
fn edge_kind_as_str() {
    assert_eq!(EdgeKind::Ownership.as_str(), "ownership");
    assert_eq!(EdgeKind::Import.as_str(), "import");
    assert_eq!(EdgeKind::Reference.as_str(), "reference");
}

#[test]
fn edge_kind_display() {
    assert_eq!(format!("{}", EdgeKind::Import.as_str()), "import");
}

use meta_ast::edge::EdgeData;

#[test]
fn edge_data_new_defaults_to_full_confidence() {
    let edge = EdgeData::new(EdgeKind::Import);
    assert_eq!(edge.kind, EdgeKind::Import);
    assert_eq!(edge.confidence, 1000);
    assert!(edge.participates_in_scc());
}

#[test]
fn edge_data_with_confidence_clamps() {
    let low = EdgeData::with_confidence(EdgeKind::Reference, -500);
    assert_eq!(low.confidence, 0);

    let high = EdgeData::with_confidence(EdgeKind::Reference, 1500);
    assert_eq!(high.confidence, 1000);

    let mid = EdgeData::with_confidence(EdgeKind::Reference, 750);
    assert_eq!(mid.confidence, 750);
}

#[test]
fn edge_data_default() {
    let edge: EdgeData = Default::default();
    assert_eq!(edge.confidence, 1000);
    assert!(edge.participates_in_scc());
}
