//! Canonical names of graph nodes.
use vstd::prelude::*;

use crate::lang::LangId;
use crate::node::NodeData;

verus! {

/// Kind name of a node: `file`, `symbol`, `external` or `data`.
pub fn node_kind_name(node: &NodeData) -> (r: &'static str)
    ensures
        r@ == node.spec_kind_str(),
{
    node.kind_str()
}

/// Name a reader shows for a node: a symbol's name or a data node's
/// optional name. Files and externals are addressed by path instead.
pub fn node_display_name(node: &NodeData) -> (r: Option<&String>)
    ensures
        r == (match node {
            NodeData::Symbol(s) => Some(&s.name),
            NodeData::Data(d) => match &d.name {
                Some(n) => Some(n),
                None => None::<&String>,
            },
            _ => None::<&String>,
        }),
{
    match node {
        NodeData::Symbol(symbol) => Some(&symbol.name),
        NodeData::Data(data) => match &data.name {
            Some(n) => Some(n),
            None => None,
        },
        _ => None,
    }
}

/// Language of a node, when the node has one.
pub fn node_language(node: &NodeData) -> (r: Option<LangId>)
    ensures
        r == (match node {
            NodeData::File(f) => Some(f.language),
            NodeData::External(e) => Some(e.language),
            _ => None::<LangId>,
        }),
{
    match node {
        NodeData::File(file) => Some(file.language),
        NodeData::External(external) => Some(external.language),
        _ => None,
    }
}

} // verus!
