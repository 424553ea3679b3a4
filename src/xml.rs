//! The nodes of an XML document as plain values, read through roxmltree.

use vstd::prelude::*;

verus! {

/// An attribute: its local name, whether it carries a namespace, its value.
pub ghost struct AttributeModel {
    pub name: Seq<char>,
    pub namespaced: bool,
    pub value: Seq<char>,
}

/// A node: its local tag name (empty for a node that is not an element),
/// its depth (the root node has depth 1) and its attributes.
pub ghost struct NodeModel {
    pub tag: Seq<char>,
    pub depth: int,
    pub attributes: Seq<AttributeModel>,
}

/// An attribute of an element.
#[derive(Debug)]
pub struct XmlAttribute {
    pub name: String,
    pub namespaced: bool,
    pub value: String,
}

impl View for XmlAttribute {
    type V = AttributeModel;

    open spec fn view(&self) -> AttributeModel {
        AttributeModel { name: self.name@, namespaced: self.namespaced, value: self.value@ }
    }
}

/// A node of a document.
#[derive(Debug)]
pub struct XmlNode {
    pub tag: String,
    pub depth: usize,
    pub attributes: Vec<XmlAttribute>,
}

impl View for XmlNode {
    type V = NodeModel;

    open spec fn view(&self) -> NodeModel {
        NodeModel {
            tag: self.tag@,
            depth: self.depth as int,
            attributes: self.attributes@.map_values(|a: XmlAttribute| a@),
        }
    }
}

/// The nodes of the XML document `text` in document order, or `None` when
/// it is not well-formed.
pub uninterp spec fn xml_nodes(text: Seq<char>) -> Option<Seq<NodeModel>>;

/// Relies on `roxmltree::Document::parse` and, for each node that
/// `Document::descendants` yields in document order, on `Node::tag_name`,
/// `Node::ancestors` (the node and those above it) and `Node::attributes`.
/// The result depends on the text alone.
#[verifier::external_body]
pub(crate) fn read_xml_nodes(text: &str) -> (r: Option<Vec<XmlNode>>)
    ensures
        match xml_nodes(text@) {
            None => r is None,
            Some(ns) => r matches Some(v) && v@.map_values(|n: XmlNode| n@) == ns,
        },
{
    let doc = roxmltree::Document::parse(text).ok()?;
    Some(doc.descendants().map(|n| XmlNode {
        tag: n.tag_name().name().to_string(),
        depth: n.ancestors().count(),
        attributes: n.attributes().map(|a| XmlAttribute {
            name: a.name().to_string(),
            namespaced: a.namespace().is_some(),
            value: a.value().to_string(),
        }).collect(),
    }).collect())
}

} // verus!
