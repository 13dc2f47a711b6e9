//! The trusted boundary to the XML tree builder.
//!
//! `roxmltree` tokenizes and builds the tree; the tree is then copied node
//! by node into the library's own model, on which everything else is
//! verified.  Invalid UTF-8 and malformed XML are reported by the tree
//! builder and surface here as decode errors.

use vstd::prelude::*;

use crate::decode::from_node;
use crate::decoded::Decoded;
use crate::error::Error;
use crate::model::decode_node_spec;
use crate::shape::Shape;
use crate::tree::{NodeV, XmlChild, XmlNode};

verus! {

#[verifier::external_type_specification]
#[verifier::external_body]
pub struct ExDocument<'input>(roxmltree::Document<'input>);

#[verifier::external_type_specification]
#[verifier::external_body]
pub struct ExNode<'a, 'input: 'a>(roxmltree::Node<'a, 'input>);

/// What parsing a byte buffer yields: a tree model when the bytes are
/// well-formed UTF-8 XML, and nothing otherwise.
pub uninterp spec fn parsed_tree(bytes: Seq<u8>) -> Option<NodeV>;

/// The tree model a parsed document holds.
pub uninterp spec fn document_tree(d: roxmltree::Document<'_>) -> NodeV;

/// The model of the subtree at a node.
pub uninterp spec fn node_tree(n: roxmltree::Node<'_, '_>) -> NodeV;

/// Relies on `str::from_utf8` and `roxmltree::Document::parse`: parsing is
/// a function of the bytes alone, succeeds exactly when they are
/// well-formed UTF-8 XML, and the failure carries the reported message.
#[verifier::external_body]
fn parse_document(bytes: &[u8]) -> (r: Result<roxmltree::Document<'_>, Error>)
    ensures
        match r {
            Ok(d) => parsed_tree(bytes@) == Some(document_tree(d)),
            Err(_) => parsed_tree(bytes@) is None,
        },
{
    let text = match core::str::from_utf8(bytes) {
        Ok(t) => t,
        Err(e) => return Err(Error::custom(e.to_string())),
    };
    match roxmltree::Document::parse(text) {
        Ok(d) => Ok(d),
        Err(e) => Err(Error::custom(e.to_string())),
    }
}

/// Relies on `roxmltree::Document::root`: the root node carries the
/// document's whole tree.
#[verifier::external_body]
fn document_root<'a, 'input>(d: &'a roxmltree::Document<'input>) -> (n: roxmltree::Node<
    'a,
    'input,
>)
    ensures
        node_tree(n) == document_tree(*d),
{
    d.root()
}

/// Relies on `roxmltree`'s node accessors (`tag_name`, `attributes`,
/// `children`, `node_type`, `text`): copies the subtree at `n` — tag,
/// attributes in order, and element, text and comment children in order —
/// into the library's model.  Processing instructions are dropped.
#[verifier::external_body]
fn tree_of_node(n: roxmltree::Node<'_, '_>) -> (r: XmlNode)
    ensures
        r@ == node_tree(n),
{
    XmlNode {
        tag: n.tag_name().name().to_string(),
        attributes: n.attributes().map(|a| (a.name().to_string(), a.value().to_string())).collect(),
        children: n.children().filter_map(|c| match c.node_type() {
            roxmltree::NodeType::Element => Some(XmlChild::Element(tree_of_node(c))),
            roxmltree::NodeType::Text => Some(XmlChild::Text(c.text().unwrap_or("").to_string())),
            roxmltree::NodeType::Comment => Some(
                XmlChild::Comment(c.text().unwrap_or("").to_string()),
            ),
            _ => None,
        }).collect(),
    }
}

/// Parses a byte buffer into the tree model, rooted at the document root:
/// an element with an empty tag whose children are the top-level nodes.
pub fn parse(bytes: &[u8]) -> (r: Result<XmlNode, Error>)
    ensures
        match r {
            Ok(n) => parsed_tree(bytes@) == Some(n@),
            Err(_) => parsed_tree(bytes@) is None,
        },
{
    match parse_document(bytes) {
        Ok(d) => {
            let root = document_root(&d);
            Ok(tree_of_node(root))
        },
        Err(e) => Err(e),
    }
}

/// Decodes a whole parsed document against a shape, from its root.
pub fn from_document(document: &XmlNode, shape: &Shape) -> (r: Result<Decoded, Error>)
    ensures
        match r {
            Ok(d) => decode_node_spec(document@, shape@) == Some(d@),
            Err(_) => decode_node_spec(document@, shape@) is None,
        },
{
    from_node(document, shape)
}

} // verus!
