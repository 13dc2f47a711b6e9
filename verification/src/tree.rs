//! The parse-tree model the decoder consumes: a tag name, an ordered
//! attribute list and an ordered child list per element.  The document root
//! is represented as an element with an empty tag whose children are the
//! top-level nodes.

use vstd::prelude::*;

verus! {

/// One child of an element: character data, a nested element, or a comment.
#[derive(Debug, PartialEq, Eq)]
pub enum XmlChild {
    Text(String),
    Element(XmlNode),
    Comment(String),
}

/// An element: tag name, ordered attributes (name, value), ordered children.
#[derive(Debug, PartialEq, Eq)]
pub struct XmlNode {
    pub tag: String,
    pub attributes: Vec<(String, String)>,
    pub children: Vec<XmlChild>,
}

/// The mathematical shape of a child.
pub ghost enum ChildV {
    Text(Seq<char>),
    Element(NodeV),
    Comment(Seq<char>),
}

/// The mathematical shape of an element.
pub ghost struct NodeV {
    pub tag: Seq<char>,
    pub attrs: Seq<(Seq<char>, Seq<char>)>,
    pub children: Seq<ChildV>,
}

/// The model of a child.
pub open spec fn child_view(c: XmlChild) -> ChildV
    decreases c, 1int,
{
    match c {
        XmlChild::Text(s) => ChildV::Text(s@),
        XmlChild::Element(n) => ChildV::Element(node_view(n)),
        XmlChild::Comment(s) => ChildV::Comment(s@),
    }
}

/// The models of a child list, in order.
pub open spec fn children_view(cs: Seq<XmlChild>) -> Seq<ChildV>
    decreases cs, 0int,
{
    if cs.len() == 0 {
        Seq::empty()
    } else {
        seq![child_view(cs[0])] + children_view(cs.drop_first())
    }
}

/// The model of an element.
pub open spec fn node_view(n: XmlNode) -> NodeV
    decreases n, 2int,
{
    NodeV {
        tag: n.tag@,
        attrs: Seq::new(n.attributes@.len(), |i: int| (n.attributes@[i].0@, n.attributes@[i].1@)),
        children: children_view(n.children@),
    }
}

/// `children_view` maps the list elementwise.
pub proof fn lemma_children_view(cs: Seq<XmlChild>)
    ensures
        children_view(cs).len() == cs.len(),
        forall|i: int| 0 <= i < cs.len() ==> children_view(cs)[i] == child_view(cs[i]),
    decreases cs,
{
    if cs.len() > 0 {
        lemma_children_view(cs.drop_first());
    }
}

impl View for XmlChild {
    type V = ChildV;

    open spec fn view(&self) -> ChildV {
        child_view(*self)
    }
}

impl View for XmlNode {
    type V = NodeV;

    open spec fn view(&self) -> NodeV {
        node_view(*self)
    }
}

/// How much document a child covers; descending into an element strictly
/// shrinks it, which grounds the decoder's termination argument.
pub open spec fn child_size(c: ChildV) -> nat
    decreases c,
{
    match c {
        ChildV::Element(n) => 1 + n.attrs.len() + children_size(n.children),
        _ => 1,
    }
}

/// The total size of a child list.
pub open spec fn children_size(cs: Seq<ChildV>) -> nat
    decreases cs,
{
    if cs.len() == 0 {
        0
    } else {
        child_size(cs[0]) + children_size(cs.drop_first())
    }
}

/// Every child is at least one unit large.
pub proof fn lemma_children_size_le(cs: Seq<ChildV>)
    ensures
        cs.len() <= children_size(cs),
    decreases cs,
{
    if cs.len() > 0 {
        lemma_children_size_le(cs.drop_first());
        assert(children_size(cs) == child_size(cs[0]) + children_size(cs.drop_first()));
        assert(child_size(cs[0]) >= 1);
    }
}

/// Skipping the first child removes exactly its size.
pub proof fn lemma_children_size_skip_one(cs: Seq<ChildV>)
    requires
        cs.len() > 0,
    ensures
        children_size(cs.skip(1)) == children_size(cs) - child_size(cs[0]),
{
    assert(cs.skip(1) =~= cs.drop_first());
}

/// A suffix of the child list is smaller than the whole by at least one
/// unit per child skipped.
pub proof fn lemma_children_size_skip(cs: Seq<ChildV>, k: int)
    requires
        0 <= k <= cs.len(),
    ensures
        children_size(cs.skip(k)) + k <= children_size(cs),
    decreases k,
{
    if k > 0 {
        assert(cs.skip(k) =~= cs.drop_first().skip(k - 1));
        lemma_children_size_skip(cs.drop_first(), k - 1);
        assert(children_size(cs) == child_size(cs[0]) + children_size(cs.drop_first()));
        assert(child_size(cs[0]) >= 1);
    } else {
        assert(cs.skip(0) =~= cs);
    }
}

} // verus!
