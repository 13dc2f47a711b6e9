//! The executable decoder, verified against the model in `crate::model`:
//! every function's result is exactly what the corresponding spec function
//! says for its input.

use vstd::prelude::*;
use vstd::string::StrSliceExecFns;
use vstd::string::StringExecFns;

use crate::decoded::{Decoded, Entry};
use crate::error::Error;
use crate::model::{
    decode_node_spec, empty_state, field_loop, find_attr_field, find_catch_all_field,
    find_flatten_field, find_tag_field, find_variant, flatten_step, is_xml_ws,
    lemma_element_child_state, lemma_find_attr_field, lemma_find_catch_all_field,
    lemma_find_flatten_field, lemma_find_tag_field, lemma_find_variant, lemma_seq_run_len_le,
    node_state, scalar_text, seq_all_items, seq_run_items, seq_run_len, simple_content_of,
    spec_decode, spec_decode_content, spec_decode_text, state_size, ws_only, StateV,
};
use crate::shape::{Field, ScalarKind, Shape, Variant};
use crate::shape::{
    field_tag, fields_size, fields_view, is_catch_all, is_flatten_name, lemma_fields_view,
    lemma_field_shape_size, lemma_split_pos, lemma_variant_shape_size, lemma_variants_view,
    shape_size, split_pos, variants_view, FieldV, ShapeV,
};
use crate::text::{
    denotes_index, from_yes_no, parse_i16, parse_i32, parse_i8, parse_u16, parse_u32, parse_u8,
    str_eq,
};
use crate::model::skippable;
use crate::tree::{
    child_view, children_size, lemma_children_size_skip_one, lemma_children_view, ChildV, NodeV,
    XmlChild, XmlNode,
};

verus! {

/// Whether `t` is whitespace-only, reflected to the model.
pub fn is_ws_only(t: &str) -> (r: bool)
    ensures
        r == ws_only(t@),
{
    let n = t.unicode_len();
    let mut i: usize = 0;
    while i < n
        invariant
            i <= n,
            n == t@.len(),
            forall|j: int| 0 <= j < i ==> is_xml_ws(#[trigger] t@[j]),
        decreases n - i,
    {
        let c = t.get_char(i);
        if !(c == ' ' || c == '\t' || c == '\n' || c == '\r') {
            return false;
        }
        i += 1;
    }
    true
}

/// The first marker position in a field name, reflected to the model.
fn split_index(s: &str) -> (r: usize)
    ensures
        r == split_pos(s@),
{
    let n = s.unicode_len();
    let mut i: usize = 0;
    proof {
        lemma_split_pos(s@);
    }
    while i < n
        invariant
            i <= n,
            n == s@.len(),
            forall|j: int| 0 <= j < i ==> !crate::shape::is_marker_char(#[trigger] s@[j]),
        decreases n - i,
    {
        let c = s.get_char(i);
        if c == '$' || c == '*' || c == '+' || c == '{' {
            proof {
                lemma_split_pos(s@);
                if split_pos(s@) < i {
                    assert(crate::shape::is_marker_char(s@[split_pos(s@)]));
                }
                if split_pos(s@) > i {
                    assert(!crate::shape::is_marker_char(s@[i as int]));
                }
            }
            return i;
        }
        i += 1;
    }
    proof {
        lemma_split_pos(s@);
        if split_pos(s@) < n {
            assert(crate::shape::is_marker_char(s@[split_pos(s@)]));
        }
    }
    n
}

/// Whether the match tag of field name `nm` is exactly `tag`.
fn tag_matches(nm: &str, tag: &str) -> (r: bool)
    ensures
        r == (field_tag(nm@) == tag@),
{
    let split = split_index(nm);
    let tn = tag.unicode_len();
    if split != tn {
        proof {
            assert(field_tag(nm@).len() == split_pos(nm@)) by {
                lemma_split_pos(nm@);
            }
            if field_tag(nm@) == tag@ {
                assert(field_tag(nm@).len() == tag@.len());
            }
        }
        return false;
    }
    let mut i: usize = 0;
    proof {
        lemma_split_pos(nm@);
    }
    while i < tn
        invariant
            i <= tn,
            tn == tag@.len(),
            tn == split_pos(nm@),
            tn <= nm@.len(),
            forall|j: int| 0 <= j < i ==> nm@[j] == tag@[j],
        decreases tn - i,
    {
        if nm.get_char(i) != tag.get_char(i) {
            proof {
                assert(field_tag(nm@)[i as int] == nm@[i as int]);
            }
            return false;
        }
        i += 1;
    }
    proof {
        assert(field_tag(nm@) =~= tag@);
    }
    true
}

/// The first variant with this name, reflected to the model.
fn find_variant_idx(variants: &Vec<Variant>, nm: &str) -> (r: Option<usize>)
    ensures
        match r {
            Some(i) => i < variants@.len() && find_variant(variants_view(variants@), nm@) == i,
            None => find_variant(variants_view(variants@), nm@) == -1,
        },
{
    let ghost vs = variants_view(variants@);
    proof {
        lemma_variants_view(variants@);
        lemma_find_variant(vs, nm@);
    }
    let n = variants.len();
    let mut i: usize = 0;
    while i < n
        invariant
            i <= n,
            n == variants@.len(),
            vs == variants_view(variants@),
            vs.len() == n,
            forall|j: int| 0 <= j < i ==> #[trigger] vs[j].name != nm@,
        decreases n - i,
    {
        proof {
            lemma_variants_view(variants@);
        }
        if str_eq(variants[i].name.as_str(), nm) {
            proof {
                lemma_find_variant(vs, nm@);
                assert(vs[i as int].name == nm@);
            }
            return Some(i);
        }
        i += 1;
    }
    proof {
        lemma_find_variant(vs, nm@);
    }
    None
}

/// The first field whose raw name equals `nm`, reflected to the model.
fn find_attr_field_idx(fields: &Vec<Field>, nm: &str) -> (r: Option<usize>)
    ensures
        match r {
            Some(i) => i < fields@.len() && find_attr_field(fields_view(fields@), nm@) == i,
            None => find_attr_field(fields_view(fields@), nm@) == -1,
        },
{
    let ghost fs = fields_view(fields@);
    proof {
        lemma_fields_view(fields@);
        lemma_find_attr_field(fs, nm@);
    }
    let n = fields.len();
    let mut i: usize = 0;
    while i < n
        invariant
            i <= n,
            n == fields@.len(),
            fs == fields_view(fields@),
            fs.len() == n,
            forall|j: int| 0 <= j < i ==> #[trigger] fs[j].name != nm@,
        decreases n - i,
    {
        proof {
            lemma_fields_view(fields@);
        }
        if str_eq(fields[i].name.as_str(), nm) {
            proof {
                assert(fs[i as int].name == fields@[i as int].name@);
                lemma_find_attr_field(fs, nm@);
            }
            return Some(i);
        }
        i += 1;
    }
    proof {
        lemma_find_attr_field(fs, nm@);
    }
    None
}

/// The first field whose match tag equals `tag`, reflected to the model.
fn find_tag_field_idx(fields: &Vec<Field>, tag: &str) -> (r: Option<usize>)
    ensures
        match r {
            Some(i) => i < fields@.len() && find_tag_field(fields_view(fields@), tag@) == i,
            None => find_tag_field(fields_view(fields@), tag@) == -1,
        },
{
    let ghost fs = fields_view(fields@);
    proof {
        lemma_fields_view(fields@);
        lemma_find_tag_field(fs, tag@);
    }
    let n = fields.len();
    let mut i: usize = 0;
    while i < n
        invariant
            i <= n,
            n == fields@.len(),
            fs == fields_view(fields@),
            fs.len() == n,
            forall|j: int| 0 <= j < i ==> field_tag(#[trigger] fs[j].name) != tag@,
        decreases n - i,
    {
        proof {
            lemma_fields_view(fields@);
        }
        if tag_matches(fields[i].name.as_str(), tag) {
            proof {
                assert(fs[i as int].name == fields@[i as int].name@);
                lemma_find_tag_field(fs, tag@);
            }
            return Some(i);
        }
        i += 1;
    }
    proof {
        lemma_find_tag_field(fs, tag@);
    }
    None
}

/// The first flatten field available at index `idx`, reflected to the model.
fn find_flatten_field_idx(fields: &Vec<Field>, idx: u128) -> (r: Option<usize>)
    ensures
        match r {
            Some(i) => i < fields@.len() && find_flatten_field(fields_view(fields@), idx as nat)
                == i,
            None => find_flatten_field(fields_view(fields@), idx as nat) == -1,
        },
{
    let ghost fs = fields_view(fields@);
    proof {
        lemma_fields_view(fields@);
        lemma_find_flatten_field(fs, idx as nat);
    }
    let n = fields.len();
    let mut i: usize = 0;
    while i < n
        invariant
            i <= n,
            n == fields@.len(),
            fs == fields_view(fields@),
            fs.len() == n,
            forall|j: int| 0 <= j < i ==> !is_flatten_name(#[trigger] fs[j].name, idx as nat),
        decreases n - i,
    {
        proof {
            lemma_fields_view(fields@);
        }
        let nm = fields[i].name.as_str();
        if nm.unicode_len() == 0 || denotes_index(nm, idx) {
            proof {
                assert(fs[i as int].name == fields@[i as int].name@);
                assert(is_flatten_name(fs[i as int].name, idx as nat));
                lemma_find_flatten_field(fs, idx as nat);
            }
            return Some(i);
        }
        i += 1;
    }
    proof {
        lemma_find_flatten_field(fs, idx as nat);
    }
    None
}

/// The first text catch-all field, reflected to the model.
fn find_catch_all_field_idx(fields: &Vec<Field>) -> (r: Option<usize>)
    ensures
        match r {
            Some(i) => i < fields@.len() && find_catch_all_field(fields_view(fields@)) == i,
            None => find_catch_all_field(fields_view(fields@)) == -1,
        },
{
    let ghost fs = fields_view(fields@);
    proof {
        lemma_fields_view(fields@);
        lemma_find_catch_all_field(fs);
    }
    let n = fields.len();
    let mut i: usize = 0;
    while i < n
        invariant
            i <= n,
            n == fields@.len(),
            fs == fields_view(fields@),
            fs.len() == n,
            forall|j: int| 0 <= j < i ==> !is_catch_all(#[trigger] fs[j].name),
        decreases n - i,
    {
        proof {
            lemma_fields_view(fields@);
        }
        let nm = fields[i].name.as_str();
        if nm.unicode_len() == 1 && nm.get_char(0) == '$' {
            proof {
                assert(fs[i as int].name == fields@[i as int].name@);
                assert(is_catch_all(fs[i as int].name));
                lemma_find_catch_all_field(fs);
            }
            return Some(i);
        }
        i += 1;
    }
    proof {
        lemma_find_catch_all_field(fs);
    }
    None
}

/// Decodes text as one primitive, reflected to the model.
fn decode_scalar_text(k: ScalarKind, t: &str) -> (r: Result<Decoded, Error>)
    ensures
        match r {
            Ok(d) => scalar_text(k, t@) == Some(d@),
            Err(_) => scalar_text(k, t@) is None,
        },
{
    match k {
        ScalarKind::Str => Ok(Decoded::Str(String::from_str(t))),
        ScalarKind::Bool => match from_yes_no(t) {
            Ok(b) => Ok(Decoded::Bool(b)),
            Err(e) => Err(e),
        },
        ScalarKind::U8 => match parse_u8(t) {
            Ok(v) => Ok(Decoded::U8(v)),
            Err(e) => Err(e),
        },
        ScalarKind::U16 => match parse_u16(t) {
            Ok(v) => Ok(Decoded::U16(v)),
            Err(e) => Err(e),
        },
        ScalarKind::U32 => match parse_u32(t) {
            Ok(v) => Ok(Decoded::U32(v)),
            Err(e) => Err(e),
        },
        ScalarKind::I8 => match parse_i8(t) {
            Ok(v) => Ok(Decoded::I8(v)),
            Err(e) => Err(e),
        },
        ScalarKind::I16 => match parse_i16(t) {
            Ok(v) => Ok(Decoded::I16(v)),
            Err(e) => Err(e),
        },
        ScalarKind::I32 => match parse_i32(t) {
            Ok(v) => Ok(Decoded::I32(v)),
            Err(e) => Err(e),
        },
    }
}

/// Decodes bare text against a shape, reflected to the model.
fn decode_text(t: &str, shape: &Shape) -> (r: Result<Decoded, Error>)
    ensures
        match r {
            Ok(d) => spec_decode_text(t@, shape@) == Some(d@),
            Err(_) => spec_decode_text(t@, shape@) is None,
        },
    decreases shape,
{
    match shape {
        Shape::Scalar(k) => decode_scalar_text(*k, t),
        Shape::Optional(inner) => match decode_text(t, inner) {
            Ok(d) => Ok(Decoded::Present(Box::new(d))),
            Err(e) => Err(e),
        },
        Shape::Enum { name: _, variants } => match find_variant_idx(variants, t) {
            Some(i) => {
                proof {
                    lemma_variants_view(variants@);
                    assert(variants_view(variants@)[i as int].shape == crate::shape::shape_view(
                        variants@[i as int].shape,
                    ));
                }
                match &variants[i].shape {
                    Shape::Unit => {
                        proof {
                            assert(crate::decoded::decoded_view(Decoded::Unit)
                                == crate::decoded::DecodedV::Unit);
                        }
                        Ok(
                            Decoded::Enum {
                                variant: String::from_str(t),
                                payload: Box::new(Decoded::Unit),
                            },
                        )
                    },
                    _ => Err(Error::custom(String::from_str("expected a unit variant"))),
                }
            },
            None => Err(Error::custom(String::from_str("unknown variant ").concat(t))),
        },
        _ => Err(Error::custom(String::from_str("invalid type: string"))),
    }
}


/// Skipping relates a suffix to the one before it.
proof fn lemma_skip_shift<A>(s: Seq<A>, p: int)
    requires
        0 <= p < s.len(),
    ensures
        s.skip(p).len() == s.len() - p,
        s.skip(p)[0] == s[p],
        s.skip(p + 1) =~= s.skip(p).drop_first(),
{
}

/// One element decode in progress: two monotonically-advancing, peekable
/// cursors over one node — an attribute cursor and a child cursor.  Once an
/// item is consumed it is never revisited.
pub struct ElementDeserializer<'a> {
    node: &'a XmlNode,
    attr_pos: usize,
    child_pos: usize,
}

impl<'a> ElementDeserializer<'a> {
    /// The cursors stay within the node.
    pub closed spec fn wf(&self) -> bool {
        self.attr_pos <= self.node.attributes@.len() && self.child_pos
            <= self.node.children@.len()
    }

    /// The decoded element's tag.
    pub closed spec fn tag_spec(&self) -> Seq<char> {
        self.node@.tag
    }

    /// The model of the node under decode.
    pub closed spec fn node_spec(&self) -> NodeV {
        self.node@
    }

    /// The attribute cursor.
    pub closed spec fn apos(&self) -> int {
        self.attr_pos as int
    }

    /// The child cursor.
    pub closed spec fn cpos(&self) -> int {
        self.child_pos as int
    }

    /// The remaining input.
    pub closed spec fn st(&self) -> StateV {
        StateV {
            attrs: self.node@.attrs.skip(self.attr_pos as int),
            kids: self.node@.children.skip(self.child_pos as int),
        }
    }

    /// A fresh decoder over a whole node.
    pub fn new(node: &'a XmlNode) -> (r: Self)
        ensures
            r.wf(),
            r.node_spec() == node@,
            r.tag_spec() == node@.tag,
            r.st() == node_state(node@),
    {
        let r = ElementDeserializer { node, attr_pos: 0, child_pos: 0 };
        proof {
            lemma_children_view(node.children@);
            assert(node@.attrs.skip(0) =~= node@.attrs);
            assert(node@.children.skip(0) =~= node@.children);
        }
        r
    }

    /// Simple content: with no attributes left, exactly one text child left;
    /// consuming it exhausts the element.
    fn simple_content(&mut self) -> (r: Result<&'a str, Error>)
        requires
            old(self).wf(),
        ensures
            final(self).wf(),
            final(self).node_spec() == old(self).node_spec(),
            final(self).attr_pos >= old(self).attr_pos,
            final(self).child_pos >= old(self).child_pos,
            match r {
                Ok(t) => simple_content_of(old(self).st()) == Some(t@) && final(self).st()
                    == empty_state(),
                Err(_) => simple_content_of(old(self).st()) is None,
            },
    {
        let node_ref = self.node;
        let la = node_ref.attributes.len();
        let lc = node_ref.children.len();
        proof {
            lemma_children_view(node_ref.children@);
        }
        if self.attr_pos < la || self.child_pos >= lc || lc - self.child_pos != 1 {
            return Err(Error::custom(String::from_str("Expected simple content")));
        }
        proof {
            lemma_skip_shift(self.node@.children, self.child_pos as int);
            assert(self.st().kids[0] == child_view(node_ref.children@[self.child_pos as int]));
        }
        match &node_ref.children[self.child_pos] {
            XmlChild::Text(t) => {
                self.child_pos = lc;
                proof {
                    assert(self.node@.attrs.skip(self.attr_pos as int) =~= Seq::empty());
                    assert(self.node@.children.skip(lc as int) =~= Seq::empty());
                    assert(self.st() == empty_state());
                }
                Ok(t.as_str())
            },
            _ => Err(Error::custom(String::from_str("Expected simple content"))),
        }
    }

    /// Decodes the remaining state against a shape.  The result, and the
    /// state left behind, are exactly the model's answer.
    pub fn decode(&mut self, shape: &Shape) -> (r: Result<Decoded, Error>)
        requires
            old(self).wf(),
        ensures
            final(self).wf(),
            final(self).node_spec() == old(self).node_spec(),
            final(self).apos() >= old(self).apos(),
            final(self).cpos() >= old(self).cpos(),
            match r {
                Ok(d) => spec_decode(old(self).tag_spec(), old(self).st(), shape@) == Some(
                    (d@, final(self).st()),
                ),
                Err(_) => spec_decode(old(self).tag_spec(), old(self).st(), shape@) is None,
            },
        decreases state_size(self.st()), shape_size(shape@), 0int,
    {
        match shape {
            Shape::Scalar(k) => match self.simple_content() {
                Ok(t) => decode_scalar_text(*k, t),
                Err(e) => Err(e),
            },
            Shape::Unit => {
                let node_ref = self.node;
                proof {
                    lemma_children_view(node_ref.children@);
                }
                if self.attr_pos == node_ref.attributes.len() && self.child_pos
                    == node_ref.children.len() {
                    proof {
                        assert(self.st().attrs.len() == 0);
                        assert(self.st().kids.len() == 0);
                    }
                    Ok(Decoded::Unit)
                } else {
                    Err(Error::custom(String::from_str("expected an exhausted element")))
                }
            },
            Shape::Optional(inner) => match self.decode(inner) {
                Ok(d) => Ok(Decoded::Present(Box::new(d))),
                Err(e) => Err(e),
            },
            Shape::Sequence(elem) => {
                proof {
                    assert(children_size(self.st().kids) <= state_size(self.st()));
                }
                match self.decode_seq_all(elem) {
                    Ok(items) => {
                        proof {
                            assert(self.st().kids =~= Seq::empty());
                        }
                        Ok(Decoded::Sequence(items))
                    },
                    Err(e) => Err(e),
                }
            },
            Shape::Struct { fields } => match self.decode_fields(fields) {
                Ok(entries) => Ok(Decoded::Struct(entries)),
                Err(e) => Err(e),
            },
            Shape::OpenMap => {
                let empty_fields: Vec<Field> = Vec::new();
                proof {
                    assert(fields_view(empty_fields@) =~= Seq::<FieldV>::empty());
                }
                match self.decode_fields(&empty_fields) {
                    Ok(entries) => Ok(Decoded::Struct(entries)),
                    Err(e) => Err(e),
                }
            },
            Shape::Enum { name, variants } => {
                let node_ref = self.node;
                if str_eq(node_ref.tag.as_str(), name.as_str()) {
                    match self.simple_content() {
                        Ok(t) => match find_variant_idx(variants, t) {
                            Some(i) => {
                                proof {
                                    lemma_variants_view(variants@);
                                    assert(variants_view(variants@)[i as int].shape
                                        == crate::shape::shape_view(variants@[i as int].shape));
                                }
                                match &variants[i].shape {
                                    Shape::Unit => {
                                        proof {
                                            assert(crate::decoded::decoded_view(Decoded::Unit)
                                                == crate::decoded::DecodedV::Unit);
                                        }
                                        Ok(
                                            Decoded::Enum {
                                                variant: String::from_str(t),
                                                payload: Box::new(Decoded::Unit),
                                            },
                                        )
                                    },
                                    _ => Err(
                                        Error::custom(String::from_str("expected a unit variant")),
                                    ),
                                }
                            },
                            None => Err(
                                Error::custom(String::from_str("unknown variant ").concat(t)),
                            ),
                        },
                        Err(e) => Err(e),
                    }
                } else {
                    let tag_str = node_ref.tag.as_str();
                    match find_variant_idx(variants, tag_str) {
                        Some(i) => {
                            proof {
                                lemma_variants_view(variants@);
                                lemma_find_variant(variants_view(variants@), tag_str@);
                                lemma_variant_shape_size(variants_view(variants@), i as int);
                                assert(variants_view(variants@)[i as int].shape
                                    == crate::shape::shape_view(variants@[i as int].shape));
                            }
                            match self.decode(&variants[i].shape) {
                                Ok(payload) => Ok(
                                    Decoded::Enum {
                                        variant: node_ref.tag.clone(),
                                        payload: Box::new(payload),
                                    },
                                ),
                                Err(e) => Err(e),
                            }
                        },
                        None => Err(
                            Error::custom(String::from_str("unknown variant ").concat(tag_str)),
                        ),
                    }
                }
            },
        }
    }

    /// Decodes through a content (flatten) view of the remaining state.
    ///
    /// A sequence yields no elements without inspecting the tree; a tagged
    /// union is selected by the next element child's tag, which the view
    /// consumes; everything else reads as a plain decode of the remaining
    /// state.
    fn decode_content(&mut self, shape: &Shape) -> (r: Result<Decoded, Error>)
        requires
            old(self).wf(),
        ensures
            final(self).wf(),
            final(self).node_spec() == old(self).node_spec(),
            final(self).attr_pos >= old(self).attr_pos,
            final(self).child_pos >= old(self).child_pos,
            match r {
                Ok(d) => spec_decode_content(old(self).tag_spec(), old(self).st(), shape@) == Some(
                    (d@, final(self).st()),
                ),
                Err(_) => spec_decode_content(old(self).tag_spec(), old(self).st(), shape@)
                    is None,
            },
        decreases state_size(self.st()), shape_size(shape@), 1int,
    {
        match shape {
            Shape::Sequence(_) => {
                let items: Vec<Decoded> = Vec::new();
                proof {
                    assert(crate::decoded::items_view(items@) =~= Seq::<
                        crate::decoded::DecodedV,
                    >::empty());
                }
                Ok(Decoded::Sequence(items))
            },
            Shape::Optional(inner) => match self.decode_content(inner) {
                Ok(d) => Ok(Decoded::Present(Box::new(d))),
                Err(e) => Err(e),
            },
            Shape::Enum { name: _, variants } => {
                loop
                    invariant
                        self.wf(),
                        old(self).wf(),
                        self.node_spec() == old(self).node_spec(),
                        self.attr_pos == old(self).attr_pos,
                        self.child_pos >= old(self).child_pos,
                        state_size(self.st()) <= state_size(old(self).st()),
                        shape@ == (ShapeV::Enum {
                            name: shape@->Enum_name,
                            variants: variants_view(variants@),
                        }),
                        spec_decode_content(old(self).tag_spec(), old(self).st(), shape@)
                            == spec_decode_content(self.tag_spec(), self.st(), shape@),
                    decreases self.node_spec().children.len() - self.child_pos,
                {
                    let node_ref = self.node;
                    let lc = node_ref.children.len();
                    proof {
                        lemma_children_view(node_ref.children@);
                    }
                    if self.child_pos == lc {
                        proof {
                            assert(self.st().kids.len() == 0);
                        }
                        return Err(Error::custom(String::from_str("expected an element")));
                    }
                    proof {
                        lemma_skip_shift(self.node@.children, self.child_pos as int);
                        assert(self.st().kids[0] == child_view(
                            node_ref.children@[self.child_pos as int],
                        ));
                    }
                    let ghost st_before = self.st();
                    match &node_ref.children[self.child_pos] {
                        XmlChild::Comment(_) => {
                            self.child_pos = self.child_pos + 1;
                            proof {
                                lemma_children_size_skip_one(st_before.kids);
                                assert(self.node@.children.skip(self.child_pos as int)
                                    =~= st_before.kids.drop_first());
                                assert(self.st() == StateV {
                                    attrs: st_before.attrs,
                                    kids: st_before.kids.drop_first(),
                                });
                            }
                        },
                        XmlChild::Text(t) => {
                            if is_ws_only(t.as_str()) {
                                self.child_pos = self.child_pos + 1;
                                proof {
                                    lemma_children_size_skip_one(st_before.kids);
                                    assert(self.node@.children.skip(self.child_pos as int)
                                        =~= st_before.kids.drop_first());
                                    assert(self.st() == StateV {
                                        attrs: st_before.attrs,
                                        kids: st_before.kids.drop_first(),
                                    });
                                }
                            } else {
                                return Err(
                                    Error::custom(
                                        String::from_str("unexpected text ").concat(t.as_str()),
                                    ),
                                );
                            }
                        },
                        XmlChild::Element(n) => {
                            match find_variant_idx(variants, n.tag.as_str()) {
                                Some(i) => {
                                    proof {
                                        lemma_variants_view(variants@);
                                        lemma_find_variant(variants_view(variants@), n.tag@);
                                        lemma_variant_shape_size(
                                            variants_view(variants@),
                                            i as int,
                                        );
                                        assert(variants_view(variants@)[i as int].shape
                                            == crate::shape::shape_view(
                                            variants@[i as int].shape,
                                        ));
                                        assert(st_before.kids[0] == ChildV::Element(n@));
                                        lemma_element_child_state(st_before.kids, n@);
                                        assert(children_size(st_before.kids) <= state_size(
                                            st_before,
                                        ));
                                    }
                                    let mut cd = ElementDeserializer::new(n);
                                    match cd.decode(&variants[i].shape) {
                                        Ok(payload) => {
                                            self.child_pos = self.child_pos + 1;
                                            proof {
                                                assert(self.node@.children.skip(
                                                    self.child_pos as int,
                                                ) =~= st_before.kids.drop_first());
                                                assert(self.st() == StateV {
                                                    attrs: st_before.attrs,
                                                    kids: st_before.kids.drop_first(),
                                                });
                                            }
                                            return Ok(
                                                Decoded::Enum {
                                                    variant: n.tag.clone(),
                                                    payload: Box::new(payload),
                                                },
                                            );
                                        },
                                        Err(e) => {
                                            return Err(e);
                                        },
                                    }
                                },
                                None => {
                                    return Err(
                                        Error::custom(
                                            String::from_str("unknown variant ").concat(
                                                n.tag.as_str(),
                                            ),
                                        ),
                                    );
                                },
                            }
                        },
                    }
                }
            },
            _ => self.decode(shape),
        }
    }
}


impl<'a> ElementDeserializer<'a> {
    /// Decodes every element child as one item of a sequence, dropping the
    /// children that are not elements, and exhausting the child cursor.
    fn decode_seq_all(&mut self, elem: &Shape) -> (r: Result<Vec<Decoded>, Error>)
        requires
            old(self).wf(),
        ensures
            final(self).wf(),
            final(self).node_spec() == old(self).node_spec(),
            final(self).attr_pos == old(self).attr_pos,
            final(self).child_pos >= old(self).child_pos,
            match r {
                Ok(items) => seq_all_items(old(self).st().kids, elem@) == Some(
                    crate::decoded::items_view(items@),
                ) && final(self).st().kids.len() == 0,
                Err(_) => seq_all_items(old(self).st().kids, elem@) is None,
            },
        decreases children_size(self.st().kids), shape_size(elem@), 0int,
    {
        let mut items: Vec<Decoded> = Vec::new();
        let ghost entry_kids = self.st().kids;
        proof {
            assert(crate::decoded::items_view(items@) =~= Seq::<crate::decoded::DecodedV>::empty());
        }
        loop
            invariant
                self.wf(),
                old(self).wf(),
                self.node_spec() == old(self).node_spec(),
                self.attr_pos == old(self).attr_pos,
                self.child_pos >= old(self).child_pos,
                entry_kids == old(self).st().kids,
                children_size(self.st().kids) <= children_size(entry_kids),
                ({
                    let now = seq_all_items(self.st().kids, elem@);
                    let whole = seq_all_items(entry_kids, elem@);
                    match now {
                        Some(rest) => whole == Some(crate::decoded::items_view(items@) + rest),
                        None => whole is None,
                    }
                }),
            decreases self.node_spec().children.len() - self.child_pos,
        {
            let node_ref = self.node;
            let lc = node_ref.children.len();
            proof {
                lemma_children_view(node_ref.children@);
            }
            if self.child_pos == lc {
                proof {
                    assert(self.st().kids.len() == 0);
                    assert(crate::decoded::items_view(items@) + Seq::<
                        crate::decoded::DecodedV,
                    >::empty() =~= crate::decoded::items_view(items@));
                }
                return Ok(items);
            }
            proof {
                lemma_skip_shift(self.node@.children, self.child_pos as int);
                assert(self.st().kids[0] == child_view(node_ref.children@[self.child_pos as int]));
            }
            let ghost kids_before = self.st().kids;
            match &node_ref.children[self.child_pos] {
                XmlChild::Element(n) => {
                    proof {
                        assert(kids_before[0] == ChildV::Element(n@));
                        lemma_element_child_state(kids_before, n@);
                    }
                    let mut cd = ElementDeserializer::new(n);
                    match cd.decode(elem) {
                        Ok(d) => {
                            let ghost dv = crate::decoded::decoded_view(d);
                            let ghost prev = items@;
                            items.push(d);
                            self.child_pos = self.child_pos + 1;
                            proof {
                                assert(self.node@.children.skip(self.child_pos as int)
                                    =~= kids_before.drop_first());
                                lemma_children_size_skip_one(kids_before);
                                crate::decoded::lemma_items_view_push(prev, items@[prev.len() as int]);
                                let now2 = seq_all_items(self.st().kids, elem@);
                                match now2 {
                                    Some(rest2) => {
                                        assert(seq_all_items(kids_before, elem@) == Some(
                                            seq![dv] + rest2,
                                        ));
                                        assert(crate::decoded::items_view(prev) + (seq![dv]
                                            + rest2) =~= crate::decoded::items_view(items@)
                                            + rest2);
                                    },
                                    None => {
                                        assert(seq_all_items(kids_before, elem@) is None);
                                    },
                                }
                            }
                        },
                        Err(e) => {
                            return Err(e);
                        },
                    }
                },
                _ => {
                    self.child_pos = self.child_pos + 1;
                    proof {
                        assert(self.node@.children.skip(self.child_pos as int)
                            =~= kids_before.drop_first());
                        lemma_children_size_skip_one(kids_before);
                        assert(!(kids_before[0] is Element));
                    }
                },
            }
        }
    }

    /// Decodes the maximal contiguous run of `tagb`-tagged element siblings
    /// from the child cursor, skipping comments and whitespace-only text;
    /// the first differently-tagged element stops the run unconsumed, and
    /// non-whitespace text fails the decode.
    fn decode_seq_run(&mut self, tagb: &str, elem: &Shape) -> (r: Result<Vec<Decoded>, Error>)
        requires
            old(self).wf(),
        ensures
            final(self).wf(),
            final(self).node_spec() == old(self).node_spec(),
            final(self).attr_pos == old(self).attr_pos,
            final(self).child_pos >= old(self).child_pos,
            match r {
                Ok(items) => seq_run_items(tagb@, old(self).st().kids, elem@) == Some(
                    crate::decoded::items_view(items@),
                ) && final(self).child_pos == old(self).child_pos + seq_run_len(
                    tagb@,
                    old(self).st().kids,
                ),
                Err(_) => seq_run_items(tagb@, old(self).st().kids, elem@) is None,
            },
        decreases children_size(self.st().kids), shape_size(elem@), 0int,
    {
        let mut items: Vec<Decoded> = Vec::new();
        let ghost entry_kids = self.st().kids;
        let entry_pos = self.child_pos;
        proof {
            assert(crate::decoded::items_view(items@) =~= Seq::<crate::decoded::DecodedV>::empty());
        }
        loop
            invariant
                self.wf(),
                old(self).wf(),
                self.node_spec() == old(self).node_spec(),
                self.attr_pos == old(self).attr_pos,
                self.child_pos >= entry_pos,
                entry_pos == old(self).child_pos,
                entry_kids == old(self).st().kids,
                children_size(self.st().kids) <= children_size(entry_kids),
                ({
                    let now = seq_run_items(tagb@, self.st().kids, elem@);
                    let whole = seq_run_items(tagb@, entry_kids, elem@);
                    match now {
                        Some(rest) => whole == Some(crate::decoded::items_view(items@) + rest)
                            && seq_run_len(tagb@, entry_kids) == (self.child_pos - entry_pos)
                            + seq_run_len(tagb@, self.st().kids),
                        None => whole is None,
                    }
                }),
            decreases self.node_spec().children.len() - self.child_pos,
        {
            let node_ref = self.node;
            let lc = node_ref.children.len();
            proof {
                lemma_children_view(node_ref.children@);
            }
            if self.child_pos == lc {
                proof {
                    assert(self.st().kids.len() == 0);
                    assert(seq_run_items(tagb@, self.st().kids, elem@) == Some(Seq::<
                        crate::decoded::DecodedV,
                    >::empty()));
                    assert(crate::decoded::items_view(items@) + Seq::<
                        crate::decoded::DecodedV,
                    >::empty() =~= crate::decoded::items_view(items@));
                }
                return Ok(items);
            }
            proof {
                lemma_skip_shift(self.node@.children, self.child_pos as int);
                assert(self.st().kids[0] == child_view(node_ref.children@[self.child_pos as int]));
            }
            let ghost kids_before = self.st().kids;
            match &node_ref.children[self.child_pos] {
                XmlChild::Element(n) => {
                    if str_eq(n.tag.as_str(), tagb) {
                        proof {
                            assert(kids_before[0] == ChildV::Element(n@));
                            lemma_element_child_state(kids_before, n@);
                        }
                        let mut cd = ElementDeserializer::new(n);
                        match cd.decode(elem) {
                            Ok(d) => {
                                let ghost dv = crate::decoded::decoded_view(d);
                                let ghost prev = items@;
                                items.push(d);
                                self.child_pos = self.child_pos + 1;
                                proof {
                                    assert(self.node@.children.skip(self.child_pos as int)
                                        =~= kids_before.drop_first());
                                    lemma_children_size_skip_one(kids_before);
                                    crate::decoded::lemma_items_view_push(
                                        prev,
                                        items@[prev.len() as int],
                                    );
                                    let now2 = seq_run_items(tagb@, self.st().kids, elem@);
                                    match now2 {
                                        Some(rest2) => {
                                            assert(seq_run_items(tagb@, kids_before, elem@)
                                                == Some(seq![dv] + rest2));
                                            assert(crate::decoded::items_view(prev) + (seq![dv]
                                                + rest2) =~= crate::decoded::items_view(items@)
                                                + rest2);
                                            assert(seq_run_len(tagb@, kids_before) == 1
                                                + seq_run_len(tagb@, self.st().kids));
                                        },
                                        None => {
                                            assert(seq_run_items(tagb@, kids_before, elem@)
                                                is None);
                                        },
                                    }
                                }
                            },
                            Err(e) => {
                                return Err(e);
                            },
                        }
                    } else {
                        proof {
                            assert(seq_run_items(tagb@, kids_before, elem@) == Some(Seq::<
                                crate::decoded::DecodedV,
                            >::empty()));
                            assert(seq_run_len(tagb@, kids_before) == 0);
                            assert(crate::decoded::items_view(items@) + Seq::<
                                crate::decoded::DecodedV,
                            >::empty() =~= crate::decoded::items_view(items@));
                        }
                        return Ok(items);
                    }
                },
                XmlChild::Text(t) => {
                    if is_ws_only(t.as_str()) {
                        self.child_pos = self.child_pos + 1;
                        proof {
                            assert(self.node@.children.skip(self.child_pos as int)
                                =~= kids_before.drop_first());
                            lemma_children_size_skip_one(kids_before);
                            assert(seq_run_items(tagb@, kids_before, elem@) == seq_run_items(
                                tagb@,
                                self.st().kids,
                                elem@,
                            ));
                            assert(seq_run_len(tagb@, kids_before) == 1 + seq_run_len(
                                tagb@,
                                self.st().kids,
                            ));
                        }
                    } else {
                        proof {
                            assert(seq_run_items(tagb@, kids_before, elem@) is None);
                        }
                        return Err(
                            Error::custom(
                                String::from_str("unexpected text in sequence ").concat(
                                    t.as_str(),
                                ),
                            ),
                        );
                    }
                },
                XmlChild::Comment(_) => {
                    self.child_pos = self.child_pos + 1;
                    proof {
                        assert(self.node@.children.skip(self.child_pos as int)
                            =~= kids_before.drop_first());
                        lemma_children_size_skip_one(kids_before);
                        assert(seq_run_items(tagb@, kids_before, elem@) == seq_run_items(
                            tagb@,
                            self.st().kids,
                            elem@,
                        ));
                        assert(seq_run_len(tagb@, kids_before) == 1 + seq_run_len(
                            tagb@,
                            self.st().kids,
                        ));
                    }
                },
            }
        }
    }
}


/// Advancing either cursor strictly shrinks the remaining state.
proof fn lemma_state_size_advance(n: NodeV, a0: int, c0: int, a1: int, c1: int)
    requires
        0 <= a0 <= a1 <= n.attrs.len(),
        0 <= c0 <= c1 <= n.children.len(),
    ensures
        state_size(StateV { attrs: n.attrs.skip(a1), kids: n.children.skip(c1) }) + (a1 - a0) + (
        c1 - c0) <= state_size(StateV { attrs: n.attrs.skip(a0), kids: n.children.skip(c0) }),
{
    assert(n.children.skip(c1) =~= n.children.skip(c0).skip(c1 - c0));
    crate::tree::lemma_children_size_skip(n.children.skip(c0), c1 - c0);
}

impl<'a> ElementDeserializer<'a> {
    /// The field-matching loop: reconciles the remaining attributes and
    /// children against the requested fields, yielding one entry per claim,
    /// in document order.
    #[verifier::rlimit(60)]
    fn decode_fields(&mut self, fields: &Vec<Field>) -> (r: Result<Vec<Entry>, Error>)
        requires
            old(self).wf(),
        ensures
            final(self).wf(),
            final(self).node_spec() == old(self).node_spec(),
            final(self).attr_pos >= old(self).attr_pos,
            final(self).child_pos >= old(self).child_pos,
            match r {
                Ok(entries) => field_loop(
                    old(self).tag_spec(),
                    old(self).st(),
                    fields_view(fields@),
                    0,
                ) == Some((crate::decoded::entries_view(entries@), final(self).st())),
                Err(_) => field_loop(
                    old(self).tag_spec(),
                    old(self).st(),
                    fields_view(fields@),
                    0,
                ) is None,
            },
        decreases state_size(self.st()), fields_size(fields_view(fields@)), 2int,
    {
        let ghost tagv = self.tag_spec();
        let ghost entry_st = self.st();
        let ghost fsv = fields_view(fields@);
        let entry_apos = self.attr_pos;
        let entry_cpos = self.child_pos;
        let mut entries: Vec<Entry> = Vec::new();
        let mut flat: u128 = 0;
        proof {
            assert(crate::decoded::entries_view(entries@) =~= Seq::<
                (Seq<char>, crate::decoded::DecodedV),
            >::empty());
            let now0 = field_loop(tagv, self.st(), fsv, 0);
            match now0 {
                Some((rest, stf)) => {
                    assert(Seq::<(Seq<char>, crate::decoded::DecodedV)>::empty() + rest =~= rest);
                },
                None => {},
            }
        }
        loop
            invariant
                self.wf(),
                old(self).wf(),
                self.node_spec() == old(self).node_spec(),
                entry_apos == old(self).attr_pos,
                entry_cpos == old(self).child_pos,
                self.attr_pos >= entry_apos,
                self.child_pos >= entry_cpos,
                tagv == self.tag_spec(),
                entry_st == old(self).st(),
                fsv == fields_view(fields@),
                flat as nat <= (self.attr_pos - entry_apos) + (self.child_pos - entry_cpos),
                state_size(self.st()) <= state_size(entry_st),
                ({
                    let now = field_loop(tagv, self.st(), fsv, flat as nat);
                    let whole = field_loop(tagv, entry_st, fsv, 0);
                    match now {
                        Some((rest, stf)) => whole == Some(
                            (crate::decoded::entries_view(entries@) + rest, stf),
                        ),
                        None => whole is None,
                    }
                }),
            decreases state_size(self.st()),
        {
            let node_ref = self.node;
            let la = node_ref.attributes.len();
            let lc = node_ref.children.len();
            proof {
                lemma_children_view(node_ref.children@);
                lemma_fields_view(fields@);
                lemma_state_size_advance(
                    self.node_spec(),
                    entry_apos as int,
                    entry_cpos as int,
                    self.attr_pos as int,
                    self.child_pos as int,
                );
            }
            let ghost st_before = self.st();
            if self.attr_pos < la {
                proof {
                    lemma_skip_shift(self.node@.attrs, self.attr_pos as int);
                    assert(st_before.attrs[0] == self.node@.attrs[self.attr_pos as int]);
                }
                let pair = &node_ref.attributes[self.attr_pos];
                match find_attr_field_idx(fields, pair.0.as_str()) {
                    Some(i) => {
                        proof {
                            assert(fsv[i as int].shape == crate::shape::shape_view(
                                fields@[i as int].shape,
                            ));
                        }
                        match decode_text(pair.1.as_str(), &fields[i].shape) {
                            Ok(val) => {
                                let e = Entry { key: pair.0.clone(), value: val };
                                let ghost ev = (e.key@, crate::decoded::decoded_view(e.value));
                                let ghost prev = entries@;
                                entries.push(e);
                                self.attr_pos = self.attr_pos + 1;
                                proof {
                                    assert(self.node@.attrs.skip(self.attr_pos as int)
                                        =~= st_before.attrs.drop_first());
                                    assert(self.st() == StateV {
                                        attrs: st_before.attrs.drop_first(),
                                        kids: st_before.kids,
                                    });
                                    crate::decoded::lemma_entries_view_push(
                                        prev,
                                        entries@[prev.len() as int],
                                    );
                                    let now2 = field_loop(tagv, self.st(), fsv, flat as nat);
                                    match now2 {
                                        Some((rest2, stf)) => {
                                            assert(field_loop(tagv, st_before, fsv, flat as nat)
                                                == Some((seq![ev] + rest2, stf)));
                                            assert(crate::decoded::entries_view(prev) + (
                                            seq![ev] + rest2)
                                                =~= crate::decoded::entries_view(entries@)
                                                + rest2);
                                        },
                                        None => {
                                            assert(field_loop(tagv, st_before, fsv, flat as nat)
                                                is None);
                                        },
                                    }
                                }
                            },
                            Err(e) => {
                                proof {
                                    assert(field_loop(tagv, st_before, fsv, flat as nat)
                                        is None);
                                }
                                return Err(e);
                            },
                        }
                    },
                    None => {
                        match find_flatten_field_idx(fields, flat) {
                            Some(j) => {
                                proof {
                                    lemma_find_flatten_field(fsv, flat as nat);
                                    lemma_field_shape_size(fsv, j as int);
                                    assert(fsv[j as int].shape == crate::shape::shape_view(
                                        fields@[j as int].shape,
                                    ));
                                }
                                let apos0 = self.attr_pos;
                                let cpos0 = self.child_pos;
                                match self.decode_content(&fields[j].shape) {
                                    Ok(val) => {
                                        let e = Entry {
                                            key: fields[j].name.clone(),
                                            value: val,
                                        };
                                        let ghost ev = (
                                            e.key@,
                                            crate::decoded::decoded_view(e.value),
                                        );
                                        let ghost prev = entries@;
                                        entries.push(e);
                                        let progressed = self.attr_pos != apos0 || self.child_pos
                                            != cpos0;
                                        proof {
                                            crate::decoded::lemma_entries_view_push(
                                                prev,
                                                entries@[prev.len() as int],
                                            );
                                            if progressed {
                                                lemma_children_view(self.node.children@);
                                                lemma_state_size_advance(
                                                    self.node_spec(),
                                                    apos0 as int,
                                                    cpos0 as int,
                                                    self.attr_pos as int,
                                                    self.child_pos as int,
                                                );
                                                assert(state_size(self.st()) < state_size(
                                                    st_before,
                                                ));
                                            } else {
                                                assert(self.st() == st_before);
                                            }
                                        }
                                        if progressed {
                                            proof {
                                                let now2 = field_loop(
                                                    tagv,
                                                    self.st(),
                                                    fsv,
                                                    (flat + 1) as nat,
                                                );
                                                assert(field_loop(tagv, st_before, fsv, flat as nat)
                                                    == flatten_step(
                                                    tagv,
                                                    st_before,
                                                    fsv,
                                                    flat as nat,
                                                    j as int,
                                                ));
                                                match now2 {
                                                    Some((rest2, stf)) => {
                                                        assert(flatten_step(
                                                            tagv,
                                                            st_before,
                                                            fsv,
                                                            flat as nat,
                                                            j as int,
                                                        ) == Some((seq![ev] + rest2, stf)));
                                                        assert(crate::decoded::entries_view(prev)
                                                            + (seq![ev] + rest2)
                                                            =~= crate::decoded::entries_view(
                                                            entries@,
                                                        ) + rest2);
                                                    },
                                                    None => {},
                                                }
                                            }
                                            flat = flat + 1;
                                        } else {
                                            proof {
                                                assert(field_loop(tagv, st_before, fsv, flat as nat)
                                                    == Some((seq![ev], self.st())));
                                                assert(crate::decoded::entries_view(prev)
                                                    + seq![ev] =~= crate::decoded::entries_view(
                                                    entries@,
                                                ));
                                            }
                                            return Ok(entries);
                                        }
                                    },
                                    Err(e) => {
                                        proof {
                                            assert(field_loop(tagv, st_before, fsv, flat as nat)
                                                is None);
                                        }
                                        return Err(e);
                                    },
                                }
                            },
                            None => {
                                proof {
                                    assert(field_loop(tagv, st_before, fsv, flat as nat) == Some(
                                        (
                                            Seq::<(Seq<char>, crate::decoded::DecodedV)>::empty(),
                                            st_before,
                                        ),
                                    ));
                                    assert(crate::decoded::entries_view(entries@) + Seq::<
                                        (Seq<char>, crate::decoded::DecodedV),
                                    >::empty() =~= crate::decoded::entries_view(entries@));
                                }
                                return Ok(entries);
                            },
                        }
                    },
                }
            } else if self.child_pos < lc {
                proof {
                    lemma_skip_shift(self.node@.children, self.child_pos as int);
                    assert(st_before.kids[0] == child_view(
                        node_ref.children@[self.child_pos as int],
                    ));
                    assert(st_before.attrs.len() == 0);
                }
                match &node_ref.children[self.child_pos] {
                    XmlChild::Comment(_) => {
                        self.child_pos = self.child_pos + 1;
                        proof {
                            lemma_children_size_skip_one(st_before.kids);
                            assert(self.node@.children.skip(self.child_pos as int)
                                =~= st_before.kids.drop_first());
                            assert(self.st() == StateV {
                                attrs: st_before.attrs,
                                kids: st_before.kids.drop_first(),
                            });
                            assert(skippable(st_before.kids[0]));
                        }
                    },
                    XmlChild::Text(t) => {
                        if is_ws_only(t.as_str()) {
                            self.child_pos = self.child_pos + 1;
                            proof {
                                lemma_children_size_skip_one(st_before.kids);
                                assert(self.node@.children.skip(self.child_pos as int)
                                    =~= st_before.kids.drop_first());
                                assert(self.st() == StateV {
                                    attrs: st_before.attrs,
                                    kids: st_before.kids.drop_first(),
                                });
                                assert(skippable(st_before.kids[0]));
                            }
                        } else {
                            match find_catch_all_field_idx(fields) {
                                Some(i) => {
                                    proof {
                                        assert(fsv[i as int].shape == crate::shape::shape_view(
                                            fields@[i as int].shape,
                                        ));
                                    }
                                    match decode_text(t.as_str(), &fields[i].shape) {
                                        Ok(val) => {
                                            let e = Entry {
                                                key: String::from_str("$"),
                                                value: val,
                                            };
                                            let ghost ev = (
                                                e.key@,
                                                crate::decoded::decoded_view(e.value),
                                            );
                                            let ghost prev = entries@;
                                            entries.push(e);
                                            self.child_pos = self.child_pos + 1;
                                            proof {
                                                reveal_strlit("$");
                                                assert("$"@ =~= seq!['$']);
                                                lemma_children_size_skip_one(st_before.kids);
                                                assert(self.node@.children.skip(
                                                    self.child_pos as int,
                                                ) =~= st_before.kids.drop_first());
                                                assert(self.st() == StateV {
                                                    attrs: st_before.attrs,
                                                    kids: st_before.kids.drop_first(),
                                                });
                                                crate::decoded::lemma_entries_view_push(
                                                    prev,
                                                    entries@[prev.len() as int],
                                                );
                                                let now2 = field_loop(
                                                    tagv,
                                                    self.st(),
                                                    fsv,
                                                    flat as nat,
                                                );
                                                match now2 {
                                                    Some((rest2, stf)) => {
                                                        assert(field_loop(
                                                            tagv,
                                                            st_before,
                                                            fsv,
                                                            flat as nat,
                                                        ) == Some((seq![ev] + rest2, stf)));
                                                        assert(crate::decoded::entries_view(prev)
                                                            + (seq![ev] + rest2)
                                                            =~= crate::decoded::entries_view(
                                                            entries@,
                                                        ) + rest2);
                                                    },
                                                    None => {},
                                                }
                                            }
                                        },
                                        Err(e) => {
                                            proof {
                                                assert(field_loop(
                                                    tagv,
                                                    st_before,
                                                    fsv,
                                                    flat as nat,
                                                ) is None);
                                            }
                                            return Err(e);
                                        },
                                    }
                                },
                                None => {
                                    proof {
                                        assert(field_loop(tagv, st_before, fsv, flat as nat)
                                            == Some(
                                            (
                                                Seq::<
                                                    (Seq<char>, crate::decoded::DecodedV),
                                                >::empty(),
                                                st_before,
                                            ),
                                        ));
                                        assert(crate::decoded::entries_view(entries@) + Seq::<
                                            (Seq<char>, crate::decoded::DecodedV),
                                        >::empty() =~= crate::decoded::entries_view(entries@));
                                    }
                                    return Ok(entries);
                                },
                            }
                        }
                    },
                    XmlChild::Element(n) => {
                        let tag_str = n.tag.as_str();
                        let found = find_tag_field_idx(fields, tag_str);
                        let tag_nonempty = tag_str.unicode_len() > 0;
                        let mut matched: bool = false;
                        let mut idx: usize = 0;
                        match found {
                            Some(i) => {
                                if tag_nonempty {
                                    matched = true;
                                    idx = i;
                                }
                            },
                            None => {},
                        }
                        if matched {
                            let i = idx;
                            proof {
                                lemma_find_tag_field(fsv, tag_str@);
                                lemma_field_shape_size(fsv, i as int);
                                assert(fsv[i as int].shape == crate::shape::shape_view(
                                    fields@[i as int].shape,
                                ));
                                assert(fsv[i as int].name == fields@[i as int].name@);
                                assert(st_before.kids[0] == ChildV::Element(n@));
                                lemma_element_child_state(st_before.kids, n@);
                            }
                            let nm = fields[i].name.as_str();
                            let rep = split_index(nm) < nm.unicode_len();
                            if rep {
                                match &fields[i].shape {
                                    Shape::Sequence(elem) => {
                                        match self.decode_seq_run(tag_str, elem) {
                                            Ok(items) => {
                                                let e = Entry {
                                                    key: fields[i].name.clone(),
                                                    value: Decoded::Sequence(items),
                                                };
                                                let ghost ev = (
                                                    e.key@,
                                                    crate::decoded::decoded_view(e.value),
                                                );
                                                let ghost prev = entries@;
                                                entries.push(e);
                                                proof {
                                                    let k = seq_run_len(tag_str@, st_before.kids);
                                                    lemma_seq_run_len_le(
                                                        tag_str@,
                                                        st_before.kids,
                                                    );
                                                    assert(k >= 1);
                                                    assert(self.node@.children.skip(
                                                        self.child_pos as int,
                                                    ) =~= st_before.kids.skip(k as int));
                                                    assert(self.st() == StateV {
                                                        attrs: st_before.attrs,
                                                        kids: st_before.kids.skip(k as int),
                                                    });
                                                    crate::tree::lemma_children_size_skip(
                                                        st_before.kids,
                                                        k as int,
                                                    );
                                                    crate::decoded::lemma_entries_view_push(
                                                        prev,
                                                        entries@[prev.len() as int],
                                                    );
                                                    let now2 = field_loop(
                                                        tagv,
                                                        self.st(),
                                                        fsv,
                                                        flat as nat,
                                                    );
                                                    match now2 {
                                                        Some((rest2, stf)) => {
                                                            assert(field_loop(
                                                                tagv,
                                                                st_before,
                                                                fsv,
                                                                flat as nat,
                                                            ) == Some((seq![ev] + rest2, stf)));
                                                            assert(crate::decoded::entries_view(
                                                                prev,
                                                            ) + (seq![ev] + rest2)
                                                                =~= crate::decoded::entries_view(
                                                                entries@,
                                                            ) + rest2);
                                                        },
                                                        None => {},
                                                    }
                                                }
                                            },
                                            Err(e) => {
                                                proof {
                                                    assert(field_loop(
                                                        tagv,
                                                        st_before,
                                                        fsv,
                                                        flat as nat,
                                                    ) is None);
                                                }
                                                return Err(e);
                                            },
                                        }
                                    },
                                    _ => {
                                        proof {
                                            assert(field_loop(tagv, st_before, fsv, flat as nat)
                                                is None);
                                        }
                                        return Err(
                                            Error::custom(
                                                String::from_str(
                                                    "a repeating field wants a sequence",
                                                ),
                                            ),
                                        );
                                    },
                                }
                            } else {
                                let mut cd = ElementDeserializer::new(n);
                                match cd.decode(&fields[i].shape) {
                                    Ok(val) => {
                                        let e = Entry {
                                            key: fields[i].name.clone(),
                                            value: val,
                                        };
                                        let ghost ev = (
                                            e.key@,
                                            crate::decoded::decoded_view(e.value),
                                        );
                                        let ghost prev = entries@;
                                        entries.push(e);
                                        self.child_pos = self.child_pos + 1;
                                        proof {
                                            lemma_children_size_skip_one(st_before.kids);
                                            assert(self.node@.children.skip(self.child_pos as int)
                                                =~= st_before.kids.drop_first());
                                            assert(self.st() == StateV {
                                                attrs: st_before.attrs,
                                                kids: st_before.kids.drop_first(),
                                            });
                                            crate::decoded::lemma_entries_view_push(
                                                prev,
                                                entries@[prev.len() as int],
                                            );
                                            let now2 = field_loop(
                                                tagv,
                                                self.st(),
                                                fsv,
                                                flat as nat,
                                            );
                                            match now2 {
                                                Some((rest2, stf)) => {
                                                    assert(field_loop(
                                                        tagv,
                                                        st_before,
                                                        fsv,
                                                        flat as nat,
                                                    ) == Some((seq![ev] + rest2, stf)));
                                                    assert(crate::decoded::entries_view(prev) + (
                                                    seq![ev] + rest2)
                                                        =~= crate::decoded::entries_view(entries@)
                                                        + rest2);
                                                },
                                                None => {},
                                            }
                                        }
                                    },
                                    Err(e) => {
                                        proof {
                                            assert(field_loop(tagv, st_before, fsv, flat as nat)
                                                is None);
                                        }
                                        return Err(e);
                                    },
                                }
                            }
                        } else {
                            match find_flatten_field_idx(fields, flat) {
                                Some(j) => {
                                    proof {
                                        lemma_find_flatten_field(fsv, flat as nat);
                                        lemma_field_shape_size(fsv, j as int);
                                        assert(fsv[j as int].shape == crate::shape::shape_view(
                                            fields@[j as int].shape,
                                        ));
                                    }
                                    let apos0 = self.attr_pos;
                                    let cpos0 = self.child_pos;
                                    match self.decode_content(&fields[j].shape) {
                                        Ok(val) => {
                                            let e = Entry {
                                                key: fields[j].name.clone(),
                                                value: val,
                                            };
                                            let ghost ev = (
                                                e.key@,
                                                crate::decoded::decoded_view(e.value),
                                            );
                                            let ghost prev = entries@;
                                            entries.push(e);
                                            let progressed = self.attr_pos != apos0
                                                || self.child_pos != cpos0;
                                            proof {
                                                crate::decoded::lemma_entries_view_push(
                                                    prev,
                                                    entries@[prev.len() as int],
                                                );
                                                if progressed {
                                                    lemma_children_view(self.node.children@);
                                                    lemma_state_size_advance(
                                                        self.node_spec(),
                                                        apos0 as int,
                                                        cpos0 as int,
                                                        self.attr_pos as int,
                                                        self.child_pos as int,
                                                    );
                                                    assert(state_size(self.st()) < state_size(
                                                        st_before,
                                                    ));
                                                } else {
                                                    assert(self.st() == st_before);
                                                }
                                            }
                                            if progressed {
                                                proof {
                                                    let now2 = field_loop(
                                                        tagv,
                                                        self.st(),
                                                        fsv,
                                                        (flat + 1) as nat,
                                                    );
                                                    assert(field_loop(
                                                        tagv,
                                                        st_before,
                                                        fsv,
                                                        flat as nat,
                                                    ) == flatten_step(
                                                        tagv,
                                                        st_before,
                                                        fsv,
                                                        flat as nat,
                                                        j as int,
                                                    ));
                                                    match now2 {
                                                        Some((rest2, stf)) => {
                                                            assert(flatten_step(
                                                                tagv,
                                                                st_before,
                                                                fsv,
                                                                flat as nat,
                                                                j as int,
                                                            ) == Some((seq![ev] + rest2, stf)));
                                                            assert(crate::decoded::entries_view(
                                                                prev,
                                                            ) + (seq![ev] + rest2)
                                                                =~= crate::decoded::entries_view(
                                                                entries@,
                                                            ) + rest2);
                                                        },
                                                        None => {},
                                                    }
                                                }
                                                flat = flat + 1;
                                            } else {
                                                proof {
                                                    assert(field_loop(
                                                        tagv,
                                                        st_before,
                                                        fsv,
                                                        flat as nat,
                                                    ) == Some((seq![ev], self.st())));
                                                    assert(crate::decoded::entries_view(prev)
                                                        + seq![ev]
                                                        =~= crate::decoded::entries_view(
                                                        entries@,
                                                    ));
                                                }
                                                return Ok(entries);
                                            }
                                        },
                                        Err(e) => {
                                            proof {
                                                assert(field_loop(
                                                    tagv,
                                                    st_before,
                                                    fsv,
                                                    flat as nat,
                                                ) is None);
                                            }
                                            return Err(e);
                                        },
                                    }
                                },
                                None => {
                                    proof {
                                        assert(field_loop(tagv, st_before, fsv, flat as nat)
                                            == Some(
                                            (
                                                Seq::<
                                                    (Seq<char>, crate::decoded::DecodedV),
                                                >::empty(),
                                                st_before,
                                            ),
                                        ));
                                        assert(crate::decoded::entries_view(entries@) + Seq::<
                                            (Seq<char>, crate::decoded::DecodedV),
                                        >::empty() =~= crate::decoded::entries_view(entries@));
                                    }
                                    return Ok(entries);
                                },
                            }
                        }
                    },
                }
            } else {
                proof {
                    assert(st_before.attrs.len() == 0);
                    assert(st_before.kids.len() == 0);
                    assert(field_loop(tagv, st_before, fsv, flat as nat) == Some(
                        (Seq::<(Seq<char>, crate::decoded::DecodedV)>::empty(), st_before),
                    ));
                    assert(crate::decoded::entries_view(entries@) + Seq::<
                        (Seq<char>, crate::decoded::DecodedV),
                    >::empty() =~= crate::decoded::entries_view(entries@));
                }
                return Ok(entries);
            }
        }
    }
}

/// Decodes one node against a shape: a fresh decoder per node, living for
/// exactly one decode.
pub fn from_node(node: &XmlNode, shape: &Shape) -> (r: Result<Decoded, Error>)
    ensures
        match r {
            Ok(d) => decode_node_spec(node@, shape@) == Some(d@),
            Err(_) => decode_node_spec(node@, shape@) is None,
        },
{
    let mut d = ElementDeserializer::new(node);
    d.decode(shape)
}

} // verus!
