//! The decode protocol: a target describes the shape it wants as a small
//! closed datatype, and the decoder reconciles an element against it.
//!
//! A struct field's name carries a miniature grammar, split at the first
//! occurrence of one of `$ * + {`: the prefix is the tag it matches, and a
//! non-empty suffix marks a repeating field (bound to a contiguous run of
//! same-tagged siblings).  The reserved names — the empty string or the
//! decimal text of the current flatten index — mark a flatten field, and
//! the literal `"$"` marks the text catch-all field.

use vstd::prelude::*;

use crate::text::{is_unsigned_text, unsigned_val};

verus! {

/// The primitive kinds a scalar request can ask for.
#[derive(Debug, Clone, Copy, PartialEq, Eq)]
pub enum ScalarKind {
    Str,
    Bool,
    U8,
    U16,
    U32,
    I8,
    I16,
    I32,
}

/// A requested shape.
#[derive(Debug, PartialEq, Eq)]
pub enum Shape {
    /// Simple content decoded as one primitive.
    Scalar(ScalarKind),
    /// An element with nothing left in it.
    Unit,
    /// Always present; absence is expressed by omission one layer up.
    Optional(Box<Shape>),
    /// The elements among the children, each decoded to the item shape.
    Sequence(Box<Shape>),
    /// Named fields matched against attributes and children.
    Struct { fields: Vec<Field> },
    /// A tagged union: the variant is selected by text or by tag.
    Enum { name: String, variants: Vec<Variant> },
    /// Open-ended: the field-matching algorithm with no fields at all.
    OpenMap,
}

/// One field of a struct request: its (grammar-bearing) name and shape.
#[derive(Debug, PartialEq, Eq)]
pub struct Field {
    pub name: String,
    pub shape: Shape,
}

/// One variant of an enum request: its name and payload shape.
#[derive(Debug, PartialEq, Eq)]
pub struct Variant {
    pub name: String,
    pub shape: Shape,
}

/// The mathematical form of a shape.
pub ghost enum ShapeV {
    Scalar(ScalarKind),
    Unit,
    Optional(Box<ShapeV>),
    Sequence(Box<ShapeV>),
    Struct { fields: Seq<FieldV> },
    Enum { name: Seq<char>, variants: Seq<VariantV> },
    OpenMap,
}

/// The mathematical form of a field.
pub ghost struct FieldV {
    pub name: Seq<char>,
    pub shape: ShapeV,
}

/// The mathematical form of a variant.
pub ghost struct VariantV {
    pub name: Seq<char>,
    pub shape: ShapeV,
}

/// The model of a shape.
pub open spec fn shape_view(s: Shape) -> ShapeV
    decreases s, 1int,
{
    match s {
        Shape::Scalar(k) => ShapeV::Scalar(k),
        Shape::Unit => ShapeV::Unit,
        Shape::Optional(b) => ShapeV::Optional(Box::new(shape_view(*b))),
        Shape::Sequence(b) => ShapeV::Sequence(Box::new(shape_view(*b))),
        Shape::Struct { fields } => ShapeV::Struct { fields: fields_view(fields@) },
        Shape::Enum { name, variants } => ShapeV::Enum {
            name: name@,
            variants: variants_view(variants@),
        },
        Shape::OpenMap => ShapeV::OpenMap,
    }
}

/// The models of a field list, in order.
pub open spec fn fields_view(fs: Seq<Field>) -> Seq<FieldV>
    decreases fs, 0int,
{
    if fs.len() == 0 {
        Seq::empty()
    } else {
        seq![FieldV { name: fs[0].name@, shape: shape_view(fs[0].shape) }] + fields_view(
            fs.drop_first(),
        )
    }
}

/// The models of a variant list, in order.
pub open spec fn variants_view(vs: Seq<Variant>) -> Seq<VariantV>
    decreases vs, 0int,
{
    if vs.len() == 0 {
        Seq::empty()
    } else {
        seq![VariantV { name: vs[0].name@, shape: shape_view(vs[0].shape) }] + variants_view(
            vs.drop_first(),
        )
    }
}

/// `fields_view` maps the list elementwise.
pub proof fn lemma_fields_view(fs: Seq<Field>)
    ensures
        fields_view(fs).len() == fs.len(),
        forall|i: int|
            0 <= i < fs.len() ==> fields_view(fs)[i] == (FieldV {
                name: fs[i].name@,
                shape: shape_view(fs[i].shape),
            }),
    decreases fs,
{
    if fs.len() > 0 {
        lemma_fields_view(fs.drop_first());
    }
}

/// `variants_view` maps the list elementwise.
pub proof fn lemma_variants_view(vs: Seq<Variant>)
    ensures
        variants_view(vs).len() == vs.len(),
        forall|i: int|
            0 <= i < vs.len() ==> variants_view(vs)[i] == (VariantV {
                name: vs[i].name@,
                shape: shape_view(vs[i].shape),
            }),
    decreases vs,
{
    if vs.len() > 0 {
        lemma_variants_view(vs.drop_first());
    }
}

impl View for Shape {
    type V = ShapeV;

    open spec fn view(&self) -> ShapeV {
        shape_view(*self)
    }
}

/// How large a shape is; recursing into a sub-shape strictly shrinks it,
/// which grounds the decoder's termination argument.
pub open spec fn shape_size(s: ShapeV) -> nat
    decreases s, 1int,
{
    match s {
        ShapeV::Optional(b) => 1 + shape_size(*b),
        ShapeV::Sequence(b) => 1 + shape_size(*b),
        ShapeV::Struct { fields } => 1 + fields_size(fields),
        ShapeV::Enum { variants, .. } => 1 + variants_size(variants),
        _ => 1,
    }
}

/// The total size of a field list.
pub open spec fn fields_size(fs: Seq<FieldV>) -> nat
    decreases fs, 0int,
{
    if fs.len() == 0 {
        0
    } else {
        1 + shape_size(fs[0].shape) + fields_size(fs.drop_first())
    }
}

/// The total size of a variant list.
pub open spec fn variants_size(vs: Seq<VariantV>) -> nat
    decreases vs, 0int,
{
    if vs.len() == 0 {
        0
    } else {
        1 + shape_size(vs[0].shape) + variants_size(vs.drop_first())
    }
}

/// Each field's shape is strictly smaller than the whole list.
pub proof fn lemma_field_shape_size(fs: Seq<FieldV>, i: int)
    requires
        0 <= i < fs.len(),
    ensures
        shape_size(fs[i].shape) < fields_size(fs),
    decreases fs,
{
    if i > 0 {
        lemma_field_shape_size(fs.drop_first(), i - 1);
    }
}

/// Each variant's shape is strictly smaller than the whole list.
pub proof fn lemma_variant_shape_size(vs: Seq<VariantV>, i: int)
    requires
        0 <= i < vs.len(),
    ensures
        shape_size(vs[i].shape) < variants_size(vs),
    decreases vs,
{
    if i > 0 {
        lemma_variant_shape_size(vs.drop_first(), i - 1);
    }
}

/// The split position of a field name: the index of the first occurrence of
/// one of the marker characters `$ * + {`, or the name's length.
pub open spec fn is_marker_char(c: char) -> bool {
    c == '$' || c == '*' || c == '+' || c == '{'
}

/// The first marker position in `s`, or `s.len()` if there is none.
pub open spec fn split_pos(s: Seq<char>) -> int
    decreases s.len(),
{
    if s.len() == 0 {
        0
    } else if is_marker_char(s[0]) {
        0
    } else {
        1 + split_pos(s.drop_first())
    }
}

/// The match tag of a field name: everything before the first marker.
pub open spec fn field_tag(s: Seq<char>) -> Seq<char> {
    s.subrange(0, split_pos(s))
}

/// Whether a field name marks a repeating field: it has a non-empty suffix.
pub open spec fn is_repeating(s: Seq<char>) -> bool {
    split_pos(s) < s.len()
}

/// Whether a field name marks a flatten field at flatten index `idx`:
/// the empty name, or the decimal text of `idx`.
pub open spec fn is_flatten_name(s: Seq<char>, idx: nat) -> bool {
    s.len() == 0 || (is_unsigned_text(s) && unsigned_val(s) == idx)
}

/// Whether a field name marks the text catch-all field: the literal `"$"`.
pub open spec fn is_catch_all(s: Seq<char>) -> bool {
    s.len() == 1 && s[0] == '$'
}

/// `split_pos` lies within the name and is the first marker position.
pub proof fn lemma_split_pos(s: Seq<char>)
    ensures
        0 <= split_pos(s) <= s.len(),
        forall|i: int| 0 <= i < split_pos(s) ==> !is_marker_char(s[i]),
        split_pos(s) < s.len() ==> is_marker_char(s[split_pos(s)]),
    decreases s.len(),
{
    if s.len() > 0 && !is_marker_char(s[0]) {
        lemma_split_pos(s.drop_first());
        assert forall|i: int| 0 <= i < split_pos(s) implies !is_marker_char(s[i]) by {
            if i > 0 {
                assert(s.drop_first()[i - 1] == s[i]);
            }
        }
    }
}

} // verus!
