//! The decoder's mathematical model: what each request decodes to, stated
//! over the tree and shape models.
//!
//! An element decode works on a state — the attributes and children not yet
//! consumed — and every rule of the field-matching algorithm is one branch
//! here: attribute-before-child priority, flatten, repeating runs, the text
//! catch-all, whitespace and comment transparency, and internal versus
//! external union tagging.

use vstd::prelude::*;

use crate::decoded::DecodedV;
use crate::shape::{
    field_tag, is_catch_all, is_flatten_name, is_repeating, FieldV, ScalarKind, ShapeV, VariantV,
    fields_size, shape_size, lemma_field_shape_size, lemma_variant_shape_size,
};
use crate::text::{is_signed_text, is_unsigned_text, signed_val, unsigned_val};
use crate::tree::{
    child_size, children_size, lemma_children_size_skip, lemma_children_size_skip_one, ChildV,
    NodeV,
};

verus! {

/// The remaining input of one element decode.
pub ghost struct StateV {
    pub attrs: Seq<(Seq<char>, Seq<char>)>,
    pub kids: Seq<ChildV>,
}

/// How much input a state still holds.
pub open spec fn state_size(st: StateV) -> nat {
    st.attrs.len() + children_size(st.kids)
}

/// The fresh state of a whole element.
pub open spec fn node_state(n: NodeV) -> StateV {
    StateV { attrs: n.attrs, kids: n.children }
}

/// The empty state.
pub open spec fn empty_state() -> StateV {
    StateV { attrs: Seq::empty(), kids: Seq::empty() }
}

/// XML whitespace.
pub open spec fn is_xml_ws(c: char) -> bool {
    c == ' ' || c == '\t' || c == '\n' || c == '\r'
}

/// Whether text is whitespace-only.
pub open spec fn ws_only(t: Seq<char>) -> bool {
    forall|i: int| 0 <= i < t.len() ==> is_xml_ws(#[trigger] t[i])
}

/// Whether the field matcher silently skips this child.
pub open spec fn skippable(c: ChildV) -> bool {
    match c {
        ChildV::Comment(_) => true,
        ChildV::Text(t) => ws_only(t),
        ChildV::Element(_) => false,
    }
}

/// What one primitive request decodes text to.
pub open spec fn scalar_text(k: ScalarKind, t: Seq<char>) -> Option<DecodedV> {
    match k {
        ScalarKind::Str => Some(DecodedV::Str(t)),
        ScalarKind::Bool => if t == "yes"@ {
            Some(DecodedV::Bool(true))
        } else if t == "no"@ {
            Some(DecodedV::Bool(false))
        } else {
            None
        },
        ScalarKind::U8 => if is_unsigned_text(t) && unsigned_val(t) <= u8::MAX {
            Some(DecodedV::U8(unsigned_val(t) as u8))
        } else {
            None
        },
        ScalarKind::U16 => if is_unsigned_text(t) && unsigned_val(t) <= u16::MAX {
            Some(DecodedV::U16(unsigned_val(t) as u16))
        } else {
            None
        },
        ScalarKind::U32 => if is_unsigned_text(t) && unsigned_val(t) <= u32::MAX {
            Some(DecodedV::U32(unsigned_val(t) as u32))
        } else {
            None
        },
        ScalarKind::I8 => if is_signed_text(t) && i8::MIN <= signed_val(t) <= i8::MAX {
            Some(DecodedV::I8(signed_val(t) as i8))
        } else {
            None
        },
        ScalarKind::I16 => if is_signed_text(t) && i16::MIN <= signed_val(t) <= i16::MAX {
            Some(DecodedV::I16(signed_val(t) as i16))
        } else {
            None
        },
        ScalarKind::I32 => if is_signed_text(t) && i32::MIN <= signed_val(t) <= i32::MAX {
            Some(DecodedV::I32(signed_val(t) as i32))
        } else {
            None
        },
    }
}

/// The first variant with this name, or -1.
pub open spec fn find_variant(vs: Seq<VariantV>, nm: Seq<char>) -> int
    decreases vs,
{
    if vs.len() == 0 {
        -1
    } else if vs[0].name == nm {
        0
    } else {
        let r = find_variant(vs.drop_first(), nm);
        if r < 0 {
            -1
        } else {
            1 + r
        }
    }
}

/// The first field whose raw name equals `nm`, or -1.
pub open spec fn find_attr_field(fs: Seq<FieldV>, nm: Seq<char>) -> int
    decreases fs,
{
    if fs.len() == 0 {
        -1
    } else if fs[0].name == nm {
        0
    } else {
        let r = find_attr_field(fs.drop_first(), nm);
        if r < 0 {
            -1
        } else {
            1 + r
        }
    }
}

/// The first field whose match tag equals `tag`, or -1.
pub open spec fn find_tag_field(fs: Seq<FieldV>, tag: Seq<char>) -> int
    decreases fs,
{
    if fs.len() == 0 {
        -1
    } else if field_tag(fs[0].name) == tag {
        0
    } else {
        let r = find_tag_field(fs.drop_first(), tag);
        if r < 0 {
            -1
        } else {
            1 + r
        }
    }
}

/// The first flatten field available at index `idx`, or -1.
pub open spec fn find_flatten_field(fs: Seq<FieldV>, idx: nat) -> int
    decreases fs,
{
    if fs.len() == 0 {
        -1
    } else if is_flatten_name(fs[0].name, idx) {
        0
    } else {
        let r = find_flatten_field(fs.drop_first(), idx);
        if r < 0 {
            -1
        } else {
            1 + r
        }
    }
}

/// The first text catch-all field, or -1.
pub open spec fn find_catch_all_field(fs: Seq<FieldV>) -> int
    decreases fs,
{
    if fs.len() == 0 {
        -1
    } else if is_catch_all(fs[0].name) {
        0
    } else {
        let r = find_catch_all_field(fs.drop_first());
        if r < 0 {
            -1
        } else {
            1 + r
        }
    }
}

/// `find_variant` returns the first matching index or -1.
pub proof fn lemma_find_variant(vs: Seq<VariantV>, nm: Seq<char>)
    ensures
        find_variant(vs, nm) == -1 || (0 <= find_variant(vs, nm) < vs.len()),
        find_variant(vs, nm) >= 0 ==> vs[find_variant(vs, nm)].name == nm,
        forall|j: int|
            0 <= j < vs.len() && (find_variant(vs, nm) == -1 || j < find_variant(vs, nm))
                ==> #[trigger] vs[j].name != nm,
    decreases vs,
{
    if vs.len() > 0 && vs[0].name != nm {
        lemma_find_variant(vs.drop_first(), nm);
        assert forall|j: int|
            0 <= j < vs.len() && (find_variant(vs, nm) == -1 || j < find_variant(vs, nm)) implies #[trigger] vs[j].name
            != nm by {
            if j > 0 {
                assert(vs.drop_first()[j - 1] == vs[j]);
            }
        }
    }
}

/// `find_attr_field` returns the first matching index or -1.
pub proof fn lemma_find_attr_field(fs: Seq<FieldV>, nm: Seq<char>)
    ensures
        find_attr_field(fs, nm) == -1 || (0 <= find_attr_field(fs, nm) < fs.len()),
        find_attr_field(fs, nm) >= 0 ==> fs[find_attr_field(fs, nm)].name == nm,
        forall|j: int|
            0 <= j < fs.len() && (find_attr_field(fs, nm) == -1 || j < find_attr_field(fs, nm))
                ==> #[trigger] fs[j].name != nm,
    decreases fs,
{
    if fs.len() > 0 && fs[0].name != nm {
        lemma_find_attr_field(fs.drop_first(), nm);
        assert forall|j: int|
            0 <= j < fs.len() && (find_attr_field(fs, nm) == -1 || j < find_attr_field(fs, nm)) implies #[trigger] fs[j].name
            != nm by {
            if j > 0 {
                assert(fs.drop_first()[j - 1] == fs[j]);
            }
        }
    }
}

/// `find_tag_field` returns the first matching index or -1.
pub proof fn lemma_find_tag_field(fs: Seq<FieldV>, tag: Seq<char>)
    ensures
        find_tag_field(fs, tag) == -1 || (0 <= find_tag_field(fs, tag) < fs.len()),
        find_tag_field(fs, tag) >= 0 ==> field_tag(fs[find_tag_field(fs, tag)].name) == tag,
        forall|j: int|
            0 <= j < fs.len() && (find_tag_field(fs, tag) == -1 || j < find_tag_field(fs, tag))
                ==> field_tag(#[trigger] fs[j].name) != tag,
    decreases fs,
{
    if fs.len() > 0 && field_tag(fs[0].name) != tag {
        lemma_find_tag_field(fs.drop_first(), tag);
        assert forall|j: int|
            0 <= j < fs.len() && (find_tag_field(fs, tag) == -1 || j < find_tag_field(fs, tag)) implies field_tag(
            #[trigger] fs[j].name,
        ) != tag by {
            if j > 0 {
                assert(fs.drop_first()[j - 1] == fs[j]);
            }
        }
    }
}

/// `find_flatten_field` returns the first matching index or -1.
pub proof fn lemma_find_flatten_field(fs: Seq<FieldV>, idx: nat)
    ensures
        find_flatten_field(fs, idx) == -1 || (0 <= find_flatten_field(fs, idx) < fs.len()),
        find_flatten_field(fs, idx) >= 0 ==> is_flatten_name(fs[find_flatten_field(fs, idx)].name, idx),
        forall|j: int|
            0 <= j < fs.len() && (find_flatten_field(fs, idx) == -1 || j < find_flatten_field(fs, idx))
                ==> !is_flatten_name(#[trigger] fs[j].name, idx),
    decreases fs,
{
    if fs.len() > 0 && !is_flatten_name(fs[0].name, idx) {
        lemma_find_flatten_field(fs.drop_first(), idx);
        assert forall|j: int|
            0 <= j < fs.len() && (find_flatten_field(fs, idx) == -1 || j < find_flatten_field(
                fs,
                idx,
            )) implies !is_flatten_name(#[trigger] fs[j].name, idx) by {
            if j > 0 {
                assert(fs.drop_first()[j - 1] == fs[j]);
            }
        }
    }
}

/// `find_catch_all_field` returns the first matching index or -1.
pub proof fn lemma_find_catch_all_field(fs: Seq<FieldV>)
    ensures
        find_catch_all_field(fs) == -1 || (0 <= find_catch_all_field(fs) < fs.len()),
        find_catch_all_field(fs) >= 0 ==> is_catch_all(fs[find_catch_all_field(fs)].name),
        forall|j: int|
            0 <= j < fs.len() && (find_catch_all_field(fs) == -1 || j < find_catch_all_field(fs))
                ==> !is_catch_all(#[trigger] fs[j].name),
    decreases fs,
{
    if fs.len() > 0 && !is_catch_all(fs[0].name) {
        lemma_find_catch_all_field(fs.drop_first());
        assert forall|j: int|
            0 <= j < fs.len() && (find_catch_all_field(fs) == -1 || j < find_catch_all_field(
                fs,
            )) implies !is_catch_all(#[trigger] fs[j].name) by {
            if j > 0 {
                assert(fs.drop_first()[j - 1] == fs[j]);
            }
        }
    }
}

/// What a tagged-union request decodes text to: the text itself is the
/// variant name, and only a unit variant can carry no payload.
pub open spec fn enum_text(variants: Seq<VariantV>, t: Seq<char>) -> Option<DecodedV> {
    let i = find_variant(variants, t);
    if i >= 0 && variants[i].shape is Unit {
        Some(DecodedV::Enum { variant: t, payload: Box::new(DecodedV::Unit) })
    } else {
        None
    }
}

/// What a shape decodes bare text to.  Text satisfies a scalar, resolves an
/// optional as present, or names a unit variant; every other request fails.
pub open spec fn spec_decode_text(t: Seq<char>, shape: ShapeV) -> Option<DecodedV>
    decreases shape,
{
    match shape {
        ShapeV::Scalar(k) => scalar_text(k, t),
        ShapeV::Optional(inner) => match spec_decode_text(t, *inner) {
            Some(d) => Some(DecodedV::Present(Box::new(d))),
            None => None,
        },
        ShapeV::Enum { name: _, variants } => enum_text(variants, t),
        _ => None,
    }
}

/// Simple content: no attributes left and exactly one text child left.
pub open spec fn simple_content_of(st: StateV) -> Option<Seq<char>> {
    if st.attrs.len() == 0 && st.kids.len() == 1 && st.kids[0] is Text {
        Some(st.kids[0]->Text_0)
    } else {
        None
    }
}

/// How many children a repeating run bound to `tagb` consumes: the maximal
/// contiguous prefix of same-tagged elements, comments and whitespace-only
/// text.
pub open spec fn seq_run_len(tagb: Seq<char>, kids: Seq<ChildV>) -> nat
    decreases kids,
{
    if kids.len() == 0 {
        0
    } else {
        match kids[0] {
            ChildV::Element(n) => if n.tag == tagb {
                1 + seq_run_len(tagb, kids.drop_first())
            } else {
                0
            },
            ChildV::Text(t) => if ws_only(t) {
                1 + seq_run_len(tagb, kids.drop_first())
            } else {
                0
            },
            ChildV::Comment(_) => 1 + seq_run_len(tagb, kids.drop_first()),
        }
    }
}

/// A run never consumes more than there is.
pub proof fn lemma_seq_run_len_le(tagb: Seq<char>, kids: Seq<ChildV>)
    ensures
        seq_run_len(tagb, kids) <= kids.len(),
    decreases kids,
{
    if kids.len() > 0 {
        lemma_seq_run_len_le(tagb, kids.drop_first());
    }
}

/// The content of an element child weighs strictly less than the list
/// holding it.
pub proof fn lemma_element_child_state(kids: Seq<ChildV>, n: NodeV)
    requires
        kids.len() > 0,
        kids[0] == ChildV::Element(n),
    ensures
        state_size(node_state(n)) < children_size(kids),
{
    assert(children_size(kids) == child_size(kids[0]) + children_size(kids.drop_first()));
}

/// What one element decode yields for a shape, and the state it leaves.
///
/// A scalar wants simple content; unit wants both cursors exhausted; an
/// optional always resolves present; a sequence takes every element child;
/// a struct or open map runs the field-matching loop; a union is tagged
/// internally when the element's own tag equals the union's name and
/// externally (the tag selects the variant) otherwise.
pub open spec fn spec_decode(tag: Seq<char>, st: StateV, shape: ShapeV) -> Option<
    (DecodedV, StateV),
>
    decreases state_size(st), shape_size(shape), 0int,
    via spec_decode_decreases
{
    match shape {
        ShapeV::Scalar(k) => match simple_content_of(st) {
            Some(t) => match scalar_text(k, t) {
                Some(d) => Some((d, empty_state())),
                None => None,
            },
            None => None,
        },
        ShapeV::Unit => if st.attrs.len() == 0 && st.kids.len() == 0 {
            Some((DecodedV::Unit, st))
        } else {
            None
        },
        ShapeV::Optional(inner) => match spec_decode(tag, st, *inner) {
            Some((d, st2)) => Some((DecodedV::Present(Box::new(d)), st2)),
            None => None,
        },
        ShapeV::Sequence(elem) => match seq_all_items(st.kids, *elem) {
            Some(items) => Some(
                (DecodedV::Sequence(items), StateV { attrs: st.attrs, kids: Seq::empty() }),
            ),
            None => None,
        },
        ShapeV::Struct { fields } => match field_loop(tag, st, fields, 0) {
            Some((entries, st2)) => Some((DecodedV::Struct(entries), st2)),
            None => None,
        },
        ShapeV::OpenMap => match field_loop(tag, st, Seq::empty(), 0) {
            Some((entries, st2)) => Some((DecodedV::Struct(entries), st2)),
            None => None,
        },
        ShapeV::Enum { name, variants } => if tag == name {
            match simple_content_of(st) {
                Some(t) => match enum_text(variants, t) {
                    Some(d) => Some((d, empty_state())),
                    None => None,
                },
                None => None,
            }
        } else {
            let i = find_variant(variants, tag);
            if i >= 0 {
                match spec_decode(tag, st, variants[i].shape) {
                    Some((d, st2)) => Some(
                        (DecodedV::Enum { variant: tag, payload: Box::new(d) }, st2),
                    ),
                    None => None,
                }
            } else {
                None
            }
        },
    }
}

#[via_fn]
proof fn spec_decode_decreases(tag: Seq<char>, st: StateV, shape: ShapeV) {
    match shape {
        ShapeV::Sequence(elem) => {
            assert(children_size(st.kids) <= state_size(st));
        },
        ShapeV::Enum { name, variants } => {
            let i = find_variant(variants, tag);
            if i >= 0 {
                lemma_find_variant(variants, tag);
                lemma_variant_shape_size(variants, i);
            }
        },
        _ => {},
    }
}

/// What one decode through a flatten or content view yields: the nested
/// call sees the parent's remaining state.  A sequence here is the empty
/// sequence (for repeating fields with no matching siblings); a union is
/// tagged by the next element child, which the view consumes; everything
/// else reads exactly as a plain element decode of the remaining state.
pub open spec fn spec_decode_content(tag: Seq<char>, st: StateV, shape: ShapeV) -> Option<
    (DecodedV, StateV),
>
    decreases state_size(st), shape_size(shape), 1int,
    via spec_decode_content_decreases
{
    match shape {
        ShapeV::Sequence(_) => Some((DecodedV::Sequence(Seq::empty()), st)),
        ShapeV::Optional(inner) => match spec_decode_content(tag, st, *inner) {
            Some((d, st2)) => Some((DecodedV::Present(Box::new(d)), st2)),
            None => None,
        },
        ShapeV::Enum { name, variants } => if st.kids.len() == 0 {
            None
        } else if skippable(st.kids[0]) {
            spec_decode_content(tag, StateV { attrs: st.attrs, kids: st.kids.drop_first() }, shape)
        } else {
            match st.kids[0] {
                ChildV::Element(n) => {
                    let i = find_variant(variants, n.tag);
                    if i >= 0 {
                        match spec_decode(n.tag, node_state(n), variants[i].shape) {
                            Some((d, _)) => Some(
                                (
                                    DecodedV::Enum { variant: n.tag, payload: Box::new(d) },
                                    StateV { attrs: st.attrs, kids: st.kids.drop_first() },
                                ),
                            ),
                            None => None,
                        }
                    } else {
                        None
                    }
                },
                _ => None,
            }
        },
        _ => spec_decode(tag, st, shape),
    }
}

#[via_fn]
proof fn spec_decode_content_decreases(tag: Seq<char>, st: StateV, shape: ShapeV) {
    match shape {
        ShapeV::Enum { name, variants } => {
            if st.kids.len() > 0 {
                lemma_children_size_skip_one(st.kids);
                if !skippable(st.kids[0]) {
                    match st.kids[0] {
                        ChildV::Element(n) => {
                            let i = find_variant(variants, n.tag);
                            if i >= 0 {
                                lemma_find_variant(variants, n.tag);
                                lemma_variant_shape_size(variants, i);
                                lemma_element_child_state(st.kids, n);
                            }
                        },
                        _ => {},
                    }
                }
            }
        },
        _ => {},
    }
}

/// The items of a whole-element sequence decode: every element child is an
/// item, every non-element child is dropped.
pub open spec fn seq_all_items(kids: Seq<ChildV>, elem: ShapeV) -> Option<Seq<DecodedV>>
    decreases children_size(kids), shape_size(elem), 0int,
    via seq_all_items_decreases
{
    if kids.len() == 0 {
        Some(Seq::empty())
    } else {
        match kids[0] {
            ChildV::Element(n) => match spec_decode(n.tag, node_state(n), elem) {
                Some((d, _)) => match seq_all_items(kids.drop_first(), elem) {
                    Some(items) => Some(seq![d] + items),
                    None => None,
                },
                None => None,
            },
            _ => seq_all_items(kids.drop_first(), elem),
        }
    }
}

#[via_fn]
proof fn seq_all_items_decreases(kids: Seq<ChildV>, elem: ShapeV) {
    if kids.len() > 0 {
        lemma_children_size_skip_one(kids);
        match kids[0] {
            ChildV::Element(n) => {
                lemma_element_child_state(kids, n);
            },
            _ => {},
        }
    }
}

/// The items of a repeating run bound to `tagb`: contiguous same-tagged
/// element siblings, with comments and whitespace-only text skipped; a
/// differently-tagged element stops the run, and non-whitespace text fails
/// the decode.
pub open spec fn seq_run_items(tagb: Seq<char>, kids: Seq<ChildV>, elem: ShapeV) -> Option<
    Seq<DecodedV>,
>
    decreases children_size(kids), shape_size(elem), 0int,
    via seq_run_items_decreases
{
    if kids.len() == 0 {
        Some(Seq::empty())
    } else {
        match kids[0] {
            ChildV::Element(n) => if n.tag == tagb {
                match spec_decode(n.tag, node_state(n), elem) {
                    Some((d, _)) => match seq_run_items(tagb, kids.drop_first(), elem) {
                        Some(items) => Some(seq![d] + items),
                        None => None,
                    },
                    None => None,
                }
            } else {
                Some(Seq::empty())
            },
            ChildV::Text(t) => if ws_only(t) {
                seq_run_items(tagb, kids.drop_first(), elem)
            } else {
                None
            },
            ChildV::Comment(_) => seq_run_items(tagb, kids.drop_first(), elem),
        }
    }
}

#[via_fn]
proof fn seq_run_items_decreases(tagb: Seq<char>, kids: Seq<ChildV>, elem: ShapeV) {
    if kids.len() > 0 {
        lemma_children_size_skip_one(kids);
        match kids[0] {
            ChildV::Element(n) => {
                lemma_element_child_state(kids, n);
            },
            _ => {},
        }
    }
}

/// One flatten step: the field at index `j` claims the remaining state
/// through a content view.  The entry is yielded; iteration continues only
/// if the nested decode consumed something, so a decode that leaves the
/// state untouched ends the field loop instead of repeating forever.
pub open spec fn flatten_step(
    tag: Seq<char>,
    st: StateV,
    fields: Seq<FieldV>,
    flat: nat,
    j: int,
) -> Option<(Seq<(Seq<char>, DecodedV)>, StateV)>
    decreases state_size(st), fields_size(fields), 1int,
    via flatten_step_decreases
{
    if 0 <= j < fields.len() {
        match spec_decode_content(tag, st, fields[j].shape) {
            Some((d, st2)) => if state_size(st2) < state_size(st) {
                match field_loop(tag, st2, fields, flat + 1) {
                    Some((entries, st3)) => Some((seq![(fields[j].name, d)] + entries, st3)),
                    None => None,
                }
            } else {
                Some((seq![(fields[j].name, d)], st2))
            },
            None => None,
        }
    } else {
        None
    }
}

#[via_fn]
proof fn flatten_step_decreases(
    tag: Seq<char>,
    st: StateV,
    fields: Seq<FieldV>,
    flat: nat,
    j: int,
) {
    if 0 <= j < fields.len() {
        lemma_field_shape_size(fields, j);
    }
}

/// The field-matching loop: each step either consumes the next attribute or
/// child for a field, hands the remaining state to a flatten field, skips a
/// comment or whitespace-only text, or stops, leaving the rest silently
/// unrepresented.
pub open spec fn field_loop(tag: Seq<char>, st: StateV, fields: Seq<FieldV>, flat: nat) -> Option<
    (Seq<(Seq<char>, DecodedV)>, StateV),
>
    decreases state_size(st), fields_size(fields), 2int,
    via field_loop_decreases
{
    if st.attrs.len() > 0 {
        let an = st.attrs[0].0;
        let av = st.attrs[0].1;
        let i = find_attr_field(fields, an);
        if i >= 0 {
            match spec_decode_text(av, fields[i].shape) {
                Some(d) => match field_loop(
                    tag,
                    StateV { attrs: st.attrs.drop_first(), kids: st.kids },
                    fields,
                    flat,
                ) {
                    Some((entries, st2)) => Some((seq![(an, d)] + entries, st2)),
                    None => None,
                },
                None => None,
            }
        } else {
            let j = find_flatten_field(fields, flat);
            if j >= 0 {
                flatten_step(tag, st, fields, flat, j)
            } else {
                Some((Seq::empty(), st))
            }
        }
    } else if st.kids.len() > 0 {
        if skippable(st.kids[0]) {
            field_loop(tag, StateV { attrs: st.attrs, kids: st.kids.drop_first() }, fields, flat)
        } else {
            match st.kids[0] {
                ChildV::Element(n) => {
                    let i = find_tag_field(fields, n.tag);
                    if i >= 0 && n.tag.len() > 0 {
                        if is_repeating(fields[i].name) {
                            match fields[i].shape {
                                ShapeV::Sequence(elem) => match seq_run_items(
                                    n.tag,
                                    st.kids,
                                    *elem,
                                ) {
                                    Some(items) => match field_loop(
                                        tag,
                                        StateV {
                                            attrs: st.attrs,
                                            kids: st.kids.skip(seq_run_len(n.tag, st.kids) as int),
                                        },
                                        fields,
                                        flat,
                                    ) {
                                        Some((entries, st2)) => Some(
                                            (
                                                seq![(fields[i].name, DecodedV::Sequence(items))]
                                                    + entries,
                                                st2,
                                            ),
                                        ),
                                        None => None,
                                    },
                                    None => None,
                                },
                                _ => None,
                            }
                        } else {
                            match spec_decode(n.tag, node_state(n), fields[i].shape) {
                                Some((d, _)) => match field_loop(
                                    tag,
                                    StateV { attrs: st.attrs, kids: st.kids.drop_first() },
                                    fields,
                                    flat,
                                ) {
                                    Some((entries, st2)) => Some(
                                        (seq![(fields[i].name, d)] + entries, st2),
                                    ),
                                    None => None,
                                },
                                None => None,
                            }
                        }
                    } else {
                        let j = find_flatten_field(fields, flat);
                        if j >= 0 {
                            flatten_step(tag, st, fields, flat, j)
                        } else {
                            Some((Seq::empty(), st))
                        }
                    }
                },
                ChildV::Text(t) => {
                    let i = find_catch_all_field(fields);
                    if i >= 0 {
                        match spec_decode_text(t, fields[i].shape) {
                            Some(d) => match field_loop(
                                tag,
                                StateV { attrs: st.attrs, kids: st.kids.drop_first() },
                                fields,
                                flat,
                            ) {
                                Some((entries, st2)) => Some(
                                    (seq![(seq!['$'], d)] + entries, st2),
                                ),
                                None => None,
                            },
                            None => None,
                        }
                    } else {
                        Some((Seq::empty(), st))
                    }
                },
                ChildV::Comment(_) => None,
            }
        }
    } else {
        Some((Seq::empty(), st))
    }
}

#[via_fn]
proof fn field_loop_decreases(tag: Seq<char>, st: StateV, fields: Seq<FieldV>, flat: nat) {
    if st.attrs.len() > 0 {
        let i = find_attr_field(fields, st.attrs[0].0);
        if i >= 0 {
            assert(st.attrs.drop_first().len() < st.attrs.len());
        }
    } else if st.kids.len() > 0 {
        lemma_children_size_skip_one(st.kids);
        if !skippable(st.kids[0]) {
            match st.kids[0] {
                ChildV::Element(n) => {
                    let i = find_tag_field(fields, n.tag);
                    if i >= 0 && n.tag.len() > 0 {
                        lemma_find_tag_field(fields, n.tag);
                        lemma_field_shape_size(fields, i);
                        lemma_element_child_state(st.kids, n);
                        if is_repeating(fields[i].name) {
                            let k = seq_run_len(n.tag, st.kids) as int;
                            lemma_seq_run_len_le(n.tag, st.kids);
                            assert(k >= 1);
                            lemma_children_size_skip(st.kids.drop_first(), k - 1);
                            assert(st.kids.skip(k) =~= st.kids.drop_first().skip(k - 1));
                            assert(children_size(st.kids.skip(k)) < children_size(st.kids));
                        }
                    }
                },
                _ => {},
            }
        }
    }
}

/// What decoding a whole node to a shape yields.
pub open spec fn decode_node_spec(n: NodeV, shape: ShapeV) -> Option<DecodedV> {
    match spec_decode(n.tag, node_state(n), shape) {
        Some((d, _)) => Some(d),
        None => None,
    }
}

} // verus!
