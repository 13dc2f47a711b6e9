//! The decoder's output: a closed tree of decoded values, one constructor
//! per requested shape.

use vstd::prelude::*;

verus! {

/// One yielded entry of a struct or map decode: the field name that claimed
/// the input, and the value decoded for it, in document order.
#[derive(Debug, PartialEq, Eq)]
pub struct Entry {
    pub key: String,
    pub value: Decoded,
}

/// A fully materialized decoded value.
#[derive(Debug, PartialEq, Eq)]
pub enum Decoded {
    Str(String),
    Bool(bool),
    U8(u8),
    U16(u16),
    U32(u32),
    I8(i8),
    I16(i16),
    I32(i32),
    Unit,
    /// An optional resolved "present".
    Present(Box<Decoded>),
    Sequence(Vec<Decoded>),
    /// The entries yielded by the field-matching loop, in order.
    Struct(Vec<Entry>),
    /// A tagged-union value: the selected variant and its payload.
    Enum { variant: String, payload: Box<Decoded> },
}

/// The mathematical form of a decoded value.
pub ghost enum DecodedV {
    Str(Seq<char>),
    Bool(bool),
    U8(u8),
    U16(u16),
    U32(u32),
    I8(i8),
    I16(i16),
    I32(i32),
    Unit,
    Present(Box<DecodedV>),
    Sequence(Seq<DecodedV>),
    Struct(Seq<(Seq<char>, DecodedV)>),
    Enum { variant: Seq<char>, payload: Box<DecodedV> },
}

/// The model of a decoded value.
pub open spec fn decoded_view(d: Decoded) -> DecodedV
    decreases d, 1int,
{
    match d {
        Decoded::Str(s) => DecodedV::Str(s@),
        Decoded::Bool(b) => DecodedV::Bool(b),
        Decoded::U8(v) => DecodedV::U8(v),
        Decoded::U16(v) => DecodedV::U16(v),
        Decoded::U32(v) => DecodedV::U32(v),
        Decoded::I8(v) => DecodedV::I8(v),
        Decoded::I16(v) => DecodedV::I16(v),
        Decoded::I32(v) => DecodedV::I32(v),
        Decoded::Unit => DecodedV::Unit,
        Decoded::Present(b) => DecodedV::Present(Box::new(decoded_view(*b))),
        Decoded::Sequence(items) => DecodedV::Sequence(items_view(items@)),
        Decoded::Struct(entries) => DecodedV::Struct(entries_view(entries@)),
        Decoded::Enum { variant, payload } => DecodedV::Enum {
            variant: variant@,
            payload: Box::new(decoded_view(*payload)),
        },
    }
}

/// The models of an item list, in order.
pub open spec fn items_view(items: Seq<Decoded>) -> Seq<DecodedV>
    decreases items, 0int,
{
    if items.len() == 0 {
        Seq::empty()
    } else {
        seq![decoded_view(items[0])] + items_view(items.drop_first())
    }
}

/// The models of an entry list, in order.
pub open spec fn entries_view(entries: Seq<Entry>) -> Seq<(Seq<char>, DecodedV)>
    decreases entries, 0int,
{
    if entries.len() == 0 {
        Seq::empty()
    } else {
        seq![(entries[0].key@, decoded_view(entries[0].value))] + entries_view(
            entries.drop_first(),
        )
    }
}

impl View for Decoded {
    type V = DecodedV;

    open spec fn view(&self) -> DecodedV {
        decoded_view(*self)
    }
}

/// `items_view` maps the list elementwise.
pub proof fn lemma_items_view(items: Seq<Decoded>)
    ensures
        items_view(items).len() == items.len(),
        forall|i: int| 0 <= i < items.len() ==> items_view(items)[i] == decoded_view(items[i]),
    decreases items,
{
    if items.len() > 0 {
        lemma_items_view(items.drop_first());
    }
}

/// `entries_view` maps the list elementwise.
pub proof fn lemma_entries_view(entries: Seq<Entry>)
    ensures
        entries_view(entries).len() == entries.len(),
        forall|i: int|
            0 <= i < entries.len() ==> entries_view(entries)[i] == (
            entries[i].key@,
            decoded_view(entries[i].value),
            ),
    decreases entries,
{
    if entries.len() > 0 {
        lemma_entries_view(entries.drop_first());
    }
}

/// Appending an item extends the mapped list by its model.
pub proof fn lemma_items_view_push(items: Seq<Decoded>, d: Decoded)
    ensures
        items_view(items.push(d)) =~= items_view(items).push(decoded_view(d)),
{
    lemma_items_view(items);
    lemma_items_view(items.push(d));
    assert forall|i: int| 0 <= i < items.len() + 1 implies items_view(items.push(d))[i]
        == items_view(items).push(decoded_view(d))[i] by {
        if i < items.len() {
            assert(items.push(d)[i] == items[i]);
        } else {
            assert(items.push(d)[i] == d);
        }
    }
}

/// Appending an entry extends the mapped list by its model.
pub proof fn lemma_entries_view_push(entries: Seq<Entry>, e: Entry)
    ensures
        entries_view(entries.push(e)) =~= entries_view(entries).push(
            (e.key@, decoded_view(e.value)),
        ),
{
    lemma_entries_view(entries);
    lemma_entries_view(entries.push(e));
    assert forall|i: int| 0 <= i < entries.len() + 1 implies entries_view(entries.push(e))[i]
        == entries_view(entries).push((e.key@, decoded_view(e.value)))[i] by {
        if i < entries.len() {
            assert(entries.push(e)[i] == entries[i]);
        } else {
            assert(entries.push(e)[i] == e);
        }
    }
}

} // verus!
