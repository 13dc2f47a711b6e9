//! Laws of the decoder, proved over the model.

use vstd::prelude::*;

use crate::decoded::DecodedV;
use crate::model::{
    decode_node_spec, field_loop, find_attr_field, find_catch_all_field, find_flatten_field,
    find_tag_field, lemma_find_catch_all_field, lemma_find_flatten_field, seq_all_items,
    seq_run_items, seq_run_len, skippable, spec_decode_text, StateV,
};
use crate::shape::{is_catch_all, is_flatten_name};
use crate::text::is_unsigned_text;
use crate::shape::{FieldV, ShapeV};
use crate::tree::ChildV;

verus! {

/// The child list with comments and whitespace-only text removed.
pub open spec fn significant(kids: Seq<ChildV>) -> Seq<ChildV>
    decreases kids,
{
    if kids.len() == 0 {
        Seq::empty()
    } else if skippable(kids[0]) {
        significant(kids.drop_first())
    } else {
        seq![kids[0]] + significant(kids.drop_first())
    }
}

/// The child list narrowed to its elements.
pub open spec fn elements_only(kids: Seq<ChildV>) -> Seq<ChildV>
    decreases kids,
{
    if kids.len() == 0 {
        Seq::empty()
    } else if kids[0] is Element {
        seq![kids[0]] + elements_only(kids.drop_first())
    } else {
        elements_only(kids.drop_first())
    }
}

/// Whitespace transparency of the sequence decoder: a repeating run reads
/// the same items from a child list as from that list with every comment
/// and whitespace-only text removed — so inserting such children between
/// the matched elements never changes what the run decodes, nor whether it
/// succeeds.
pub proof fn lemma_seq_run_ws_transparent(tagb: Seq<char>, kids: Seq<ChildV>, elem: ShapeV)
    ensures
        seq_run_items(tagb, kids, elem) == seq_run_items(tagb, significant(kids), elem),
    decreases kids,
{
    if kids.len() == 0 {
    } else if skippable(kids[0]) {
        lemma_seq_run_ws_transparent(tagb, kids.drop_first(), elem);
    } else {
        lemma_seq_run_ws_transparent(tagb, kids.drop_first(), elem);
        assert((seq![kids[0]] + significant(kids.drop_first())).drop_first() =~= significant(
            kids.drop_first(),
        ));
        assert(significant(kids)[0] == kids[0]);
    }
}

/// Whitespace transparency of a whole-element sequence decode: only the
/// element children matter.
pub proof fn lemma_seq_all_ws_transparent(kids: Seq<ChildV>, elem: ShapeV)
    ensures
        seq_all_items(kids, elem) == seq_all_items(elements_only(kids), elem),
    decreases kids,
{
    if kids.len() == 0 {
    } else if kids[0] is Element {
        lemma_seq_all_ws_transparent(kids.drop_first(), elem);
        assert((seq![kids[0]] + elements_only(kids.drop_first())).drop_first() =~= elements_only(
            kids.drop_first(),
        ));
        assert(elements_only(kids)[0] == kids[0]);
    } else {
        lemma_seq_all_ws_transparent(kids.drop_first(), elem);
    }
}

/// Whitespace transparency of the field loop, step by step: a comment or
/// whitespace-only text at the child cursor is skipped silently, so it
/// changes neither the yielded entries nor the final state.
pub proof fn lemma_field_loop_skips(
    tag: Seq<char>,
    st: StateV,
    fields: Seq<FieldV>,
    flat: nat,
)
    requires
        st.attrs.len() == 0,
        st.kids.len() > 0,
        skippable(st.kids[0]),
    ensures
        field_loop(tag, st, fields, flat) == field_loop(
            tag,
            StateV { attrs: st.attrs, kids: st.kids.drop_first() },
            fields,
            flat,
        ),
{
}

/// Idempotence: decoding is a function of the node and the requested shape
/// alone, so decoding the same node twice — a fresh decoder each time —
/// yields structurally equal results.
pub proof fn lemma_decode_idempotent(
    n: crate::tree::NodeV,
    shape: ShapeV,
    r1: Option<DecodedV>,
    r2: Option<DecodedV>,
)
    requires
        r1 == decode_node_spec(n, shape),
        r2 == decode_node_spec(n, shape),
    ensures
        r1 == r2,
{
}


/// How many leading children of a whitespace-free child list a run bound
/// to `tagb` takes: the contiguous prefix of same-tagged elements.
pub open spec fn sig_run_len(tagb: Seq<char>, sig: Seq<ChildV>) -> nat
    decreases sig,
{
    if sig.len() == 0 {
        0
    } else {
        match sig[0] {
            ChildV::Element(n) => if n.tag == tagb {
                1 + sig_run_len(tagb, sig.drop_first())
            } else {
                0
            },
            _ => 0,
        }
    }
}

/// A run over a whitespace-free list never takes more than there is.
pub proof fn lemma_sig_run_len_le(tagb: Seq<char>, sig: Seq<ChildV>)
    ensures
        sig_run_len(tagb, sig) <= sig.len(),
    decreases sig,
{
    if sig.len() > 0 {
        lemma_sig_run_len_le(tagb, sig.drop_first());
    }
}

/// What a run leaves behind corresponds, after removing comments and
/// whitespace-only text, to what it leaves of the significant children.
pub proof fn lemma_significant_after_run(tagb: Seq<char>, kids: Seq<ChildV>)
    ensures
        significant(kids.skip(seq_run_len(tagb, kids) as int)) == significant(kids).skip(
            sig_run_len(tagb, significant(kids)) as int,
        ),
    decreases kids,
{
    crate::model::lemma_seq_run_len_le(tagb, kids);
    if kids.len() == 0 {
        assert(kids.skip(0) =~= kids);
        assert(significant(kids).skip(0) =~= significant(kids));
    } else if skippable(kids[0]) {
        lemma_significant_after_run(tagb, kids.drop_first());
        assert(seq_run_len(tagb, kids) == 1 + seq_run_len(tagb, kids.drop_first()));
        assert(kids.skip(seq_run_len(tagb, kids) as int) =~= kids.drop_first().skip(
            seq_run_len(tagb, kids.drop_first()) as int,
        ));
    } else {
        let rest = kids.drop_first();
        assert(significant(kids) == seq![kids[0]] + significant(rest));
        assert(significant(kids)[0] == kids[0]);
        assert(significant(kids).drop_first() =~= significant(rest));
        match kids[0] {
            ChildV::Element(n) => {
                if n.tag == tagb {
                    lemma_significant_after_run(tagb, rest);
                    assert(seq_run_len(tagb, kids) == 1 + seq_run_len(tagb, rest));
                    assert(sig_run_len(tagb, significant(kids)) == 1 + sig_run_len(
                        tagb,
                        significant(rest),
                    ));
                    assert(kids.skip(seq_run_len(tagb, kids) as int) =~= rest.skip(
                        seq_run_len(tagb, rest) as int,
                    ));
                    lemma_sig_run_len_le(tagb, significant(rest));
                    assert(significant(kids).skip(sig_run_len(tagb, significant(kids)) as int)
                        =~= significant(rest).skip(sig_run_len(tagb, significant(rest)) as int));
                } else {
                    assert(seq_run_len(tagb, kids) == 0);
                    assert(sig_run_len(tagb, significant(kids)) == 0);
                    assert(kids.skip(0) =~= kids);
                    assert(significant(kids).skip(0) =~= significant(kids));
                }
            },
            _ => {
                assert(seq_run_len(tagb, kids) == 0);
                assert(sig_run_len(tagb, significant(kids)) == 0);
                assert(kids.skip(0) =~= kids);
                assert(significant(kids).skip(0) =~= significant(kids));
            },
        }
    }
}

/// Field sets that bind input by name only: no field is a flatten field at
/// any index (the empty name or decimal text) and none is the text
/// catch-all.
pub open spec fn binds_by_name(fs: Seq<FieldV>) -> bool {
    forall|j: int|
        0 <= j < fs.len() ==> {
            let nm = (#[trigger] fs[j]).name;
            nm.len() > 0 && !is_unsigned_text(nm) && !is_catch_all(nm)
        }
}

/// Whitespace transparency of the whole field loop: under a field set that
/// binds input by name only, two states with the same attributes whose
/// child lists differ only in comments and whitespace-only text yield the
/// same entries, and fail together — inserting such children between the
/// matched elements never changes the decoded output.
pub proof fn lemma_field_loop_ws_transparent(
    tag: Seq<char>,
    st1: StateV,
    st2: StateV,
    fields: Seq<FieldV>,
    flat: nat,
)
    requires
        st1.attrs == st2.attrs,
        significant(st1.kids) == significant(st2.kids),
        binds_by_name(fields),
    ensures
        match (field_loop(tag, st1, fields, flat), field_loop(tag, st2, fields, flat)) {
            (Some((e1, _)), Some((e2, _))) => e1 == e2,
            (None, None) => true,
            _ => false,
        },
    decreases st1.attrs.len(), st1.kids.len() + st2.kids.len(),
{
    let no_flatten: int = find_flatten_field(fields, flat);
    assert(no_flatten == -1) by {
        lemma_find_flatten_field(fields, flat);
        if no_flatten >= 0 {
            assert(is_flatten_name(fields[no_flatten].name, flat));
        }
    }
    let no_catch: int = find_catch_all_field(fields);
    assert(no_catch == -1) by {
        lemma_find_catch_all_field(fields);
        if no_catch >= 0 {
            assert(is_catch_all(fields[no_catch].name));
        }
    }
    if st1.attrs.len() > 0 {
        let an = st1.attrs[0].0;
        let av = st1.attrs[0].1;
        let i = find_attr_field(fields, an);
        if i >= 0 {
            match spec_decode_text(av, fields[i].shape) {
                Some(d) => {
                    lemma_field_loop_ws_transparent(
                        tag,
                        StateV { attrs: st1.attrs.drop_first(), kids: st1.kids },
                        StateV { attrs: st2.attrs.drop_first(), kids: st2.kids },
                        fields,
                        flat,
                    );
                },
                None => {},
            }
        }
    } else if st1.kids.len() > 0 && skippable(st1.kids[0]) {
        lemma_field_loop_skips(tag, st1, fields, flat);
        lemma_field_loop_ws_transparent(
            tag,
            StateV { attrs: st1.attrs, kids: st1.kids.drop_first() },
            st2,
            fields,
            flat,
        );
    } else if st2.kids.len() > 0 && skippable(st2.kids[0]) {
        lemma_field_loop_skips(tag, st2, fields, flat);
        lemma_field_loop_ws_transparent(
            tag,
            st1,
            StateV { attrs: st2.attrs, kids: st2.kids.drop_first() },
            fields,
            flat,
        );
    } else if st1.kids.len() == 0 {
        assert(significant(st2.kids).len() == 0);
        assert(st2.kids.len() == 0) by {
            if st2.kids.len() > 0 {
                assert(significant(st2.kids)[0] == st2.kids[0]);
            }
        }
    } else if st2.kids.len() == 0 {
        assert(significant(st1.kids).len() == 0);
        assert(st1.kids.len() == 0) by {
            if st1.kids.len() > 0 {
                assert(significant(st1.kids)[0] == st1.kids[0]);
            }
        }
    } else {
        // both heads are significant, so they are the same child
        let h1 = st1.kids[0];
        let h2 = st2.kids[0];
        assert(significant(st1.kids) == seq![h1] + significant(st1.kids.drop_first()));
        assert(significant(st2.kids) == seq![h2] + significant(st2.kids.drop_first()));
        assert(h1 == h2) by {
            assert(significant(st1.kids)[0] == h1);
            assert(significant(st2.kids)[0] == h2);
        }
        assert(significant(st1.kids.drop_first()) == significant(st2.kids.drop_first())) by {
            assert(significant(st1.kids).drop_first() =~= significant(st1.kids.drop_first()));
            assert(significant(st2.kids).drop_first() =~= significant(st2.kids.drop_first()));
        }
        match h1 {
            ChildV::Element(n) => {
                let i = find_tag_field(fields, n.tag);
                if i >= 0 && n.tag.len() > 0 {
                    if crate::shape::is_repeating(fields[i].name) {
                        match fields[i].shape {
                            ShapeV::Sequence(elem) => {
                                lemma_seq_run_ws_transparent(n.tag, st1.kids, *elem);
                                lemma_seq_run_ws_transparent(n.tag, st2.kids, *elem);
                                match seq_run_items(n.tag, st1.kids, *elem) {
                                    Some(items) => {
                                        lemma_significant_after_run(n.tag, st1.kids);
                                        lemma_significant_after_run(n.tag, st2.kids);
                                        crate::model::lemma_seq_run_len_le(n.tag, st1.kids);
                                        crate::model::lemma_seq_run_len_le(n.tag, st2.kids);
                                        assert(seq_run_len(n.tag, st1.kids) >= 1);
                                        assert(seq_run_len(n.tag, st2.kids) >= 1);
                                        lemma_field_loop_ws_transparent(
                                            tag,
                                            StateV {
                                                attrs: st1.attrs,
                                                kids: st1.kids.skip(
                                                    seq_run_len(n.tag, st1.kids) as int,
                                                ),
                                            },
                                            StateV {
                                                attrs: st2.attrs,
                                                kids: st2.kids.skip(
                                                    seq_run_len(n.tag, st2.kids) as int,
                                                ),
                                            },
                                            fields,
                                            flat,
                                        );
                                    },
                                    None => {},
                                }
                            },
                            _ => {},
                        }
                    } else {
                        match crate::model::spec_decode(
                            n.tag,
                            crate::model::node_state(n),
                            fields[i].shape,
                        ) {
                            Some(_) => {
                                lemma_field_loop_ws_transparent(
                                    tag,
                                    StateV { attrs: st1.attrs, kids: st1.kids.drop_first() },
                                    StateV { attrs: st2.attrs, kids: st2.kids.drop_first() },
                                    fields,
                                    flat,
                                );
                            },
                            None => {},
                        }
                    }
                }
            },
            _ => {},
        }
    }
}

} // verus!
