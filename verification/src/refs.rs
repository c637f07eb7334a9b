//! References are kept: the rewrite adds one reference for each combinator
//! that it floats, and takes none away.

use crate::book::SpecDefinition;
use crate::float::{
    float_all, float_child, float_children, floats_whole, lemma_float_children_size, mint,
    refloat_all, FloatCtx, FloatState,
};
use crate::laws::{
    extends, lemma_float_all_extends, lemma_float_child_extends, lemma_float_children_extends,
    lemma_refloat_all_extends,
};
use crate::naming::{combinator_name, lemma_combinator_name_injective};
use crate::pass::{entry_ctx, float_defs, is_rewritten};
use crate::safety::spec_is_safe;
use crate::scope::has_unscoped_diff;
use crate::shell::{children, lemma_join_children};
use crate::term::{lemma_seq_size_first, lemma_term_size_positive, seq_size, term_size, SpecTerm};
use crate::unfold::{body_at, combinator_index, lemma_combinator_index};
use vstd::prelude::*;

verus! {

/// The number of references to the name `nam` in a term.
pub open spec fn occurrences(t: SpecTerm, nam: Seq<char>) -> nat
    decreases term_size(t), 1nat,
{
    match t {
        SpecTerm::Ref { nam: n } => if n == nam {
            1
        } else {
            0
        },
        _ => {
            proof {
                lemma_join_children(t);
            }
            occurrences_all(children(t), nam)
        },
    }
}

/// The number of references to the name `nam` in the terms of a sequence.
pub open spec fn occurrences_all(ts: Seq<SpecTerm>, nam: Seq<char>) -> nat
    decreases seq_size(ts), 2nat,
{
    if ts.len() == 0 {
        0
    } else {
        proof {
            lemma_seq_size_first(ts);
            lemma_term_size_positive(ts[0]);
        }
        occurrences(ts[0], nam) + occurrences_all(ts.drop_first(), nam)
    }
}

/// The number of references to the name `nam` in the bodies of the
/// definitions at the positions from `from` up to `to`.
pub open spec fn occurrences_in_bodies(
    minted: Seq<SpecDefinition>,
    from: int,
    to: int,
    nam: Seq<char>,
) -> nat
    decreases to - from,
{
    if to <= from {
        0
    } else {
        occurrences_in_bodies(minted, from, to - 1, nam) + occurrences(body_at(minted, to - 1), nam)
    }
}

/// One if `nam` is the name of a combinator of the definition with an
/// index from `lo` up to `hi`, and zero otherwise.
pub open spec fn new_name(nam: Seq<char>, cx: FloatCtx, lo: nat, hi: nat) -> nat {
    if combinator_index(nam, cx, lo, hi).is_some() {
        1
    } else {
        0
    }
}

/// The references in the bodies from `a` up to `c` are those from `a` up
/// to `b` and those from `b` up to `c`.
pub proof fn lemma_bodies_split(minted: Seq<SpecDefinition>, a: int, b: int, c: int, nam: Seq<char>)
    requires
        a <= b <= c,
    ensures
        occurrences_in_bodies(minted, a, c, nam) == occurrences_in_bodies(minted, a, b, nam)
            + occurrences_in_bodies(minted, b, c, nam),
    decreases c - b,
{
    if b < c {
        lemma_bodies_split(minted, a, b, c - 1, nam);
    }
}

/// The references in the bodies depend only on the definitions at the
/// positions that are counted.
pub proof fn lemma_bodies_agree(
    m1: Seq<SpecDefinition>,
    m2: Seq<SpecDefinition>,
    a: int,
    b: int,
    nam: Seq<char>,
)
    requires
        0 <= a,
        b <= m1.len(),
        b <= m2.len(),
        forall|i: int| a <= i < b ==> (#[trigger] m2[i]) == m1[i],
    ensures
        occurrences_in_bodies(m2, a, b, nam) == occurrences_in_bodies(m1, a, b, nam),
    decreases b - a,
{
    if a < b {
        lemma_bodies_agree(m1, m2, a, b - 1, nam);
        assert(m2[b - 1] == m1[b - 1]);
    }
}

/// A name is new from `a` up to `c` just when it is new from `a` up to `b`
/// or from `b` up to `c`, and never both.
pub proof fn lemma_new_name_split(nam: Seq<char>, cx: FloatCtx, a: nat, b: nat, c: nat)
    requires
        a <= b <= c,
    ensures
        new_name(nam, cx, a, c) == new_name(nam, cx, a, b) + new_name(nam, cx, b, c),
{
    lemma_combinator_index(nam, cx, a, b);
    lemma_combinator_index(nam, cx, b, c);
    lemma_combinator_index(nam, cx, a, c);
    match combinator_index(nam, cx, a, b) {
        Some(k1) => {
            match combinator_index(nam, cx, b, c) {
                Some(k2) => {
                    lemma_combinator_name_injective(cx.def_name, k1, cx.def_name, k2);
                },
                None => {},
            }
        },
        None => {},
    }
    match combinator_index(nam, cx, a, c) {
        Some(k) => {
            if k < b {
                assert(combinator_index(nam, cx, a, b).is_some());
            } else {
                assert(combinator_index(nam, cx, b, c).is_some());
            }
        },
        None => {},
    }
}

/// A state that continues another holds its combinators where they were.
pub proof fn lemma_extends_bodies(a: FloatState, b: FloatState, cx: FloatCtx, from: int, nam: Seq<char>)
    requires
        extends(a, b, cx),
        0 <= from <= a.minted.len(),
    ensures
        a.minted.len() <= b.minted.len(),
        b.minted.len() - a.minted.len() == b.next - a.next,
        occurrences_in_bodies(b.minted, from, a.minted.len() as int, nam) == occurrences_in_bodies(
            a.minted,
            from,
            a.minted.len() as int,
            nam,
        ),
{
    lemma_bodies_agree(a.minted, b.minted, from, a.minted.len() as int, nam);
}

/// The rewrite of a child keeps the references of the child, in the child
/// or in the bodies of the combinators that it floats, and adds one to
/// each of these combinators.
pub proof fn lemma_float_child_refs(c: SpecTerm, st: FloatState, cx: FloatCtx, nam: Seq<char>)
    ensures
        occurrences(float_child(c, st, cx).0, nam) + occurrences_in_bodies(
            float_child(c, st, cx).1.minted,
            st.minted.len() as int,
            float_child(c, st, cx).1.minted.len() as int,
            nam,
        ) == occurrences(c, nam) + new_name(nam, cx, st.next, float_child(c, st, cx).1.next),
    decreases term_size(c), 2nat,
{
    let safe = spec_is_safe(c, cx.defs, st.memo);
    let st0 = FloatState { memo: safe.1, next: st.next, minted: st.minted };
    lemma_combinator_index(nam, cx, st.next, st.next);
    if safe.0 || has_unscoped_diff(c) {
    } else {
        let r = float_children(c, st0, cx);
        lemma_float_children_refs(c, st0, cx, nam);
        lemma_float_children_extends(c, st0, cx);
        lemma_float_children_size(c, st0, cx);
        lemma_join_children(r.0);
        let from = st.minted.len() as int;
        match r.0 {
            SpecTerm::Sup { tag, els } => {
                let e = refloat_all(els, r.1, cx);
                lemma_refloat_all_refs(els, r.1, cx, nam);
                lemma_refloat_all_extends(els, r.1, cx);
                crate::float::lemma_refloat_all_size(els, r.1, cx);
                lemma_extends_bodies(r.1, e.1, cx, from, nam);
                lemma_bodies_split(e.1.minted, from, r.1.minted.len() as int, e.1.minted.len() as int, nam);
                lemma_new_name_split(nam, cx, st.next, r.1.next, e.1.next);
                let out = SpecTerm::Sup { tag, els: e.0 };
                lemma_join_children(out);
            },
            _ => {
                if floats_whole(r.0) {
                    let m = mint(r.0, r.1, cx);
                    let k = r.1.next;
                    let len = r.1.minted.len() as int;
                    assert(body_at(m.1.minted, len) == r.0);
                    lemma_bodies_agree(r.1.minted, m.1.minted, from, len, nam);
                    lemma_new_name_split(nam, cx, st.next, k, k + 1);
                    lemma_combinator_index(nam, cx, k, k + 1);
                    if nam == combinator_name(cx.def_name, k) {
                        assert(combinator_index(nam, cx, k, k + 1).is_some());
                    }
                }
            },
        }
    }
}

/// The rewrite of the children of a term keeps the references of the term
/// and adds one to each combinator that it floats.
pub proof fn lemma_float_children_refs(t: SpecTerm, st: FloatState, cx: FloatCtx, nam: Seq<char>)
    ensures
        occurrences(float_children(t, st, cx).0, nam) + occurrences_in_bodies(
            float_children(t, st, cx).1.minted,
            st.minted.len() as int,
            float_children(t, st, cx).1.minted.len() as int,
            nam,
        ) == occurrences(t, nam) + new_name(nam, cx, st.next, float_children(t, st, cx).1.next),
    decreases term_size(t), 1nat,
{
    lemma_join_children(t);
    let r = float_children(t, st, cx);
    lemma_float_children_size(t, st, cx);
    lemma_join_children(r.0);
    lemma_combinator_index(nam, cx, st.next, st.next);
    match t {
        SpecTerm::Ref { .. } => {
            assert(children(t) =~= Seq::<SpecTerm>::empty());
        },
        _ => {
            lemma_float_all_refs(children(t), st, cx, nam);
        },
    }
}

/// The rewrite of a sequence keeps the references of its terms and adds
/// one to each combinator that it floats.
pub proof fn lemma_float_all_refs(ts: Seq<SpecTerm>, st: FloatState, cx: FloatCtx, nam: Seq<char>)
    ensures
        occurrences_all(float_all(ts, st, cx).0, nam) + occurrences_in_bodies(
            float_all(ts, st, cx).1.minted,
            st.minted.len() as int,
            float_all(ts, st, cx).1.minted.len() as int,
            nam,
        ) == occurrences_all(ts, nam) + new_name(nam, cx, st.next, float_all(ts, st, cx).1.next),
    decreases seq_size(ts), 3nat,
{
    lemma_combinator_index(nam, cx, st.next, st.next);
    if ts.len() > 0 {
        lemma_seq_size_first(ts);
        lemma_term_size_positive(ts[0]);
        let rest = ts.drop_first();
        let c = float_child(ts[0], st, cx);
        let r = float_all(rest, c.1, cx);
        lemma_float_child_refs(ts[0], st, cx, nam);
        lemma_float_child_extends(ts[0], st, cx);
        lemma_float_all_refs(rest, c.1, cx, nam);
        lemma_float_all_extends(rest, c.1, cx);
        let from = st.minted.len() as int;
        lemma_extends_bodies(c.1, r.1, cx, from, nam);
        lemma_bodies_split(r.1.minted, from, c.1.minted.len() as int, r.1.minted.len() as int, nam);
        lemma_new_name_split(nam, cx, st.next, c.1.next, r.1.next);
        let out = seq![c.0] + r.0;
        assert(out[0] == c.0);
        assert(out.drop_first() =~= r.0);
    }
}

/// The second rewrite of a sequence keeps the references of its terms and
/// adds one to each combinator that it floats.
pub proof fn lemma_refloat_all_refs(ts: Seq<SpecTerm>, st: FloatState, cx: FloatCtx, nam: Seq<char>)
    ensures
        occurrences_all(refloat_all(ts, st, cx).0, nam) + occurrences_in_bodies(
            refloat_all(ts, st, cx).1.minted,
            st.minted.len() as int,
            refloat_all(ts, st, cx).1.minted.len() as int,
            nam,
        ) == occurrences_all(ts, nam) + new_name(nam, cx, st.next, refloat_all(ts, st, cx).1.next),
    decreases seq_size(ts), 3nat,
{
    lemma_combinator_index(nam, cx, st.next, st.next);
    if ts.len() > 0 {
        lemma_seq_size_first(ts);
        lemma_term_size_positive(ts[0]);
        let rest = ts.drop_first();
        let c = float_children(ts[0], st, cx);
        let r = refloat_all(rest, c.1, cx);
        lemma_float_children_refs(ts[0], st, cx, nam);
        lemma_float_children_extends(ts[0], st, cx);
        lemma_refloat_all_refs(rest, c.1, cx, nam);
        lemma_refloat_all_extends(rest, c.1, cx);
        let from = st.minted.len() as int;
        lemma_extends_bodies(c.1, r.1, cx, from, nam);
        lemma_bodies_split(r.1.minted, from, c.1.minted.len() as int, r.1.minted.len() as int, nam);
        lemma_new_name_split(nam, cx, st.next, c.1.next, r.1.next);
        let out = seq![c.0] + r.0;
        assert(out[0] == c.0);
        assert(out.drop_first() =~= r.0);
    }
}

/// Each combinator that the rewrite of a term floats is referred to once:
/// where the term does not refer to it beforehand, its name stands once in
/// the rewritten term and the bodies of the combinators that were floated.
pub proof fn lemma_new_combinator_used_once(t: SpecTerm, st: FloatState, cx: FloatCtx, k: nat)
    requires
        st.next <= k < float_children(t, st, cx).1.next,
        occurrences(t, combinator_name(cx.def_name, k)) == 0,
    ensures
        occurrences(float_children(t, st, cx).0, combinator_name(cx.def_name, k))
            + occurrences_in_bodies(
            float_children(t, st, cx).1.minted,
            st.minted.len() as int,
            float_children(t, st, cx).1.minted.len() as int,
            combinator_name(cx.def_name, k),
        ) == 1,
{
    let nam = combinator_name(cx.def_name, k);
    lemma_float_children_refs(t, st, cx, nam);
    assert(combinator_index(nam, cx, st.next, float_children(t, st, cx).1.next).is_some());
}

/// Each combinator that the run floats out of an entry is referred to
/// once: where the body of the entry does not refer to it beforehand, its
/// name stands once in the rewritten body and the bodies of the
/// combinators that were floated out of the entry.
pub proof fn lemma_entry_combinator_used_once(book: crate::book::SpecBook, e: int, k: nat)
    requires
        0 <= e < book.defs.len(),
        float_defs(book, e as nat).minted.len() + k < float_defs(book, (e + 1) as nat).minted.len(),
        book.defs[e].1.rules.len() > 0,
        occurrences(book.defs[e].1.rules[0].body, combinator_name(book.defs[e].0, k)) == 0,
    ensures
        occurrences(
            float_defs(book, (e + 1) as nat).entries[e].1.rules[0].body,
            combinator_name(book.defs[e].0, k),
        ) + occurrences_in_bodies(
            float_defs(book, (e + 1) as nat).minted,
            float_defs(book, e as nat).minted.len() as int,
            float_defs(book, (e + 1) as nat).minted.len() as int,
            combinator_name(book.defs[e].0, k),
        ) == 1,
{
    let p = float_defs(book, e as nat);
    let cx = entry_ctx(book, e);
    let body = book.defs[e].1.rules[0].body;
    let st = FloatState { memo: Set::empty(), next: 0, minted: p.minted };
    let r = float_children(body, st, cx);
    crate::pass::lemma_float_defs_keys(book, e as nat);
    lemma_float_children_extends(body, st, cx);
    let run = float_defs(book, (e + 1) as nat);
    assert(is_rewritten(book, e));
    assert(run.minted == r.1.minted);
    assert(run.entries[e].1 == book.defs[e].1.with_body(r.0));
    lemma_new_combinator_used_once(body, st, cx, k);
}

} // verus!
