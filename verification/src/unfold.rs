//! Unfolding: the rewrite of a body is undone when each reference to a
//! combinator of the definition gives way to the combinator's body.

use crate::book::{SpecBook, SpecDefinition};
use crate::float::{
    float_all, float_child, float_children, floats_whole, lemma_float_children_size, mint,
    refloat_all, FloatCtx, FloatState,
};
use crate::laws::{
    extends, lemma_float_all_extends, lemma_float_child_extends, lemma_float_children_extends,
    lemma_refloat_all_extends,
};
use crate::naming::{combinator_name, lemma_combinator_name_injective};
use crate::pass::{entry_ctx, float_defs, is_rewritten};
use crate::safety::spec_is_safe;
use crate::scope::has_unscoped_diff;
use crate::shell::{children, join, lemma_join_children, shell_of};
use crate::term::{lemma_seq_size_first, lemma_term_size_positive, seq_size, term_size, SpecTerm};
use vstd::prelude::*;

verus! {

/// The index from `lo` up to `hi` of the combinator of the definition that
/// has this name, if there is one.
pub open spec fn combinator_index(nam: Seq<char>, cx: FloatCtx, lo: nat, hi: nat) -> Option<nat> {
    if exists|k: nat| lo <= k < hi && nam == combinator_name(cx.def_name, k) {
        Some(choose|k: nat| lo <= k < hi && nam == combinator_name(cx.def_name, k))
    } else {
        None
    }
}

/// The body of the definition at a position, where there is one.
pub open spec fn body_at(minted: Seq<SpecDefinition>, i: int) -> SpecTerm {
    if 0 <= i < minted.len() && minted[i].rules.len() > 0 {
        minted[i].rules[0].body
    } else {
        SpecTerm::Era
    }
}

/// The term with each reference to a combinator of the definition with an
/// index from `lo` up to `hi` replaced by the body of the combinator,
/// unfolded in turn up to its own index. The combinator with index `lo`
/// stands at `base` in `minted`, and the others behind it.
pub open spec fn unfold(
    t: SpecTerm,
    minted: Seq<SpecDefinition>,
    base: int,
    cx: FloatCtx,
    lo: nat,
    hi: nat,
) -> SpecTerm
    decreases hi, term_size(t), 1nat,
{
    match t {
        SpecTerm::Ref { nam } => match combinator_index(nam, cx, lo, hi) {
            Some(k) => {
                proof {
                    lemma_combinator_index(nam, cx, lo, hi);
                }
                unfold(body_at(minted, base + (k - lo)), minted, base, cx, lo, k)
            },
            None => t,
        },
        _ => {
            proof {
                lemma_join_children(t);
            }
            join(shell_of(t), unfold_all(children(t), minted, base, cx, lo, hi))
        },
    }
}

/// The terms of a sequence, each unfolded.
pub open spec fn unfold_all(
    ts: Seq<SpecTerm>,
    minted: Seq<SpecDefinition>,
    base: int,
    cx: FloatCtx,
    lo: nat,
    hi: nat,
) -> Seq<SpecTerm>
    decreases hi, seq_size(ts), 2nat,
{
    if ts.len() == 0 {
        Seq::empty()
    } else {
        proof {
            lemma_seq_size_first(ts);
            lemma_term_size_positive(ts[0]);
        }
        seq![unfold(ts[0], minted, base, cx, lo, hi)] + unfold_all(
            ts.drop_first(),
            minted,
            base,
            cx,
            lo,
            hi,
        )
    }
}

/// Every reference of the term to a combinator of the definition has an
/// index below `hi`.
pub open spec fn refs_below(t: SpecTerm, cx: FloatCtx, hi: nat) -> bool
    decreases term_size(t), 1nat,
{
    match t {
        SpecTerm::Ref { nam } => forall|k: nat|
            nam == #[trigger] combinator_name(cx.def_name, k) ==> k < hi,
        _ => {
            proof {
                lemma_join_children(t);
            }
            all_refs_below(children(t), cx, hi)
        },
    }
}

/// Every reference of the terms to a combinator of the definition has an
/// index below `hi`.
pub open spec fn all_refs_below(ts: Seq<SpecTerm>, cx: FloatCtx, hi: nat) -> bool
    decreases seq_size(ts), 2nat,
{
    if ts.len() == 0 {
        true
    } else {
        proof {
            lemma_seq_size_first(ts);
            lemma_term_size_positive(ts[0]);
        }
        refs_below(ts[0], cx, hi) && all_refs_below(ts.drop_first(), cx, hi)
    }
}

/// The combinators with the indices from `lo` up to `hi` stand in `minted`
/// from `base` on, each with one rule, whose body refers only to
/// combinators with a smaller index.
pub open spec fn bodies_ordered(
    minted: Seq<SpecDefinition>,
    base: int,
    cx: FloatCtx,
    lo: nat,
    hi: nat,
) -> bool {
    &&& 0 <= base
    &&& lo <= hi
    &&& base + (hi - lo) <= minted.len()
    &&& forall|i: int|
        base <= i < base + (hi - lo) ==> (#[trigger] minted[i]).rules.len() == 1 && refs_below(
            minted[i].rules[0].body,
            cx,
            (lo + (i - base)) as nat,
        )
}

/// The two sequences hold the same `n` definitions from `base` on.
pub open spec fn agree(m1: Seq<SpecDefinition>, m2: Seq<SpecDefinition>, base: int, n: int) -> bool {
    &&& base + n <= m1.len()
    &&& base + n <= m2.len()
    &&& forall|i: int| base <= i < base + n ==> (#[trigger] m2[i]) == m1[i]
}

/// The combinators of a state with the indices from `lo` on are in order
/// from `base` on, up to the end.
pub open spec fn ordered(st: FloatState, cx: FloatCtx, base: int, lo: nat) -> bool {
    &&& lo <= st.next
    &&& base + (st.next - lo) == st.minted.len()
    &&& bodies_ordered(st.minted, base, cx, lo, st.next)
}

/// What `combinator_index` finds.
pub proof fn lemma_combinator_index(nam: Seq<char>, cx: FloatCtx, lo: nat, hi: nat)
    ensures
        match combinator_index(nam, cx, lo, hi) {
            Some(k) => lo <= k < hi && nam == combinator_name(cx.def_name, k),
            None => forall|k: nat|
                lo <= k < hi ==> nam != #[trigger] combinator_name(cx.def_name, k),
        },
{
}

/// The name of a combinator has the index of the combinator.
pub proof fn lemma_combinator_index_of(cx: FloatCtx, k: nat, lo: nat, hi: nat)
    requires
        lo <= k < hi,
    ensures
        combinator_index(combinator_name(cx.def_name, k), cx, lo, hi) == Some(k),
{
    let nam = combinator_name(cx.def_name, k);
    lemma_combinator_index(nam, cx, lo, hi);
    let j = combinator_index(nam, cx, lo, hi).unwrap();
    lemma_combinator_name_injective(cx.def_name, k, cx.def_name, j);
}

/// References below an index are below every larger one.
pub proof fn lemma_refs_below_monotone(t: SpecTerm, cx: FloatCtx, h1: nat, h2: nat)
    requires
        refs_below(t, cx, h1),
        h1 <= h2,
    ensures
        refs_below(t, cx, h2),
    decreases term_size(t), 1nat,
{
    match t {
        SpecTerm::Ref { nam } => {},
        _ => {
            lemma_join_children(t);
            lemma_all_refs_below_monotone(children(t), cx, h1, h2);
        },
    }
}

/// References below an index are below every larger one.
pub proof fn lemma_all_refs_below_monotone(ts: Seq<SpecTerm>, cx: FloatCtx, h1: nat, h2: nat)
    requires
        all_refs_below(ts, cx, h1),
        h1 <= h2,
    ensures
        all_refs_below(ts, cx, h2),
    decreases seq_size(ts), 2nat,
{
    if ts.len() > 0 {
        lemma_seq_size_first(ts);
        lemma_term_size_positive(ts[0]);
        lemma_refs_below_monotone(ts[0], cx, h1, h2);
        lemma_all_refs_below_monotone(ts.drop_first(), cx, h1, h2);
    }
}

/// The unfolding of a term depends only on the combinators that the term
/// can reach.
pub proof fn lemma_unfold_stable(
    t: SpecTerm,
    m1: Seq<SpecDefinition>,
    m2: Seq<SpecDefinition>,
    base: int,
    cx: FloatCtx,
    lo: nat,
    h1: nat,
    h2: nat,
)
    requires
        refs_below(t, cx, h1),
        lo <= h1 <= h2,
        agree(m1, m2, base, h1 - lo),
        bodies_ordered(m1, base, cx, lo, h1),
    ensures
        unfold(t, m2, base, cx, lo, h2) == unfold(t, m1, base, cx, lo, h1),
    decreases h1, term_size(t), 1nat,
{
    match t {
        SpecTerm::Ref { nam } => {
            lemma_combinator_index(nam, cx, lo, h1);
            lemma_combinator_index(nam, cx, lo, h2);
            match combinator_index(nam, cx, lo, h2) {
                Some(k2) => {
                    assert(k2 < h1);
                    lemma_combinator_index_of(cx, k2, lo, h1);
                    let i = base + (k2 - lo);
                    assert(m2[i] == m1[i]);
                    assert(m1[i].rules.len() == 1);
                    let b = body_at(m1, i);
                    assert(refs_below(b, cx, k2));
                    assert(agree(m1, m2, base, k2 - lo));
                    assert(bodies_ordered(m1, base, cx, lo, k2));
                    lemma_unfold_stable(b, m1, m2, base, cx, lo, k2, k2);
                },
                None => {
                    match combinator_index(nam, cx, lo, h1) {
                        Some(k1) => {
                            assert(k1 < h2);
                            assert(false);
                        },
                        None => {},
                    }
                },
            }
        },
        _ => {
            lemma_join_children(t);
            lemma_unfold_all_stable(children(t), m1, m2, base, cx, lo, h1, h2);
        },
    }
}

/// The unfolding of terms depends only on the combinators that the terms
/// can reach.
pub proof fn lemma_unfold_all_stable(
    ts: Seq<SpecTerm>,
    m1: Seq<SpecDefinition>,
    m2: Seq<SpecDefinition>,
    base: int,
    cx: FloatCtx,
    lo: nat,
    h1: nat,
    h2: nat,
)
    requires
        all_refs_below(ts, cx, h1),
        lo <= h1 <= h2,
        agree(m1, m2, base, h1 - lo),
        bodies_ordered(m1, base, cx, lo, h1),
    ensures
        unfold_all(ts, m2, base, cx, lo, h2) == unfold_all(ts, m1, base, cx, lo, h1),
    decreases h1, seq_size(ts), 2nat,
{
    if ts.len() > 0 {
        lemma_seq_size_first(ts);
        lemma_term_size_positive(ts[0]);
        lemma_unfold_stable(ts[0], m1, m2, base, cx, lo, h1, h2);
        lemma_unfold_all_stable(ts.drop_first(), m1, m2, base, cx, lo, h1, h2);
    }
}

/// Without combinators to unfold a term unfolds to itself.
pub proof fn lemma_unfold_none(
    t: SpecTerm,
    minted: Seq<SpecDefinition>,
    base: int,
    cx: FloatCtx,
    lo: nat,
)
    ensures
        unfold(t, minted, base, cx, lo, lo) == t,
    decreases term_size(t), 1nat,
{
    match t {
        SpecTerm::Ref { nam } => {
            lemma_combinator_index(nam, cx, lo, lo);
        },
        _ => {
            lemma_join_children(t);
            lemma_unfold_all_none(children(t), minted, base, cx, lo);
        },
    }
}

/// Without combinators to unfold terms unfold to themselves.
pub proof fn lemma_unfold_all_none(
    ts: Seq<SpecTerm>,
    minted: Seq<SpecDefinition>,
    base: int,
    cx: FloatCtx,
    lo: nat,
)
    ensures
        unfold_all(ts, minted, base, cx, lo, lo) == ts,
    decreases seq_size(ts), 2nat,
{
    if ts.len() > 0 {
        lemma_seq_size_first(ts);
        lemma_term_size_positive(ts[0]);
        lemma_unfold_none(ts[0], minted, base, cx, lo);
        lemma_unfold_all_none(ts.drop_first(), minted, base, cx, lo);
        assert(seq![ts[0]] + ts.drop_first() =~= ts);
    } else {
        assert(unfold_all(ts, minted, base, cx, lo, lo) =~= ts);
    }
}

/// A state that continues another agrees with it on its combinators.
pub proof fn lemma_extends_agree(a: FloatState, b: FloatState, cx: FloatCtx, base: int, lo: nat)
    requires
        extends(a, b, cx),
        ordered(a, cx, base, lo),
    ensures
        agree(a.minted, b.minted, base, a.next - lo),
        base + (b.next - lo) == b.minted.len(),
{
}

/// The rewrite of a child keeps the combinators in order, and the child
/// unfolds to what it unfolded to before.
pub proof fn lemma_float_child_unfolds(c: SpecTerm, st: FloatState, cx: FloatCtx, base: int, lo: nat)
    requires
        ordered(st, cx, base, lo),
        refs_below(c, cx, st.next),
    ensures
        ordered(float_child(c, st, cx).1, cx, base, lo),
        refs_below(float_child(c, st, cx).0, cx, float_child(c, st, cx).1.next),
        unfold(
            float_child(c, st, cx).0,
            float_child(c, st, cx).1.minted,
            base,
            cx,
            lo,
            float_child(c, st, cx).1.next,
        ) == unfold(c, st.minted, base, cx, lo, st.next),
    decreases term_size(c), 2nat,
{
    let safe = spec_is_safe(c, cx.defs, st.memo);
    let st0 = FloatState { memo: safe.1, next: st.next, minted: st.minted };
    if safe.0 || has_unscoped_diff(c) {
    } else {
        let r = float_children(c, st0, cx);
        lemma_float_children_unfolds(c, st0, cx, base, lo);
        lemma_float_children_size(c, st0, cx);
        lemma_join_children(r.0);
        match r.0 {
            SpecTerm::Sup { tag, els } => {
                let e = refloat_all(els, r.1, cx);
                lemma_refloat_all_unfolds(els, r.1, cx, base, lo);
                crate::float::lemma_refloat_all_size(els, r.1, cx);
                let out = SpecTerm::Sup { tag, els: e.0 };
                lemma_join_children(out);
            },
            _ => {
                if floats_whole(r.0) {
                    let m = mint(r.0, r.1, cx);
                    let k = r.1.next;
                    lemma_combinator_index_of(cx, k, lo, k + 1);
                    assert forall|j: nat| combinator_name(cx.def_name, k) == #[trigger] combinator_name(
                        cx.def_name,
                        j,
                    ) implies j < k + 1 by {
                        lemma_combinator_name_injective(cx.def_name, k, cx.def_name, j);
                    }
                    assert(m.1.minted[base + (k - lo)].rules[0].body == r.0);
                    assert(body_at(m.1.minted, base + (k - lo)) == r.0);
                    assert(agree(r.1.minted, m.1.minted, base, k - lo));
                    lemma_unfold_stable(r.0, r.1.minted, m.1.minted, base, cx, lo, k, k);
                    assert forall|i: int| base <= i < base + (k + 1 - lo) implies (
                    #[trigger] m.1.minted[i]).rules.len() == 1 && refs_below(
                        m.1.minted[i].rules[0].body,
                        cx,
                        (lo + (i - base)) as nat,
                    ) by {
                        if i < base + (k - lo) {
                            assert(m.1.minted[i] == r.1.minted[i]);
                        }
                    }
                }
            },
        }
    }
}

/// The rewrite of the children of a term keeps the combinators in order,
/// and the term unfolds to what it unfolded to before.
pub proof fn lemma_float_children_unfolds(t: SpecTerm, st: FloatState, cx: FloatCtx, base: int, lo: nat)
    requires
        ordered(st, cx, base, lo),
        refs_below(t, cx, st.next),
    ensures
        ordered(float_children(t, st, cx).1, cx, base, lo),
        refs_below(float_children(t, st, cx).0, cx, float_children(t, st, cx).1.next),
        unfold(
            float_children(t, st, cx).0,
            float_children(t, st, cx).1.minted,
            base,
            cx,
            lo,
            float_children(t, st, cx).1.next,
        ) == unfold(t, st.minted, base, cx, lo, st.next),
    decreases term_size(t), 1nat,
{
    lemma_join_children(t);
    let r = float_children(t, st, cx);
    let e = float_all(children(t), st, cx);
    lemma_float_children_size(t, st, cx);
    lemma_join_children(r.0);
    match t {
        SpecTerm::Ref { nam } => {
            assert(children(t) =~= Seq::<SpecTerm>::empty());
        },
        _ => {
            lemma_float_all_unfolds(children(t), st, cx, base, lo);
        },
    }
}

/// The rewrite of a sequence keeps the combinators in order, and the terms
/// unfold to what they unfolded to before.
pub proof fn lemma_float_all_unfolds(ts: Seq<SpecTerm>, st: FloatState, cx: FloatCtx, base: int, lo: nat)
    requires
        ordered(st, cx, base, lo),
        all_refs_below(ts, cx, st.next),
    ensures
        ordered(float_all(ts, st, cx).1, cx, base, lo),
        all_refs_below(float_all(ts, st, cx).0, cx, float_all(ts, st, cx).1.next),
        unfold_all(
            float_all(ts, st, cx).0,
            float_all(ts, st, cx).1.minted,
            base,
            cx,
            lo,
            float_all(ts, st, cx).1.next,
        ) == unfold_all(ts, st.minted, base, cx, lo, st.next),
    decreases seq_size(ts), 3nat,
{
    if ts.len() > 0 {
        lemma_seq_size_first(ts);
        lemma_term_size_positive(ts[0]);
        let rest = ts.drop_first();
        let c = float_child(ts[0], st, cx);
        let r = float_all(rest, c.1, cx);
        lemma_float_child_unfolds(ts[0], st, cx, base, lo);
        lemma_float_child_extends(ts[0], st, cx);
        lemma_all_refs_below_monotone(rest, cx, st.next, c.1.next);
        lemma_float_all_unfolds(rest, c.1, cx, base, lo);
        lemma_float_all_extends(rest, c.1, cx);
        lemma_extends_agree(st, c.1, cx, base, lo);
        lemma_extends_agree(c.1, r.1, cx, base, lo);
        lemma_unfold_stable(c.0, c.1.minted, r.1.minted, base, cx, lo, c.1.next, r.1.next);
        lemma_unfold_all_stable(rest, st.minted, c.1.minted, base, cx, lo, st.next, c.1.next);
        lemma_refs_below_monotone(c.0, cx, c.1.next, r.1.next);
        let out = seq![c.0] + r.0;
        assert(out[0] == c.0);
        assert(out.drop_first() =~= r.0);
    }
}

/// The second rewrite of a sequence keeps the combinators in order, and
/// the terms unfold to what they unfolded to before.
pub proof fn lemma_refloat_all_unfolds(ts: Seq<SpecTerm>, st: FloatState, cx: FloatCtx, base: int, lo: nat)
    requires
        ordered(st, cx, base, lo),
        all_refs_below(ts, cx, st.next),
    ensures
        ordered(refloat_all(ts, st, cx).1, cx, base, lo),
        all_refs_below(refloat_all(ts, st, cx).0, cx, refloat_all(ts, st, cx).1.next),
        unfold_all(
            refloat_all(ts, st, cx).0,
            refloat_all(ts, st, cx).1.minted,
            base,
            cx,
            lo,
            refloat_all(ts, st, cx).1.next,
        ) == unfold_all(ts, st.minted, base, cx, lo, st.next),
    decreases seq_size(ts), 3nat,
{
    if ts.len() > 0 {
        lemma_seq_size_first(ts);
        lemma_term_size_positive(ts[0]);
        let rest = ts.drop_first();
        let c = float_children(ts[0], st, cx);
        let r = refloat_all(rest, c.1, cx);
        lemma_float_children_unfolds(ts[0], st, cx, base, lo);
        lemma_float_children_extends(ts[0], st, cx);
        lemma_all_refs_below_monotone(rest, cx, st.next, c.1.next);
        lemma_refloat_all_unfolds(rest, c.1, cx, base, lo);
        lemma_refloat_all_extends(rest, c.1, cx);
        lemma_extends_agree(st, c.1, cx, base, lo);
        lemma_extends_agree(c.1, r.1, cx, base, lo);
        lemma_unfold_stable(c.0, c.1.minted, r.1.minted, base, cx, lo, c.1.next, r.1.next);
        lemma_unfold_all_stable(rest, st.minted, c.1.minted, base, cx, lo, st.next, c.1.next);
        lemma_refs_below_monotone(c.0, cx, c.1.next, r.1.next);
        let out = seq![c.0] + r.0;
        assert(out[0] == c.0);
        assert(out.drop_first() =~= r.0);
    }
}

/// The rewrite of the children of a term is undone by unfolding, whatever
/// the counter and the combinators are at the start: where the term refers
/// to no combinator of the definition with the index of the counter or a
/// larger one, the rewritten term, with the combinators that were floated
/// out of it unfolded, is the term as it was.
pub proof fn lemma_unfolding_restores_term(t: SpecTerm, st: FloatState, cx: FloatCtx)
    requires
        refs_below(t, cx, st.next),
    ensures
        unfold(
            float_children(t, st, cx).0,
            float_children(t, st, cx).1.minted,
            st.minted.len() as int,
            cx,
            st.next,
            float_children(t, st, cx).1.next,
        ) == t,
{
    let base = st.minted.len() as int;
    lemma_float_children_unfolds(t, st, cx, base, st.next);
    lemma_unfold_none(t, st.minted, base, cx, st.next);
}

/// The rewrite of a body is undone by unfolding: where the body of an
/// entry refers to no combinator of the entry beforehand, the rewritten
/// body, with the combinators that were floated out of it unfolded, is the
/// body as it was.
pub proof fn lemma_unfolding_restores_body(book: SpecBook, e: int)
    requires
        0 <= e < book.defs.len(),
        is_rewritten(book, e),
        refs_below(book.defs[e].1.rules[0].body, entry_ctx(book, e), 0),
    ensures
        float_defs(book, (e + 1) as nat).minted.len() >= float_defs(book, e as nat).minted.len(),
        unfold(
            float_defs(book, (e + 1) as nat).entries[e].1.rules[0].body,
            float_defs(book, (e + 1) as nat).minted,
            float_defs(book, e as nat).minted.len() as int,
            entry_ctx(book, e),
            0,
            (float_defs(book, (e + 1) as nat).minted.len() - float_defs(
                book,
                e as nat,
            ).minted.len()) as nat,
        ) == book.defs[e].1.rules[0].body,
{
    let p = float_defs(book, e as nat);
    let cx = entry_ctx(book, e);
    let body = book.defs[e].1.rules[0].body;
    let st = FloatState { memo: Set::empty(), next: 0, minted: p.minted };
    let r = float_children(body, st, cx);
    crate::pass::lemma_float_defs_keys(book, e as nat);
    lemma_unfolding_restores_term(body, st, cx);
    lemma_float_children_extends(body, st, cx);
    let run = float_defs(book, (e + 1) as nat);
    assert(run.minted == r.1.minted);
    assert(run.entries[e].1 == book.defs[e].1.with_body(r.0));
}

/// The whole run is undone by unfolding: where the body of an entry refers
/// to no combinator of the entry beforehand, its body after the run, with
/// the combinators that were floated out of it unfolded, is the body as it
/// was. The combinators of the entry stand in a row among those of the run;
/// the result says where the row starts and how long it is.
pub proof fn lemma_unfolding_restores(book: SpecBook, e: int) -> (place: (int, nat))
    requires
        0 <= e < book.defs.len(),
        is_rewritten(book, e),
        refs_below(book.defs[e].1.rules[0].body, entry_ctx(book, e), 0),
    ensures
        place.0 == float_defs(book, e as nat).minted.len(),
        place.0 + place.1 == float_defs(book, (e + 1) as nat).minted.len(),
        place.0 + place.1 <= float_defs(book, book.defs.len()).minted.len(),
        unfold(
            float_defs(book, book.defs.len()).entries[e].1.rules[0].body,
            float_defs(book, book.defs.len()).minted,
            place.0,
            entry_ctx(book, e),
            0,
            place.1,
        ) == book.defs[e].1.rules[0].body,
{
    let p = float_defs(book, e as nat);
    let run = float_defs(book, (e + 1) as nat);
    let all = float_defs(book, book.defs.len());
    let cx = entry_ctx(book, e);
    let body = book.defs[e].1.rules[0].body;
    let st = FloatState { memo: Set::empty(), next: 0, minted: p.minted };
    let base = p.minted.len() as int;
    let r = float_children(body, st, cx);
    lemma_unfolding_restores_body(book, e);
    lemma_float_children_unfolds(body, st, cx, base, 0);
    crate::laws::lemma_float_defs_grow(book, (e + 1) as nat, book.defs.len());
    crate::pass::lemma_float_defs_keys(book, (e + 1) as nat);
    let count = (run.minted.len() - base) as nat;
    assert(run.minted == r.1.minted);
    assert(count == r.1.next);
    assert(agree(run.minted, all.minted, base, count as int));
    assert(all.entries[e] == run.entries[e]);
    lemma_unfold_stable(r.0, run.minted, all.minted, base, cx, 0, count, count);
    (base, count)
}

} // verus!
