//! What holds of the pass, for every book.

use crate::book::{
    distinct_keys, lemma_find_entry, lemma_put_entry_distinct, put_entry, SpecBook, SpecDefinition,
};
use crate::float::{
    float_all, float_child, float_children, floats_whole, lemma_float_children_size, mint,
    refloat_all, FloatCtx, FloatState,
};
use crate::naming::{combinator_name, lemma_combinator_name_injective};
use crate::pass::{
    entry_ctx, extend_entries, float_book, float_defs, is_rewritten, lemma_float_defs_keys,
    tree_insert, tree_of,
};
use crate::safety::{lemma_safe_all_grows, spec_is_safe};
use crate::scope::{free_vars, has_unscoped_diff};
use crate::shell::{children, lemma_join_children};
use crate::term::{lemma_seq_size_first, lemma_term_size_positive, seq_size, term_size, SpecTerm};
use vstd::prelude::*;

verus! {

/// `d` is the combinator with index `k` of the definition that `cx` names:
/// it has the combinator's name and the definition's builtin flag, and its
/// only rule has no patterns and a closed body, which is an application
/// without an unscoped imbalance or an abstraction.
pub open spec fn is_combinator_of(d: SpecDefinition, cx: FloatCtx, k: nat) -> bool {
    &&& d.name == combinator_name(cx.def_name, k)
    &&& d.builtin == cx.builtin
    &&& d.rules.len() == 1
    &&& d.rules[0].pats.len() == 0
    &&& free_vars(d.rules[0].body).is_empty()
    &&& (d.rules[0].body is App || d.rules[0].body is Lam)
    &&& (d.rules[0].body is App ==> !has_unscoped_diff(d.rules[0].body))
}

/// The state `b` continues the state `a`: the memo has grown, the
/// combinators of `a` are still there, and behind them stand the
/// combinators with the indices from `a.next` up to `b.next`, in order.
pub open spec fn extends(a: FloatState, b: FloatState, cx: FloatCtx) -> bool {
    &&& a.memo.subset_of(b.memo)
    &&& a.next <= b.next
    &&& b.minted.len() == a.minted.len() + (b.next - a.next)
    &&& forall|i: int| 0 <= i < a.minted.len() ==> (#[trigger] b.minted[i]) == a.minted[i]
    &&& forall|i: int|
        a.minted.len() <= i < b.minted.len() ==> is_combinator_of(
            #[trigger] b.minted[i],
            cx,
            (a.next + (i - a.minted.len())) as nat,
        )
}

/// A continuation of a continuation is a continuation.
pub proof fn lemma_extends_trans(a: FloatState, b: FloatState, c: FloatState, cx: FloatCtx)
    requires
        extends(a, b, cx),
        extends(b, c, cx),
    ensures
        extends(a, c, cx),
{
    assert forall|i: int| 0 <= i < a.minted.len() implies (#[trigger] c.minted[i]) == a.minted[i] by {
        assert(c.minted[i] == b.minted[i]);
    }
    assert forall|i: int| a.minted.len() <= i < c.minted.len() implies is_combinator_of(
        #[trigger] c.minted[i],
        cx,
        (a.next + (i - a.minted.len())) as nat,
    ) by {
        if i < b.minted.len() {
            assert(c.minted[i] == b.minted[i]);
        }
    }
}

/// The rewrite of a child continues the state.
pub proof fn lemma_float_child_extends(c: SpecTerm, st: FloatState, cx: FloatCtx)
    ensures
        extends(st, float_child(c, st, cx).1, cx),
    decreases term_size(c), 2nat,
{
    let safe = spec_is_safe(c, cx.defs, st.memo);
    let st0 = FloatState { memo: safe.1, next: st.next, minted: st.minted };
    lemma_safe_all_grows(seq![c], cx.defs, st.memo);
    assert(extends(st, st0, cx));
    if safe.0 || has_unscoped_diff(c) {
    } else {
        let r = float_children(c, st0, cx);
        lemma_float_children_extends(c, st0, cx);
        lemma_float_children_size(c, st0, cx);
        lemma_join_children(r.0);
        lemma_extends_trans(st, st0, r.1, cx);
        match r.0 {
            SpecTerm::Sup { tag, els } => {
                let e = refloat_all(els, r.1, cx);
                lemma_refloat_all_extends(els, r.1, cx);
                lemma_extends_trans(st, r.1, e.1, cx);
            },
            _ => {
                if floats_whole(r.0) {
                    let m = mint(r.0, r.1, cx);
                    assert(extends(r.1, m.1, cx));
                    lemma_extends_trans(st, r.1, m.1, cx);
                }
            },
        }
    }
}

/// The rewrite of the children of a term continues the state.
pub proof fn lemma_float_children_extends(t: SpecTerm, st: FloatState, cx: FloatCtx)
    ensures
        extends(st, float_children(t, st, cx).1, cx),
    decreases term_size(t), 1nat,
{
    lemma_join_children(t);
    lemma_float_all_extends(children(t), st, cx);
}

/// The rewrite of a sequence continues the state.
pub proof fn lemma_float_all_extends(ts: Seq<SpecTerm>, st: FloatState, cx: FloatCtx)
    ensures
        extends(st, float_all(ts, st, cx).1, cx),
    decreases seq_size(ts), 3nat,
{
    if ts.len() > 0 {
        lemma_seq_size_first(ts);
        lemma_term_size_positive(ts[0]);
        let c = float_child(ts[0], st, cx);
        lemma_float_child_extends(ts[0], st, cx);
        lemma_float_all_extends(ts.drop_first(), c.1, cx);
        lemma_extends_trans(st, c.1, float_all(ts.drop_first(), c.1, cx).1, cx);
    }
}

/// The second rewrite of a sequence continues the state.
pub proof fn lemma_refloat_all_extends(ts: Seq<SpecTerm>, st: FloatState, cx: FloatCtx)
    ensures
        extends(st, refloat_all(ts, st, cx).1, cx),
    decreases seq_size(ts), 3nat,
{
    if ts.len() > 0 {
        lemma_seq_size_first(ts);
        lemma_term_size_positive(ts[0]);
        let c = float_children(ts[0], st, cx);
        lemma_float_children_extends(ts[0], st, cx);
        lemma_refloat_all_extends(ts.drop_first(), c.1, cx);
        lemma_extends_trans(st, c.1, refloat_all(ts.drop_first(), c.1, cx).1, cx);
    }
}

/// A safe term is left as it is, and nothing is floated out of it.
pub proof fn lemma_safe_term_untouched(c: SpecTerm, st: FloatState, cx: FloatCtx)
    requires
        spec_is_safe(c, cx.defs, st.memo).0,
    ensures
        float_child(c, st, cx).0 == c,
        float_child(c, st, cx).1.next == st.next,
        float_child(c, st, cx).1.minted == st.minted,
{
}

/// A term with an unscoped imbalance is left as it is, and nothing is
/// floated out of it.
pub proof fn lemma_unbalanced_term_untouched(c: SpecTerm, st: FloatState, cx: FloatCtx)
    requires
        has_unscoped_diff(c),
    ensures
        float_child(c, st, cx).0 == c,
        float_child(c, st, cx).1.next == st.next,
        float_child(c, st, cx).1.minted == st.minted,
{
}

/// A child that is a superposition stays one, with its label and the
/// number of its elements.
pub proof fn lemma_superposition_stays(c: SpecTerm, st: FloatState, cx: FloatCtx)
    requires
        c is Sup,
    ensures
        float_child(c, st, cx).0 is Sup,
        float_child(c, st, cx).0->Sup_tag == c->Sup_tag,
        float_child(c, st, cx).0->Sup_els.len() == c->Sup_els.len(),
{
    let safe = spec_is_safe(c, cx.defs, st.memo);
    let st0 = FloatState { memo: safe.1, next: st.next, minted: st.minted };
    if safe.0 || has_unscoped_diff(c) {
    } else {
        let r = float_children(c, st0, cx);
        lemma_float_children_size(c, st0, cx);
        lemma_join_children(c);
        lemma_join_children(r.0);
        crate::float::lemma_float_all_size(children(c), st0, cx);
        match r.0 {
            SpecTerm::Sup { tag, els } => {
                crate::float::lemma_refloat_all_size(els, r.1, cx);
            },
            _ => {},
        }
    }
}

/// The rewrite of a sequence rewrites each of its terms as a child, from
/// the state that the rewrite of the terms before it left.
pub proof fn lemma_float_all_at(ts: Seq<SpecTerm>, st: FloatState, cx: FloatCtx, i: int)
    requires
        0 <= i < ts.len(),
    ensures
        float_all(ts, st, cx).0.len() == ts.len(),
        float_all(ts, st, cx).0[i] == float_child(ts[i], float_all(ts.take(i), st, cx).1, cx).0,
    decreases ts.len(),
{
    crate::float::lemma_float_all_size(ts, st, cx);
    let rest = ts.drop_first();
    let c = float_child(ts[0], st, cx);
    let r = float_all(rest, c.1, cx);
    crate::float::lemma_float_all_size(rest, c.1, cx);
    if i == 0 {
        assert(ts.take(0) =~= Seq::<SpecTerm>::empty());
    } else {
        lemma_float_all_at(rest, c.1, cx, i - 1);
        let pre = ts.take(i);
        assert(pre[0] == ts[0]);
        assert(pre.drop_first() =~= rest.take(i - 1));
        assert(float_all(pre, st, cx).1 == float_all(rest.take(i - 1), c.1, cx).1);
        assert((seq![c.0] + r.0)[i] == r.0[i - 1]);
    }
}

/// `d` was floated out of one of the first `n` entries of the book.
pub open spec fn has_origin(d: SpecDefinition, book: SpecBook, n: int) -> bool {
    exists|e: int, k: nat| 0 <= e < n && #[trigger] is_combinator_of(d, entry_ctx(book, e), k)
}

/// Every combinator of a run was floated out of one of the entries, and no
/// two combinators of a run have the same name.
pub proof fn lemma_float_defs_minted(book: SpecBook, n: nat)
    requires
        n <= book.defs.len(),
        distinct_keys(book.defs),
    ensures
        forall|i: int|
            0 <= i < float_defs(book, n).minted.len() ==> has_origin(
                #[trigger] float_defs(book, n).minted[i],
                book,
                n as int,
            ),
        forall|i: int, j: int|
            0 <= i < j < float_defs(book, n).minted.len() ==> (#[trigger] float_defs(
                book,
                n,
            ).minted[i]).name != (#[trigger] float_defs(book, n).minted[j]).name,
    decreases n,
{
    if n > 0 {
        let p = float_defs(book, (n - 1) as nat);
        let run = float_defs(book, n);
        lemma_float_defs_minted(book, (n - 1) as nat);
        let e = n - 1;
        assert forall|i: int| 0 <= i < p.minted.len() implies has_origin(
            #[trigger] p.minted[i],
            book,
            n as int,
        ) by {
            assert(has_origin(p.minted[i], book, n - 1));
        }
        if is_rewritten(book, e) {
            let st = FloatState { memo: Set::empty(), next: 0, minted: p.minted };
            let cx = entry_ctx(book, e);
            let r = float_children(book.defs[e].1.rules[0].body, st, cx);
            lemma_float_children_extends(book.defs[e].1.rules[0].body, st, cx);
            assert(run.minted == r.1.minted);
            assert forall|i: int| 0 <= i < run.minted.len() implies has_origin(
                #[trigger] run.minted[i],
                book,
                n as int,
            ) by {
                if i < p.minted.len() {
                    assert(run.minted[i] == p.minted[i]);
                } else {
                    assert(is_combinator_of(run.minted[i], cx, (i - p.minted.len()) as nat));
                }
            }
            assert forall|i: int, j: int| 0 <= i < j < run.minted.len() implies (#[trigger] run.minted[i]).name
                != (#[trigger] run.minted[j]).name by {
                if j < p.minted.len() {
                    assert(run.minted[i] == p.minted[i]);
                    assert(run.minted[j] == p.minted[j]);
                } else {
                    let kj = (j - p.minted.len()) as nat;
                    assert(is_combinator_of(run.minted[j], cx, kj));
                    if i < p.minted.len() {
                        assert(run.minted[i] == p.minted[i]);
                        assert(has_origin(p.minted[i], book, n - 1));
                        let (e0, k0) = choose|e0: int, k0: nat|
                            0 <= e0 < n - 1 && #[trigger] is_combinator_of(
                                p.minted[i],
                                entry_ctx(book, e0),
                                k0,
                            );
                        if run.minted[i].name == run.minted[j].name {
                            lemma_combinator_name_injective(book.defs[e0].0, k0, book.defs[e].0, kj);
                            assert(false);
                        }
                    } else {
                        let ki = (i - p.minted.len()) as nat;
                        assert(is_combinator_of(run.minted[i], cx, ki));
                        if run.minted[i].name == run.minted[j].name {
                            lemma_combinator_name_injective(cx.def_name, ki, cx.def_name, kj);
                            assert(false);
                        }
                    }
                }
            }
        }
    }
}

/// Every definition that the pass floats is closed: the body of its only
/// rule has no free variable.
pub proof fn lemma_minted_closed(book: SpecBook, i: int)
    requires
        distinct_keys(book.defs),
        0 <= i < float_defs(book, book.defs.len()).minted.len(),
    ensures
        float_defs(book, book.defs.len()).minted[i].rules.len() == 1,
        free_vars(float_defs(book, book.defs.len()).minted[i].rules[0].body).is_empty(),
{
    lemma_float_defs_minted(book, book.defs.len());
    let d = float_defs(book, book.defs.len()).minted[i];
    assert(has_origin(d, book, book.defs.len() as int));
}

/// Every definition that the pass floats has one rule, without patterns,
/// whose body is an abstraction or an application without an unscoped
/// imbalance.
pub proof fn lemma_minted_shape(book: SpecBook, i: int)
    requires
        distinct_keys(book.defs),
        0 <= i < float_defs(book, book.defs.len()).minted.len(),
    ensures
        float_defs(book, book.defs.len()).minted[i].rules.len() == 1,
        float_defs(book, book.defs.len()).minted[i].rules[0].pats.len() == 0,
        float_defs(book, book.defs.len()).minted[i].rules[0].body is Lam || (float_defs(
            book,
            book.defs.len(),
        ).minted[i].rules[0].body is App && !has_unscoped_diff(
            float_defs(book, book.defs.len()).minted[i].rules[0].body,
        )),
{
    lemma_float_defs_minted(book, book.defs.len());
    let d = float_defs(book, book.defs.len()).minted[i];
    assert(has_origin(d, book, book.defs.len() as int));
}

/// The names of the definitions that the pass floats are pairwise distinct.
pub proof fn lemma_minted_names_distinct(book: SpecBook, i: int, j: int)
    requires
        distinct_keys(book.defs),
        0 <= i < j < float_defs(book, book.defs.len()).minted.len(),
    ensures
        float_defs(book, book.defs.len()).minted[i].name != float_defs(
            book,
            book.defs.len(),
        ).minted[j].name,
{
    lemma_float_defs_minted(book, book.defs.len());
}

/// No definition of the book is named as a combinator of a definition of
/// the book would be.
pub open spec fn no_combinator_names(defs: Seq<(Seq<char>, SpecDefinition)>) -> bool {
    forall|a: int, b: int, k: nat|
        0 <= a < defs.len() && 0 <= b < defs.len() ==> (#[trigger] defs[a]).0 != #[trigger] combinator_name(
            defs[b].0,
            k,
        )
}

/// Where no definition of the book has the name of a combinator, the names
/// of the definitions that the pass floats are new to the book.
pub proof fn lemma_minted_names_fresh(book: SpecBook, i: int, a: int)
    requires
        distinct_keys(book.defs),
        no_combinator_names(book.defs),
        0 <= i < float_defs(book, book.defs.len()).minted.len(),
        0 <= a < book.defs.len(),
    ensures
        float_defs(book, book.defs.len()).minted[i].name != book.defs[a].0,
{
    lemma_float_defs_minted(book, book.defs.len());
    let d = float_defs(book, book.defs.len()).minted[i];
    assert(has_origin(d, book, book.defs.len() as int));
    let (e, k) = choose|e: int, k: nat|
        0 <= e < book.defs.len() && #[trigger] is_combinator_of(d, entry_ctx(book, e), k);
    assert(d.name == combinator_name(book.defs[e].0, k));
}

/// Every definition of `tree_insert(s, d)` is `d` or one of `s`.
pub proof fn lemma_tree_insert_members(s: Seq<SpecDefinition>, d: SpecDefinition)
    ensures
        forall|j: int|
            0 <= j < tree_insert(s, d).len() ==> (#[trigger] tree_insert(s, d)[j]) == d || s.contains(
                tree_insert(s, d)[j],
            ),
    decreases s.len(),
{
    if s.len() > 0 {
        let pre = s.drop_last();
        lemma_tree_insert_members(pre, d);
        assert forall|j: int| 0 <= j < tree_insert(s, d).len() implies (#[trigger] tree_insert(
            s,
            d,
        )[j]) == d || s.contains(tree_insert(s, d)[j]) by {
            let x = tree_insert(s, d)[j];
            if x != d {
                if crate::naming::name_lt(s.last().name, d.name) {
                    assert(s[j] == x);
                } else if s.last().name == d.name {
                    assert(s[j] == x);
                } else {
                    if j < tree_insert(pre, d).len() {
                        assert(tree_insert(pre, d)[j] == x);
                        assert(pre.contains(x));
                        let w = choose|w: int| 0 <= w < pre.len() && pre[w] == x;
                        assert(s[w] == x);
                    } else {
                        assert(s[s.len() - 1] == x);
                    }
                }
            }
        }
    }
}

/// Every definition of `tree_of(ds)` is one of `ds`.
pub proof fn lemma_tree_of_members(ds: Seq<SpecDefinition>)
    ensures
        forall|j: int| 0 <= j < tree_of(ds).len() ==> ds.contains(#[trigger] tree_of(ds)[j]),
    decreases ds.len(),
{
    if ds.len() > 0 {
        let pre = ds.drop_last();
        lemma_tree_of_members(pre);
        lemma_tree_insert_members(tree_of(pre), ds.last());
        assert forall|j: int| 0 <= j < tree_of(ds).len() implies ds.contains(#[trigger] tree_of(ds)[j]) by {
            let x = tree_of(ds)[j];
            if x == ds.last() {
                assert(ds[ds.len() - 1] == x);
            } else {
                assert(tree_of(pre).contains(x));
                let w = choose|w: int| 0 <= w < tree_of(pre).len() && tree_of(pre)[w] == x;
                assert(pre.contains(tree_of(pre)[w]));
                let v = choose|v: int| 0 <= v < pre.len() && pre[v] == x;
                assert(ds[v] == x);
            }
        }
    }
}

/// What `extend_entries` does to the entries: the names of those that were
/// there stay; an entry under a name that no definition of `ds` has stays
/// as it is; and every other entry holds a definition of `ds` under its
/// name.
pub proof fn lemma_extend_entries(entries: Seq<(Seq<char>, SpecDefinition)>, ds: Seq<SpecDefinition>)
    ensures
        extend_entries(entries, ds).len() >= entries.len(),
        forall|j: int|
            0 <= j < entries.len() ==> (#[trigger] extend_entries(entries, ds)[j]).0 == entries[j].0,
        forall|j: int|
            0 <= j < entries.len() && (forall|k: int|
                0 <= k < ds.len() ==> (#[trigger] ds[k]).name != entries[j].0) ==> (#[trigger] extend_entries(
                entries,
                ds,
            )[j]) == entries[j],
        forall|j: int|
            entries.len() <= j < extend_entries(entries, ds).len() ==> ds.contains(
                (#[trigger] extend_entries(entries, ds)[j]).1,
            ),
        distinct_keys(entries) ==> distinct_keys(extend_entries(entries, ds)),
    decreases ds.len(),
{
    if ds.len() > 0 {
        let pre = ds.drop_last();
        let d = ds.last();
        let mid = extend_entries(entries, pre);
        let out = extend_entries(entries, ds);
        lemma_extend_entries(entries, pre);
        lemma_find_entry(mid, d.name);
        if distinct_keys(entries) {
            lemma_put_entry_distinct(mid, d.name, d);
        }
        assert(out == put_entry(mid, d.name, d));
        assert forall|j: int| 0 <= j < entries.len() && (forall|k: int|
            0 <= k < ds.len() ==> (#[trigger] ds[k]).name != entries[j].0) implies (#[trigger] out[j])
            == entries[j] by {
            assert forall|k: int| 0 <= k < pre.len() implies (#[trigger] pre[k]).name != entries[j].0 by {
                assert(pre[k] == ds[k]);
            }
            assert(mid[j] == entries[j]);
            assert(ds[ds.len() - 1].name != entries[j].0);
        }
        assert forall|j: int| entries.len() <= j < out.len() implies ds.contains((#[trigger] out[j]).1) by {
            if out[j].1 == d {
                assert(ds[ds.len() - 1] == d);
            } else {
                assert(out[j] == mid[j]);
                assert(pre.contains(mid[j].1));
                let w = choose|w: int| 0 <= w < pre.len() && pre[w] == mid[j].1;
                assert(ds[w] == mid[j].1);
            }
        }
    }
}

/// The pass leaves no two definitions with the same name.
pub proof fn lemma_float_book_wf(book: SpecBook)
    requires
        distinct_keys(book.defs),
    ensures
        distinct_keys(float_book(book).defs),
        float_book(book).defs.len() >= book.defs.len(),
        forall|j: int| 0 <= j < book.defs.len() ==> (#[trigger] float_book(book).defs[j]).0 == book.defs[j].0,
{
    let run = float_defs(book, book.defs.len());
    lemma_float_defs_keys(book, book.defs.len());
    lemma_extend_entries(run.entries, tree_of(run.minted));
    assert forall|i: int, j: int| 0 <= i < j < run.entries.len() implies (#[trigger] run.entries[i]).0
        != (#[trigger] run.entries[j]).0 by {
        assert(run.entries[i].0 == book.defs[i].0);
        assert(run.entries[j].0 == book.defs[j].0);
    }
}

/// Every definition that the pass adds to the book is closed: the body of
/// its only rule has no free variable.
pub proof fn lemma_added_definitions_closed(book: SpecBook, j: int)
    requires
        distinct_keys(book.defs),
        book.defs.len() <= j < float_book(book).defs.len(),
    ensures
        float_book(book).defs[j].1.rules.len() == 1,
        free_vars(float_book(book).defs[j].1.rules[0].body).is_empty(),
{
    let run = float_defs(book, book.defs.len());
    lemma_float_defs_keys(book, book.defs.len());
    lemma_extend_entries(run.entries, tree_of(run.minted));
    lemma_tree_of_members(run.minted);
    let d = float_book(book).defs[j].1;
    assert(tree_of(run.minted).contains(d));
    let w = choose|w: int| 0 <= w < tree_of(run.minted).len() && tree_of(run.minted)[w] == d;
    assert(run.minted.contains(tree_of(run.minted)[w]));
    let v = choose|v: int| 0 <= v < run.minted.len() && run.minted[v] == d;
    lemma_minted_closed(book, v);
}

/// The pass leaves the entrypoint as it is, unless a definition that it
/// floats has the entrypoint's name.
pub proof fn lemma_entrypoint_kept(book: SpecBook, i: int)
    requires
        0 <= i < book.defs.len(),
        book.entrypoint == Some(book.defs[i].0),
        forall|k: int|
            0 <= k < float_defs(book, book.defs.len()).minted.len() ==> (#[trigger] float_defs(
                book,
                book.defs.len(),
            ).minted[k]).name != book.defs[i].0,
    ensures
        float_book(book).defs[i] == book.defs[i],
        float_book(book).entrypoint == book.entrypoint,
{
    let run = float_defs(book, book.defs.len());
    lemma_float_defs_keys(book, book.defs.len());
    lemma_entrypoint_skipped(book, book.defs.len(), i);
    lemma_extend_entries(run.entries, tree_of(run.minted));
    lemma_tree_of_members(run.minted);
    assert forall|k: int| 0 <= k < tree_of(run.minted).len() implies (#[trigger] tree_of(
        run.minted,
    )[k]).name != run.entries[i].0 by {
        let d = tree_of(run.minted)[k];
        assert(run.minted.contains(d));
        let v = choose|v: int| 0 <= v < run.minted.len() && run.minted[v] == d;
        assert(run.minted[v].name != book.defs[i].0);
    }
}

/// The run over the entries passes over the entrypoint.
pub proof fn lemma_entrypoint_skipped(book: SpecBook, n: nat, i: int)
    requires
        0 <= i < n <= book.defs.len(),
        book.entrypoint == Some(book.defs[i].0),
    ensures
        float_defs(book, n).entries[i] == book.defs[i],
    decreases n,
{
    lemma_float_defs_keys(book, (n - 1) as nat);
    if i < n - 1 {
        lemma_entrypoint_skipped(book, (n - 1) as nat, i);
    }
}

/// Where no definition of the book has the name of a combinator, the pass
/// leaves the entrypoint as it is.
pub proof fn lemma_entrypoint_kept_in_fresh_book(book: SpecBook, i: int)
    requires
        distinct_keys(book.defs),
        no_combinator_names(book.defs),
        0 <= i < book.defs.len(),
        book.entrypoint == Some(book.defs[i].0),
    ensures
        float_book(book).defs[i] == book.defs[i],
{
    assert forall|k: int| 0 <= k < float_defs(book, book.defs.len()).minted.len() implies (#[trigger] float_defs(
        book,
        book.defs.len(),
    ).minted[k]).name != book.defs[i].0 by {
        lemma_minted_names_fresh(book, k, i);
    }
    lemma_entrypoint_kept(book, i);
}

/// A longer run keeps the entries and the combinators of a shorter one.
pub proof fn lemma_float_defs_grow(book: SpecBook, m: nat, n: nat)
    requires
        m <= n <= book.defs.len(),
    ensures
        float_defs(book, n).minted.len() >= float_defs(book, m).minted.len(),
        forall|i: int|
            0 <= i < float_defs(book, m).minted.len() ==> (#[trigger] float_defs(book, n).minted[i])
                == float_defs(book, m).minted[i],
        forall|i: int|
            0 <= i < m ==> (#[trigger] float_defs(book, n).entries[i]) == float_defs(book, m).entries[i],
    decreases n,
{
    lemma_float_defs_keys(book, m);
    lemma_float_defs_keys(book, n);
    if m < n {
        let p = float_defs(book, (n - 1) as nat);
        lemma_float_defs_grow(book, m, (n - 1) as nat);
        lemma_float_defs_keys(book, (n - 1) as nat);
        let e = n - 1;
        if is_rewritten(book, e) {
            let st = FloatState { memo: Set::empty(), next: 0, minted: p.minted };
            lemma_float_children_extends(book.defs[e].1.rules[0].body, st, entry_ctx(book, e));
        }
        assert forall|i: int| 0 <= i < m implies (#[trigger] float_defs(book, n).entries[i])
            == float_defs(book, m).entries[i] by {
            assert(float_defs(book, n).entries[i] == p.entries[i]);
        }
    }
}

/// The names of the definitions of a sequence are pairwise distinct.
pub open spec fn distinct_names(ds: Seq<SpecDefinition>) -> bool {
    forall|i: int, j: int| 0 <= i < j < ds.len() ==> (#[trigger] ds[i]).name != (#[trigger] ds[j]).name
}

/// Each definition of a sequence under its name.
pub open spec fn named(ds: Seq<SpecDefinition>) -> Seq<(Seq<char>, SpecDefinition)> {
    Seq::new(ds.len(), |k: int| (ds[k].name, ds[k]))
}

/// A definition with a new name makes the sequence in the order of the
/// names one longer, and all that were in it stay.
pub proof fn lemma_tree_insert_fresh(s: Seq<SpecDefinition>, d: SpecDefinition)
    requires
        forall|i: int| 0 <= i < s.len() ==> (#[trigger] s[i]).name != d.name,
        distinct_names(s),
    ensures
        tree_insert(s, d).len() == s.len() + 1,
        tree_insert(s, d).contains(d),
        forall|i: int| 0 <= i < s.len() ==> tree_insert(s, d).contains(#[trigger] s[i]),
        distinct_names(tree_insert(s, d)),
    decreases s.len(),
{
    if s.len() == 0 {
        assert(tree_insert(s, d)[0] == d);
    } else if crate::naming::name_lt(s.last().name, d.name) {
        let out = s.push(d);
        assert(out[s.len() as int] == d);
        assert forall|i: int| 0 <= i < s.len() implies out.contains(#[trigger] s[i]) by {
            assert(out[i] == s[i]);
        }
        assert forall|i: int, j: int| 0 <= i < j < out.len() implies (#[trigger] out[i]).name != (
        #[trigger] out[j]).name by {
            assert(out[i] == s[i]);
            if j < s.len() {
                assert(out[j] == s[j]);
            }
        }
    } else {
        let pre = s.drop_last();
        assert(s.last().name != d.name);
        assert forall|i: int| 0 <= i < pre.len() implies (#[trigger] pre[i]).name != d.name by {
            assert(pre[i] == s[i]);
        }
        assert forall|i: int, j: int| 0 <= i < j < pre.len() implies (#[trigger] pre[i]).name != (
        #[trigger] pre[j]).name by {
            assert(pre[i] == s[i]);
            assert(pre[j] == s[j]);
        }
        lemma_tree_insert_fresh(pre, d);
        lemma_tree_insert_members(pre, d);
        let mid = tree_insert(pre, d);
        let out = mid.push(s.last());
        assert(tree_insert(s, d) == out);
        assert forall|i: int, j: int| 0 <= i < j < out.len() implies (#[trigger] out[i]).name != (
        #[trigger] out[j]).name by {
            assert(out[i] == mid[i]);
            if j < mid.len() {
                assert(out[j] == mid[j]);
            } else {
                assert(out[j] == s[s.len() - 1]);
                if mid[i] != d {
                    assert(pre.contains(mid[i]));
                    let v = choose|v: int| 0 <= v < pre.len() && pre[v] == mid[i];
                    assert(s[v] == mid[i]);
                    assert(s[v].name != s[s.len() - 1].name);
                }
            }
        }
        let w = choose|w: int| 0 <= w < mid.len() && mid[w] == d;
        assert(out[w] == d);
        assert forall|i: int| 0 <= i < s.len() implies out.contains(#[trigger] s[i]) by {
            if i < pre.len() {
                assert(pre[i] == s[i]);
                assert(mid.contains(pre[i]));
                let v = choose|v: int| 0 <= v < mid.len() && mid[v] == pre[i];
                assert(out[v] == s[i]);
            } else {
                assert(out[mid.len() as int] == s[i]);
            }
        }
    }
}

/// Definitions with pairwise distinct names all stand in the sequence in
/// the order of their names, each once.
pub proof fn lemma_tree_of_distinct(ds: Seq<SpecDefinition>)
    requires
        distinct_names(ds),
    ensures
        tree_of(ds).len() == ds.len(),
        forall|k: int| 0 <= k < ds.len() ==> tree_of(ds).contains(#[trigger] ds[k]),
        distinct_names(tree_of(ds)),
    decreases ds.len(),
{
    if ds.len() > 0 {
        let pre = ds.drop_last();
        let d = ds.last();
        assert forall|i: int, j: int| 0 <= i < j < pre.len() implies (#[trigger] pre[i]).name != (
        #[trigger] pre[j]).name by {
            assert(pre[i] == ds[i]);
            assert(pre[j] == ds[j]);
        }
        lemma_tree_of_distinct(pre);
        lemma_tree_of_members(pre);
        let t = tree_of(pre);
        assert forall|i: int| 0 <= i < t.len() implies (#[trigger] t[i]).name != d.name by {
            assert(pre.contains(t[i]));
            let v = choose|v: int| 0 <= v < pre.len() && pre[v] == t[i];
            assert(ds[v] == t[i]);
            assert(ds[v].name != ds[ds.len() - 1].name);
        }
        lemma_tree_insert_fresh(t, d);
        lemma_tree_insert_members(t, d);
        let out = tree_insert(t, d);
        assert forall|k: int| 0 <= k < ds.len() implies out.contains(#[trigger] ds[k]) by {
            if k < pre.len() {
                assert(pre[k] == ds[k]);
                assert(t.contains(pre[k]));
                let v = choose|v: int| 0 <= v < t.len() && t[v] == pre[k];
                assert(out.contains(t[v]));
            }
        }
    }
}

/// Definitions whose names are pairwise distinct and new to the entries
/// all go behind the entries, in their order.
pub proof fn lemma_extend_entries_fresh(
    entries: Seq<(Seq<char>, SpecDefinition)>,
    ds: Seq<SpecDefinition>,
)
    requires
        distinct_names(ds),
        forall|j: int, k: int|
            0 <= j < entries.len() && 0 <= k < ds.len() ==> (#[trigger] entries[j]).0 != (
            #[trigger] ds[k]).name,
    ensures
        extend_entries(entries, ds) == entries + named(ds),
    decreases ds.len(),
{
    if ds.len() == 0 {
        assert(entries + named(ds) =~= entries);
    } else {
        let pre = ds.drop_last();
        let d = ds.last();
        assert forall|i: int, j: int| 0 <= i < j < pre.len() implies (#[trigger] pre[i]).name != (
        #[trigger] pre[j]).name by {
            assert(pre[i] == ds[i]);
            assert(pre[j] == ds[j]);
        }
        assert forall|j: int, k: int| 0 <= j < entries.len() && 0 <= k < pre.len() implies (
        #[trigger] entries[j]).0 != (#[trigger] pre[k]).name by {
            assert(pre[k] == ds[k]);
        }
        lemma_extend_entries_fresh(entries, pre);
        let mid = entries + named(pre);
        lemma_find_entry(mid, d.name);
        assert(d == ds[ds.len() - 1]);
        match crate::book::find_entry(mid, d.name) {
            Some(i) => {
                if i < entries.len() {
                    assert(mid[i] == entries[i]);
                    assert(entries[i].0 != ds[ds.len() - 1].name);
                } else {
                    let k = i - entries.len();
                    assert(mid[i] == named(pre)[k]);
                    assert(pre[k] == ds[k]);
                    assert(ds[k].name != ds[ds.len() - 1].name);
                }
                assert(false);
            },
            None => {},
        }
        assert(mid.push((d.name, d)) =~= entries + named(ds));
    }
}

/// The names of the combinators that the run floats out of an entry: they
/// stand in a row among the combinators of the run and carry the indices
/// from zero on, in order.
pub proof fn lemma_minted_names_by_entry(book: SpecBook, e: int, k: nat)
    requires
        0 <= e < book.defs.len(),
        float_defs(book, e as nat).minted.len() + k < float_defs(book, (e + 1) as nat).minted.len(),
    ensures
        is_rewritten(book, e),
        float_defs(book, e as nat).minted.len() + k < float_defs(book, book.defs.len()).minted.len(),
        is_combinator_of(
            float_defs(book, book.defs.len()).minted[(float_defs(book, e as nat).minted.len()
                + k) as int],
            entry_ctx(book, e),
            k,
        ),
{
    let p = float_defs(book, e as nat);
    let st = FloatState { memo: Set::empty(), next: 0, minted: p.minted };
    lemma_float_children_extends(book.defs[e].1.rules[0].body, st, entry_ctx(book, e));
    lemma_float_defs_grow(book, (e + 1) as nat, book.defs.len());
    let run = float_defs(book, (e + 1) as nat);
    let i = (p.minted.len() + k) as int;
    assert(is_combinator_of(run.minted[i], entry_ctx(book, e), k));
}

/// Where no definition of the book has the name of a combinator, the pass
/// makes the book longer by the combinators that it floats: they stand
/// behind the definitions that were there, each once under its name.
pub proof fn lemma_float_book_count(book: SpecBook)
    requires
        distinct_keys(book.defs),
        no_combinator_names(book.defs),
    ensures
        float_book(book).defs.len() == book.defs.len() + float_defs(
            book,
            book.defs.len(),
        ).minted.len(),
        float_book(book).defs == float_defs(book, book.defs.len()).entries + named(
            tree_of(float_defs(book, book.defs.len()).minted),
        ),
        forall|k: int|
            0 <= k < float_defs(book, book.defs.len()).minted.len() ==> tree_of(
                float_defs(book, book.defs.len()).minted,
            ).contains(#[trigger] float_defs(book, book.defs.len()).minted[k]),
{
    let run = float_defs(book, book.defs.len());
    lemma_float_defs_keys(book, book.defs.len());
    lemma_float_defs_minted(book, book.defs.len());
    lemma_tree_of_distinct(run.minted);
    lemma_tree_of_members(run.minted);
    let t = tree_of(run.minted);
    assert forall|j: int, k: int| 0 <= j < run.entries.len() && 0 <= k < t.len() implies (
    #[trigger] run.entries[j]).0 != (#[trigger] t[k]).name by {
        assert(run.minted.contains(t[k]));
        let v = choose|v: int| 0 <= v < run.minted.len() && run.minted[v] == t[k];
        lemma_minted_names_fresh(book, v, j);
        assert(run.entries[j].0 == book.defs[j].0);
    }
    lemma_extend_entries_fresh(run.entries, t);
}

} // verus!
