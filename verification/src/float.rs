//! Combinator floating: closed applications and closed abstractions leave
//! the body of a definition for fresh top-level definitions, and references
//! take their places.

use crate::book::{Book, Definition, SpecDefinition};
use crate::names::{set_is_empty, set_names};
use crate::naming::{combinator_name, make_combinator_name};
use crate::safety::spec_is_safe;
use crate::scope::{free_vars, has_unscoped_diff, is_combinator};
use crate::shell::{
    children, join, lemma_children_join, lemma_join_children, lemma_join_size, shell_of,
};
use crate::term::{
    lemma_seq_size_concat, lemma_seq_size_first, lemma_seq_size_single, lemma_term_size_positive,
    seq_size, term_size, Name, SpecTerm, Term,
};
use indexmap::IndexSet;
use vstd::prelude::*;

verus! {

/// What stays the same while one definition is rewritten: the entries of
/// the book as they were before the pass, the name of the definition, and
/// its builtin flag.
pub struct FloatCtx {
    pub defs: Seq<(Seq<char>, SpecDefinition)>,
    pub def_name: Seq<char>,
    pub builtin: bool,
}

/// What changes while the pass runs: the memo of the safety analysis, the
/// index of the next combinator of the definition, and the combinators
/// floated so far, in the order in which they were made.
pub struct FloatState {
    pub memo: Set<Seq<char>>,
    pub next: nat,
    pub minted: Seq<SpecDefinition>,
}

/// The models of a sequence of definitions.
pub open spec fn view_defs(ds: Seq<Definition>) -> Seq<SpecDefinition> {
    ds.map_values(|d: Definition| d@)
}

/// Floating `t`: a reference to a fresh definition stands for it, and the
/// definition holds `t` as its body.
pub open spec fn mint(t: SpecTerm, st: FloatState, cx: FloatCtx) -> (SpecTerm, FloatState) {
    let name = combinator_name(cx.def_name, st.next);
    (
        SpecTerm::Ref { nam: name },
        FloatState {
            memo: st.memo,
            next: st.next + 1,
            minted: st.minted.push(SpecDefinition::combinator(name, t, cx.builtin)),
        },
    )
}

/// Whether a term whose children have been rewritten is floated as a whole:
/// a closed application without an unscoped imbalance, or a combinator. A
/// superposition never is.
pub open spec fn floats_whole(t: SpecTerm) -> bool {
    match t {
        SpecTerm::App { .. } => free_vars(t).is_empty() && !has_unscoped_diff(t),
        SpecTerm::Sup { .. } => false,
        _ => is_combinator(t),
    }
}

/// The rewrite of one child. A child that is safe or has an unscoped
/// imbalance stays as it is. Otherwise its own children are rewritten
/// first; then an application or an abstraction that qualifies is floated,
/// and the elements of a superposition have their children rewritten once
/// more. (The comparison of sizes in the case of the superposition always
/// holds, by `lemma_float_children_size`; it makes the definition well
/// founded.)
pub open spec fn float_child(c: SpecTerm, st: FloatState, cx: FloatCtx) -> (SpecTerm, FloatState)
    decreases term_size(c), 2nat,
{
    let safe = spec_is_safe(c, cx.defs, st.memo);
    let st0 = FloatState { memo: safe.1, next: st.next, minted: st.minted };
    if safe.0 || has_unscoped_diff(c) {
        (c, st0)
    } else {
        let r = float_children(c, st0, cx);
        match r.0 {
            SpecTerm::Sup { tag, els } => if seq_size(els) < term_size(c) {
                let e = refloat_all(els, r.1, cx);
                (SpecTerm::Sup { tag, els: e.0 }, e.1)
            } else {
                r
            },
            _ => if floats_whole(r.0) {
                mint(r.0, r.1, cx)
            } else {
                r
            },
        }
    }
}

/// The rewrite of all the children of a term, from the first to the last.
pub open spec fn float_children(t: SpecTerm, st: FloatState, cx: FloatCtx) -> (SpecTerm, FloatState)
    decreases term_size(t), 1nat,
{
    proof {
        lemma_join_children(t);
    }
    let e = float_all(children(t), st, cx);
    (join(shell_of(t), e.0), e.1)
}

/// The rewrite, as children, of the terms of a sequence, from the first to
/// the last.
pub open spec fn float_all(ts: Seq<SpecTerm>, st: FloatState, cx: FloatCtx) -> (
    Seq<SpecTerm>,
    FloatState,
)
    decreases seq_size(ts), 3nat,
{
    if ts.len() == 0 {
        (Seq::empty(), st)
    } else {
        proof {
            lemma_seq_size_first(ts);
            lemma_term_size_positive(ts[0]);
        }
        let c = float_child(ts[0], st, cx);
        let r = float_all(ts.drop_first(), c.1, cx);
        (seq![c.0] + r.0, r.1)
    }
}

/// The rewrite of the children of each of the terms of a sequence, from
/// the first to the last.
pub open spec fn refloat_all(ts: Seq<SpecTerm>, st: FloatState, cx: FloatCtx) -> (
    Seq<SpecTerm>,
    FloatState,
)
    decreases seq_size(ts), 3nat,
{
    if ts.len() == 0 {
        (Seq::empty(), st)
    } else {
        proof {
            lemma_seq_size_first(ts);
            lemma_term_size_positive(ts[0]);
        }
        let c = float_children(ts[0], st, cx);
        let r = refloat_all(ts.drop_first(), c.1, cx);
        (seq![c.0] + r.0, r.1)
    }
}

/// The rewrite of a child does not make it larger, and each combinator
/// that it floats makes it smaller: the counter grows by no more than the
/// child shrinks.
pub proof fn lemma_float_child_size(c: SpecTerm, st: FloatState, cx: FloatCtx)
    ensures
        term_size(float_child(c, st, cx).0) <= term_size(c),
        st.next <= float_child(c, st, cx).1.next,
        float_child(c, st, cx).1.next + term_size(float_child(c, st, cx).0) <= st.next + term_size(c),
    decreases term_size(c), 2nat,
{
    let safe = spec_is_safe(c, cx.defs, st.memo);
    let st0 = FloatState { memo: safe.1, next: st.next, minted: st.minted };
    if safe.0 || has_unscoped_diff(c) {
    } else {
        let r = float_children(c, st0, cx);
        lemma_float_children_size(c, st0, cx);
        lemma_term_size_positive(r.0);
        lemma_join_children(r.0);
        match r.0 {
            SpecTerm::Sup { tag, els } => {
                let e = refloat_all(els, r.1, cx);
                lemma_refloat_all_size(els, r.1, cx);
                lemma_join_children(SpecTerm::Sup { tag, els: e.0 });
            },
            _ => {
                assert(term_size(mint(r.0, r.1, cx).0) == 1);
                match r.0 {
                    SpecTerm::App { fun, arg } => {
                        lemma_term_size_positive(*fun);
                    },
                    SpecTerm::Lam { bod, .. } => {
                        lemma_term_size_positive(*bod);
                    },
                    _ => {},
                }
            },
        }
    }
}

/// The rewrite of the children of a term keeps its shell and does not
/// make it larger; the counter grows by no more than the term shrinks.
pub proof fn lemma_float_children_size(t: SpecTerm, st: FloatState, cx: FloatCtx)
    ensures
        term_size(float_children(t, st, cx).0) <= term_size(t),
        st.next <= float_children(t, st, cx).1.next,
        float_children(t, st, cx).1.next + term_size(float_children(t, st, cx).0) <= st.next
            + term_size(t),
        shell_of(float_children(t, st, cx).0) == shell_of(t),
        children(float_children(t, st, cx).0) == float_all(children(t), st, cx).0,
    decreases term_size(t), 1nat,
{
    lemma_join_children(t);
    lemma_float_all_size(children(t), st, cx);
    let e = float_all(children(t), st, cx);
    lemma_join_size(shell_of(t), e.0);
    lemma_children_join(shell_of(t), e.0);
}

/// The rewrite of a sequence keeps its length and does not make it larger;
/// the counter grows by no more than the sequence shrinks.
pub proof fn lemma_float_all_size(ts: Seq<SpecTerm>, st: FloatState, cx: FloatCtx)
    ensures
        float_all(ts, st, cx).0.len() == ts.len(),
        seq_size(float_all(ts, st, cx).0) <= seq_size(ts),
        st.next <= float_all(ts, st, cx).1.next,
        float_all(ts, st, cx).1.next + seq_size(float_all(ts, st, cx).0) <= st.next + seq_size(ts),
    decreases seq_size(ts), 3nat,
{
    if ts.len() > 0 {
        lemma_seq_size_first(ts);
        lemma_term_size_positive(ts[0]);
        let c = float_child(ts[0], st, cx);
        let r = float_all(ts.drop_first(), c.1, cx);
        lemma_float_child_size(ts[0], st, cx);
        lemma_float_all_size(ts.drop_first(), c.1, cx);
        lemma_seq_size_concat(seq![c.0], r.0);
        lemma_seq_size_single(c.0);
    }
}

/// The second rewrite of a sequence keeps its length and does not make it
/// larger; the counter grows by no more than the sequence shrinks.
pub proof fn lemma_refloat_all_size(ts: Seq<SpecTerm>, st: FloatState, cx: FloatCtx)
    ensures
        refloat_all(ts, st, cx).0.len() == ts.len(),
        seq_size(refloat_all(ts, st, cx).0) <= seq_size(ts),
        st.next <= refloat_all(ts, st, cx).1.next,
        refloat_all(ts, st, cx).1.next + seq_size(refloat_all(ts, st, cx).0) <= st.next + seq_size(
            ts,
        ),
    decreases seq_size(ts), 3nat,
{
    if ts.len() > 0 {
        lemma_seq_size_first(ts);
        lemma_term_size_positive(ts[0]);
        let c = float_children(ts[0], st, cx);
        let r = refloat_all(ts.drop_first(), c.1, cx);
        lemma_float_children_size(ts[0], st, cx);
        lemma_refloat_all_size(ts.drop_first(), c.1, cx);
        lemma_seq_size_concat(seq![c.0], r.0);
        lemma_seq_size_single(c.0);
    }
}

/// What the rewrite of a child does with the child once its children are
/// rewritten.
pub open spec fn settle(t: SpecTerm, st: FloatState, cx: FloatCtx) -> (SpecTerm, FloatState) {
    match t {
        SpecTerm::Sup { tag, els } => {
            let e = refloat_all(els, st, cx);
            (SpecTerm::Sup { tag, els: e.0 }, e.1)
        },
        _ => if floats_whole(t) {
            mint(t, st, cx)
        } else {
            (t, st)
        },
    }
}

/// The rewrite of a child that is neither safe nor unbalanced: its
/// children are rewritten, and then it is settled.
pub proof fn lemma_float_child_settles(c: SpecTerm, st: FloatState, cx: FloatCtx)
    requires
        !spec_is_safe(c, cx.defs, st.memo).0,
        !has_unscoped_diff(c),
    ensures
        float_child(c, st, cx) == settle(
            float_children(
                c,
                FloatState { memo: spec_is_safe(c, cx.defs, st.memo).1, next: st.next, minted: st.minted },
                cx,
            ).0,
            float_children(
                c,
                FloatState { memo: spec_is_safe(c, cx.defs, st.memo).1, next: st.next, minted: st.minted },
                cx,
            ).1,
            cx,
        ),
{
    let st0 = FloatState { memo: spec_is_safe(c, cx.defs, st.memo).1, next: st.next, minted: st.minted };
    let r = float_children(c, st0, cx);
    lemma_float_children_size(c, st0, cx);
    lemma_join_children(r.0);
}

/// The state of the pass that the three pieces of the running pass stand
/// for.
pub open spec fn state_of(memo: IndexSet<Name>, next: usize, combs: Vec<Definition>) -> FloatState {
    FloatState { memo: set_names(memo), next: next as nat, minted: view_defs(combs@) }
}

/// The frame of the rewrite of the definition `def_name` of `book`.
pub open spec fn ctx_of(book: &Book, def_name: &Name, builtin: bool) -> FloatCtx {
    FloatCtx { defs: book@.defs, def_name: def_name@, builtin }
}

/// Floats `term`: a fresh definition, named after `def_name` and the
/// counter, takes the term as its body, and a reference to it takes the
/// term's place. The counter must have room for one more: it is below the
/// largest number, or it is at most the number of the combinators, which
/// a vector keeps below the largest number.
pub(crate) fn float_combinator(
    def_name: &Name,
    name_gen: &mut usize,
    term: &mut Term,
    builtin: bool,
    combinators: &mut Vec<Definition>,
)
    requires
        *old(name_gen) < usize::MAX || *old(name_gen) <= old(combinators).len(),
    ensures
        final(term)@ == (SpecTerm::Ref { nam: combinator_name(def_name@, *old(name_gen) as nat) }),
        *final(name_gen) == *old(name_gen) + 1,
        *old(name_gen) <= old(combinators).len() ==> *final(name_gen) <= final(combinators).len(),
        view_defs(final(combinators)@) == view_defs(old(combinators)@).push(
            SpecDefinition::combinator(
                combinator_name(def_name@, *old(name_gen) as nat),
                old(term)@,
                builtin,
            ),
        ),
{
    let comb_name = make_combinator_name(def_name, *name_gen);
    let mut extracted = Term::Ref { nam: comb_name.clone() };
    core::mem::swap(term, &mut extracted);
    let def = Definition::combinator(comb_name, extracted, builtin);
    let ghost before = combinators@;
    combinators.push(def);
    assert(view_defs(combinators@) =~= view_defs(before).push(def@));
    assert(combinators.len() == before.len() + 1);
    *name_gen += 1;
}

impl Term {
    /// Whether the term is an application.
    pub fn is_app(&self) -> (r: bool)
        ensures
            r == (self@ is App),
    {
        match self {
            Term::App { .. } => true,
            _ => false,
        }
    }

    /// Whether the term is a superposition.
    pub fn is_sup(&self) -> (r: bool)
        ensures
            r == (self@ is Sup),
    {
        match self {
            Term::Sup { .. } => true,
            _ => false,
        }
    }

    /// Whether the term, with its children rewritten, is floated as a
    /// whole.
    pub fn floats_whole(&self) -> (r: bool)
        ensures
            r == floats_whole(self@),
    {
        if self.is_app() {
            set_is_empty(&self.free_vars()) && !self.has_unscoped_diff()
        } else if self.is_sup() {
            false
        } else {
            self.is_combinator()
        }
    }
}

} // verus!
