//! Safety analysis: which terms may be duplicated at no cost.
//!
//! A number and the eraser are safe; a tuple or a superposition is safe when
//! all its elements are; an abstraction is safe when, under its binders,
//! stands one of their variables, a reference, or a safe term; a reference
//! is safe when the body of its definition is. References are followed
//! through a memo of names: a name that the memo holds counts as safe
//! without a second look, which is what ends the analysis on definitions
//! that refer to each other.

use crate::book::{lemma_find_entry, lookup, Book, SpecDefinition};
use crate::names::{lemma_names_of_push, name_in, names_of, set_insert, set_names};
use crate::shell::{pending_of, push_reversed};
use crate::term::{
    lemma_seq_size_concat, lemma_seq_size_first, lemma_seq_size_single, lemma_term_size_positive,
    seq_size, term_size, Name, SpecTerm, Term,
};
use indexmap::IndexSet;
use vstd::prelude::*;

verus! {

/// The number of entries whose name the memo does not hold.
pub open spec fn unvisited(defs: Seq<(Seq<char>, SpecDefinition)>, memo: Set<Seq<char>>) -> nat
    decreases defs.len(),
{
    if defs.len() == 0 {
        0
    } else {
        unvisited(defs.drop_last(), memo) + if memo.contains(defs.last().0) {
            0nat
        } else {
            1nat
        }
    }
}

/// What stands under the leading binders of a term.
pub open spec fn lam_residual(t: SpecTerm) -> SpecTerm
    decreases t,
{
    match t {
        SpecTerm::Lam { bod, .. } => lam_residual(*bod),
        _ => t,
    }
}

/// The variables that the leading binders of a term bind.
pub open spec fn lam_scope(t: SpecTerm) -> Set<Seq<char>>
    decreases t,
{
    match t {
        SpecTerm::Lam { nam: Some(n), bod } => lam_scope(*bod).insert(n),
        SpecTerm::Lam { nam: None, bod } => lam_scope(*bod),
        _ => Set::empty(),
    }
}

/// The term projects a variable of its own leading binders, or stands for a
/// reference under them.
pub open spec fn is_projection(t: SpecTerm) -> bool {
    match lam_residual(t) {
        SpecTerm::Var { nam } => lam_scope(t).contains(nam),
        SpecTerm::Ref { .. } => true,
        _ => false,
    }
}

/// The body that `defs` holds for a name.
pub open spec fn lookup_body(defs: Seq<(Seq<char>, SpecDefinition)>, nam: Seq<char>) -> Option<SpecTerm> {
    match lookup(defs, nam) {
        Some(d) => d.body(),
        None => None,
    }
}

/// Whether all the terms of `pending` are safe, taken from the first on and
/// starting with `memo`; and the memo afterwards. The analysis stops at the
/// first term that is not safe.
pub open spec fn safe_all(
    pending: Seq<SpecTerm>,
    defs: Seq<(Seq<char>, SpecDefinition)>,
    memo: Set<Seq<char>>,
) -> (bool, Set<Seq<char>>)
    decreases unvisited(defs, memo), seq_size(pending),
{
    if pending.len() == 0 {
        (true, memo)
    } else {
        let rest = pending.drop_first();
        proof {
            lemma_safe_all_decreases(pending, defs, memo);
        }
        match pending[0] {
            SpecTerm::Num { .. } => safe_all(rest, defs, memo),
            SpecTerm::Era => safe_all(rest, defs, memo),
            SpecTerm::Tup { els } => safe_all(els + rest, defs, memo),
            SpecTerm::Sup { els, .. } => safe_all(els + rest, defs, memo),
            SpecTerm::Lam { .. } => if is_projection(pending[0]) {
                safe_all(rest, defs, memo)
            } else {
                safe_all(seq![lam_residual(pending[0])] + rest, defs, memo)
            },
            SpecTerm::Ref { nam } => if memo.contains(nam) {
                safe_all(rest, defs, memo)
            } else {
                match lookup_body(defs, nam) {
                    Some(body) => safe_all(seq![body] + rest, defs, memo.insert(nam)),
                    None => (false, memo.insert(nam)),
                }
            },
            _ => (false, memo),
        }
    }
}

/// Whether a term is safe, starting with `memo`; and the memo afterwards.
pub open spec fn spec_is_safe(
    t: SpecTerm,
    defs: Seq<(Seq<char>, SpecDefinition)>,
    memo: Set<Seq<char>>,
) -> (bool, Set<Seq<char>>) {
    safe_all(seq![t], defs, memo)
}

/// Whether a term is a constant abstraction: under its leading binders
/// stands one of their variables, a reference, or a safe term.
pub open spec fn spec_is_constant_lambda(
    t: SpecTerm,
    defs: Seq<(Seq<char>, SpecDefinition)>,
    memo: Set<Seq<char>>,
) -> (bool, Set<Seq<char>>) {
    if is_projection(t) {
        (true, memo)
    } else {
        spec_is_safe(lam_residual(t), defs, memo)
    }
}

/// A larger memo leaves no more entries unvisited.
pub proof fn lemma_unvisited_monotone(
    defs: Seq<(Seq<char>, SpecDefinition)>,
    m1: Set<Seq<char>>,
    m2: Set<Seq<char>>,
)
    requires
        m1.subset_of(m2),
    ensures
        unvisited(defs, m2) <= unvisited(defs, m1),
    decreases defs.len(),
{
    if defs.len() > 0 {
        lemma_unvisited_monotone(defs.drop_last(), m1, m2);
    }
}

/// A name of an entry that enters the memo leaves one entry less unvisited.
pub proof fn lemma_unvisited_insert(
    defs: Seq<(Seq<char>, SpecDefinition)>,
    memo: Set<Seq<char>>,
    i: int,
)
    requires
        0 <= i < defs.len(),
        !memo.contains(defs[i].0),
    ensures
        unvisited(defs, memo.insert(defs[i].0)) < unvisited(defs, memo),
    decreases defs.len(),
{
    let pre = defs.drop_last();
    if i == defs.len() - 1 {
        lemma_unvisited_monotone(pre, memo, memo.insert(defs[i].0));
    } else {
        assert(pre[i] == defs[i]);
        lemma_unvisited_insert(pre, memo, i);
    }
}

/// What stands under the binders of an abstraction is smaller than it.
pub proof fn lemma_lam_residual_size(t: SpecTerm)
    ensures
        term_size(lam_residual(t)) <= term_size(t),
        t is Lam ==> term_size(lam_residual(t)) < term_size(t),
        !(lam_residual(t) is Lam),
    decreases t,
{
    match t {
        SpecTerm::Lam { bod, .. } => {
            lemma_lam_residual_size(*bod);
        },
        _ => {},
    }
}

/// Each step of `safe_all` leaves less to do.
pub proof fn lemma_safe_all_decreases(
    pending: Seq<SpecTerm>,
    defs: Seq<(Seq<char>, SpecDefinition)>,
    memo: Set<Seq<char>>,
)
    requires
        pending.len() > 0,
    ensures
        seq_size(pending.drop_first()) < seq_size(pending),
        pending[0] matches SpecTerm::Tup { els } ==> seq_size(els + pending.drop_first()) < seq_size(
            pending,
        ),
        pending[0] matches SpecTerm::Sup { els, .. } ==> seq_size(els + pending.drop_first())
            < seq_size(pending),
        pending[0] is Lam ==> seq_size(seq![lam_residual(pending[0])] + pending.drop_first())
            < seq_size(pending),
        pending[0] matches SpecTerm::Ref { nam } ==> seq_size(pending.drop_first()) < seq_size(pending),
        pending[0] matches SpecTerm::Ref { nam } ==> (!memo.contains(nam) && lookup_body(
            defs,
            nam,
        ).is_some() ==> unvisited(defs, memo.insert(nam)) < unvisited(defs, memo)),
{
    let rest = pending.drop_first();
    lemma_seq_size_first(pending);
    lemma_term_size_positive(pending[0]);
    match pending[0] {
        SpecTerm::Tup { els } => {
            lemma_seq_size_concat(els, rest);
        },
        SpecTerm::Sup { els, .. } => {
            lemma_seq_size_concat(els, rest);
        },
        SpecTerm::Lam { .. } => {
            let r = lam_residual(pending[0]);
            lemma_lam_residual_size(pending[0]);
            lemma_seq_size_concat(seq![r], rest);
            lemma_seq_size_single(r);
        },
        SpecTerm::Ref { nam } => {
            if !memo.contains(nam) && lookup_body(defs, nam).is_some() {
                lemma_find_entry(defs, nam);
                let i = crate::book::find_entry(defs, nam).unwrap();
                lemma_unvisited_insert(defs, memo, i);
            }
        },
        _ => {},
    }
}

/// The analysis of a concatenation is that of its first part and then, if
/// that part is safe, that of the second from the memo that the first left.
pub proof fn lemma_safe_all_concat(
    a: Seq<SpecTerm>,
    b: Seq<SpecTerm>,
    defs: Seq<(Seq<char>, SpecDefinition)>,
    memo: Set<Seq<char>>,
)
    ensures
        safe_all(a + b, defs, memo) == if safe_all(a, defs, memo).0 {
            safe_all(b, defs, safe_all(a, defs, memo).1)
        } else {
            safe_all(a, defs, memo)
        },
    decreases unvisited(defs, memo), seq_size(a),
{
    if a.len() == 0 {
        assert(a + b =~= b);
    } else {
        let rest = a.drop_first();
        lemma_safe_all_decreases(a, defs, memo);
        assert((a + b)[0] == a[0]);
        assert((a + b).drop_first() =~= rest + b);
        match a[0] {
            SpecTerm::Num { .. } => {
                lemma_safe_all_concat(rest, b, defs, memo);
            },
            SpecTerm::Era => {
                lemma_safe_all_concat(rest, b, defs, memo);
            },
            SpecTerm::Tup { els } => {
                assert(els + (rest + b) =~= (els + rest) + b);
                lemma_safe_all_concat(els + rest, b, defs, memo);
            },
            SpecTerm::Sup { els, .. } => {
                assert(els + (rest + b) =~= (els + rest) + b);
                lemma_safe_all_concat(els + rest, b, defs, memo);
            },
            SpecTerm::Lam { .. } => {
                if is_projection(a[0]) {
                    lemma_safe_all_concat(rest, b, defs, memo);
                } else {
                    let r = seq![lam_residual(a[0])];
                    assert(r + (rest + b) =~= (r + rest) + b);
                    lemma_safe_all_concat(r + rest, b, defs, memo);
                }
            },
            SpecTerm::Ref { nam } => {
                if memo.contains(nam) {
                    lemma_safe_all_concat(rest, b, defs, memo);
                } else {
                    match lookup_body(defs, nam) {
                        Some(body) => {
                            let r = seq![body];
                            assert(r + (rest + b) =~= (r + rest) + b);
                            lemma_safe_all_concat(r + rest, b, defs, memo.insert(nam));
                        },
                        None => {},
                    }
                }
            },
            _ => {},
        }
    }
}

/// The analysis only adds names to the memo.
pub proof fn lemma_safe_all_grows(
    pending: Seq<SpecTerm>,
    defs: Seq<(Seq<char>, SpecDefinition)>,
    memo: Set<Seq<char>>,
)
    ensures
        memo.subset_of(safe_all(pending, defs, memo).1),
    decreases unvisited(defs, memo), seq_size(pending),
{
    if pending.len() > 0 {
        let rest = pending.drop_first();
        lemma_safe_all_decreases(pending, defs, memo);
        match pending[0] {
            SpecTerm::Num { .. } => {
                lemma_safe_all_grows(rest, defs, memo);
            },
            SpecTerm::Era => {
                lemma_safe_all_grows(rest, defs, memo);
            },
            SpecTerm::Tup { els } => {
                lemma_safe_all_grows(els + rest, defs, memo);
            },
            SpecTerm::Sup { els, .. } => {
                lemma_safe_all_grows(els + rest, defs, memo);
            },
            SpecTerm::Lam { .. } => {
                if is_projection(pending[0]) {
                    lemma_safe_all_grows(rest, defs, memo);
                } else {
                    lemma_safe_all_grows(seq![lam_residual(pending[0])] + rest, defs, memo);
                }
            },
            SpecTerm::Ref { nam } => {
                if memo.contains(nam) {
                    lemma_safe_all_grows(rest, defs, memo);
                } else {
                    match lookup_body(defs, nam) {
                        Some(body) => {
                            lemma_safe_all_grows(seq![body] + rest, defs, memo.insert(nam));
                        },
                        None => {},
                    }
                }
            },
            _ => {},
        }
    }
}

/// Terms found safe are found safe again from every memo that holds the
/// one that the first analysis left, and that memo then stays as it is.
pub proof fn lemma_safe_all_stable(
    pending: Seq<SpecTerm>,
    defs: Seq<(Seq<char>, SpecDefinition)>,
    memo: Set<Seq<char>>,
    later: Set<Seq<char>>,
)
    requires
        safe_all(pending, defs, memo).0,
        safe_all(pending, defs, memo).1.subset_of(later),
    ensures
        safe_all(pending, defs, later) == (true, later),
    decreases unvisited(defs, memo), seq_size(pending),
{
    if pending.len() > 0 {
        let rest = pending.drop_first();
        lemma_safe_all_decreases(pending, defs, memo);
        lemma_safe_all_grows(pending, defs, memo);
        match pending[0] {
            SpecTerm::Num { .. } => {
                lemma_safe_all_stable(rest, defs, memo, later);
            },
            SpecTerm::Era => {
                lemma_safe_all_stable(rest, defs, memo, later);
            },
            SpecTerm::Tup { els } => {
                lemma_safe_all_stable(els + rest, defs, memo, later);
            },
            SpecTerm::Sup { els, .. } => {
                lemma_safe_all_stable(els + rest, defs, memo, later);
            },
            SpecTerm::Lam { .. } => {
                if is_projection(pending[0]) {
                    lemma_safe_all_stable(rest, defs, memo, later);
                } else {
                    lemma_safe_all_stable(seq![lam_residual(pending[0])] + rest, defs, memo, later);
                }
            },
            SpecTerm::Ref { nam } => {
                if memo.contains(nam) {
                    lemma_safe_all_stable(rest, defs, memo, later);
                } else {
                    let body = lookup_body(defs, nam).unwrap();
                    let first = safe_all(seq![body], defs, memo.insert(nam));
                    lemma_safe_all_concat(seq![body], rest, defs, memo.insert(nam));
                    lemma_safe_all_grows(seq![body], defs, memo.insert(nam));
                    lemma_unvisited_monotone(defs, memo.insert(nam), first.1);
                    assert(first.1.contains(nam));
                    lemma_safe_all_grows(rest, defs, first.1);
                    assert(later.contains(nam));
                    lemma_safe_all_stable(rest, defs, first.1, later);
                }
            },
            _ => {},
        }
    }
}

/// A term found safe is found safe again: from the memo that the first
/// analysis left, and from every larger one, and the memo then stays as it
/// is.
pub proof fn lemma_is_safe_stable(
    t: SpecTerm,
    defs: Seq<(Seq<char>, SpecDefinition)>,
    memo: Set<Seq<char>>,
    later: Set<Seq<char>>,
)
    requires
        spec_is_safe(t, defs, memo).0,
        spec_is_safe(t, defs, memo).1.subset_of(later),
    ensures
        spec_is_safe(t, defs, later) == (true, later),
{
    lemma_safe_all_stable(seq![t], defs, memo, later);
}

/// Whether a term passes the rules of safety with every reference taken
/// by its name: a reference passes when `names` holds its name.
pub open spec fn passes(t: SpecTerm, names: Set<Seq<char>>) -> bool
    decreases term_size(t), 1nat,
{
    match t {
        SpecTerm::Num { .. } => true,
        SpecTerm::Era => true,
        SpecTerm::Tup { els } => {
            proof {
                crate::shell::lemma_join_children(t);
            }
            all_pass(els, names)
        },
        SpecTerm::Sup { els, .. } => {
            proof {
                crate::shell::lemma_join_children(t);
            }
            all_pass(els, names)
        },
        SpecTerm::Lam { .. } => {
            proof {
                lemma_lam_residual_size(t);
            }
            is_projection(t) || passes(lam_residual(t), names)
        },
        SpecTerm::Ref { nam } => names.contains(nam),
        _ => false,
    }
}

/// Whether all the terms of a sequence pass.
pub open spec fn all_pass(ts: Seq<SpecTerm>, names: Set<Seq<char>>) -> bool
    decreases seq_size(ts), 2nat,
{
    if ts.len() == 0 {
        true
    } else {
        proof {
            lemma_seq_size_first(ts);
            lemma_term_size_positive(ts[0]);
        }
        passes(ts[0], names) && all_pass(ts.drop_first(), names)
    }
}

/// Every name of `names` that `memo` does not hold has a body, which
/// passes.
pub open spec fn vouched(
    names: Set<Seq<char>>,
    memo: Set<Seq<char>>,
    defs: Seq<(Seq<char>, SpecDefinition)>,
) -> bool {
    forall|x: Seq<char>|
        names.contains(x) && !memo.contains(x) ==> (#[trigger] lookup_body(defs, x)).is_some()
            && passes(lookup_body(defs, x).unwrap(), names)
}

/// What it is to pass, by the shape of the term.
pub proof fn lemma_passes_unfold(t: SpecTerm, names: Set<Seq<char>>)
    ensures
        t is Num || t is Era ==> passes(t, names),
        t matches SpecTerm::Tup { els } ==> passes(t, names) == all_pass(els, names),
        t matches SpecTerm::Sup { els, .. } ==> passes(t, names) == all_pass(els, names),
        t is Lam ==> passes(t, names) == (is_projection(t) || passes(lam_residual(t), names)),
        t matches SpecTerm::Ref { nam } ==> passes(t, names) == names.contains(nam),
        t is Var || t is App || t is Chn || t is Lnk ==> !passes(t, names),
{
}

/// Terms pass when the first of them does and the others do.
pub proof fn lemma_all_pass_unfold(ts: Seq<SpecTerm>, names: Set<Seq<char>>)
    requires
        ts.len() > 0,
    ensures
        all_pass(ts, names) == (passes(ts[0], names) && all_pass(ts.drop_first(), names)),
{
}

/// The terms of a concatenation pass just when those of both parts do.
pub proof fn lemma_all_pass_concat(a: Seq<SpecTerm>, b: Seq<SpecTerm>, names: Set<Seq<char>>)
    ensures
        all_pass(a + b, names) == (all_pass(a, names) && all_pass(b, names)),
    decreases a.len(),
{
    if a.len() == 0 {
        assert(a + b =~= b);
    } else {
        assert((a + b)[0] == a[0]);
        assert((a + b).drop_first() =~= a.drop_first() + b);
        lemma_all_pass_concat(a.drop_first(), b, names);
        lemma_all_pass_unfold(a + b, names);
        lemma_all_pass_unfold(a, names);
    }
}

/// A sequence of one term passes just when the term does.
pub proof fn lemma_all_pass_single(t: SpecTerm, names: Set<Seq<char>>)
    ensures
        all_pass(seq![t], names) == passes(t, names),
{
    let s = seq![t];
    assert(s.drop_first() =~= Seq::<SpecTerm>::empty());
    assert(all_pass(s.drop_first(), names));
    lemma_all_pass_unfold(s, names);
}

/// Terms found safe pass with the names of the memo that the analysis
/// left, and the memo vouches for each name that it has gained.
pub proof fn lemma_safe_all_passes(
    pending: Seq<SpecTerm>,
    defs: Seq<(Seq<char>, SpecDefinition)>,
    memo: Set<Seq<char>>,
)
    requires
        safe_all(pending, defs, memo).0,
    ensures
        all_pass(pending, safe_all(pending, defs, memo).1),
        vouched(safe_all(pending, defs, memo).1, memo, defs),
    decreases unvisited(defs, memo), seq_size(pending),
{
    let last = safe_all(pending, defs, memo).1;
    if pending.len() > 0 {
        let rest = pending.drop_first();
        lemma_safe_all_decreases(pending, defs, memo);
        lemma_safe_all_grows(pending, defs, memo);
        lemma_all_pass_unfold(pending, last);
        lemma_passes_unfold(pending[0], last);
        match pending[0] {
            SpecTerm::Num { .. } => {
                lemma_safe_all_passes(rest, defs, memo);
            },
            SpecTerm::Era => {
                lemma_safe_all_passes(rest, defs, memo);
            },
            SpecTerm::Tup { els } => {
                lemma_safe_all_passes(els + rest, defs, memo);
                lemma_all_pass_concat(els, rest, last);
            },
            SpecTerm::Sup { els, .. } => {
                lemma_safe_all_passes(els + rest, defs, memo);
                lemma_all_pass_concat(els, rest, last);
            },
            SpecTerm::Lam { .. } => {
                if is_projection(pending[0]) {
                    lemma_safe_all_passes(rest, defs, memo);
                } else {
                    let r = seq![lam_residual(pending[0])];
                    lemma_safe_all_passes(r + rest, defs, memo);
                    lemma_all_pass_concat(r, rest, last);
                    lemma_all_pass_single(lam_residual(pending[0]), last);
                }
            },
            SpecTerm::Ref { nam } => {
                if memo.contains(nam) {
                    lemma_safe_all_passes(rest, defs, memo);
                } else {
                    let body = lookup_body(defs, nam).unwrap();
                    let r = seq![body];
                    lemma_safe_all_passes(r + rest, defs, memo.insert(nam));
                    lemma_safe_all_grows(r + rest, defs, memo.insert(nam));
                    lemma_all_pass_concat(r, rest, last);
                    lemma_all_pass_single(body, last);
                    assert(last.contains(nam));
                    assert forall|x: Seq<char>| last.contains(x) && !memo.contains(x) implies (
                    #[trigger] lookup_body(defs, x)).is_some() && passes(
                        lookup_body(defs, x).unwrap(),
                        last,
                    ) by {
                        if x != nam {
                            assert(!memo.insert(nam).contains(x));
                        }
                    }
                }
            },
            _ => {},
        }
    }
}

/// Terms that pass with names for which a memo vouches are safe from
/// every larger memo.
pub proof fn lemma_passing_is_safe(
    pending: Seq<SpecTerm>,
    defs: Seq<(Seq<char>, SpecDefinition)>,
    names: Set<Seq<char>>,
    memo: Set<Seq<char>>,
    larger: Set<Seq<char>>,
)
    requires
        all_pass(pending, names),
        vouched(names, memo, defs),
        memo.subset_of(larger),
    ensures
        safe_all(pending, defs, larger).0,
    decreases unvisited(defs, larger), seq_size(pending),
{
    if pending.len() > 0 {
        let rest = pending.drop_first();
        lemma_safe_all_decreases(pending, defs, larger);
        lemma_all_pass_unfold(pending, names);
        lemma_passes_unfold(pending[0], names);
        match pending[0] {
            SpecTerm::Num { .. } => {
                lemma_passing_is_safe(rest, defs, names, memo, larger);
            },
            SpecTerm::Era => {
                lemma_passing_is_safe(rest, defs, names, memo, larger);
            },
            SpecTerm::Tup { els } => {
                lemma_all_pass_concat(els, rest, names);
                lemma_passing_is_safe(els + rest, defs, names, memo, larger);
            },
            SpecTerm::Sup { els, .. } => {
                lemma_all_pass_concat(els, rest, names);
                lemma_passing_is_safe(els + rest, defs, names, memo, larger);
            },
            SpecTerm::Lam { .. } => {
                if is_projection(pending[0]) {
                    lemma_passing_is_safe(rest, defs, names, memo, larger);
                } else {
                    let r = seq![lam_residual(pending[0])];
                    lemma_all_pass_concat(r, rest, names);
                    lemma_all_pass_single(lam_residual(pending[0]), names);
                    lemma_passing_is_safe(r + rest, defs, names, memo, larger);
                }
            },
            SpecTerm::Ref { nam } => {
                if larger.contains(nam) {
                    lemma_passing_is_safe(rest, defs, names, memo, larger);
                } else {
                    assert(names.contains(nam) && !memo.contains(nam));
                    let body = lookup_body(defs, nam).unwrap();
                    let r = seq![body];
                    lemma_all_pass_concat(r, rest, names);
                    lemma_all_pass_single(body, names);
                    lemma_passing_is_safe(r + rest, defs, names, memo, larger.insert(nam));
                }
            },
            _ => {},
        }
    }
}

/// Safety grows with the memo: a term that is safe from one memo is safe
/// from every larger one.
pub proof fn lemma_is_safe_monotone(
    t: SpecTerm,
    defs: Seq<(Seq<char>, SpecDefinition)>,
    memo: Set<Seq<char>>,
    larger: Set<Seq<char>>,
)
    requires
        spec_is_safe(t, defs, memo).0,
        memo.subset_of(larger),
    ensures
        spec_is_safe(t, defs, larger).0,
{
    lemma_safe_all_passes(seq![t], defs, memo);
    lemma_passing_is_safe(seq![t], defs, spec_is_safe(t, defs, memo).1, memo, larger);
}

/// Terms are safe when the first of them is and then, from the memo that
/// its analysis left, the others are.
pub proof fn lemma_safe_all_step(
    ts: Seq<SpecTerm>,
    defs: Seq<(Seq<char>, SpecDefinition)>,
    memo: Set<Seq<char>>,
)
    requires
        ts.len() > 0,
    ensures
        safe_all(ts, defs, memo) == if spec_is_safe(ts[0], defs, memo).0 {
            safe_all(ts.drop_first(), defs, spec_is_safe(ts[0], defs, memo).1)
        } else {
            spec_is_safe(ts[0], defs, memo)
        },
{
    lemma_safe_all_concat(seq![ts[0]], ts.drop_first(), defs, memo);
    assert(seq![ts[0]] + ts.drop_first() =~= ts);
}

/// A number and the eraser are safe. A variable, an application, and a
/// declaration or a use of an unscoped variable are not. None of them
/// changes the memo.
pub proof fn lemma_is_safe_of_leaf(
    t: SpecTerm,
    defs: Seq<(Seq<char>, SpecDefinition)>,
    memo: Set<Seq<char>>,
)
    ensures
        t is Num || t is Era ==> spec_is_safe(t, defs, memo) == (true, memo),
        t is Var || t is App || t is Chn || t is Lnk ==> spec_is_safe(t, defs, memo) == (false, memo),
{
    let p = seq![t];
    assert(p.drop_first() =~= Seq::<SpecTerm>::empty());
    assert(safe_all(p.drop_first(), defs, memo) == (true, memo));
}

/// A reference whose name the memo holds is safe. Another one puts its
/// name into the memo; it is as safe as the body of its definition, and
/// unsafe without one.
pub proof fn lemma_is_safe_of_ref(
    nam: Seq<char>,
    defs: Seq<(Seq<char>, SpecDefinition)>,
    memo: Set<Seq<char>>,
)
    ensures
        spec_is_safe(SpecTerm::Ref { nam }, defs, memo) == if memo.contains(nam) {
            (true, memo)
        } else {
            match lookup_body(defs, nam) {
                Some(body) => spec_is_safe(body, defs, memo.insert(nam)),
                None => (false, memo.insert(nam)),
            }
        },
{
    let p = seq![SpecTerm::Ref { nam }];
    assert(p.drop_first() =~= Seq::<SpecTerm>::empty());
    assert(safe_all(p.drop_first(), defs, memo) == (true, memo));
    match lookup_body(defs, nam) {
        Some(body) => {
            assert(seq![body] + p.drop_first() =~= seq![body]);
        },
        None => {},
    }
}

/// An abstraction is safe just when it is a constant abstraction.
pub proof fn lemma_is_safe_of_lambda(
    t: SpecTerm,
    defs: Seq<(Seq<char>, SpecDefinition)>,
    memo: Set<Seq<char>>,
)
    requires
        t is Lam,
    ensures
        spec_is_safe(t, defs, memo) == spec_is_constant_lambda(t, defs, memo),
{
    let p = seq![t];
    assert(p.drop_first() =~= Seq::<SpecTerm>::empty());
    assert(seq![lam_residual(t)] + p.drop_first() =~= seq![lam_residual(t)]);
    assert(safe_all(p.drop_first(), defs, memo) == (true, memo));
}

/// A tuple or a superposition is safe just when all its elements are, taken
/// in order.
pub proof fn lemma_is_safe_of_elements(
    t: SpecTerm,
    defs: Seq<(Seq<char>, SpecDefinition)>,
    memo: Set<Seq<char>>,
)
    ensures
        t matches SpecTerm::Tup { els } ==> spec_is_safe(t, defs, memo) == safe_all(els, defs, memo),
        t matches SpecTerm::Sup { els, .. } ==> spec_is_safe(t, defs, memo) == safe_all(els, defs, memo),
{
    let p = seq![t];
    assert(p.drop_first() =~= Seq::<SpecTerm>::empty());
    match t {
        SpecTerm::Tup { els } => {
            assert(els + p.drop_first() =~= els);
        },
        SpecTerm::Sup { els, .. } => {
            assert(els + p.drop_first() =~= els);
        },
        _ => {},
    }
}

impl Term {
    /// What stands under the leading binders of the term, unless the term is
    /// a projection.
    fn lambda_residual(&self) -> (r: Option<&Term>)
        ensures
            match r {
                None => is_projection(self@),
                Some(t) => !is_projection(self@) && t@ == lam_residual(self@),
            },
    {
        let mut current: &Term = self;
        let mut scope: Vec<Name> = Vec::new();
        assert(names_of(scope@).union(lam_scope(current@)) =~= lam_scope(self@));
        loop
            invariant
                lam_residual(current@) == lam_residual(self@),
                lam_scope(self@) == names_of(scope@).union(lam_scope(current@)),
            decreases term_size(current@),
        {
            match current {
                Term::Lam { nam, bod } => {
                    let ghost before = scope@;
                    match nam {
                        Some(n) => {
                            scope.push(n.clone());
                            proof {
                                lemma_names_of_push(before, *n);
                            }
                        },
                        None => {},
                    }
                    assert(names_of(scope@).union(lam_scope(bod@)) =~= names_of(before).union(
                        lam_scope(current@),
                    ));
                    current = &**bod;
                },
                Term::Var { nam } => {
                    assert(names_of(scope@).union(lam_scope(current@)) =~= names_of(scope@));
                    if name_in(&scope, nam) {
                        return None;
                    } else {
                        return Some(current);
                    }
                },
                Term::Ref { .. } => {
                    return None;
                },
                _ => {
                    return Some(current);
                },
            }
        }
    }

    /// Whether the term may be duplicated at no cost. Names of definitions
    /// that the analysis looks into enter `safe_defs`; a name that is there
    /// already counts as safe.
    pub fn is_safe(&self, book: &Book, safe_defs: &mut IndexSet<Name>) -> (r: bool)
        ensures
            (r, set_names(*final(safe_defs))) == spec_is_safe(
                self@,
                book@.defs,
                set_names(*old(safe_defs)),
            ),
    {
        let mut stack: Vec<&Term> = Vec::new();
        stack.push(self);
        assert(pending_of(stack@) =~= seq![self@]);
        while stack.len() > 0
            invariant
                safe_all(pending_of(stack@), book@.defs, set_names(*safe_defs)) == spec_is_safe(
                    self@,
                    book@.defs,
                    set_names(*old(safe_defs)),
                ),
            decreases unvisited(book@.defs, set_names(*safe_defs)), seq_size(pending_of(stack@)),
        {
            let ghost before = pending_of(stack@);
            let ghost memo = set_names(*safe_defs);
            let t = stack.pop().unwrap();
            proof {
                assert(before[0] == t@);
                assert(before.drop_first() =~= pending_of(stack@));
                lemma_safe_all_decreases(before, book@.defs, memo);
            }
            match t {
                Term::Num { .. } => {},
                Term::Era => {},
                Term::Tup { els } => {
                    push_reversed(&mut stack, els);
                },
                Term::Sup { els, .. } => {
                    push_reversed(&mut stack, els);
                },
                Term::Lam { .. } => {
                    match t.lambda_residual() {
                        None => {},
                        Some(r) => {
                            stack.push(r);
                            assert(pending_of(stack@) =~= seq![r@] + before.drop_first());
                        },
                    }
                },
                Term::Ref { nam } => {
                    if set_insert(safe_defs, nam.clone()) {
                        let body = match book.get_def(nam) {
                            Some(d) => d.body(),
                            None => None,
                        };
                        match body {
                            Some(b) => {
                                stack.push(b);
                                assert(pending_of(stack@) =~= seq![b@] + before.drop_first());
                            },
                            None => {
                                return false;
                            },
                        }
                    } else {
                        assert(set_names(*safe_defs) =~= memo);
                    }
                },
                _ => {
                    return false;
                },
            }
        }
        true
    }

    /// Whether, under the leading binders of the term, stands one of their
    /// variables, a reference, or a safe term.
    pub fn is_constant_lambda(&self, book: &Book, safe_defs: &mut IndexSet<Name>) -> (r: bool)
        ensures
            (r, set_names(*final(safe_defs))) == spec_is_constant_lambda(
                self@,
                book@.defs,
                set_names(*old(safe_defs)),
            ),
    {
        match self.lambda_residual() {
            None => true,
            Some(t) => t.is_safe(book, safe_defs),
        }
    }
}

} // verus!
