//! Scope analysis: the free variables of a term, and the variables that it
//! declares or uses outside of lexical scope.

use crate::names::{
    lemma_names_of_push, name_in, names_of, set_difference_count, set_insert, set_is_empty,
    set_names, set_new,
};
use crate::shell::children;
use crate::term::{
    lemma_seq_size_concat, lemma_seq_size_first, seq_size, term_size, Name, SpecTerm, Term,
};
use indexmap::IndexSet;
use vstd::prelude::*;

verus! {

/// The variables that a term uses and does not bind itself.
pub open spec fn free_vars(t: SpecTerm) -> Set<Seq<char>>
    decreases t,
{
    match t {
        SpecTerm::Var { nam } => set![nam],
        SpecTerm::Lam { nam: Some(n), bod } => free_vars(*bod).remove(n),
        SpecTerm::Lam { nam: None, bod } => free_vars(*bod),
        SpecTerm::Chn { bod, .. } => free_vars(*bod),
        SpecTerm::App { fun, arg } => free_vars(*fun).union(free_vars(*arg)),
        SpecTerm::Tup { els } => free_vars_seq(els),
        SpecTerm::Sup { els, .. } => free_vars_seq(els),
        _ => Set::empty(),
    }
}

/// The free variables of all the terms of a sequence.
pub open spec fn free_vars_seq(ts: Seq<SpecTerm>) -> Set<Seq<char>>
    decreases ts,
{
    if ts.len() == 0 {
        Set::empty()
    } else {
        free_vars_seq(ts.drop_last()).union(free_vars(ts.last()))
    }
}

/// The variables that the `Chn` nodes of a term declare.
pub open spec fn unscoped_declared(t: SpecTerm) -> Set<Seq<char>>
    decreases t,
{
    match t {
        SpecTerm::Chn { nam, bod } => unscoped_declared(*bod).insert(nam),
        SpecTerm::Lam { bod, .. } => unscoped_declared(*bod),
        SpecTerm::App { fun, arg } => unscoped_declared(*fun).union(unscoped_declared(*arg)),
        SpecTerm::Tup { els } => unscoped_declared_seq(els),
        SpecTerm::Sup { els, .. } => unscoped_declared_seq(els),
        _ => Set::empty(),
    }
}

/// The variables that the terms of a sequence declare outside of lexical scope.
pub open spec fn unscoped_declared_seq(ts: Seq<SpecTerm>) -> Set<Seq<char>>
    decreases ts,
{
    if ts.len() == 0 {
        Set::empty()
    } else {
        unscoped_declared_seq(ts.drop_last()).union(unscoped_declared(ts.last()))
    }
}

/// The variables that the `Lnk` nodes of a term use.
pub open spec fn unscoped_used(t: SpecTerm) -> Set<Seq<char>>
    decreases t,
{
    match t {
        SpecTerm::Lnk { nam } => set![nam],
        SpecTerm::Chn { bod, .. } => unscoped_used(*bod),
        SpecTerm::Lam { bod, .. } => unscoped_used(*bod),
        SpecTerm::App { fun, arg } => unscoped_used(*fun).union(unscoped_used(*arg)),
        SpecTerm::Tup { els } => unscoped_used_seq(els),
        SpecTerm::Sup { els, .. } => unscoped_used_seq(els),
        _ => Set::empty(),
    }
}

/// The variables that the terms of a sequence use outside of lexical scope.
pub open spec fn unscoped_used_seq(ts: Seq<SpecTerm>) -> Set<Seq<char>>
    decreases ts,
{
    if ts.len() == 0 {
        Set::empty()
    } else {
        unscoped_used_seq(ts.drop_last()).union(unscoped_used(ts.last()))
    }
}

/// Some variable that the term declares outside of lexical scope is not
/// used in it.
pub open spec fn has_unscoped_diff(t: SpecTerm) -> bool {
    !unscoped_declared(t).subset_of(unscoped_used(t))
}

/// The term is an abstraction without free variables.
pub open spec fn is_combinator(t: SpecTerm) -> bool {
    t is Lam && free_vars(t).is_empty()
}

/// The variable that the node itself declares outside of lexical scope.
pub open spec fn own_declared(t: SpecTerm) -> Set<Seq<char>> {
    match t {
        SpecTerm::Chn { nam, .. } => set![nam],
        _ => Set::empty(),
    }
}

/// The variable that the node itself uses outside of lexical scope.
pub open spec fn own_used(t: SpecTerm) -> Set<Seq<char>> {
    match t {
        SpecTerm::Lnk { nam } => set![nam],
        _ => Set::empty(),
    }
}

/// The unscoped variables of a concatenation are those of its parts.
pub proof fn lemma_unscoped_seq_concat(a: Seq<SpecTerm>, b: Seq<SpecTerm>)
    ensures
        unscoped_declared_seq(a + b) == unscoped_declared_seq(a).union(unscoped_declared_seq(b)),
        unscoped_used_seq(a + b) == unscoped_used_seq(a).union(unscoped_used_seq(b)),
    decreases b.len(),
{
    if b.len() == 0 {
        assert(a + b =~= a);
        assert(unscoped_declared_seq(a + b) =~= unscoped_declared_seq(a).union(
            unscoped_declared_seq(b),
        ));
        assert(unscoped_used_seq(a + b) =~= unscoped_used_seq(a).union(unscoped_used_seq(b)));
    } else {
        lemma_unscoped_seq_concat(a, b.drop_last());
        assert((a + b).drop_last() =~= a + b.drop_last());
        assert((a + b).last() == b.last());
        assert(unscoped_declared_seq(a + b) =~= unscoped_declared_seq(a).union(
            unscoped_declared_seq(b),
        ));
        assert(unscoped_used_seq(a + b) =~= unscoped_used_seq(a).union(unscoped_used_seq(b)));
    }
}

/// The unscoped variables of a sequence of one term are those of the term.
pub proof fn lemma_unscoped_seq_single(t: SpecTerm)
    ensures
        unscoped_declared_seq(seq![t]) == unscoped_declared(t),
        unscoped_used_seq(seq![t]) == unscoped_used(t),
{
    let s = seq![t];
    assert(s.drop_last() =~= Seq::<SpecTerm>::empty());
    assert(unscoped_declared_seq(s.drop_last()) =~= Set::<Seq<char>>::empty());
    assert(unscoped_used_seq(s.drop_last()) =~= Set::<Seq<char>>::empty());
    assert(unscoped_declared_seq(s) =~= unscoped_declared(t));
    assert(unscoped_used_seq(s) =~= unscoped_used(t));
}

/// The unscoped variables of a term are those of the node itself and those
/// of its children.
pub proof fn lemma_unscoped_children(t: SpecTerm)
    ensures
        unscoped_declared(t) == own_declared(t).union(unscoped_declared_seq(children(t))),
        unscoped_used(t) == own_used(t).union(unscoped_used_seq(children(t))),
{
    let d = own_declared(t).union(unscoped_declared_seq(children(t)));
    let u = own_used(t).union(unscoped_used_seq(children(t)));
    match t {
        SpecTerm::App { fun, arg } => {
            lemma_unscoped_seq_single(*fun);
            lemma_unscoped_seq_single(*arg);
            lemma_unscoped_seq_concat(seq![*fun], seq![*arg]);
            assert(seq![*fun] + seq![*arg] =~= children(t));
        },
        SpecTerm::Lam { bod, .. } => {
            lemma_unscoped_seq_single(*bod);
        },
        SpecTerm::Chn { bod, .. } => {
            lemma_unscoped_seq_single(*bod);
        },
        SpecTerm::Tup { els } => {},
        SpecTerm::Sup { els, .. } => {},
        _ => {
            assert(unscoped_declared_seq(children(t)) =~= Set::<Seq<char>>::empty());
            assert(unscoped_used_seq(children(t)) =~= Set::<Seq<char>>::empty());
        },
    }
    assert(unscoped_declared(t) =~= d);
    assert(unscoped_used(t) =~= u);
}

/// The free variables of a concatenation are those of its parts.
pub proof fn lemma_free_vars_seq_concat(a: Seq<SpecTerm>, b: Seq<SpecTerm>)
    ensures
        free_vars_seq(a + b) == free_vars_seq(a).union(free_vars_seq(b)),
    decreases b.len(),
{
    if b.len() == 0 {
        assert(a + b =~= a);
        assert(free_vars_seq(a + b) =~= free_vars_seq(a).union(free_vars_seq(b)));
    } else {
        lemma_free_vars_seq_concat(a, b.drop_last());
        assert((a + b).drop_last() =~= a + b.drop_last());
        assert((a + b).last() == b.last());
        assert(free_vars_seq(a + b) =~= free_vars_seq(a).union(free_vars_seq(b)));
    }
}

/// The free variables of a sequence of one term are those of the term.
pub proof fn lemma_free_vars_seq_single(t: SpecTerm)
    ensures
        free_vars_seq(seq![t]) == free_vars(t),
{
    let s = seq![t];
    assert(s.drop_last() =~= Seq::<SpecTerm>::empty());
    assert(free_vars_seq(s.drop_last()) =~= Set::<Seq<char>>::empty());
    assert(free_vars_seq(s) =~= free_vars(t));
}

/// The free variables of a term that binds no variable are those of its
/// children.
pub proof fn lemma_free_vars_children(t: SpecTerm)
    requires
        !(t matches SpecTerm::Lam { nam: Some(_), .. }),
        !(t is Var),
    ensures
        free_vars(t) == free_vars_seq(children(t)),
{
    match t {
        SpecTerm::App { fun, arg } => {
            lemma_free_vars_seq_single(*fun);
            lemma_free_vars_seq_single(*arg);
            lemma_free_vars_seq_concat(seq![*fun], seq![*arg]);
            assert(seq![*fun] + seq![*arg] =~= children(t));
        },
        SpecTerm::Lam { bod, .. } => {
            lemma_free_vars_seq_single(*bod);
        },
        SpecTerm::Chn { bod, .. } => {
            lemma_free_vars_seq_single(*bod);
        },
        SpecTerm::Tup { els } => {},
        SpecTerm::Sup { els, .. } => {},
        _ => {
            assert(free_vars_seq(children(t)) =~= Set::<Seq<char>>::empty());
        },
    }
}

/// What the traversal for free variables has before it: a term to visit,
/// or the end of the scope of the binder that was entered last.
pub enum Visit<'a> {
    Node(&'a Term),
    Unbind,
}

/// The model of a [`Visit`].
pub enum SpecVisit {
    Node(SpecTerm),
    Unbind,
}

impl<'a> View for Visit<'a> {
    type V = SpecVisit;

    open spec fn view(&self) -> SpecVisit {
        match self {
            Visit::Node(t) => SpecVisit::Node(t@),
            Visit::Unbind => SpecVisit::Unbind,
        }
    }
}

/// The models of the visits on a stack, from the top down.
pub open spec fn visits_of(stack: Seq<Visit>) -> Seq<SpecVisit> {
    Seq::new(stack.len(), |i: int| stack[stack.len() - 1 - i]@)
}

/// The visits to the terms of a sequence, in order.
pub open spec fn node_visits(ts: Seq<SpecTerm>) -> Seq<SpecVisit> {
    Seq::new(ts.len(), |i: int| SpecVisit::Node(ts[i]))
}

/// The free variables that the visits will find, with the binders of
/// `bound` entered: those of each term but the variables bound where it is
/// reached.
pub open spec fn free_pending(items: Seq<SpecVisit>, bound: Seq<Name>) -> Set<Seq<char>>
    decreases items.len(),
{
    if items.len() == 0 {
        Set::empty()
    } else {
        match items[0] {
            SpecVisit::Node(t) => free_vars(t).difference(names_of(bound)).union(
                free_pending(items.drop_first(), bound),
            ),
            SpecVisit::Unbind => free_pending(items.drop_first(), bound.drop_last()),
        }
    }
}

/// Each end of a scope among the visits has its binder among `depth`
/// binders that were entered.
pub open spec fn scopes_match(items: Seq<SpecVisit>, depth: nat) -> bool
    decreases items.len(),
{
    if items.len() == 0 {
        true
    } else {
        match items[0] {
            SpecVisit::Node(_) => scopes_match(items.drop_first(), depth),
            SpecVisit::Unbind => depth > 0 && scopes_match(items.drop_first(), (depth - 1) as nat),
        }
    }
}

/// What is left to do for the visits: two steps for each node of a term,
/// one for each end of a scope.
pub open spec fn visit_work(items: Seq<SpecVisit>) -> nat
    decreases items.len(),
{
    if items.len() == 0 {
        0
    } else {
        visit_work(items.drop_first()) + match items[0] {
            SpecVisit::Node(t) => 2 * term_size(t),
            SpecVisit::Unbind => 1,
        }
    }
}

/// Visits to terms in front of other visits: what they find, that the
/// scopes still match, and what is left to do.
pub proof fn lemma_node_visits(ts: Seq<SpecTerm>, rest: Seq<SpecVisit>, bound: Seq<Name>)
    ensures
        free_pending(node_visits(ts) + rest, bound) == free_vars_seq(ts).difference(
            names_of(bound),
        ).union(free_pending(rest, bound)),
        scopes_match(node_visits(ts) + rest, bound.len()) == scopes_match(rest, bound.len()),
        visit_work(node_visits(ts) + rest) == 2 * seq_size(ts) + visit_work(rest),
    decreases ts.len(),
{
    let items = node_visits(ts) + rest;
    if ts.len() == 0 {
        assert(items =~= rest);
        assert(free_vars_seq(ts) =~= Set::<Seq<char>>::empty());
        assert(free_pending(items, bound) =~= free_vars_seq(ts).difference(names_of(bound)).union(
            free_pending(rest, bound),
        ));
        assert(seq_size(ts) == 0);
    } else {
        let tail = ts.drop_first();
        lemma_node_visits(tail, rest, bound);
        assert(items[0] == SpecVisit::Node(ts[0]));
        assert(items.drop_first() =~= node_visits(tail) + rest);
        lemma_free_vars_seq_concat(seq![ts[0]], tail);
        lemma_free_vars_seq_single(ts[0]);
        assert(seq![ts[0]] + tail =~= ts);
        assert(free_pending(items, bound) =~= free_vars_seq(ts).difference(names_of(bound)).union(
            free_pending(rest, bound),
        ));
        lemma_seq_size_first(ts);
    }
}

impl Term {
    /// The variables that the term uses and does not bind itself.
    pub fn free_vars(&self) -> (r: IndexSet<Name>)
        ensures
            set_names(r) == free_vars(self@),
    {
        let mut out = set_new();
        let mut bound: Vec<Name> = Vec::new();
        let mut stack: Vec<Visit> = Vec::new();
        stack.push(Visit::Node(self));
        proof {
            let items = visits_of(stack@);
            assert(items.drop_first() =~= Seq::<SpecVisit>::empty());
            assert(free_pending(items.drop_first(), bound@) =~= Set::<Seq<char>>::empty());
            assert(names_of(bound@) =~= Set::<Seq<char>>::empty());
            assert(set_names(out).union(free_pending(items, bound@)) =~= free_vars(self@));
            assert(scopes_match(items.drop_first(), 0));
        }
        while stack.len() > 0
            invariant
                set_names(out).union(free_pending(visits_of(stack@), bound@)) == free_vars(self@),
                scopes_match(visits_of(stack@), bound@.len()),
            decreases visit_work(visits_of(stack@)),
        {
            let ghost before = visits_of(stack@);
            let ghost found = set_names(out);
            let ghost scope = bound@;
            let item = stack.pop().unwrap();
            let ghost rest = visits_of(stack@);
            proof {
                assert(before[0] == item@);
                assert(before.drop_first() =~= rest);
            }
            match item {
                Visit::Unbind => {
                    bound.pop();
                },
                Visit::Node(t) => {
                    proof {
                        crate::shell::lemma_join_children(t@);
                        crate::term::lemma_view_unfold(*t);
                    }
                    match t {
                        Term::Var { nam } => {
                            if !name_in(&bound, nam) {
                                set_insert(&mut out, nam.clone());
                            }
                            assert(set_names(out).union(free_pending(rest, scope)) =~= found.union(
                                free_pending(before, scope),
                            ));
                        },
                        Term::Lam { nam: Some(n), bod } => {
                            bound.push(n.clone());
                            stack.push(Visit::Unbind);
                            stack.push(Visit::Node(&**bod));
                            proof {
                                lemma_names_of_push(scope, *n);
                                let now = visits_of(stack@);
                                let mid = now.drop_first();
                                assert(now[0] == SpecVisit::Node(bod@));
                                assert(mid[0] == SpecVisit::Unbind);
                                assert(mid.drop_first() =~= rest);
                                assert(bound@.drop_last() =~= scope);
                                assert(free_pending(mid, bound@) == free_pending(rest, scope));
                                assert(found.union(free_pending(now, bound@)) =~= found.union(
                                    free_pending(before, scope),
                                ));
                                assert(scopes_match(mid, bound@.len()));
                                assert(visit_work(mid) == visit_work(rest) + 1);
                                assert(term_size(t@) == 1 + term_size(bod@));
                            }
                        },
                        _ => {
                            let mut kids: Vec<&Term> = Vec::new();
                            t.push_children(&mut kids);
                            let ghost cs = crate::shell::children(t@);
                            assert(crate::shell::pending_of(kids@) =~= cs);
                            let mut i: usize = 0;
                            assert(cs.subrange(cs.len() - 0, cs.len() as int) =~= Seq::<SpecTerm>::empty());
                            assert(visits_of(stack@) =~= node_visits(
                                cs.subrange(cs.len() - 0, cs.len() as int),
                            ) + rest);
                            while i < kids.len()
                                invariant
                                    i <= kids.len(),
                                    cs.len() == kids@.len(),
                                    crate::shell::pending_of(kids@) == cs,
                                    visits_of(stack@) == node_visits(
                                        cs.subrange(cs.len() - i, cs.len() as int),
                                    ) + rest,
                                decreases kids.len() - i,
                            {
                                let ghost was = visits_of(stack@);
                                stack.push(Visit::Node(kids[i]));
                                proof {
                                    assert(kids@[i as int]@ == cs[cs.len() - 1 - i]);
                                    assert(visits_of(stack@) =~= seq![SpecVisit::Node(kids@[i as int]@)]
                                        + was);
                                    assert(visits_of(stack@) =~= node_visits(
                                        cs.subrange(cs.len() - (i + 1), cs.len() as int),
                                    ) + rest);
                                }
                                i += 1;
                            }
                            proof {
                                assert(cs.subrange(0, cs.len() as int) =~= cs);
                                lemma_node_visits(cs, rest, scope);
                                lemma_free_vars_children(t@);
                                assert(found.union(free_pending(visits_of(stack@), scope)) =~= found.union(
                                    free_pending(before, scope),
                                ));
                            }
                        },
                    }
                },
            }
        }
        assert(free_pending(visits_of(stack@), bound@) =~= Set::<Seq<char>>::empty());
        assert(set_names(out) =~= free_vars(self@));
        out
    }

    /// The variables that the term declares outside of lexical scope, and
    /// those that it uses.
    pub fn unscoped_vars(&self) -> (r: (IndexSet<Name>, IndexSet<Name>))
        ensures
            set_names(r.0) == unscoped_declared(self@),
            set_names(r.1) == unscoped_used(self@),
    {
        let mut declared = set_new();
        let mut used = set_new();
        let mut stack: Vec<&Term> = Vec::new();
        stack.push(self);
        proof {
            assert(crate::shell::pending_of(stack@) =~= seq![self@]);
            lemma_unscoped_seq_single(self@);
            assert(set_names(declared).union(unscoped_declared_seq(seq![self@])) =~= unscoped_declared(
                self@,
            ));
            assert(set_names(used).union(unscoped_used_seq(seq![self@])) =~= unscoped_used(self@));
        }
        while stack.len() > 0
            invariant
                set_names(declared).union(unscoped_declared_seq(crate::shell::pending_of(stack@)))
                    == unscoped_declared(self@),
                set_names(used).union(unscoped_used_seq(crate::shell::pending_of(stack@)))
                    == unscoped_used(self@),
            decreases seq_size(crate::shell::pending_of(stack@)),
        {
            let ghost before = crate::shell::pending_of(stack@);
            let ghost d0 = set_names(declared);
            let ghost u0 = set_names(used);
            let t = stack.pop().unwrap();
            let ghost rest = crate::shell::pending_of(stack@);
            proof {
                assert(before =~= seq![t@] + rest);
                lemma_unscoped_seq_concat(seq![t@], rest);
                lemma_unscoped_seq_single(t@);
                lemma_unscoped_children(t@);
                lemma_seq_size_concat(seq![t@], rest);
                crate::term::lemma_seq_size_single(t@);
                crate::shell::lemma_join_children(t@);
                lemma_unscoped_seq_concat(crate::shell::children(t@), rest);
                lemma_seq_size_concat(crate::shell::children(t@), rest);
            }
            match t {
                Term::Chn { nam, .. } => {
                    set_insert(&mut declared, nam.clone());
                },
                Term::Lnk { nam } => {
                    set_insert(&mut used, nam.clone());
                },
                _ => {},
            }
            t.push_children(&mut stack);
            proof {
                let now = crate::shell::pending_of(stack@);
                assert(set_names(declared).union(unscoped_declared_seq(now)) =~= d0.union(
                    unscoped_declared_seq(before),
                ));
                assert(set_names(used).union(unscoped_used_seq(now)) =~= u0.union(
                    unscoped_used_seq(before),
                ));
            }
        }
        assert(unscoped_declared_seq(crate::shell::pending_of(stack@)) =~= Set::<Seq<char>>::empty());
        assert(unscoped_used_seq(crate::shell::pending_of(stack@)) =~= Set::<Seq<char>>::empty());
        assert(set_names(declared) =~= unscoped_declared(self@));
        assert(set_names(used) =~= unscoped_used(self@));
        (declared, used)
    }

    /// Whether the term declares a variable outside of lexical scope that it
    /// does not use.
    pub fn has_unscoped_diff(&self) -> (r: bool)
        ensures
            r == has_unscoped_diff(self@),
    {
        let (declared, used) = self.unscoped_vars();
        let n = set_difference_count(&declared, &used);
        n != 0
    }

    /// Whether the term is an abstraction without free variables.
    pub fn is_combinator(&self) -> (r: bool)
        ensures
            r == is_combinator(self@),
    {
        match self {
            Term::Lam { .. } => set_is_empty(&self.free_vars()),
            _ => false,
        }
    }
}

} // verus!
