//! Terms taken apart and put together: the shell of a node and its
//! children, and the traversals that go node by node.

use crate::term::{
    duplicate_opt_name, lemma_seq_size_concat, lemma_seq_size_single, lemma_view_terms,
    lemma_view_unfold, seq_size, term_size, view_opt_name, view_terms, Name, SpecTerm, Term,
};
use vstd::prelude::*;

verus! {

/// A node without its children.
#[derive(Debug)]
pub enum Shell {
    /// A node that never has children, whole.
    Leaf(Term),
    App,
    Lam(Option<Name>),
    Chn(Name),
    Tup,
    Sup(u32),
}

/// The model of a [`Shell`].
pub enum SpecShell {
    Leaf(SpecTerm),
    App,
    Lam(Option<Seq<char>>),
    Chn(Seq<char>),
    Tup,
    Sup(u32),
}

impl View for Shell {
    type V = SpecShell;

    open spec fn view(&self) -> SpecShell {
        match self {
            Shell::Leaf(t) => SpecShell::Leaf(t@),
            Shell::App => SpecShell::App,
            Shell::Lam(nam) => SpecShell::Lam(view_opt_name(*nam)),
            Shell::Chn(nam) => SpecShell::Chn(nam@),
            Shell::Tup => SpecShell::Tup,
            Shell::Sup(tag) => SpecShell::Sup(*tag),
        }
    }
}

/// The children of a term, in order.
pub open spec fn children(t: SpecTerm) -> Seq<SpecTerm> {
    match t {
        SpecTerm::App { fun, arg } => seq![*fun, *arg],
        SpecTerm::Lam { bod, .. } => seq![*bod],
        SpecTerm::Chn { bod, .. } => seq![*bod],
        SpecTerm::Tup { els } => els,
        SpecTerm::Sup { els, .. } => els,
        _ => Seq::empty(),
    }
}

/// A term without its children.
pub open spec fn shell_of(t: SpecTerm) -> SpecShell {
    match t {
        SpecTerm::App { .. } => SpecShell::App,
        SpecTerm::Lam { nam, .. } => SpecShell::Lam(nam),
        SpecTerm::Chn { nam, .. } => SpecShell::Chn(nam),
        SpecTerm::Tup { .. } => SpecShell::Tup,
        SpecTerm::Sup { tag, .. } => SpecShell::Sup(tag),
        _ => SpecShell::Leaf(t),
    }
}

/// Whether a shell takes `n` children.
pub open spec fn arity_fits(s: SpecShell, n: nat) -> bool {
    match s {
        SpecShell::Leaf(t) => n == 0 && shell_of(t) == s,
        SpecShell::App => n == 2,
        SpecShell::Lam(_) => n == 1,
        SpecShell::Chn(_) => n == 1,
        _ => true,
    }
}

/// The term of a shell and its children.
pub open spec fn join(s: SpecShell, cs: Seq<SpecTerm>) -> SpecTerm {
    match s {
        SpecShell::Leaf(t) => t,
        SpecShell::App => SpecTerm::App { fun: Box::new(cs[0]), arg: Box::new(cs[1]) },
        SpecShell::Lam(nam) => SpecTerm::Lam { nam, bod: Box::new(cs[0]) },
        SpecShell::Chn(nam) => SpecTerm::Chn { nam, bod: Box::new(cs[0]) },
        SpecShell::Tup => SpecTerm::Tup { els: cs },
        SpecShell::Sup(tag) => SpecTerm::Sup { tag, els: cs },
    }
}

/// A term is its shell joined with its children, and one node larger than
/// they are.
pub proof fn lemma_join_children(t: SpecTerm)
    ensures
        join(shell_of(t), children(t)) == t,
        arity_fits(shell_of(t), children(t).len()),
        term_size(t) == 1 + seq_size(children(t)),
{
    match t {
        SpecTerm::App { fun, arg } => {
            lemma_seq_size_single(*fun);
            lemma_seq_size_push(seq![*fun], *arg);
            assert(seq![*fun].push(*arg) =~= seq![*fun, *arg]);
        },
        SpecTerm::Lam { bod, .. } => {
            lemma_seq_size_single(*bod);
        },
        SpecTerm::Chn { bod, .. } => {
            lemma_seq_size_single(*bod);
        },
        SpecTerm::Tup { els } => {},
        SpecTerm::Sup { els, .. } => {},
        _ => {
            assert(seq_size(Seq::<SpecTerm>::empty()) == 0);
        },
    }
}

/// A shell joined with children that fit it gives them back.
pub proof fn lemma_children_join(s: SpecShell, cs: Seq<SpecTerm>)
    requires
        arity_fits(s, cs.len()),
    ensures
        shell_of(join(s, cs)) == s,
        children(join(s, cs)) == cs,
{
    match s {
        SpecShell::App => {
            assert(seq![cs[0], cs[1]] =~= cs);
        },
        SpecShell::Lam(_) => {
            assert(seq![cs[0]] =~= cs);
        },
        SpecShell::Chn(_) => {
            assert(seq![cs[0]] =~= cs);
        },
        SpecShell::Leaf(t) => {
            assert(cs =~= Seq::<SpecTerm>::empty());
        },
        _ => {},
    }
}

/// A shell joined with children that fit it is one node larger than they
/// are.
pub proof fn lemma_join_size(s: SpecShell, cs: Seq<SpecTerm>)
    requires
        arity_fits(s, cs.len()),
    ensures
        term_size(join(s, cs)) == 1 + seq_size(cs),
{
    lemma_children_join(s, cs);
    lemma_join_children(join(s, cs));
}

/// The size of a sequence with one more term.
pub proof fn lemma_seq_size_push(ts: Seq<SpecTerm>, t: SpecTerm)
    ensures
        seq_size(ts.push(t)) == seq_size(ts) + term_size(t),
{
    assert(ts.push(t).drop_last() =~= ts);
    assert(seq_size(ts.push(t)) == seq_size(ts.push(t).drop_last()) + term_size(ts.push(t).last()));
}

/// The models of the terms of a vector, from the last to the first.
pub open spec fn rev_terms(v: Seq<Term>) -> Seq<SpecTerm> {
    Seq::new(v.len(), |i: int| v[v.len() - 1 - i]@)
}

/// The size of a sequence does not depend on its direction.
pub proof fn lemma_seq_size_rev(v: Seq<Term>)
    ensures
        seq_size(rev_terms(v)) == seq_size(view_terms(v)),
    decreases v.len(),
{
    if v.len() == 0 {
        assert(rev_terms(v) =~= Seq::<SpecTerm>::empty());
        assert(seq_size(rev_terms(v)) == 0);
        assert(seq_size(view_terms(v)) == 0);
    } else {
        let pre = v.drop_last();
        lemma_seq_size_rev(pre);
        assert(rev_terms(v) =~= seq![v.last()@] + rev_terms(pre));
        lemma_seq_size_concat(seq![v.last()@], rev_terms(pre));
        lemma_seq_size_single(v.last()@);
        assert(view_terms(v) == view_terms(pre).push(v.last()@));
        lemma_seq_size_push(view_terms(pre), v.last()@);
    }
}

/// The terms in the opposite order.
pub fn reverse_terms(v: Vec<Term>) -> (r: Vec<Term>)
    ensures
        rev_terms(r@) == view_terms(v@),
{
    let mut v = v;
    let ghost orig = v@;
    let mut r: Vec<Term> = Vec::new();
    while v.len() > 0
        invariant
            v@.len() + r@.len() == orig.len(),
            forall|i: int| 0 <= i < v@.len() ==> (#[trigger] v@[i]) == orig[i],
            forall|i: int| 0 <= i < r@.len() ==> (#[trigger] r@[i]) == orig[orig.len() - 1 - i],
        decreases v@.len(),
    {
        let t = v.pop().unwrap();
        r.push(t);
    }
    proof {
        lemma_view_terms(orig);
        assert(rev_terms(r@) =~= view_terms(orig));
    }
    r
}

impl Term {
    /// Takes the term apart: its shell, and its children from the last to
    /// the first.
    pub fn split(self) -> (r: (Shell, Vec<Term>))
        ensures
            r.0@ == shell_of(self@),
            rev_terms(r.1@) == children(self@),
    {
        proof {
            lemma_view_unfold(self);
        }
        match self {
            Term::App { fun, arg } => {
                let mut kids: Vec<Term> = Vec::new();
                kids.push(*arg);
                kids.push(*fun);
                assert(rev_terms(kids@) =~= children(self@));
                (Shell::App, kids)
            },
            Term::Lam { nam, bod } => {
                let mut kids: Vec<Term> = Vec::new();
                kids.push(*bod);
                assert(rev_terms(kids@) =~= children(self@));
                (Shell::Lam(nam), kids)
            },
            Term::Chn { nam, bod } => {
                let mut kids: Vec<Term> = Vec::new();
                kids.push(*bod);
                assert(rev_terms(kids@) =~= children(self@));
                (Shell::Chn(nam), kids)
            },
            Term::Tup { els } => (Shell::Tup, reverse_terms(els)),
            Term::Sup { tag, els } => (Shell::Sup(tag), reverse_terms(els)),
            leaf => {
                let kids: Vec<Term> = Vec::new();
                assert(rev_terms(kids@) =~= children(self@));
                (Shell::Leaf(leaf), kids)
            },
        }
    }

    /// Puts a term together from a shell and the children that fit it.
    pub fn join(shell: Shell, kids: Vec<Term>) -> (t: Term)
        requires
            arity_fits(shell@, kids@.len()),
        ensures
            t@ == join(shell@, view_terms(kids@)),
    {
        let mut kids = kids;
        proof {
            lemma_view_terms(kids@);
        }
        let t = match shell {
            Shell::Leaf(t) => t,
            Shell::App => {
                let arg = kids.pop().unwrap();
                let fun = kids.pop().unwrap();
                Term::App { fun: Box::new(fun), arg: Box::new(arg) }
            },
            Shell::Lam(nam) => {
                let bod = kids.pop().unwrap();
                Term::Lam { nam, bod: Box::new(bod) }
            },
            Shell::Chn(nam) => {
                let bod = kids.pop().unwrap();
                Term::Chn { nam, bod: Box::new(bod) }
            },
            Shell::Tup => Term::Tup { els: kids },
            Shell::Sup(tag) => Term::Sup { tag, els: kids },
        };
        proof {
            lemma_view_unfold(t);
        }
        t
    }

    /// Gives the term up node by node, so that a term of any depth goes
    /// without deep recursion.
    pub fn dismantle(self) {
        let mut pending: Vec<Term> = Vec::new();
        pending.push(self);
        while pending.len() > 0
            decreases seq_size(view_terms(pending@)),
        {
            let ghost before = view_terms(pending@);
            let t = pending.pop().unwrap();
            let ghost rest = view_terms(pending@);
            proof {
                lemma_view_terms(pending@.push(t));
                lemma_view_terms(pending@);
                assert(before =~= rest.push(t@));
                lemma_seq_size_push(rest, t@);
                lemma_join_children(t@);
            }
            let (shell, kids) = t.split();
            let mut kids = kids;
            let ghost added = kids@;
            pending.append(&mut kids);
            proof {
                lemma_view_terms(pending@);
                lemma_view_terms(added);
                assert(view_terms(pending@) =~= rest + view_terms(added));
                lemma_seq_size_concat(rest, view_terms(added));
                lemma_seq_size_rev(added);
            }
        }
    }
}

/// The models of the terms on a stack of references, from the top down.
pub open spec fn pending_of(stack: Seq<&Term>) -> Seq<SpecTerm> {
    Seq::new(stack.len(), |i: int| stack[stack.len() - 1 - i]@)
}

/// Puts the terms on the stack so that the first of them is on top.
pub fn push_reversed<'a>(stack: &mut Vec<&'a Term>, els: &'a Vec<Term>)
    ensures
        pending_of(final(stack)@) == view_terms(els@) + pending_of(old(stack)@),
{
    let ghost vs = view_terms(els@);
    proof {
        lemma_view_terms(els@);
    }
    let mut j: usize = els.len();
    assert(pending_of(stack@) =~= vs.subrange(j as int, els.len() as int) + pending_of(old(stack)@));
    while j > 0
        invariant
            j <= els.len(),
            vs == view_terms(els@),
            vs.len() == els.len(),
            forall|k: int| 0 <= k < vs.len() ==> (#[trigger] vs[k]) == els@[k]@,
            pending_of(stack@) == vs.subrange(j as int, els.len() as int) + pending_of(old(stack)@),
        decreases j,
    {
        let ghost before = stack@;
        j -= 1;
        stack.push(&els[j]);
        assert(pending_of(stack@) =~= seq![els@[j as int]@] + pending_of(before));
        assert(pending_of(stack@) =~= vs.subrange(j as int, els.len() as int) + pending_of(
            old(stack)@,
        ));
    }
    assert(vs.subrange(0, els.len() as int) =~= vs);
}

impl Term {
    /// The shell of the term, copied, and references to its children, from
    /// the last to the first.
    pub fn split_ref(&self) -> (r: (Shell, Vec<&Term>))
        ensures
            r.0@ == shell_of(self@),
            pending_of(r.1@) == children(self@),
    {
        proof {
            lemma_view_unfold(*self);
        }
        let mut kids: Vec<&Term> = Vec::new();
        assert(pending_of(kids@) =~= Seq::<SpecTerm>::empty());
        let shell = match self {
            Term::Num { val } => Shell::Leaf(Term::Num { val: *val }),
            Term::Era => Shell::Leaf(Term::Era),
            Term::Var { nam } => Shell::Leaf(Term::Var { nam: nam.clone() }),
            Term::Ref { nam } => Shell::Leaf(Term::Ref { nam: nam.clone() }),
            Term::Lnk { nam } => Shell::Leaf(Term::Lnk { nam: nam.clone() }),
            Term::App { fun, arg } => {
                kids.push(&**arg);
                kids.push(&**fun);
                Shell::App
            },
            Term::Lam { nam, bod } => {
                kids.push(&**bod);
                Shell::Lam(duplicate_opt_name(nam))
            },
            Term::Chn { nam, bod } => {
                kids.push(&**bod);
                Shell::Chn(nam.clone())
            },
            Term::Tup { els } => {
                push_reversed(&mut kids, els);
                Shell::Tup
            },
            Term::Sup { tag, els } => {
                push_reversed(&mut kids, els);
                Shell::Sup(*tag)
            },
        };
        assert(pending_of(kids@) =~= children(self@));
        (shell, kids)
    }

    /// Puts references to the children of the term on the stack, so that
    /// the first child is on top.
    pub fn push_children<'a>(&'a self, stack: &mut Vec<&'a Term>)
        ensures
            pending_of(final(stack)@) == children(self@) + pending_of(old(stack)@),
    {
        proof {
            lemma_view_unfold(*self);
        }
        match self {
            Term::App { fun, arg } => {
                stack.push(&**arg);
                stack.push(&**fun);
            },
            Term::Lam { bod, .. } => {
                stack.push(&**bod);
            },
            Term::Chn { bod, .. } => {
                stack.push(&**bod);
            },
            Term::Tup { els } => {
                push_reversed(stack, els);
            },
            Term::Sup { els, .. } => {
                push_reversed(stack, els);
            },
            _ => {},
        }
        assert(pending_of(stack@) =~= children(self@) + pending_of(old(stack)@));
    }
}

} // verus!
