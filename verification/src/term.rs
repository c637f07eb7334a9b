//! The term language and its mathematical model.
use vstd::prelude::*;

verus! {

/// The name of a variable or of a definition.
pub type Name = String;

/// A node of the expression tree.
#[allow(inconsistent_fields)]
#[derive(Debug, PartialEq, Eq)]
pub enum Term {
    /// A number literal.
    Num { val: u32 },
    /// The eraser.
    Era,
    /// A use of a lexically bound variable.
    Var { nam: Name },
    /// A reference to a top-level definition.
    Ref { nam: Name },
    /// An application.
    App { fun: Box<Term>, arg: Box<Term> },
    /// An abstraction; without a name its argument is erased.
    Lam { nam: Option<Name>, bod: Box<Term> },
    /// An abstraction whose variable is not lexically scoped: its use may
    /// stand anywhere, also outside of `bod`.
    Chn { nam: Name, bod: Box<Term> },
    /// A use of a variable declared by a `Chn`.
    Lnk { nam: Name },
    /// A tuple.
    Tup { els: Vec<Term> },
    /// A superposition of the elements under one label.
    Sup { tag: u32, els: Vec<Term> },
}

/// The model of a [`Term`]: the same tree over sequences of characters.
#[allow(inconsistent_fields)]
pub enum SpecTerm {
    Num { val: u32 },
    Era,
    Var { nam: Seq<char> },
    Ref { nam: Seq<char> },
    App { fun: Box<SpecTerm>, arg: Box<SpecTerm> },
    Lam { nam: Option<Seq<char>>, bod: Box<SpecTerm> },
    Chn { nam: Seq<char>, bod: Box<SpecTerm> },
    Lnk { nam: Seq<char> },
    Tup { els: Seq<SpecTerm> },
    Sup { tag: u32, els: Seq<SpecTerm> },
}

/// The model of an optional name.
pub open spec fn view_opt_name(nam: Option<Name>) -> Option<Seq<char>> {
    match nam {
        Some(n) => Some(n@),
        None => None,
    }
}

/// The models of a sequence of terms, element by element.
pub open spec fn view_terms(ts: Seq<Term>) -> Seq<SpecTerm>
    decreases ts,
{
    if ts.len() == 0 {
        Seq::empty()
    } else {
        view_terms(ts.drop_last()).push(ts.last().view())
    }
}

impl View for Term {
    type V = SpecTerm;

    open spec fn view(&self) -> SpecTerm
        decreases self,
    {
        match self {
            Term::Num { val } => SpecTerm::Num { val: *val },
            Term::Era => SpecTerm::Era,
            Term::Var { nam } => SpecTerm::Var { nam: nam@ },
            Term::Ref { nam } => SpecTerm::Ref { nam: nam@ },
            Term::App { fun, arg } => SpecTerm::App {
                fun: Box::new((**fun).view()),
                arg: Box::new((**arg).view()),
            },
            Term::Lam { nam, bod } => SpecTerm::Lam {
                nam: view_opt_name(*nam),
                bod: Box::new((**bod).view()),
            },
            Term::Chn { nam, bod } => SpecTerm::Chn { nam: nam@, bod: Box::new((**bod).view()) },
            Term::Lnk { nam } => SpecTerm::Lnk { nam: nam@ },
            Term::Tup { els } => SpecTerm::Tup { els: view_terms(els@) },
            Term::Sup { tag, els } => SpecTerm::Sup { tag: *tag, els: view_terms(els@) },
        }
    }
}

/// `view_terms` keeps the length and maps each element to its model.
pub proof fn lemma_view_terms(ts: Seq<Term>)
    ensures
        view_terms(ts).len() == ts.len(),
        forall|i: int| 0 <= i < ts.len() ==> (#[trigger] view_terms(ts)[i]) == ts[i]@,
    decreases ts.len(),
{
    if ts.len() > 0 {
        lemma_view_terms(ts.drop_last());
        assert(view_terms(ts) == view_terms(ts.drop_last()).push(ts.last().view()));
    } else {
        assert(view_terms(ts) == Seq::<SpecTerm>::empty());
    }
}

/// The model of a term, by the shape of the term.
pub proof fn lemma_view_unfold(t: Term)
    ensures
        t matches Term::App { fun, arg } ==> t@ == (SpecTerm::App {
            fun: Box::new((*fun)@),
            arg: Box::new((*arg)@),
        }),
        t matches Term::Lam { nam, bod } ==> t@ == (SpecTerm::Lam {
            nam: view_opt_name(nam),
            bod: Box::new((*bod)@),
        }),
        t matches Term::Chn { nam, bod } ==> t@ == (SpecTerm::Chn { nam: nam@, bod: Box::new((*bod)@) }),
        t matches Term::Tup { els } ==> t@ == (SpecTerm::Tup { els: view_terms(els@) }),
        t matches Term::Sup { tag, els } ==> t@ == (SpecTerm::Sup { tag, els: view_terms(els@) }),
{
}

/// The number of nodes of a term.
pub open spec fn term_size(t: SpecTerm) -> nat
    decreases t,
{
    match t {
        SpecTerm::App { fun, arg } => 1 + term_size(*fun) + term_size(*arg),
        SpecTerm::Lam { bod, .. } => 1 + term_size(*bod),
        SpecTerm::Chn { bod, .. } => 1 + term_size(*bod),
        SpecTerm::Tup { els } => 1 + seq_size(els),
        SpecTerm::Sup { els, .. } => 1 + seq_size(els),
        _ => 1,
    }
}

/// The number of nodes of all the terms of a sequence.
pub open spec fn seq_size(ts: Seq<SpecTerm>) -> nat
    decreases ts,
{
    if ts.len() == 0 {
        0
    } else {
        seq_size(ts.drop_last()) + term_size(ts.last())
    }
}

/// Every term has at least one node.
pub proof fn lemma_term_size_positive(t: SpecTerm)
    ensures
        term_size(t) >= 1,
{
}

/// The size of a concatenation is the sum of the sizes.
pub proof fn lemma_seq_size_concat(a: Seq<SpecTerm>, b: Seq<SpecTerm>)
    ensures
        seq_size(a + b) == seq_size(a) + seq_size(b),
    decreases b.len(),
{
    if b.len() == 0 {
        assert(a + b =~= a);
        assert(seq_size(b) == 0);
    } else {
        lemma_seq_size_concat(a, b.drop_last());
        assert((a + b).drop_last() =~= a + b.drop_last());
        assert((a + b).last() == b.last());
        assert(seq_size(a + b) == seq_size((a + b).drop_last()) + term_size((a + b).last()));
        assert(seq_size(b) == seq_size(b.drop_last()) + term_size(b.last()));
    }
}

/// The size of a sequence of one term is the size of the term.
pub proof fn lemma_seq_size_single(t: SpecTerm)
    ensures
        seq_size(seq![t]) == term_size(t),
{
    let s = seq![t];
    assert(s.drop_last() =~= Seq::<SpecTerm>::empty());
    assert(seq_size(s.drop_last()) == 0);
    assert(seq_size(s) == seq_size(s.drop_last()) + term_size(s.last()));
}

/// The size of a sequence is that of its first term and of the others.
pub proof fn lemma_seq_size_first(ts: Seq<SpecTerm>)
    requires
        ts.len() > 0,
    ensures
        seq_size(ts) == term_size(ts[0]) + seq_size(ts.drop_first()),
{
    lemma_seq_size_concat(seq![ts[0]], ts.drop_first());
    lemma_seq_size_single(ts[0]);
    assert(seq![ts[0]] + ts.drop_first() =~= ts);
}

impl Clone for Term {
    fn clone(&self) -> (r: Term)
        ensures
            r@ == self@,
    {
        self.duplicate()
    }
}

/// A copy of an optional name.
pub fn duplicate_opt_name(nam: &Option<Name>) -> (r: Option<Name>)
    ensures
        view_opt_name(r) == view_opt_name(*nam),
{
    match nam {
        Some(n) => Some(n.clone()),
        None => None,
    }
}

} // verus!
