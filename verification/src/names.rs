//! Sets of names.

use crate::term::Name;
use indexmap::IndexSet;
use std::hash::RandomState;
use vstd::prelude::*;

verus! {

/// What an `indexmap::IndexSet` of names holds: the names, by their
/// models.
pub uninterp spec fn set_names(s: IndexSet<Name, RandomState>) -> Set<Seq<char>>;

/// `indexmap::IndexSet::new`: the set without names.
#[verifier::external_body]
pub(crate) fn set_new() -> (s: IndexSet<Name>)
    ensures
        set_names(s) == Set::<Seq<char>>::empty(),
{
    IndexSet::new()
}

/// `indexmap::IndexSet::insert`: the name is in the set afterwards; the
/// result tells whether it was missing before.
#[verifier::external_body]
pub(crate) fn set_insert(s: &mut IndexSet<Name>, nam: Name) -> (fresh: bool)
    ensures
        set_names(*final(s)) == set_names(*old(s)).insert(nam@),
        fresh == !set_names(*old(s)).contains(nam@),
{
    s.insert(nam)
}

/// `indexmap::IndexSet::is_empty`: whether the set holds no name.
#[verifier::external_body]
pub(crate) fn set_is_empty(s: &IndexSet<Name>) -> (r: bool)
    ensures
        r == set_names(*s).is_empty(),
{
    s.is_empty()
}

/// `indexmap::IndexSet::difference`, counted: the number of names of `a`
/// that `b` does not hold, which is zero just when `b` holds them all.
#[verifier::external_body]
pub(crate) fn set_difference_count(a: &IndexSet<Name>, b: &IndexSet<Name>) -> (n: usize)
    ensures
        n == set_names(*a).difference(set_names(*b)).len(),
        (n == 0) == set_names(*a).subset_of(set_names(*b)),
{
    a.difference(b).count()
}

/// The names that a vector holds.
pub open spec fn names_of(v: Seq<Name>) -> Set<Seq<char>> {
    Set::new(|n: Seq<char>| exists|i: int| 0 <= i < v.len() && (#[trigger] v[i])@ == n)
}

/// One more name in the vector is one more name in its set.
pub proof fn lemma_names_of_push(v: Seq<Name>, n: Name)
    ensures
        names_of(v.push(n)) == names_of(v).insert(n@),
{
    let a = names_of(v.push(n));
    let b = names_of(v).insert(n@);
    assert forall|x: Seq<char>| a.contains(x) implies b.contains(x) by {
        let i = choose|i: int| 0 <= i < v.push(n).len() && (#[trigger] v.push(n)[i])@ == x;
        if i < v.len() {
            assert(v[i]@ == x);
        }
    }
    assert forall|x: Seq<char>| b.contains(x) implies a.contains(x) by {
        if x == n@ {
            assert(v.push(n)[v.len() as int]@ == x);
        } else {
            let i = choose|i: int| 0 <= i < v.len() && (#[trigger] v[i])@ == x;
            assert(v.push(n)[i]@ == x);
        }
    }
    assert(a =~= b);
}

/// Whether the vector holds the name.
pub fn name_in(v: &Vec<Name>, n: &Name) -> (r: bool)
    ensures
        r == names_of(v@).contains(n@),
{
    let mut i: usize = 0;
    while i < v.len()
        invariant
            i <= v.len(),
            forall|j: int| 0 <= j < i ==> (#[trigger] v@[j])@ != n@,
        decreases v.len() - i,
    {
        if v[i] == *n {
            return true;
        }
        i += 1;
    }
    false
}

/// `indexmap::IndexSet`, a set that keeps its items in the order in which
/// they were first put in. Nothing of its inside is known.
#[verifier::external_type_specification]
#[verifier::external_body]
#[verifier::reject_recursive_types(T)]
#[verifier::reject_recursive_types(S)]
pub struct ExIndexSet<T, S>(IndexSet<T, S>);

} // verus!
