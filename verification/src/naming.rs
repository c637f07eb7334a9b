//! The names of floated combinators, and the order of names.

use crate::term::Name;
use vstd::prelude::*;

verus! {

/// The character of a decimal digit.
pub open spec fn digit(d: nat) -> char {
    if d == 0 {
        '0'
    } else if d == 1 {
        '1'
    } else if d == 2 {
        '2'
    } else if d == 3 {
        '3'
    } else if d == 4 {
        '4'
    } else if d == 5 {
        '5'
    } else if d == 6 {
        '6'
    } else if d == 7 {
        '7'
    } else if d == 8 {
        '8'
    } else {
        '9'
    }
}

/// A number in decimal digits, without leading zeros.
pub open spec fn decimal(n: nat) -> Seq<char>
    decreases n,
{
    if n < 10 {
        seq![digit(n)]
    } else {
        decimal(n / 10).push(digit(n % 10))
    }
}

/// The name of the combinator with this index among those floated out of
/// the definition `def_name`: the definition's name, `$C`, and the index.
pub open spec fn combinator_name(def_name: Seq<char>, index: nat) -> Seq<char> {
    def_name + seq!['$', 'C'] + decimal(index)
}

/// Whether `a` comes before `b` in the order of names: the order of the
/// dictionary, with the characters taken by their code points.
pub open spec fn name_lt(a: Seq<char>, b: Seq<char>) -> bool
    decreases a.len(),
{
    if b.len() == 0 {
        false
    } else if a.len() == 0 {
        true
    } else if a[0] != b[0] {
        (a[0] as u32) < (b[0] as u32)
    } else {
        name_lt(a.drop_first(), b.drop_first())
    }
}

/// `format!` with a name, the marker `$C` and an index, which it prints in
/// decimal digits.
#[verifier::external_body]
pub(crate) fn make_combinator_name(def_name: &Name, index: usize) -> (r: Name)
    ensures
        r@ == combinator_name(def_name@, index as nat),
{
    format!("{}$C{}", def_name, index)
}

/// `<` on `String`: the order of the dictionary over the bytes of the two
/// strings, which is that over their code points.
#[verifier::external_body]
pub(crate) fn name_before(a: &Name, b: &Name) -> (r: bool)
    ensures
        r == name_lt(a@, b@),
{
    a < b
}

/// A decimal numeral is not empty and holds neither `$` nor `C`.
pub proof fn lemma_decimal_chars(n: nat)
    ensures
        decimal(n).len() >= 1,
        n >= 10 ==> decimal(n).len() >= 2,
        forall|i: int| 0 <= i < decimal(n).len() ==> (#[trigger] decimal(n)[i]) != '$' && decimal(n)[i] != 'C',
    decreases n,
{
    if n >= 10 {
        lemma_decimal_chars(n / 10);
    }
}

/// Different numbers have different numerals.
pub proof fn lemma_decimal_injective(a: nat, b: nat)
    requires
        decimal(a) == decimal(b),
    ensures
        a == b,
    decreases a,
{
    lemma_decimal_chars(a);
    lemma_decimal_chars(b);
    if a >= 10 && b >= 10 {
        let da = decimal(a / 10);
        let db = decimal(b / 10);
        assert(da.push(digit(a % 10)).drop_last() =~= da);
        assert(db.push(digit(b % 10)).drop_last() =~= db);
        assert(da.push(digit(a % 10)).last() == digit(a % 10));
        assert(db.push(digit(b % 10)).last() == digit(b % 10));
        lemma_decimal_injective(a / 10, b / 10);
    } else if a < 10 && b < 10 {
        assert(decimal(a)[0] == digit(a));
        assert(decimal(b)[0] == digit(b));
    }
}

/// A combinator's name tells the definition and the index apart from it.
pub proof fn lemma_combinator_name_injective(d1: Seq<char>, k1: nat, d2: Seq<char>, k2: nat)
    requires
        combinator_name(d1, k1) == combinator_name(d2, k2),
    ensures
        d1 == d2,
        k1 == k2,
{
    let s1 = combinator_name(d1, k1);
    let s2 = combinator_name(d2, k2);
    lemma_decimal_chars(k1);
    lemma_decimal_chars(k2);
    assert(s1.len() == d1.len() + 2 + decimal(k1).len());
    assert(s2.len() == d2.len() + 2 + decimal(k2).len());
    if d1.len() < d2.len() {
        let p = d2.len() as int;
        assert(s2[p] == '$');
        if p == d1.len() + 1 {
            assert(s1[p] == 'C');
        } else {
            assert(s1[p] == decimal(k1)[p - d1.len() - 2]);
        }
        assert(false);
    }
    if d2.len() < d1.len() {
        let p = d1.len() as int;
        assert(s1[p] == '$');
        if p == d2.len() + 1 {
            assert(s2[p] == 'C');
        } else {
            assert(s2[p] == decimal(k2)[p - d2.len() - 2]);
        }
        assert(false);
    }
    assert forall|i: int| 0 <= i < d1.len() implies d1[i] == d2[i] by {
        assert(s1[i] == d1[i]);
        assert(s2[i] == d2[i]);
    }
    assert(d1 =~= d2);
    assert forall|i: int| 0 <= i < decimal(k1).len() implies decimal(k1)[i] == decimal(k2)[i] by {
        assert(s1[d1.len() + 2 + i] == decimal(k1)[i]);
        assert(s2[d2.len() + 2 + i] == decimal(k2)[i]);
    }
    assert(decimal(k1) =~= decimal(k2));
    lemma_decimal_injective(k1, k2);
}

} // verus!
