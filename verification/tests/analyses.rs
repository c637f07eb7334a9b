use indexmap::IndexSet;
use supercomb::book::{Book, Definition};
use supercomb::term::{Name, Term};

fn n(s: &str) -> Name {
    s.to_string()
}

fn v(s: &str) -> Term {
    Term::Var { nam: n(s) }
}

fn r(s: &str) -> Term {
    Term::Ref { nam: n(s) }
}

fn ap(f: Term, a: Term) -> Term {
    Term::App { fun: Box::new(f), arg: Box::new(a) }
}

fn la(x: &str, b: Term) -> Term {
    Term::Lam { nam: Some(n(x)), bod: Box::new(b) }
}

fn erased(b: Term) -> Term {
    Term::Lam { nam: None, bod: Box::new(b) }
}

fn chn(x: &str, b: Term) -> Term {
    Term::Chn { nam: n(x), bod: Box::new(b) }
}

fn lnk(x: &str) -> Term {
    Term::Lnk { nam: n(x) }
}

fn names(s: &IndexSet<Name>) -> Vec<String> {
    s.iter().cloned().collect()
}

fn one(name: &str, body: Term) -> Book {
    let mut book = Book::new();
    book.add_def(Definition::combinator(n(name), body, false));
    book
}

#[test]
fn free_vars_of_leaves() {
    assert!(Term::Num { val: 3 }.free_vars().is_empty());
    assert!(Term::Era.free_vars().is_empty());
    assert!(r("f").free_vars().is_empty());
    assert!(lnk("a").free_vars().is_empty());
    assert_eq!(names(&v("x").free_vars()), vec!["x"]);
}

#[test]
fn free_vars_respect_binders() {
    assert!(la("x", v("x")).free_vars().is_empty());
    assert_eq!(names(&la("x", v("y")).free_vars()), vec!["y"]);
    assert_eq!(names(&erased(v("x")).free_vars()), vec!["x"]);
    assert_eq!(names(&chn("x", v("x")).free_vars()), vec!["x"]);
    let t = ap(la("x", v("x")), v("x"));
    assert_eq!(names(&t.free_vars()), vec!["x"]);
    let t = la("x", la("y", ap(v("x"), ap(v("y"), v("z")))));
    assert_eq!(names(&t.free_vars()), vec!["z"]);
}

#[test]
fn free_vars_of_elements() {
    let t = Term::Tup { els: vec![v("a"), la("b", v("b")), v("c"), v("a")] };
    assert_eq!(names(&t.free_vars()), vec!["a", "c"]);
    let t = Term::Sup { tag: 1, els: vec![v("q"), Term::Num { val: 0 }] };
    assert_eq!(names(&t.free_vars()), vec!["q"]);
    assert!(Term::Tup { els: vec![] }.free_vars().is_empty());
}

#[test]
fn unscoped_vars_are_collected() {
    let t = ap(chn("a", lnk("b")), Term::Tup { els: vec![lnk("a"), chn("c", Term::Era)] });
    let (declared, used) = t.unscoped_vars();
    assert_eq!(names(&declared), vec!["a", "c"]);
    assert_eq!(names(&used), vec!["b", "a"]);
    let (declared, used) = la("x", v("x")).unscoped_vars();
    assert!(declared.is_empty());
    assert!(used.is_empty());
}

#[test]
fn unscoped_diff_is_a_declaration_without_use() {
    assert!(chn("a", Term::Era).has_unscoped_diff());
    assert!(!chn("a", lnk("a")).has_unscoped_diff());
    assert!(!lnk("a").has_unscoped_diff());
    assert!(!ap(chn("a", Term::Era), lnk("a")).has_unscoped_diff());
    assert!(ap(chn("a", Term::Era), lnk("b")).has_unscoped_diff());
    assert!(!Term::Num { val: 1 }.has_unscoped_diff());
    assert!(Term::Sup { tag: 0, els: vec![lnk("a"), chn("b", lnk("a"))] }.has_unscoped_diff());
}

#[test]
fn combinator_is_a_closed_abstraction() {
    assert!(la("x", v("x")).is_combinator());
    assert!(erased(Term::Num { val: 1 }).is_combinator());
    assert!(!la("x", v("y")).is_combinator());
    assert!(!ap(r("f"), Term::Num { val: 1 }).is_combinator());
    assert!(!Term::Num { val: 1 }.is_combinator());
    assert!(!chn("a", lnk("a")).is_combinator());
}

#[test]
fn numbers_and_erasers_are_safe() {
    let book = Book::new();
    let mut memo = IndexSet::new();
    assert!(Term::Num { val: 9 }.is_safe(&book, &mut memo));
    assert!(Term::Era.is_safe(&book, &mut memo));
    assert!(memo.is_empty());
}

#[test]
fn variables_applications_and_unscoped_nodes_are_unsafe() {
    let book = Book::new();
    let mut memo = IndexSet::new();
    assert!(!v("x").is_safe(&book, &mut memo));
    assert!(!ap(r("f"), Term::Num { val: 1 }).is_safe(&book, &mut memo));
    assert!(!lnk("a").is_safe(&book, &mut memo));
    assert!(!chn("a", Term::Num { val: 1 }).is_safe(&book, &mut memo));
    assert!(memo.is_empty());
}

#[test]
fn tuples_are_safe_when_all_elements_are() {
    let book = Book::new();
    let mut memo = IndexSet::new();
    assert!(Term::Tup { els: vec![] }.is_safe(&book, &mut memo));
    assert!(Term::Tup { els: vec![Term::Num { val: 1 }, Term::Era] }.is_safe(&book, &mut memo));
    assert!(!Term::Tup { els: vec![Term::Num { val: 1 }, v("x")] }.is_safe(&book, &mut memo));
    let nested = Term::Sup { tag: 2, els: vec![Term::Tup { els: vec![Term::Era] }, Term::Num { val: 0 }] };
    assert!(nested.is_safe(&book, &mut memo));
}

#[test]
fn analysis_stops_at_the_first_unsafe_element() {
    let book = one("late", Term::Num { val: 1 });
    let mut memo = IndexSet::new();
    let t = Term::Tup { els: vec![r("late"), v("x"), r("never")] };
    assert!(!t.is_safe(&book, &mut memo));
    assert_eq!(names(&memo), vec!["late"]);
}

#[test]
fn constant_lambdas() {
    let book = Book::new();
    let mut memo = IndexSet::new();
    assert!(la("x", la("y", v("x"))).is_safe(&book, &mut memo));
    assert!(la("x", r("anything")).is_safe(&book, &mut memo));
    assert!(memo.is_empty());
    assert!(la("x", Term::Num { val: 4 }).is_safe(&book, &mut memo));
    assert!(erased(Term::Era).is_safe(&book, &mut memo));
    assert!(!la("x", v("y")).is_safe(&book, &mut memo));
    assert!(!erased(v("y")).is_safe(&book, &mut memo));
    assert!(!la("x", ap(v("x"), v("x"))).is_safe(&book, &mut memo));
    assert!(la("x", Term::Tup { els: vec![Term::Num { val: 1 }] }).is_safe(&book, &mut memo));
    assert!(!la("x", Term::Tup { els: vec![v("x")] }).is_safe(&book, &mut memo));
}

#[test]
fn is_constant_lambda_on_other_terms() {
    let book = one("k", Term::Num { val: 1 });
    let mut memo = IndexSet::new();
    assert!(r("missing").is_constant_lambda(&book, &mut memo));
    assert!(memo.is_empty());
    assert!(!v("x").is_constant_lambda(&book, &mut memo));
    assert!(Term::Num { val: 2 }.is_constant_lambda(&book, &mut memo));
    assert!(la("x", Term::Tup { els: vec![r("k")] }).is_constant_lambda(&book, &mut memo));
    assert_eq!(names(&memo), vec!["k"]);
}

#[test]
fn reference_follows_the_definition() {
    let mut book = Book::new();
    book.add_def(Definition::combinator(n("good"), Term::Num { val: 1 }, false));
    book.add_def(Definition::combinator(n("bad"), ap(r("good"), Term::Era), false));
    book.add_def(Definition::combinator(n("chain"), r("good"), false));
    let mut memo = IndexSet::new();
    assert!(r("good").is_safe(&book, &mut memo));
    assert_eq!(names(&memo), vec!["good"]);
    let mut memo = IndexSet::new();
    assert!(!r("bad").is_safe(&book, &mut memo));
    assert_eq!(names(&memo), vec!["bad"]);
    let mut memo = IndexSet::new();
    assert!(r("chain").is_safe(&book, &mut memo));
    assert_eq!(names(&memo), vec!["chain", "good"]);
}

#[test]
fn reference_to_a_missing_definition_is_unsafe() {
    let book = Book::new();
    let mut memo = IndexSet::new();
    assert!(!r("ghost").is_safe(&book, &mut memo));
    assert_eq!(names(&memo), vec!["ghost"]);
}

#[test]
fn reference_to_a_definition_without_rules_is_unsafe() {
    let mut book = Book::new();
    book.add_def(Definition { name: n("empty"), rules: Vec::new(), builtin: false });
    let mut memo = IndexSet::new();
    assert!(!r("empty").is_safe(&book, &mut memo));
}

#[test]
fn name_in_the_memo_counts_as_safe() {
    let book = one("bad", v("x"));
    let mut memo = IndexSet::new();
    assert!(!r("bad").is_safe(&book, &mut memo));
    assert!(r("bad").is_safe(&book, &mut memo));
    let mut memo = IndexSet::new();
    memo.insert(n("unknown"));
    assert!(r("unknown").is_safe(&book, &mut memo));
}

#[test]
fn safe_term_stays_safe_on_repeated_calls() {
    let mut book = Book::new();
    book.add_def(Definition::combinator(n("a"), Term::Tup { els: vec![r("b"), Term::Num { val: 1 }] }, false));
    book.add_def(Definition::combinator(n("b"), la("x", Term::Sup { tag: 0, els: vec![r("a"), r("c")] }), false));
    book.add_def(Definition::combinator(n("c"), Term::Era, false));
    let t = Term::Tup { els: vec![r("a"), la("x", v("x")), r("c")] };
    let mut memo = IndexSet::new();
    assert!(t.is_safe(&book, &mut memo));
    let after_first = names(&memo);
    assert_eq!(after_first, vec!["a", "b", "c"]);
    assert!(t.is_safe(&book, &mut memo));
    assert_eq!(names(&memo), after_first);
    memo.insert(n("more"));
    assert!(t.is_safe(&book, &mut memo));
    assert_eq!(names(&memo), vec!["a", "b", "c", "more"]);
}

#[test]
fn safe_term_is_safe_from_a_larger_memo() {
    let mut book = Book::new();
    book.add_def(Definition::combinator(n("a"), Term::Tup { els: vec![r("b")] }, false));
    book.add_def(Definition::combinator(n("b"), la("x", Term::Tup { els: vec![r("a")] }), false));
    let t = Term::Tup { els: vec![r("a"), r("b")] };
    let mut memo = IndexSet::new();
    assert!(t.is_safe(&book, &mut memo));
    for start in [vec!["a"], vec!["b"], vec!["zz"], vec!["a", "b", "zz"]] {
        let mut memo: IndexSet<Name> = start.iter().map(|s| n(s)).collect();
        assert!(t.is_safe(&book, &mut memo));
    }
}

#[test]
fn clone_is_a_deep_copy() {
    let t = la("x", Term::Sup { tag: 3, els: vec![ap(v("x"), lnk("u")), chn("u", erased(Term::Era)), r("f")] });
    let c = t.clone();
    assert_eq!(c, t);
    assert_eq!(t.duplicate(), t);
}

#[test]
fn shape_predicates() {
    assert!(ap(Term::Era, Term::Era).is_app());
    assert!(!Term::Era.is_app());
    assert!(Term::Sup { tag: 0, els: vec![] }.is_sup());
    assert!(!Term::Tup { els: vec![] }.is_sup());
}
