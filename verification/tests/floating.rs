use indexmap::IndexSet;
use supercomb::book::{Book, Definition, Pattern, Rule};
use supercomb::term::{Name, Term};

fn name(s: &str) -> Name {
    s.to_string()
}

fn var(s: &str) -> Term {
    Term::Var { nam: name(s) }
}

fn rf(s: &str) -> Term {
    Term::Ref { nam: name(s) }
}

fn num(v: u32) -> Term {
    Term::Num { val: v }
}

fn app(f: Term, a: Term) -> Term {
    Term::App { fun: Box::new(f), arg: Box::new(a) }
}

fn lam(n: &str, b: Term) -> Term {
    Term::Lam { nam: Some(name(n)), bod: Box::new(b) }
}

fn def(n: &str, body: Term) -> Definition {
    Definition::combinator(name(n), body, false)
}

fn book_of(defs: Vec<Definition>) -> Book {
    let mut book = Book::new();
    for d in defs {
        book.add_def(d);
    }
    book
}

fn keys(book: &Book) -> Vec<String> {
    book.defs.keys().cloned().collect()
}

fn body<'a>(book: &'a Book, n: &str) -> &'a Term {
    &book.defs.get(n).unwrap().rules[0].body
}

#[test]
fn closed_application_under_a_binder_is_floated() {
    let mut book = book_of(vec![
        def("foo", lam("x", app(rf("bar"), num(0)))),
        def("bar", lam("y", var("y"))),
    ]);
    book.float_combinators();
    assert_eq!(keys(&book), vec!["foo", "bar", "foo$C0"]);
    assert_eq!(*body(&book, "foo"), lam("x", rf("foo$C0")));
    assert_eq!(*body(&book, "foo$C0"), app(rf("bar"), num(0)));
    assert_eq!(*body(&book, "bar"), lam("y", var("y")));
    let floated = book.defs.get("foo$C0").unwrap();
    assert_eq!(floated.name, "foo$C0");
    assert_eq!(floated.rules.len(), 1);
    assert!(floated.rules[0].pats.is_empty());
    assert!(!floated.builtin);
}

#[test]
fn application_at_the_root_of_a_body_stays() {
    let mut book = book_of(vec![
        def("foo", app(rf("bar"), num(0))),
        def("bar", lam("y", var("y"))),
    ]);
    book.float_combinators();
    assert_eq!(keys(&book), vec!["foo", "bar"]);
    assert_eq!(*body(&book, "foo"), app(rf("bar"), num(0)));
}

#[test]
fn identity_is_safe_and_stays() {
    let id = lam("x", var("x"));
    let mut book = book_of(vec![def("id", lam("x", var("x"))), def("user", Term::Tup { els: vec![lam("x", var("x"))] })]);
    let mut memo = IndexSet::new();
    assert!(id.is_safe(&book, &mut memo));
    assert!(memo.is_empty());
    assert!(id.is_constant_lambda(&book, &mut memo));
    book.float_combinators();
    assert_eq!(keys(&book), vec!["id", "user"]);
    assert_eq!(*body(&book, "id"), lam("x", var("x")));
    assert_eq!(*body(&book, "user"), Term::Tup { els: vec![lam("x", var("x"))] });
}

#[test]
fn mutual_recursion_is_safe() {
    let book = book_of(vec![
        def("a", Term::Tup { els: vec![rf("b"), num(1)] }),
        def("b", Term::Tup { els: vec![rf("a"), Term::Era] }),
    ]);
    let mut memo = IndexSet::new();
    assert!(rf("a").is_safe(&book, &mut memo));
    let seen: Vec<String> = memo.iter().cloned().collect();
    assert_eq!(seen, vec!["a", "b"]);
    let mut memo = IndexSet::new();
    assert!(rf("b").is_safe(&book, &mut memo));
    let mut memo = IndexSet::new();
    assert!(body(&book, "a").is_safe(&book, &mut memo));
}

#[test]
fn self_recursion_is_safe() {
    let book = book_of(vec![def("loop", rf("loop"))]);
    let mut memo = IndexSet::new();
    assert!(rf("loop").is_safe(&book, &mut memo));
    assert!(memo.contains("loop"));
}

#[test]
fn superposition_of_two_closed_applications() {
    let sup = Term::Sup { tag: 7, els: vec![app(rf("f"), num(1)), app(rf("g"), num(2))] };
    let mut book = book_of(vec![def("foo", sup)]);
    book.float_combinators();
    assert_eq!(keys(&book), vec!["foo", "foo$C0", "foo$C1"]);
    assert_eq!(*body(&book, "foo"), Term::Sup { tag: 7, els: vec![rf("foo$C0"), rf("foo$C1")] });
    assert_eq!(*body(&book, "foo$C0"), app(rf("f"), num(1)));
    assert_eq!(*body(&book, "foo$C1"), app(rf("g"), num(2)));
}

#[test]
fn superposition_under_a_binder_stays_in_place() {
    let sup = Term::Sup { tag: 0, els: vec![app(rf("f"), num(1)), app(rf("g"), num(2))] };
    let mut book = book_of(vec![def("foo", lam("x", sup))]);
    book.float_combinators();
    assert_eq!(keys(&book), vec!["foo", "foo$C0", "foo$C1"]);
    assert_eq!(
        *body(&book, "foo"),
        lam("x", Term::Sup { tag: 0, els: vec![rf("foo$C0"), rf("foo$C1")] })
    );
}

#[test]
fn superposition_elements_are_rewritten_a_second_time() {
    // The first pass leaves the open application `(x (f 1))` with its closed
    // argument floated; nothing is left for the second pass to float.
    let open = app(var("x"), app(rf("f"), num(1)));
    let sup = Term::Sup { tag: 0, els: vec![open] };
    let mut book = book_of(vec![def("foo", lam("x", sup))]);
    book.float_combinators();
    assert_eq!(keys(&book), vec!["foo", "foo$C0"]);
    assert_eq!(
        *body(&book, "foo"),
        lam("x", Term::Sup { tag: 0, els: vec![app(var("x"), rf("foo$C0"))] })
    );
}

#[test]
fn innermost_terms_are_floated_first() {
    let inner = app(rf("g"), num(1));
    let outer = app(rf("f"), inner);
    let mut book = book_of(vec![def("foo", lam("x", outer))]);
    book.float_combinators();
    assert_eq!(keys(&book), vec!["foo", "foo$C0", "foo$C1"]);
    assert_eq!(*body(&book, "foo"), lam("x", rf("foo$C1")));
    assert_eq!(*body(&book, "foo$C0"), app(rf("g"), num(1)));
    assert_eq!(*body(&book, "foo$C1"), app(rf("f"), rf("foo$C0")));
}

#[test]
fn open_application_stays() {
    let mut book = book_of(vec![def("foo", lam("x", app(var("x"), num(0))))]);
    book.float_combinators();
    assert_eq!(keys(&book), vec!["foo"]);
    assert_eq!(*body(&book, "foo"), lam("x", app(var("x"), num(0))));
}

#[test]
fn closed_abstraction_is_floated() {
    let comb = lam("y", app(var("y"), var("y")));
    let mut book = book_of(vec![def("foo", lam("x", lam("y", app(var("y"), var("y")))))]);
    book.float_combinators();
    assert_eq!(keys(&book), vec!["foo", "foo$C0"]);
    assert_eq!(*body(&book, "foo"), lam("x", rf("foo$C0")));
    assert_eq!(*body(&book, "foo$C0"), comb);
}

#[test]
fn abstraction_that_captures_stays() {
    let inner = lam("y", app(var("x"), var("y")));
    let mut book = book_of(vec![def("foo", lam("x", inner))]);
    book.float_combinators();
    assert_eq!(keys(&book), vec!["foo"]);
}

#[test]
fn entrypoint_is_not_rewritten() {
    let mut book = book_of(vec![
        def("main", lam("x", app(rf("bar"), num(0)))),
        def("foo", lam("x", app(rf("bar"), num(0)))),
    ]);
    book.entrypoint = Some(name("main"));
    book.float_combinators();
    assert_eq!(keys(&book), vec!["main", "foo", "foo$C0"]);
    assert_eq!(*body(&book, "main"), lam("x", app(rf("bar"), num(0))));
    assert_eq!(*body(&book, "foo"), lam("x", rf("foo$C0")));
    assert_eq!(book.entrypoint, Some(name("main")));
}

#[test]
fn counter_starts_at_zero_for_each_definition() {
    let mut book = book_of(vec![
        def("a", lam("x", app(rf("f"), num(0)))),
        def("b", Term::Tup { els: vec![app(rf("f"), num(1)), app(rf("f"), num(2))] }),
    ]);
    book.float_combinators();
    assert_eq!(keys(&book), vec!["a", "b", "a$C0", "b$C0", "b$C1"]);
    assert_eq!(*body(&book, "b"), Term::Tup { els: vec![rf("b$C0"), rf("b$C1")] });
}

#[test]
fn combinators_enter_in_the_order_of_their_names() {
    let mut els = Vec::new();
    for i in 0..11 {
        els.push(app(rf("f"), num(i)));
    }
    let mut book = book_of(vec![def("zed", Term::Tup { els }), def("abc", lam("x", app(rf("g"), num(0))))]);
    book.float_combinators();
    assert_eq!(
        keys(&book),
        vec![
            "zed", "abc", "abc$C0", "zed$C0", "zed$C1", "zed$C10", "zed$C2", "zed$C3", "zed$C4",
            "zed$C5", "zed$C6", "zed$C7", "zed$C8", "zed$C9"
        ]
    );
    assert_eq!(*body(&book, "zed$C10"), app(rf("f"), num(10)));
    assert_eq!(*body(&book, "zed$C9"), app(rf("f"), num(9)));
    match body(&book, "zed") {
        Term::Tup { els } => {
            assert_eq!(els.len(), 11);
            assert_eq!(els[10], rf("zed$C10"));
            assert_eq!(els[2], rf("zed$C2"));
        }
        _ => panic!("the body is a tuple"),
    }
}

#[test]
fn builtin_flag_is_inherited() {
    let mut book = Book::new();
    book.add_def(Definition::combinator(name("prim"), lam("x", app(rf("f"), num(0))), true));
    book.add_def(Definition::combinator(name("user"), lam("x", app(rf("f"), num(0))), false));
    book.float_combinators();
    assert!(book.defs.get("prim$C0").unwrap().builtin);
    assert!(!book.defs.get("user$C0").unwrap().builtin);
}

#[test]
fn definition_without_rules_stays() {
    let mut book = Book::new();
    book.add_def(Definition { name: name("empty"), rules: Vec::new(), builtin: false });
    book.add_def(def("foo", lam("x", app(rf("empty"), num(0)))));
    book.float_combinators();
    assert_eq!(keys(&book), vec!["empty", "foo", "foo$C0"]);
    assert!(book.defs.get("empty").unwrap().rules.is_empty());
}

#[test]
fn only_the_first_rule_is_rewritten() {
    let mut book = Book::new();
    let first = Rule { pats: vec![Pattern::Num { val: 0 }], body: lam("x", app(rf("f"), num(0))) };
    let second = Rule { pats: vec![Pattern::Var { nam: None }], body: lam("x", app(rf("f"), num(1))) };
    book.add_def(Definition { name: name("two"), rules: vec![first, second], builtin: false });
    book.float_combinators();
    let two = book.defs.get("two").unwrap();
    assert_eq!(two.rules.len(), 2);
    assert_eq!(two.rules[0].body, lam("x", rf("two$C0")));
    assert_eq!(two.rules[0].pats, vec![Pattern::Num { val: 0 }]);
    assert_eq!(two.rules[1].body, lam("x", app(rf("f"), num(1))));
    assert_eq!(keys(&book), vec!["two", "two$C0"]);
}

#[test]
fn bodies_are_analysed_against_the_book_before_the_pass() {
    // `b` refers to `a`, whose body is unsafe before and after the pass; the
    // reference to `a` is looked up in the book as it was.
    let mut book = book_of(vec![
        def("a", lam("x", app(rf("f"), num(0)))),
        def("b", lam("x", Term::Tup { els: vec![rf("a"), app(rf("g"), num(1))] })),
    ]);
    book.float_combinators();
    assert_eq!(keys(&book), vec!["a", "b", "a$C0", "b$C0"]);
    assert_eq!(*body(&book, "b"), lam("x", Term::Tup { els: vec![rf("a"), rf("b$C0")] }));
}

#[test]
fn floated_name_that_exists_replaces_the_definition() {
    let mut book = book_of(vec![def("foo", lam("x", app(rf("f"), num(0)))), def("foo$C0", num(5))]);
    book.float_combinators();
    assert_eq!(keys(&book), vec!["foo", "foo$C0"]);
    assert_eq!(*body(&book, "foo$C0"), app(rf("f"), num(0)));
}

#[test]
fn empty_book_stays_empty() {
    let mut book = Book::new();
    book.float_combinators();
    assert_eq!(book.len(), 0);
    assert!(book.entrypoint.is_none());
}
