use indexmap::IndexSet;
use supercomb::book::{Book, Definition, Pattern, Rule};
use supercomb::flavour_py::{AssignPattern, Variant};
use supercomb::term::{Name, Term};

fn nm(s: &str) -> Name {
    s.to_string()
}

fn call(f: &str, k: u32) -> Term {
    Term::App { fun: Box::new(Term::Ref { nam: nm(f) }), arg: Box::new(Term::Num { val: k }) }
}

fn under(x: &str, b: Term) -> Term {
    Term::Lam { nam: Some(nm(x)), bod: Box::new(b) }
}

fn sample() -> Book {
    let mut book = Book::new();
    book.add_def(Definition::combinator(nm("main"), under("x", call("f", 0)), false));
    book.add_def(Definition::combinator(
        nm("f"),
        under(
            "x",
            Term::Tup {
                els: vec![
                    call("g", 1),
                    under("y", Term::App {
                        fun: Box::new(Term::Var { nam: nm("y") }),
                        arg: Box::new(call("g", 2)),
                    }),
                    Term::Var { nam: nm("x") },
                ],
            },
        ),
        false,
    ));
    book.add_def(Definition::combinator(
        nm("g"),
        Term::Sup { tag: 1, els: vec![call("f", 3), Term::Num { val: 4 }] },
        true,
    ));
    book.entrypoint = Some(nm("main"));
    book
}

#[test]
fn book_keeps_the_order_of_insertion() {
    let book = sample();
    assert_eq!(book.len(), 3);
    assert_eq!(book.def_at(0).unwrap().0, "main");
    assert_eq!(book.def_at(1).unwrap().0, "f");
    assert_eq!(book.def_at(2).unwrap().0, "g");
    assert_eq!(book.def_at(2).unwrap().1.name, "g");
    assert!(book.def_at(2).unwrap().1.builtin);
}

#[test]
fn add_def_replaces_in_place() {
    let mut book = sample();
    let prev = book.add_def(Definition::combinator(nm("f"), Term::Era, false));
    assert_eq!(prev.unwrap().rules[0].body, sample().defs.get("f").unwrap().rules[0].body);
    assert_eq!(book.len(), 3);
    assert_eq!(book.def_at(1).unwrap().0, "f");
    assert_eq!(book.def_at(1).unwrap().1.rules[0].body, Term::Era);
    assert!(book.add_def(Definition::combinator(nm("h"), Term::Era, false)).is_none());
    assert_eq!(book.len(), 4);
    assert_eq!(book.def_at(3).unwrap().0, "h");
}

#[test]
fn get_def_finds_by_name() {
    let book = sample();
    assert_eq!(book.get_def(&nm("g")).unwrap().name, "g");
    assert!(book.get_def(&nm("nope")).is_none());
    assert!(Book::new().get_def(&nm("g")).is_none());
}

#[test]
fn is_entrypoint_compares_names() {
    let book = sample();
    assert!(book.is_entrypoint(&nm("main")));
    assert!(!book.is_entrypoint(&nm("f")));
    assert!(!Book::new().is_entrypoint(&nm("main")));
}

#[test]
fn definition_body_is_that_of_the_first_rule() {
    let d = Definition::combinator(nm("d"), Term::Era, true);
    assert_eq!(d.body(), Some(&Term::Era));
    assert!(d.builtin);
    assert_eq!(d.rules.len(), 1);
    assert!(d.rules[0].pats.is_empty());
    let e = Definition { name: nm("e"), rules: vec![], builtin: false };
    assert!(e.body().is_none());
}

#[test]
fn clones_are_equal() {
    let p = Pattern::Ctr { nam: nm("Cons"), args: vec![nm("h"), nm("t")] };
    assert_eq!(p.clone(), p);
    let q = Pattern::Var { nam: Some(nm("x")) };
    assert_eq!(q.clone(), q);
    let rule = Rule { pats: vec![p, q, Pattern::Num { val: 2 }], body: call("f", 1) };
    assert_eq!(rule.clone(), rule);
    let d = Definition { name: nm("d"), rules: vec![rule.clone(), rule], builtin: true };
    assert_eq!(d.clone(), d);
    let book = sample();
    let copy = book.clone();
    assert_eq!(copy.entrypoint, book.entrypoint);
    let a: Vec<_> = book.defs.iter().collect();
    let b: Vec<_> = copy.defs.iter().collect();
    assert_eq!(a, b);
}

#[test]
fn whole_pass_on_the_sample() {
    let mut book = sample();
    book.float_combinators();
    let keys: Vec<String> = book.defs.keys().cloned().collect();
    assert_eq!(keys, vec!["main", "f", "g", "f$C0", "f$C1", "f$C2", "g$C0"]);
    assert_eq!(book.defs.get("main").unwrap().rules[0].body, under("x", call("f", 0)));
    assert_eq!(
        book.defs.get("f").unwrap().rules[0].body,
        under(
            "x",
            Term::Tup {
                els: vec![
                    Term::Ref { nam: nm("f$C0") },
                    Term::Ref { nam: nm("f$C2") },
                    Term::Var { nam: nm("x") },
                ],
            }
        )
    );
    assert_eq!(
        book.defs.get("f$C2").unwrap().rules[0].body,
        under("y", Term::App {
            fun: Box::new(Term::Var { nam: nm("y") }),
            arg: Box::new(Term::Ref { nam: nm("f$C1") }),
        })
    );
    assert_eq!(
        book.defs.get("g").unwrap().rules[0].body,
        Term::Sup { tag: 1, els: vec![Term::Ref { nam: nm("g$C0") }, Term::Num { val: 4 }] }
    );
    assert_eq!(book.defs.get("f$C0").unwrap().rules[0].body, call("g", 1));
    assert_eq!(book.defs.get("f$C1").unwrap().rules[0].body, call("g", 2));
    assert_eq!(book.defs.get("g$C0").unwrap().rules[0].body, call("f", 3));
    assert!(book.defs.get("g$C0").unwrap().builtin);
    assert!(!book.defs.get("f$C0").unwrap().builtin);
}

#[test]
fn floated_definitions_are_closed() {
    let mut book = sample();
    let before = book.len();
    book.float_combinators();
    assert!(book.len() > before);
    for i in before..book.len() {
        let (key, d) = book.def_at(i).unwrap();
        assert_eq!(*key, d.name);
        assert_eq!(d.rules.len(), 1);
        assert!(d.rules[0].pats.is_empty());
        assert!(d.rules[0].body.free_vars().is_empty());
    }
}

#[test]
fn floated_names_are_distinct_and_new() {
    let mut book = sample();
    let old: Vec<String> = book.defs.keys().cloned().collect();
    book.float_combinators();
    let all: Vec<String> = book.defs.keys().cloned().collect();
    let set: IndexSet<String> = all.iter().cloned().collect();
    assert_eq!(set.len(), all.len());
    for k in &all[old.len()..] {
        assert!(!old.contains(k));
    }
    assert_eq!(&all[..old.len()], &old[..]);
}

fn unfolded(t: &Term, book: &Book, own: &str) -> Term {
    match t {
        Term::Ref { nam } if nam.starts_with(&format!("{}$C", own)) => {
            unfolded(&book.defs.get(nam.as_str()).unwrap().rules[0].body, book, own)
        }
        Term::App { fun, arg } => Term::App {
            fun: Box::new(unfolded(fun, book, own)),
            arg: Box::new(unfolded(arg, book, own)),
        },
        Term::Lam { nam, bod } => Term::Lam { nam: nam.clone(), bod: Box::new(unfolded(bod, book, own)) },
        Term::Chn { nam, bod } => Term::Chn { nam: nam.clone(), bod: Box::new(unfolded(bod, book, own)) },
        Term::Tup { els } => Term::Tup { els: els.iter().map(|e| unfolded(e, book, own)).collect() },
        Term::Sup { tag, els } => {
            Term::Sup { tag: *tag, els: els.iter().map(|e| unfolded(e, book, own)).collect() }
        }
        leaf => leaf.clone(),
    }
}

#[test]
fn unfolding_the_combinators_restores_the_bodies() {
    let before = sample();
    let mut book = sample();
    book.float_combinators();
    for i in 0..before.len() {
        let (key, d) = before.def_at(i).unwrap();
        let now = &book.defs.get(key.as_str()).unwrap().rules[0].body;
        assert_eq!(unfolded(now, &book, key), d.rules[0].body);
    }
}

fn count_refs(t: &Term, name: &str) -> usize {
    match t {
        Term::Ref { nam } => (nam == name) as usize,
        Term::App { fun, arg } => count_refs(fun, name) + count_refs(arg, name),
        Term::Lam { bod, .. } | Term::Chn { bod, .. } => count_refs(bod, name),
        Term::Tup { els } | Term::Sup { els, .. } => els.iter().map(|e| count_refs(e, name)).sum(),
        _ => 0,
    }
}

#[test]
fn each_combinator_is_referred_to_once() {
    let mut book = sample();
    let before = book.len();
    book.float_combinators();
    assert_eq!(book.len(), before + 4);
    for i in before..book.len() {
        let name = book.def_at(i).unwrap().0.clone();
        let total: usize =
            book.defs.values().map(|d| count_refs(&d.rules[0].body, name.as_str())).sum();
        assert_eq!(total, 1);
    }
}

#[test]
fn floated_bodies_are_abstractions_or_applications() {
    let mut book = sample();
    let before = book.len();
    book.float_combinators();
    for i in before..book.len() {
        let b = &book.def_at(i).unwrap().1.rules[0].body;
        assert!(matches!(b, Term::Lam { .. }) || (b.is_app() && !b.has_unscoped_diff()));
    }
}

#[test]
fn safe_children_are_left_alone() {
    let safe = Term::Tup { els: vec![Term::Num { val: 1 }, under("x", Term::Var { nam: nm("x") })] };
    let mut book = Book::new();
    book.add_def(Definition::combinator(nm("s"), under("z", safe), false));
    let expected = book.defs.get("s").unwrap().rules[0].body.clone();
    book.float_combinators();
    assert_eq!(book.len(), 1);
    assert_eq!(book.defs.get("s").unwrap().rules[0].body, expected);
}

#[test]
fn unbalanced_children_are_left_alone() {
    // The application is closed, but it declares `a` without using it.
    let unbalanced = Term::App {
        fun: Box::new(Term::Chn { nam: nm("a"), bod: Box::new(call("f", 1)) }),
        arg: Box::new(Term::Num { val: 0 }),
    };
    let partner = Term::Lnk { nam: nm("a") };
    let mut book = Book::new();
    book.add_def(Definition::combinator(nm("u"), Term::Tup { els: vec![unbalanced, partner] }, false));
    let expected = book.defs.get("u").unwrap().rules[0].body.clone();
    book.float_combinators();
    assert_eq!(book.len(), 1);
    assert_eq!(book.defs.get("u").unwrap().rules[0].body, expected);
}

#[test]
fn balanced_unscoped_application_is_floated() {
    let balanced = Term::App {
        fun: Box::new(Term::Chn { nam: nm("a"), bod: Box::new(Term::Lnk { nam: nm("a") }) }),
        arg: Box::new(Term::Num { val: 0 }),
    };
    let mut book = Book::new();
    book.add_def(Definition::combinator(nm("u"), under("x", balanced), false));
    let expected = match &book.defs.get("u").unwrap().rules[0].body {
        Term::Lam { bod, .. } => (**bod).clone(),
        _ => panic!("the body is an abstraction"),
    };
    book.float_combinators();
    assert_eq!(book.len(), 2);
    assert_eq!(book.defs.get("u$C0").unwrap().rules[0].body, expected);
}

#[test]
fn application_that_loses_its_balance_stays() {
    // Floating `(f $a)` takes the use of `a` out of the outer application,
    // which then declares `a` without using it and is left in place.
    let user = Term::App {
        fun: Box::new(Term::Ref { nam: nm("f") }),
        arg: Box::new(Term::Lnk { nam: nm("a") }),
    };
    let decl = Term::Chn { nam: nm("a"), bod: Box::new(Term::Num { val: 0 }) };
    let outer = Term::App { fun: Box::new(decl), arg: Box::new(user) };
    let mut book = Book::new();
    book.add_def(Definition::combinator(nm("w"), under("x", outer), false));
    book.float_combinators();
    let keys: Vec<String> = book.defs.keys().cloned().collect();
    assert_eq!(keys, vec!["w", "w$C0"]);
    assert_eq!(
        book.defs.get("w").unwrap().rules[0].body,
        under(
            "x",
            Term::App {
                fun: Box::new(Term::Chn { nam: nm("a"), bod: Box::new(Term::Num { val: 0 }) }),
                arg: Box::new(Term::Ref { nam: nm("w$C0") }),
            }
        )
    );
}

#[test]
fn abstraction_that_loses_its_balance_is_still_floated() {
    // As above, but the abstraction around the application is a child too:
    // it is closed, so it is floated although `a` is now declared in it
    // without a use.
    let user = Term::App {
        fun: Box::new(Term::Ref { nam: nm("f") }),
        arg: Box::new(Term::Lnk { nam: nm("a") }),
    };
    let decl = Term::Chn { nam: nm("a"), bod: Box::new(Term::Num { val: 0 }) };
    let outer = Term::App { fun: Box::new(decl), arg: Box::new(user) };
    let mut book = Book::new();
    book.add_def(Definition::combinator(nm("w"), Term::Tup { els: vec![under("x", outer)] }, false));
    book.float_combinators();
    let keys: Vec<String> = book.defs.keys().cloned().collect();
    assert_eq!(keys, vec!["w", "w$C0", "w$C1"]);
    assert_eq!(
        book.defs.get("w").unwrap().rules[0].body,
        Term::Tup { els: vec![Term::Ref { nam: nm("w$C1") }] }
    );
    let floated = &book.defs.get("w$C1").unwrap().rules[0].body;
    assert!(floated.has_unscoped_diff());
    assert!(floated.free_vars().is_empty());
}

#[test]
fn memo_starts_empty_for_each_definition() {
    // `bad` is unsafe, and the analysis of `a` finds that out. The one of
    // `b` looks into `bad` again: the abstraction in `b` is found unsafe,
    // and it is floated.
    let mut book = Book::new();
    book.add_def(Definition::combinator(nm("bad"), Term::Var { nam: nm("v") }, false));
    book.add_def(Definition::combinator(
        nm("a"),
        under("x", Term::Tup { els: vec![Term::Ref { nam: nm("bad") }] }),
        false,
    ));
    book.add_def(Definition::combinator(
        nm("b"),
        Term::Tup { els: vec![under("y", Term::Tup { els: vec![Term::Ref { nam: nm("bad") }] })] },
        false,
    ));
    let a = book.defs.get("a").unwrap().rules[0].body.clone();
    book.float_combinators();
    let keys: Vec<String> = book.defs.keys().cloned().collect();
    assert_eq!(keys, vec!["bad", "a", "b", "b$C0"]);
    assert_eq!(book.defs.get("a").unwrap().rules[0].body, a);
    assert_eq!(
        book.defs.get("b").unwrap().rules[0].body,
        Term::Tup { els: vec![Term::Ref { nam: nm("b$C0") }] }
    );
    assert_eq!(
        book.defs.get("b$C0").unwrap().rules[0].body,
        under("y", Term::Tup { els: vec![Term::Ref { nam: nm("bad") }] })
    );
}

#[test]
fn entrypoint_with_the_name_of_a_combinator_is_replaced() {
    let mut book = Book::new();
    book.add_def(Definition::combinator(nm("foo"), under("x", call("f", 0)), false));
    book.add_def(Definition::combinator(nm("foo$C0"), Term::Num { val: 1 }, false));
    book.entrypoint = Some(nm("foo$C0"));
    book.float_combinators();
    assert_eq!(book.defs.get("foo$C0").unwrap().rules[0].body, call("f", 0));
}

#[test]
fn surface_patterns_hold_names() {
    let p = AssignPattern::Tup(vec![nm("a"), nm("b")]);
    match p.clone() {
        AssignPattern::Tup(ns) => assert_eq!(ns, vec!["a", "b"]),
        AssignPattern::Var(_) => panic!("a tuple pattern"),
    }
    let v = Variant { name: nm("Some"), fields: vec![nm("value")] };
    assert_eq!(v.clone().fields, vec!["value"]);
    assert_eq!(v.name, "Some");
}
