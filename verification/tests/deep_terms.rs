use indexmap::IndexSet;
use supercomb::book::{Book, Definition};
use supercomb::term::{Name, Term};

const DEEP: usize = 200_000;
const DEEP_PASS: usize = 3_000;

fn nm(s: &str) -> Name {
    s.to_string()
}

fn erased(b: Term) -> Term {
    Term::Lam { nam: None, bod: Box::new(b) }
}

fn chain(depth: usize, bottom: Term) -> Term {
    let mut t = bottom;
    for _ in 0..depth {
        t = erased(t);
    }
    t
}

fn depth_of(t: &Term) -> usize {
    let mut n = 0;
    let mut cur = t;
    while let Term::Lam { bod, .. } = cur {
        n += 1;
        cur = bod;
    }
    n
}

fn bottom_of(t: &Term) -> &Term {
    let mut cur = t;
    while let Term::Lam { bod, .. } = cur {
        cur = bod;
    }
    cur
}

#[test]
fn deep_term_is_copied_and_given_up() {
    let t = chain(DEEP, Term::Var { nam: nm("y") });
    let c = t.clone();
    assert_eq!(depth_of(&c), DEEP);
    assert_eq!(*bottom_of(&c), Term::Var { nam: nm("y") });
    c.dismantle();
    t.dismantle();
}

#[test]
fn deep_term_is_analysed() {
    let t = chain(DEEP, Term::Chn { nam: nm("a"), bod: Box::new(Term::Var { nam: nm("y") }) });
    let free: Vec<String> = t.free_vars().iter().cloned().collect();
    assert_eq!(free, vec!["y"]);
    let (declared, used) = t.unscoped_vars();
    assert_eq!(declared.len(), 1);
    assert!(used.is_empty());
    assert!(t.has_unscoped_diff());
    assert!(!t.is_combinator());
    let book = Book::new();
    let mut memo = IndexSet::new();
    assert!(!t.is_safe(&book, &mut memo));
    t.dismantle();
    let safe = chain(DEEP, Term::Era);
    assert!(safe.is_safe(&book, &mut memo));
    assert!(safe.is_combinator());
    safe.dismantle();
}

#[test]
fn deep_tuple_is_safe() {
    let mut t = Term::Num { val: 0 };
    for _ in 0..DEEP {
        t = Term::Tup { els: vec![t, Term::Era] };
    }
    let book = Book::new();
    let mut memo = IndexSet::new();
    assert!(t.is_safe(&book, &mut memo));
    t.dismantle();
}

#[test]
fn deep_open_body_is_left_alone() {
    let mut t = Term::Var { nam: nm("x") };
    for i in 0..DEEP_PASS {
        t = Term::App { fun: Box::new(t), arg: Box::new(Term::Num { val: i as u32 }) };
    }
    let mut book = Book::new();
    book.add_def(Definition::combinator(nm("deep"), t, false));
    book.float_combinators();
    assert_eq!(book.len(), 1);
    let mut n = 0;
    let mut cur = &book.defs.get("deep").unwrap().rules[0].body;
    while let Term::App { fun, .. } = cur {
        n += 1;
        cur = fun;
    }
    assert_eq!(n, DEEP_PASS);
    book.dismantle();
}

#[test]
fn deep_closed_body_is_floated_level_by_level() {
    let t = chain(
        DEEP_PASS,
        Term::App { fun: Box::new(Term::Ref { nam: nm("f") }), arg: Box::new(Term::Num { val: 1 }) },
    );
    let mut book = Book::new();
    book.add_def(Definition::combinator(nm("deep"), t, false));
    book.float_combinators();
    assert_eq!(book.len(), DEEP_PASS + 1);
    let last = format!("deep$C{}", DEEP_PASS - 1);
    assert_eq!(book.defs.get("deep").unwrap().rules[0].body, erased(Term::Ref { nam: last }));
    assert_eq!(
        book.defs.get("deep$C0").unwrap().rules[0].body,
        Term::App { fun: Box::new(Term::Ref { nam: nm("f") }), arg: Box::new(Term::Num { val: 1 }) }
    );
    assert_eq!(
        book.defs.get("deep$C1").unwrap().rules[0].body,
        erased(Term::Ref { nam: nm("deep$C0") })
    );
    let keys: Vec<&String> = book.defs.keys().collect();
    let mut sorted: Vec<&String> = keys[1..].to_vec();
    sorted.sort();
    assert_eq!(&keys[1..], &sorted[..]);
    book.dismantle();
}

#[test]
fn split_and_join_are_inverse() {
    let t = Term::Sup {
        tag: 4,
        els: vec![Term::Num { val: 1 }, erased(Term::Era), Term::Var { nam: nm("v") }],
    };
    let copy = t.clone();
    let (shell, mut kids) = t.split();
    assert_eq!(kids.len(), 3);
    assert_eq!(kids[0], Term::Var { nam: nm("v") });
    kids.reverse();
    assert_eq!(Term::join(shell, kids), copy);
    let app = Term::App { fun: Box::new(Term::Era), arg: Box::new(Term::Num { val: 2 }) };
    let (shell, mut kids) = app.clone().split();
    assert_eq!(kids, vec![Term::Num { val: 2 }, Term::Era]);
    kids.reverse();
    assert_eq!(Term::join(shell, kids), app);
    let (shell, kids) = Term::Era.split();
    assert!(kids.is_empty());
    assert_eq!(Term::join(shell, kids), Term::Era);
    let (_, refs) = copy.split_ref();
    assert_eq!(refs.len(), 3);
    assert_eq!(*refs[2], Term::Num { val: 1 });
}
