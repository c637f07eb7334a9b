//! The syntax tree of the imperative surface notation. A separate stage
//! lowers it to the terms of [`crate::term`].

use crate::term::Name;
use indexmap::IndexMap;
use vstd::prelude::*;

verus! {

/// A binary operator.
#[derive(Clone, Copy, Debug, PartialEq, Eq)]
pub enum Op {
    Add,
    Sub,
    Mul,
    Div,
    Mod,
    Eq,
    Ne,
    Lt,
    Gt,
    Lte,
    Gte,
    And,
    Or,
    Xor,
    Lsh,
    Rsh,
    Not,
}

/// An expression.
#[allow(inconsistent_fields)]
#[derive(Debug)]
pub enum Term {
    /// The literal for the absence of a value.
    NoneLit,
    /// A name.
    Var { nam: Name },
    /// A number literal.
    Num { val: u32 },
    /// A call with positional and keyword arguments.
    Call { fun: Box<Term>, args: Vec<Term>, kwargs: Vec<(Name, Term)> },
    /// `lambda` with its pattern and body.
    Lam { pat: AssignPattern, bod: Stmt },
    /// A binary operation.
    Bin { op: Op, lhs: Box<Term>, rhs: Box<Term> },
    /// A string literal.
    Str { val: String },
    /// A list literal.
    Lst { els: Vec<Term> },
    /// A tuple literal.
    Tup { els: Vec<Term> },
}

/// One arm of a `match`.
#[derive(Debug)]
pub struct MatchArm {
    pub lft: Option<Name>,
    pub rgt: Stmt,
}

/// The left side of an assignment.
#[derive(Clone, Debug)]
pub enum AssignPattern {
    /// A single name.
    Var(Name),
    /// A tuple of names.
    Tup(Vec<Name>),
}

/// A statement, with what follows it.
#[derive(Debug)]
pub enum Stmt {
    /// An assignment and the statement after it.
    Assign { pat: AssignPattern, val: Box<Term>, nxt: Box<Stmt> },
    /// A conditional with both branches.
    If { cond: Box<Term>, then: Box<Stmt>, otherwise: Box<Stmt> },
    /// A `match` on a value, which may be bound to a name.
    Match { arg: Box<Term>, bind: Option<Name>, arms: Vec<MatchArm> },
    /// `return`
    Return { term: Box<Term> },
}

/// A constructor of an enum, with the names of its fields.
#[derive(Clone, Debug)]
pub struct Variant {
    pub name: Name,
    pub fields: Vec<Name>,
}

/// A function definition.
#[derive(Debug)]
pub struct Definition {
    pub name: Name,
    pub params: Vec<Name>,
    pub body: Stmt,
}

/// An enum definition: its variants under their names.
#[derive(Debug)]
pub struct Enum {
    pub name: Name,
    pub variants: IndexMap<Name, Variant>,
}

/// A definition at the top level of a file.
#[derive(Debug)]
pub enum TopLevel {
    Def(Definition),
    Enum(Enum),
}

/// A whole file: its enums and definitions under their names, and for each
/// variant the name of its enum.
#[derive(Debug)]
pub struct Program {
    pub enums: IndexMap<Name, Enum>,
    pub defs: IndexMap<Name, Definition>,
    pub variants: IndexMap<Name, Name>,
}

} // verus!
