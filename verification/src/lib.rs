//! Combinator floating for a functional language compiled to interaction nets.
//!
//! The pass extracts closed applications and closed lambdas from the bodies
//! of a program's definitions into fresh top-level definitions, guided by a
//! structural safety analysis and by a scope analysis of each term.

pub mod book;
pub mod copy;
pub mod flavour_py;
pub mod float;
pub mod laws;
pub mod names;
pub mod naming;
pub mod pass;
pub mod refs;
pub mod rewrite;
pub mod safety;
pub mod scope;
pub mod shell;
pub mod term;
pub mod unfold;
