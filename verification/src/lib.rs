//! An evaluator for the untyped lambda calculus.
//!
//! Expressions with names are read from text, converted to nameless terms, reduced to
//! normal form one contraction at a time, and converted back to expressions with
//! names, which are written as text.

pub mod calculus;
pub mod eval;
pub mod expr;
pub mod ident;
pub mod pars;
pub mod prn;
pub mod reduce;
pub mod scope;
pub mod term;
