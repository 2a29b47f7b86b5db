//! A regular-expression engine built around a bounded backtracking matcher.
//!
//! A pattern is an algebraic [`Repr`]; a compiled pattern is a
//! [`program::Program`], a flat list of instructions; [`backtrack::Bounded`]
//! runs a program over a [`Context`], the input seen as a sequence of
//! elements. What a search computes is defined in [`machine`], and what
//! holds of every search is proved in [`laws`].

pub mod backtrack;
pub mod context;
pub mod interval;
pub mod laws;
pub mod listing;
pub mod literal;
pub mod machine;
pub mod program;
pub mod repr;
pub mod unicode;

pub use crate::context::Context;
pub use crate::interval::Interval;
pub use crate::literal::Literal;
pub use crate::repr::{Integral, Repr, Zero};
