//! Process-algebra-agnostic semantics: actions, combinator rule shapes, and
//! the explicit-graph expander.

pub mod action;
pub mod combinator;
pub mod explicit;
