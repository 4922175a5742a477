//! A process-algebra library in the style of CSP.
//!
//! Process terms are built from primitives, event-prefixing and binary
//! operators.  A rule table of structural-operational-semantics combinators
//! enumerates the transitions of a term, and a work-list expander grows an
//! explicit labelled transition system (a graph of process states and
//! labelled transitions) to closure from a root term.

pub mod cspm;
pub mod semantics;
