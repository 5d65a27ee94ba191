//! Core of a disjunctive-scheduling constraint propagator, together with the
//! DIMACS CNF/WCNF front-end of the surrounding solver.
//!
//! The propagator tightens the bounds of integer start-time variables of
//! unary-resource tasks by detecting detectable precedences: whenever one
//! task is forced to complete before another can start, the bounds of the
//! latter can be moved.  It follows the Vilim-style timeline algorithm: a
//! compact earliest-completion-time timeline (and its mirror) built on a
//! union-find structure over time slices.

pub mod assignments;
pub mod dimacs;
pub mod options;
pub mod propagator;
pub mod sorting;
pub mod task;
pub mod timeline;
pub mod union_find;
