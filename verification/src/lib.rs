//! Analysis engine for quantifier-instantiation traces of an SMT solver.
//!
//! The library models the causal graph between quantifier instantiations,
//! e-nodes and equality facts extracted from a solver trace, lets a client
//! stack visibility filters on that graph, classifies structurally
//! uninteresting nodes, and materializes a renderable snapshot in which
//! hidden regions are bridged by synthesized indirect edges.
pub mod construct;
pub mod filters;
pub mod graph;
pub mod items;
pub mod laws;
pub mod longest;
pub mod reach;
pub mod visible;
