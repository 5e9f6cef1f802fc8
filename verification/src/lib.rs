//! Tinyjazz: a dataflow language of hierarchical automata compiled to netlists.
//!
//! The library holds the compiler's passes and its interpreters:
//! constant evaluation, expression flattening, automaton collapsing,
//! typing, graph construction, optimisation and the netlist backend.
pub mod ast;
pub mod backends;
pub mod frontend;
pub mod interpreters;
pub mod optimization;
pub mod util;
