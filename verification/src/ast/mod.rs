//! The syntax trees used by the compiler, in the order in which the passes use them:
//! `parse_ast`, then `typed_ast`, then `graph_automaton`, then `graph`.
use vstd::prelude::*;

pub mod graph;
pub mod graph_automaton;
pub mod parse_ast;
pub mod typed_ast;

verus! {

/// A binary operation on buses.
#[derive(Debug, Clone, Copy, PartialEq, Eq, Structural, Hash)]
pub enum BiOp {
    /// `*`
    And,
    /// `+`
    Or,
    /// `^`
    Xor,
    /// `-*`
    Nand,
    /// `.`
    Concat,
}

} // verus!
