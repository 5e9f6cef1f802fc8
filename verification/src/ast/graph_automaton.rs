//! The automaton as a graph: each state is a set of expression DAGs computing
//! the shared variables it writes and the conditions of its transitions.
use vstd::prelude::*;
use std::rc::Rc;

pub use crate::ast::BiOp;

verus! {

/// An operation of an expression DAG, with the id of the local variable it computes, if any.
#[derive(Debug)]
pub struct ExprNode {
    pub id: Option<usize>,
    pub op: ExprOperation,
}

/// The operations of an expression DAG.
#[derive(Debug)]
pub enum ExprOperation {
    Input(usize),
    Const(Vec<bool>),
    Not(Rc<ExprNode>),
    Slice(Rc<ExprNode>, usize, usize),
    BiOp(BiOp, Rc<ExprNode>, Rc<ExprNode>),
    Mux(Rc<ExprNode>, Rc<ExprNode>, Rc<ExprNode>),
    /// size, and the register's input; `None` stands for the register's own value.
    Reg(usize, Option<Rc<ExprNode>>),
    Ram(Rc<ExprNode>, Rc<ExprNode>, Rc<ExprNode>, Rc<ExprNode>),
    Rom(usize, Rc<ExprNode>),
    Last(usize),
}

impl ExprNode {
    /// The node with no id computing `op`.
    pub fn from_op(op: ExprOperation) -> (r: ExprNode)
        ensures
            r.id is None,
            r.op == op,
    {
        ExprNode { id: None, op }
    }
}

/// One state of the automaton.
#[derive(Debug, Clone)]
pub struct ProgramState {
    /// The shared variables written by the state, with their expressions.
    pub shared_outputs: Vec<(usize, Rc<ExprNode>)>,
    /// The transitions: target state, condition, reset.
    pub transition_outputs: Vec<(Option<usize>, Rc<ExprNode>, bool)>,
    /// The shared variables read by the state (not in its transitions).
    pub inputs: Vec<usize>,
    pub weak: bool,
    /// The number of local variables of the state.
    pub n_vars: usize,
}

/// The whole automaton.
#[derive(Debug, Clone)]
pub struct ProgramGraph {
    pub init_states: Vec<usize>,
    pub states: Vec<ProgramState>,
    /// The initial value of each shared variable.
    pub shared: Vec<Vec<bool>>,
    pub schedule: Vec<usize>,
    pub outputs: Vec<(String, usize)>,
    pub inputs: Vec<usize>,
}

} // verus!
