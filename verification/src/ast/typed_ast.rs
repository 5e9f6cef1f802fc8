//! A simpler, typed syntax tree: every expression carries its bus size,
//! and expressions are no longer nested.
use vstd::prelude::*;

pub use crate::ast::BiOp;

verus! {

/// A value together with its bus size.
#[derive(Debug, Clone)]
pub struct Sized<T> {
    pub value: T,
    pub size: usize,
}

/// The typed program.
#[derive(Debug, Clone)]
pub struct Program {
    pub inputs: Vec<Arg>,
    pub outputs: Vec<Arg>,
    pub shared: Vec<(SharedVar, Value)>,
    pub states: Vec<(Name, State)>,
    pub init_states: Vec<Name>,
}

/// A sized name.
pub type Arg = Sized<String>;

/// The name of a shared variable.
pub type SharedVar = String;

/// The name of a local variable.
pub type LocalVar = String;

/// The name of a state.
pub type Name = String;

/// A variable, local to a state or shared by the whole program.
#[derive(Debug, Clone, PartialEq, Eq, Hash)]
pub enum Var {
    Local(LocalVar),
    Shared(SharedVar),
}

/// A bus value.
pub type Value = Vec<bool>;

/// A typed state: its statements by variable, and its transitions.
#[derive(Debug, Clone)]
pub struct State {
    pub name: String,
    pub statements: Vec<(Var, Expr)>,
    pub transitions: Vec<(Var, Option<Name>, bool)>,
    pub weak: bool,
}

/// A sized expression.
pub type Expr = Sized<ExprType>;

/// A sized terminal expression.
pub type ExprTerm = Sized<ExprTermType>;

/// A terminal expression: a constant or a variable.
#[derive(Debug, Clone)]
pub enum ExprTermType {
    Const(Value),
    Var(Var),
}

/// An expression of depth one.
#[derive(Debug, Clone)]
pub enum ExprType {
    Term(ExprTerm),
    Not(ExprTerm),
    Slice(ExprTerm, usize, usize),
    BiOp(BiOp, ExprTerm, ExprTerm),
    Mux(ExprTerm, ExprTerm, ExprTerm),
    Reg(ExprTerm),
    Last(SharedVar),
    Ram(RamStruct),
    Rom(ExprTerm),
}

/// A RAM access.
#[derive(Debug, Clone)]
pub struct RamStruct {
    pub read_addr: ExprTerm,
    pub write_enable: ExprTerm,
    pub write_addr: ExprTerm,
    pub write_data: ExprTerm,
}

} // verus!
