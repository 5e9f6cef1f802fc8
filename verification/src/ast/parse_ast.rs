//! The syntax tree built by the parser and rewritten by the first passes of the compiler.
//! It stays close to the concrete syntax of tinyjazz.
use vstd::prelude::*;

pub use crate::ast::BiOp;

verus! {

/// A position in a source file: file id, left index, right index.
#[derive(Debug, Clone, Copy, PartialEq, Eq, Structural, Hash)]
pub struct Pos(pub usize, pub usize, pub usize);

/// A value together with the position it comes from.
#[derive(Debug)]
pub struct Loc<T> {
    pub loc: Pos,
    pub value: T,
}

impl<T> Loc<T> {
    /// Wraps `value` with the position `loc`.
    pub fn new(loc: Pos, value: T) -> (r: Self)
        ensures
            r.loc == loc,
            r.value == value,
    {
        Loc { value, loc }
    }
}

/// A table from names to values. The first entry with a given name is the one that counts.
pub type Table<V> = Vec<(String, V)>;

/// A whole program: the automata, the functions and the global constants, by name.
#[derive(Debug)]
pub struct Program {
    pub imports: Vec<String>,
    pub automata: Table<Automaton>,
    pub functions: Table<Function>,
    pub global_consts: Table<Const>,
}

/// An automaton: its interface, its shared variables and its states.
#[derive(Debug)]
pub struct Automaton {
    pub name: String,
    pub inputs: Vec<Arg>,
    pub outputs: Vec<Arg>,
    pub shared: Vec<VarAssign>,
    pub states: Table<State>,
    pub init_states: Vec<Loc<Var>>,
}

/// An assignment `var = expr`.
#[derive(Debug)]
pub struct VarAssign {
    pub var: Loc<Var>,
    pub expr: Loc<Expr>,
}

/// A variable name.
pub type Var = String;

/// A constant variable definition.
#[derive(Debug)]
pub struct ConstVarAssign {
    pub var: Var,
    pub cons: Const,
}

/// A bus value.
#[derive(Debug)]
pub struct Value(pub Vec<bool>);

/// A call to an external automaton.
#[derive(Debug)]
pub struct ExtAutomaton {
    pub inputs: Loc<Vec<Loc<Expr>>>,
    pub outputs: Loc<Vec<Loc<Var>>>,
    pub name: Loc<Var>,
}

/// A state of an automaton.
#[derive(Debug)]
pub struct State {
    pub name: Loc<String>,
    pub statements: Vec<Statement>,
    pub transitions: Vec<Transition>,
    pub weak: bool,
}

/// A transition: when `condition` holds, go to `state` (or stop when `None`),
/// resetting it when `reset` is set.
#[derive(Debug)]
pub struct Transition {
    pub condition: Loc<TrCond>,
    pub state: Loc<Option<Var>>,
    pub reset: bool,
}

/// The condition of a transition.
#[derive(Debug)]
pub enum TrCond {
    Default,
    Expr(Expr),
}

impl TrCond {
    /// Whether this is the default condition.
    pub fn is_default(&self) -> (r: bool)
        ensures
            r == (*self is Default),
    {
        if let TrCond::Default = self {
            true
        } else {
            false
        }
    }

    /// Whether this is a condition given by an expression.
    pub fn is_expr(&self) -> (r: bool)
        ensures
            r == (*self is Expr),
    {
        if let TrCond::Default = self {
            false
        } else {
            true
        }
    }

    /// The expression of a condition that is not the default one.
    pub fn unwrap(self) -> (r: Expr)
        requires
            self is Expr,
        ensures
            self == TrCond::Expr(r),
    {
        match self {
            TrCond::Expr(e) => e,
            TrCond::Default => vstd::pervasive::unreached(),
        }
    }

    /// A reference to the expression of a condition that is not the default one.
    pub fn unwrap_ref(&self) -> (r: &Expr)
        requires
            *self is Expr,
        ensures
            *self == TrCond::Expr(*r),
    {
        match self {
            TrCond::Expr(e) => e,
            TrCond::Default => vstd::pervasive::unreached(),
        }
    }
}

/// A statement: `(tuple) = (tuple)`, a static `if`, `(tuple) = f(..)`, or a call to an automaton.
#[derive(Debug)]
pub enum Statement {
    Assign(Vec<VarAssign>),
    If(IfStruct),
    FnAssign(FnAssign),
    ExtAutomaton(ExtAutomaton),
}

/// `(vars) = f(..)`.
#[derive(Debug)]
pub struct FnAssign {
    pub vars: Vec<Loc<Var>>,
    pub f: FnCall,
}

/// A constant bus: either known bits, or `[b; n]` with `n` a constant.
#[derive(Debug)]
pub enum ConstExpr {
    Known(Vec<bool>),
    Unknown(bool, Loc<Const>),
}

/// An expression.
#[derive(Debug)]
pub enum Expr {
    Const(ConstExpr),
    Not(Box<Expr>),
    Slice(Box<Loc<Expr>>, Option<Const>, Option<Const>),
    BiOp(BiOp, Box<Loc<Expr>>, Box<Loc<Expr>>),
    Mux(Box<Loc<Expr>>, Box<Loc<Expr>>, Box<Loc<Expr>>),
    Var(Loc<Var>),
    Last(Loc<Var>),
    Reg(Loc<Const>, Box<Loc<Expr>>),
    Ram(RamStruct),
    Rom(RomStruct),
    FnCall(FnCall),
}

/// A function call `name<static_args>(args)`.
#[derive(Debug)]
pub struct FnCall {
    pub name: Loc<String>,
    pub args: Loc<Vec<Loc<Expr>>>,
    pub static_args: Loc<Vec<Const>>,
}

/// A RAM access.
#[derive(Debug)]
pub struct RamStruct {
    pub read_addr: Box<Loc<Expr>>,
    pub write_enable: Box<Loc<Expr>>,
    pub write_addr: Box<Loc<Expr>>,
    pub write_data: Box<Loc<Expr>>,
}

/// A ROM access.
#[derive(Debug)]
pub struct RomStruct {
    pub word_size: Const,
    pub read_addr: Box<Loc<Expr>>,
}

/// A static `if`: the condition is a constant.
#[derive(Debug)]
pub struct IfStruct {
    pub condition: Const,
    pub if_block: Vec<Statement>,
    pub else_block: Vec<Statement>,
}

/// A constant integer expression.
#[derive(Debug)]
pub enum Const {
    Value(i32),
    BiOp(ConstBiOp, Box<Const>, Box<Loc<Const>>),
    Var(Loc<String>),
}

/// An operation on constants.
#[derive(Debug, Clone, Copy, PartialEq, Eq, Structural)]
pub enum ConstBiOp {
    Plus,
    Times,
    Minus,
    Div,
    Le,
    Lt,
    Ge,
    Gt,
    Eq,
    Neq,
    And,
    Or,
}

/// A variable whose size must be given (arguments, return variables).
#[derive(Debug)]
pub struct Arg {
    pub name: String,
    pub size: Loc<Const>,
}

/// A function definition.
#[derive(Debug)]
pub struct Function {
    pub name: Loc<String>,
    pub static_args: Vec<String>,
    pub args: Vec<Arg>,
    pub return_vars: Vec<Arg>,
    pub statements: Vec<Statement>,
}

/// A copy of a constant expression.
pub fn copy_const(c: &Const) -> (r: Const)
    ensures
        r == *c,
    decreases c,
{
    match c {
        Const::Value(v) => Const::Value(*v),
        Const::BiOp(op, a, b) => Const::BiOp(*op, Box::new(copy_const(a)), Box::new(copy_loc_const(b))),
        Const::Var(v) => Const::Var(Loc { loc: v.loc, value: v.value.clone() }),
    }
}

/// A copy of a located constant expression.
pub fn copy_loc_const(c: &Loc<Const>) -> (r: Loc<Const>)
    ensures
        r == *c,
    decreases c,
{
    Loc { loc: c.loc, value: copy_const(&c.value) }
}

} // verus!
