//! Typing: every expression gets its bus size, operations are checked to be between buses
//! of the right sizes, and the program becomes a typed program (without positions), where
//! each variable is known to be local to its state or shared.
//!
//! The program must have been flattened and its constants computed before: operands are
//! variables or constants, and every constant expression is a value.
use vstd::prelude::*;

use crate::ast::parse_ast as untyp;
use crate::ast::typed_ast as typ;
use crate::ast::BiOp;
use crate::optimization::basic::{filled, filled_vec};
use crate::util::text::{lemma_pieces_nonempty, pieces, split_nonempty, split_nonempty_exec, split_pieces, texts};
use crate::util::tables::{table_get, table_has, table_contains, table_lookup, table_set, table_insert};
use untyp::{Const, ConstExpr, Loc, Pos};

verus! {

/// A bus in an error message: where it is, its name when it has one, and its size.
#[derive(Debug)]
pub struct Token {
    pub loc: Pos,
    pub name: Option<String>,
    pub length: usize,
}

/// The typing errors.
#[derive(Debug)]
pub enum TypingError {
    NegativeSizeBus(Pos, i32),
    /// Expected the first, got the second.
    MismatchedBusSize(Token, Token),
    UnknownVar(String, Pos),
    DuplicateVar(String, Pos, Pos),
    UnknownState(String, Pos),
    ExpectedSizeOne(Pos, usize),
    IndexOutOfRange(Pos, i32, usize),
    LocalVarInUnless(Pos, String),
    NonSharedInLast(Pos, String),
    /// A state and a shared variable cannot have the same name.
    ConflictingStateShared(Pos, String, Pos),
}

/// A token, with its name as text.
pub struct TokenV {
    pub loc: Pos,
    pub name: Option<Seq<char>>,
    pub length: usize,
}

/// A typing error, with its names as text.
pub enum TypingErrorV {
    NegativeSizeBus(Pos, i32),
    MismatchedBusSize(TokenV, TokenV),
    UnknownVar(Seq<char>, Pos),
    DuplicateVar(Seq<char>, Pos, Pos),
    UnknownState(Seq<char>, Pos),
    ExpectedSizeOne(Pos, usize),
    IndexOutOfRange(Pos, i32, usize),
    LocalVarInUnless(Pos, Seq<char>),
    NonSharedInLast(Pos, Seq<char>),
    ConflictingStateShared(Pos, Seq<char>, Pos),
}

/// The text of a token.
pub open spec fn token_view(t: Token) -> TokenV {
    TokenV {
        loc: t.loc,
        name: match t.name {
            Some(s) => Some(s@),
            None => None,
        },
        length: t.length,
    }
}

/// The text of a typing error.
pub open spec fn error_view(e: TypingError) -> TypingErrorV {
    match e {
        TypingError::NegativeSizeBus(p, i) => TypingErrorV::NegativeSizeBus(p, i),
        TypingError::MismatchedBusSize(a, b) => TypingErrorV::MismatchedBusSize(token_view(a), token_view(b)),
        TypingError::UnknownVar(s, p) => TypingErrorV::UnknownVar(s@, p),
        TypingError::DuplicateVar(s, p, q) => TypingErrorV::DuplicateVar(s@, p, q),
        TypingError::UnknownState(s, p) => TypingErrorV::UnknownState(s@, p),
        TypingError::ExpectedSizeOne(p, n) => TypingErrorV::ExpectedSizeOne(p, n),
        TypingError::IndexOutOfRange(p, i, n) => TypingErrorV::IndexOutOfRange(p, i, n),
        TypingError::LocalVarInUnless(p, s) => TypingErrorV::LocalVarInUnless(p, s@),
        TypingError::NonSharedInLast(p, s) => TypingErrorV::NonSharedInLast(p, s@),
        TypingError::ConflictingStateShared(p, s, q) => TypingErrorV::ConflictingStateShared(p, s@, q),
    }
}

/// A typed operand, by value: a constant, or a variable (local or not) by name.
pub enum TermKindV {
    Const(Seq<bool>),
    Var(bool, Seq<char>),
}

/// A typed variable, by value: whether it is local, and its name.
pub open spec fn var_view(v: typ::Var) -> (bool, Seq<char>) {
    match v {
        typ::Var::Local(s) => (true, s@),
        typ::Var::Shared(s) => (false, s@),
    }
}

/// A typed operand, by value.
pub open spec fn kind_view(k: typ::ExprTermType) -> TermKindV {
    match k {
        typ::ExprTermType::Const(v) => TermKindV::Const(v@),
        typ::ExprTermType::Var(v) => TermKindV::Var(var_view(v).0, var_view(v).1),
    }
}

/// A typed operand with its size, by value.
pub open spec fn term_view(t: typ::ExprTerm) -> (usize, TermKindV) {
    (t.size, kind_view(t.value))
}

/// A typed expression of depth one, by value.
pub enum ExprTypeV {
    Term((usize, TermKindV)),
    Not((usize, TermKindV)),
    Slice((usize, TermKindV), usize, usize),
    BiOp(BiOp, (usize, TermKindV), (usize, TermKindV)),
    Mux((usize, TermKindV), (usize, TermKindV), (usize, TermKindV)),
    Reg((usize, TermKindV)),
    Last(Seq<char>),
    Ram((usize, TermKindV), (usize, TermKindV), (usize, TermKindV), (usize, TermKindV)),
    Rom((usize, TermKindV)),
}

/// A typed expression with its size, by value.
pub open spec fn texpr_view(e: typ::Expr) -> (usize, ExprTypeV) {
    (
        e.size,
        match e.value {
            typ::ExprType::Term(t) => ExprTypeV::Term(term_view(t)),
            typ::ExprType::Not(t) => ExprTypeV::Not(term_view(t)),
            typ::ExprType::Slice(t, i, j) => ExprTypeV::Slice(term_view(t), i, j),
            typ::ExprType::BiOp(op, a, b) => ExprTypeV::BiOp(op, term_view(a), term_view(b)),
            typ::ExprType::Mux(a, b, c) => ExprTypeV::Mux(term_view(a), term_view(b), term_view(c)),
            typ::ExprType::Reg(t) => ExprTypeV::Reg(term_view(t)),
            typ::ExprType::Last(s) => ExprTypeV::Last(s@),
            typ::ExprType::Ram(r) => ExprTypeV::Ram(
                term_view(r.read_addr),
                term_view(r.write_enable),
                term_view(r.write_addr),
                term_view(r.write_data),
            ),
            typ::ExprType::Rom(t) => ExprTypeV::Rom(term_view(t)),
        },
    )
}

/// Sizes of variables by name, with the position of their declaration.
pub type Types = Seq<(String, (usize, Pos))>;

/// Sizes required of variables by name, not checked yet (from function signatures).
pub type Constraints = Seq<(String, (i32, Pos))>;

/// The size of a variable and whether it is local: a local variable of the state, then a
/// shared variable, then a variable with a required size (local too).
pub open spec fn var_type(vt: Types, st: Types, tc: Constraints, v: Loc<String>) -> Result<(usize, bool), TypingErrorV> {
    match table_get(vt, v.value@) {
        Some((s, _)) => Ok((s, true)),
        None => match table_get(st, v.value@) {
            Some((s, _)) => Ok((s, false)),
            None => match table_get(tc, v.value@) {
                Some((s, l)) => if s >= 0 {
                    Ok((s as usize, true))
                } else {
                    Err(TypingErrorV::NegativeSizeBus(l, s))
                },
                None => Err(TypingErrorV::UnknownVar(v.value@, v.loc)),
            },
        },
    }
}

/// An operand the typing accepts: a variable, or a constant whose size, if given by a
/// constant expression, is a value.
pub open spec fn term_shape(e: untyp::Expr) -> bool {
    match e {
        untyp::Expr::Var(_) => true,
        untyp::Expr::Const(ConstExpr::Known(_)) => true,
        untyp::Expr::Const(ConstExpr::Unknown(_, c)) => c.value is Value,
        _ => false,
    }
}

/// The typed operand `e`, by value.
pub open spec fn term_type(e: untyp::Expr, vt: Types, st: Types, tc: Constraints) -> Result<(usize, TermKindV), TypingErrorV> {
    match e {
        untyp::Expr::Const(ConstExpr::Known(v)) => Ok((v@.len() as usize, TermKindV::Const(v@))),
        untyp::Expr::Const(ConstExpr::Unknown(b, c)) => match c.value {
            Const::Value(i) => if i >= 0 {
                Ok((i as usize, TermKindV::Const(Seq::new(i as nat, |k: int| b))))
            } else {
                Err(TypingErrorV::NegativeSizeBus(c.loc, i))
            },
            _ => Err(TypingErrorV::NegativeSizeBus(c.loc, 0)),
        },
        untyp::Expr::Var(v) => match var_type(vt, st, tc, v) {
            Ok((s, local)) => Ok((s, TermKindV::Var(local, v.value@))),
            Err(x) => Err(x),
        },
        _ => Err(TypingErrorV::NegativeSizeBus(Pos(0, 0, 0), 0)),
    }
}

/// The typed operand of a register, by value: as `term_type`, except that an unknown
/// variable is accepted as a local one of unknown size (`a = reg(a)` is valid).
pub open spec fn term_reg_type(e: untyp::Expr, vt: Types, st: Types, tc: Constraints) -> Result<(Option<usize>, TermKindV), TypingErrorV> {
    match e {
        untyp::Expr::Var(v) => match var_type(vt, st, tc, v) {
            Ok((s, local)) => Ok((Some(s), TermKindV::Var(local, v.value@))),
            Err(TypingErrorV::UnknownVar(_, _)) => Ok((None, TermKindV::Var(true, v.value@))),
            Err(x) => Err(x),
        },
        _ => match term_type(e, vt, st, tc) {
            Ok((s, k)) => Ok((Some(s), k)),
            Err(x) => Err(x),
        },
    }
}


/// `r` is the outcome `o`, errors taken by their text.
pub open spec fn outcome<T, U>(r: Result<T, TypingError>, o: Result<U, TypingErrorV>, view: spec_fn(T) -> U) -> bool {
    match o {
        Ok(x) => r matches Ok(y) && view(y) == x,
        Err(e) => r matches Err(y) && error_view(y) == e,
    }
}

/// A size given as an integer: negative sizes are refused.
fn to_size(i: i32, loc: Pos) -> (r: Result<usize, TypingError>)
    ensures
        i >= 0 ==> r == Ok::<usize, TypingError>(i as usize),
        i < 0 ==> (r matches Err(e) && error_view(e) == TypingErrorV::NegativeSizeBus(loc, i)),
{
    if i >= 0 {
        Ok(i as usize)
    } else {
        Err(TypingError::NegativeSizeBus(loc, i))
    }
}

/// The size of a variable and whether it is local; see `var_type`.
fn lookup_var(
    vt: &Vec<(String, (usize, Pos))>,
    st: &Vec<(String, (usize, Pos))>,
    tc: &Vec<(String, (i32, Pos))>,
    v: &Loc<String>,
) -> (r: Result<(usize, bool), TypingError>)
    ensures
        outcome(r, var_type(vt@, st@, tc@, *v), |x: (usize, bool)| x),
{
    match table_lookup(vt, v.value.as_str()) {
        Some(p) => Ok((p.0, true)),
        None => match table_lookup(st, v.value.as_str()) {
            Some(p) => Ok((p.0, false)),
            None => match table_lookup(tc, v.value.as_str()) {
                Some(p) => match to_size(p.0, p.1) {
                    Ok(s) => Ok((s, true)),
                    Err(e) => Err(e),
                },
                None => Err(TypingError::UnknownVar(v.value.clone(), v.loc)),
            },
        },
    }
}

/// Types an operand; see `term_type`.
pub fn type_expr_term(
    expr: untyp::Expr,
    var_types: &Vec<(String, (usize, Pos))>,
    shared_types: &Vec<(String, (usize, Pos))>,
    type_constraints: &Vec<(String, (i32, Pos))>,
) -> (r: Result<typ::ExprTerm, TypingError>)
    requires
        term_shape(expr),
    ensures
        outcome(r, term_type(expr, var_types@, shared_types@, type_constraints@), |t: typ::ExprTerm| term_view(t)),
{
    match expr {
        untyp::Expr::Const(ConstExpr::Known(v)) => {
            let n = v.len();
            Ok(typ::Sized { size: n, value: typ::ExprTermType::Const(v) })
        },
        untyp::Expr::Const(ConstExpr::Unknown(b, c)) => match c.value {
            Const::Value(i) => match to_size(i, c.loc) {
                Ok(j) => Ok(typ::Sized { size: j, value: typ::ExprTermType::Const(filled_vec(j, b)) }),
                Err(e) => Err(e),
            },
            _ => {
                proof {
                    assert(false);
                }
                Err(TypingError::NegativeSizeBus(c.loc, 0))
            },
        },
        untyp::Expr::Var(v) => match lookup_var(var_types, shared_types, type_constraints, &v) {
            Ok((s, local)) => Ok(
                typ::Sized {
                    size: s,
                    value: typ::ExprTermType::Var(
                        if local {
                            typ::Var::Local(v.value)
                        } else {
                            typ::Var::Shared(v.value)
                        },
                    ),
                },
            ),
            Err(e) => Err(e),
        },
        _ => {
            proof {
                assert(false);
            }
            Err(TypingError::NegativeSizeBus(Pos(0, 0, 0), 0))
        },
    }
}

/// Types the operand of a register; see `term_reg_type`.
pub fn type_expr_term_reg(
    expr: untyp::Expr,
    var_types: &Vec<(String, (usize, Pos))>,
    shared_types: &Vec<(String, (usize, Pos))>,
    type_constraints: &Vec<(String, (i32, Pos))>,
) -> (r: Result<(Option<usize>, typ::ExprTermType), TypingError>)
    requires
        term_shape(expr),
    ensures
        outcome(
            r,
            term_reg_type(expr, var_types@, shared_types@, type_constraints@),
            |t: (Option<usize>, typ::ExprTermType)| (t.0, kind_view(t.1)),
        ),
{
    match expr {
        untyp::Expr::Var(v) => match lookup_var(var_types, shared_types, type_constraints, &v) {
            Ok((s, local)) => Ok(
                (
                    Some(s),
                    typ::ExprTermType::Var(
                        if local {
                            typ::Var::Local(v.value)
                        } else {
                            typ::Var::Shared(v.value)
                        },
                    ),
                ),
            ),
            Err(TypingError::UnknownVar(_, _)) => Ok((None, typ::ExprTermType::Var(typ::Var::Local(v.value)))),
            Err(e) => Err(e),
        },
        other => match type_expr_term(other, var_types, shared_types, type_constraints) {
            Ok(t) => Ok((Some(t.size), t.value)),
            Err(e) => Err(e),
        },
    }
}


/// An expression the typing accepts: operands are variables or constants, and every
/// constant expression left (sizes, slice bounds) is a value. Calls are gone.
pub open spec fn typable(e: untyp::Expr) -> bool {
    match e {
        untyp::Expr::Const(_) => term_shape(e),
        untyp::Expr::Var(_) => true,
        untyp::Expr::Last(_) => true,
        untyp::Expr::Not(x) => term_shape(*x),
        untyp::Expr::Slice(x, c1, c2) => term_shape(x.value) && (c1 is None || c1->Some_0 is Value) && (c2 is None
            || c2->Some_0 is Value),
        untyp::Expr::BiOp(_, a, b) => term_shape(a.value) && term_shape(b.value),
        untyp::Expr::Mux(a, b, c) => term_shape(a.value) && term_shape(b.value) && term_shape(c.value),
        untyp::Expr::Reg(c, x) => term_shape(x.value) && c.value is Value,
        untyp::Expr::Ram(r) => term_shape(r.read_addr.value) && term_shape(r.write_enable.value) && term_shape(
            r.write_addr.value,
        ) && term_shape(r.write_data.value),
        untyp::Expr::Rom(r) => term_shape(r.read_addr.value) && r.word_size is Value,
        untyp::Expr::FnCall(_) => false,
    }
}

/// An unnamed token.
pub open spec fn tok(loc: Pos, length: usize) -> TokenV {
    TokenV { loc, name: None, length }
}

/// The value of a constant known to be a value.
pub open spec fn value_of(c: Const) -> i32 {
    match c {
        Const::Value(i) => i,
        _ => 0,
    }
}

/// The typed expression `e`, by value, or the first error met: operands are typed in order;
/// logical operations need operands of the same size and keep it, a concatenation adds the
/// sizes, a multiplexer needs a selector of size one and branches of the same size, a slice
/// `[i..j]` (by default the whole bus) needs `0 <= i` and `0 <= j <= size` and has size
/// `j - i` (zero if negative), a register takes the size it is given unless that is 1 and
/// the size of its operand is known, a RAM needs a write enable of size one and addresses of
/// the same size and has the size of its data, a ROM has its word size, and `last x` needs
/// a shared `x`.
pub open spec fn expr_type(e: untyp::Expr, vt: Types, st: Types, tc: Constraints) -> Result<(usize, ExprTypeV), TypingErrorV> {
    match e {
        untyp::Expr::Const(_) => match term_type(e, vt, st, tc) {
            Ok(t) => Ok((t.0, ExprTypeV::Term(t))),
            Err(x) => Err(x),
        },
        untyp::Expr::Var(_) => match term_type(e, vt, st, tc) {
            Ok(t) => Ok((t.0, ExprTypeV::Term(t))),
            Err(x) => Err(x),
        },
        untyp::Expr::Last(v) => match table_get(st, v.value@) {
            Some((s, _)) => Ok((s, ExprTypeV::Last(v.value@))),
            None => Err(TypingErrorV::NonSharedInLast(v.loc, v.value@)),
        },
        untyp::Expr::Not(x) => match term_type(*x, vt, st, tc) {
            Ok(t) => Ok((t.0, ExprTypeV::Not(t))),
            Err(x) => Err(x),
        },
        untyp::Expr::Slice(x, c1, c2) => match term_type(x.value, vt, st, tc) {
            Err(y) => Err(y),
            Ok(t) => {
                let i1 = match c1 {
                    Some(c) => value_of(c),
                    None => 0i32,
                };
                let i2 = match c2 {
                    Some(c) => value_of(c),
                    None => t.0 as i32,
                };
                if i1 < 0 {
                    Err(TypingErrorV::IndexOutOfRange(x.loc, i1, t.0))
                } else if i2 < 0 {
                    Err(TypingErrorV::IndexOutOfRange(x.loc, i2, t.0))
                } else if i2 > t.0 {
                    Err(TypingErrorV::IndexOutOfRange(x.loc, i2, t.0))
                } else {
                    Ok(
                        (
                            if i2 >= i1 {
                                (i2 - i1) as usize
                            } else {
                                0usize
                            },
                            ExprTypeV::Slice(t, i1 as usize, i2 as usize),
                        ),
                    )
                }
            },
        },
        untyp::Expr::BiOp(op, a, b) => match term_type(a.value, vt, st, tc) {
            Err(y) => Err(y),
            Ok(t1) => match term_type(b.value, vt, st, tc) {
                Err(y) => Err(y),
                Ok(t2) => if op == BiOp::Concat {
                    Ok((t1.0.wrapping_add(t2.0), ExprTypeV::BiOp(op, t1, t2)))
                } else if t1.0 != t2.0 {
                    Err(TypingErrorV::MismatchedBusSize(tok(a.loc, t1.0), tok(b.loc, t2.0)))
                } else {
                    Ok((t1.0, ExprTypeV::BiOp(op, t1, t2)))
                },
            },
        },
        untyp::Expr::Mux(a, b, c) => match term_type(a.value, vt, st, tc) {
            Err(y) => Err(y),
            Ok(t1) => match term_type(b.value, vt, st, tc) {
                Err(y) => Err(y),
                Ok(t2) => match term_type(c.value, vt, st, tc) {
                    Err(y) => Err(y),
                    Ok(t3) => if t1.0 != 1 {
                        Err(TypingErrorV::ExpectedSizeOne(a.loc, t1.0))
                    } else if t2.0 != t3.0 {
                        Err(TypingErrorV::MismatchedBusSize(tok(b.loc, t2.0), tok(c.loc, t3.0)))
                    } else {
                        Ok((t2.0, ExprTypeV::Mux(t1, t2, t3)))
                    },
                },
            },
        },
        untyp::Expr::Reg(c, x) => match term_reg_type(x.value, vt, st, tc) {
            Err(y) => Err(y),
            Ok((size, k)) => {
                let i = value_of(c.value);
                if i < 0 {
                    Err(TypingErrorV::NegativeSizeBus(c.loc, i))
                } else {
                    let j = i as usize;
                    match size {
                        Some(sz) => if sz != j && j != 1 {
                            Err(TypingErrorV::MismatchedBusSize(tok(c.loc, j), tok(x.loc, sz)))
                        } else {
                            let j2 = if j == 1 {
                                sz
                            } else {
                                j
                            };
                            Ok((j2, ExprTypeV::Reg((j2, k))))
                        },
                        None => Ok((j, ExprTypeV::Reg((j, k)))),
                    }
                }
            },
        },
        untyp::Expr::Ram(r) => match term_type(r.read_addr.value, vt, st, tc) {
            Err(y) => Err(y),
            Ok(t1) => match term_type(r.write_enable.value, vt, st, tc) {
                Err(y) => Err(y),
                Ok(t2) => match term_type(r.write_addr.value, vt, st, tc) {
                    Err(y) => Err(y),
                    Ok(t3) => match term_type(r.write_data.value, vt, st, tc) {
                        Err(y) => Err(y),
                        Ok(t4) => if t2.0 != 1 {
                            Err(TypingErrorV::ExpectedSizeOne(r.write_enable.loc, t2.0))
                        } else if t1.0 != t3.0 {
                            Err(
                                TypingErrorV::MismatchedBusSize(
                                    tok(r.read_addr.loc, t1.0),
                                    tok(r.write_addr.loc, t3.0),
                                ),
                            )
                        } else {
                            Ok((t4.0, ExprTypeV::Ram(t1, t2, t3, t4)))
                        },
                    },
                },
            },
        },
        untyp::Expr::Rom(r) => match term_type(r.read_addr.value, vt, st, tc) {
            Err(y) => Err(y),
            Ok(t) => {
                let i = value_of(r.word_size);
                if i < 0 {
                    Err(TypingErrorV::NegativeSizeBus(r.read_addr.loc, i))
                } else {
                    Ok((i as usize, ExprTypeV::Rom(t)))
                }
            },
        },
        untyp::Expr::FnCall(_) => Err(TypingErrorV::NegativeSizeBus(Pos(0, 0, 0), 0)),
    }
}

/// An unnamed token.
fn token(loc: Pos, length: usize) -> (r: Token)
    ensures
        token_view(r) == tok(loc, length),
{
    Token { loc, name: None, length }
}

/// Types an expression; see `expr_type`.
#[verifier::rlimit(40)]
#[verifier::spinoff_prover]
pub fn type_expr(
    expr: untyp::Expr,
    var_types: &Vec<(String, (usize, Pos))>,
    shared_types: &Vec<(String, (usize, Pos))>,
    type_constraints: &Vec<(String, (i32, Pos))>,
) -> (r: Result<typ::Expr, TypingError>)
    requires
        typable(expr),
    ensures
        outcome(r, expr_type(expr, var_types@, shared_types@, type_constraints@), |e: typ::Expr| texpr_view(e)),
{
    let vt = var_types;
    let st = shared_types;
    let tc = type_constraints;
    match expr {
        untyp::Expr::Last(v) => match table_lookup(st, v.value.as_str()) {
            Some(p) => Ok(typ::Sized { size: p.0, value: typ::ExprType::Last(v.value) }),
            None => Err(TypingError::NonSharedInLast(v.loc, v.value)),
        },
        untyp::Expr::Not(x) => match type_expr_term(*x, vt, st, tc) {
            Ok(t) => Ok(typ::Sized { size: t.size, value: typ::ExprType::Not(t) }),
            Err(e) => Err(e),
        },
        untyp::Expr::Slice(x, c1, c2) => {
            let loc = x.loc;
            let t = match type_expr_term(x.value, vt, st, tc) {
                Ok(t) => t,
                Err(e) => {
                    return Err(e);
                },
            };
            let i1: i32 = match c1 {
                Some(Const::Value(i)) => i,
                _ => 0,
            };
            let i2: i32 = match c2 {
                Some(Const::Value(i)) => i,
                _ => #[verifier::truncate] (t.size as i32),
            };
            if i1 < 0 {
                Err(TypingError::IndexOutOfRange(loc, i1, t.size))
            } else if i2 < 0 {
                Err(TypingError::IndexOutOfRange(loc, i2, t.size))
            } else if i2 as usize > t.size {
                Err(TypingError::IndexOutOfRange(loc, i2, t.size))
            } else {
                let n = if i2 >= i1 {
                    (i2 - i1) as usize
                } else {
                    0
                };
                Ok(typ::Sized { size: n, value: typ::ExprType::Slice(t, i1 as usize, i2 as usize) })
            }
        },
        untyp::Expr::BiOp(op, a, b) => {
            let (la, lb) = (a.loc, b.loc);
            let t1 = match type_expr_term(a.value, vt, st, tc) {
                Ok(t) => t,
                Err(e) => {
                    return Err(e);
                },
            };
            let t2 = match type_expr_term(b.value, vt, st, tc) {
                Ok(t) => t,
                Err(e) => {
                    return Err(e);
                },
            };
            if op == BiOp::Concat {
                Ok(typ::Sized { size: t1.size.wrapping_add(t2.size), value: typ::ExprType::BiOp(op, t1, t2) })
            } else if t1.size != t2.size {
                Err(TypingError::MismatchedBusSize(token(la, t1.size), token(lb, t2.size)))
            } else {
                Ok(typ::Sized { size: t1.size, value: typ::ExprType::BiOp(op, t1, t2) })
            }
        },
        untyp::Expr::Mux(a, b, c) => {
            let (la, lb, lc) = (a.loc, b.loc, c.loc);
            let t1 = match type_expr_term(a.value, vt, st, tc) {
                Ok(t) => t,
                Err(e) => {
                    return Err(e);
                },
            };
            let t2 = match type_expr_term(b.value, vt, st, tc) {
                Ok(t) => t,
                Err(e) => {
                    return Err(e);
                },
            };
            let t3 = match type_expr_term(c.value, vt, st, tc) {
                Ok(t) => t,
                Err(e) => {
                    return Err(e);
                },
            };
            if t1.size != 1 {
                Err(TypingError::ExpectedSizeOne(la, t1.size))
            } else if t2.size != t3.size {
                Err(TypingError::MismatchedBusSize(token(lb, t2.size), token(lc, t3.size)))
            } else {
                Ok(typ::Sized { size: t2.size, value: typ::ExprType::Mux(t1, t2, t3) })
            }
        },
        untyp::Expr::Reg(c, x) => {
            let (lc, lx) = (c.loc, x.loc);
            let (size, k) = match type_expr_term_reg(x.value, vt, st, tc) {
                Ok(p) => p,
                Err(e) => {
                    return Err(e);
                },
            };
            let i: i32 = match c.value {
                Const::Value(i) => i,
                _ => 0,
            };
            let j = match to_size(i, lc) {
                Ok(j) => j,
                Err(e) => {
                    return Err(e);
                },
            };
            match size {
                Some(sz) => {
                    if sz != j && j != 1 {
                        Err(TypingError::MismatchedBusSize(token(lc, j), token(lx, sz)))
                    } else {
                        let j2 = if j == 1 {
                            sz
                        } else {
                            j
                        };
                        Ok(typ::Sized { size: j2, value: typ::ExprType::Reg(typ::Sized { size: j2, value: k }) })
                    }
                },
                None => Ok(typ::Sized { size: j, value: typ::ExprType::Reg(typ::Sized { size: j, value: k }) }),
            }
        },
        untyp::Expr::Ram(r) => {
            let untyp::RamStruct { read_addr, write_enable, write_addr, write_data } = r;
            let (l1, l2, l3) = (read_addr.loc, write_enable.loc, write_addr.loc);
            let t1 = match type_expr_term(read_addr.value, vt, st, tc) {
                Ok(t) => t,
                Err(e) => {
                    return Err(e);
                },
            };
            let t2 = match type_expr_term(write_enable.value, vt, st, tc) {
                Ok(t) => t,
                Err(e) => {
                    return Err(e);
                },
            };
            let t3 = match type_expr_term(write_addr.value, vt, st, tc) {
                Ok(t) => t,
                Err(e) => {
                    return Err(e);
                },
            };
            let t4 = match type_expr_term(write_data.value, vt, st, tc) {
                Ok(t) => t,
                Err(e) => {
                    return Err(e);
                },
            };
            if t2.size != 1 {
                Err(TypingError::ExpectedSizeOne(l2, t2.size))
            } else if t1.size != t3.size {
                Err(TypingError::MismatchedBusSize(token(l1, t1.size), token(l3, t3.size)))
            } else {
                let size = t4.size;
                Ok(
                    typ::Sized {
                        size,
                        value: typ::ExprType::Ram(
                            typ::RamStruct { read_addr: t1, write_enable: t2, write_addr: t3, write_data: t4 },
                        ),
                    },
                )
            }
        },
        untyp::Expr::Rom(r) => {
            let untyp::RomStruct { word_size, read_addr } = r;
            let loc = read_addr.loc;
            let t = match type_expr_term(read_addr.value, vt, st, tc) {
                Ok(t) => t,
                Err(e) => {
                    return Err(e);
                },
            };
            let i: i32 = match word_size {
                Const::Value(i) => i,
                _ => 0,
            };
            match to_size(i, loc) {
                Ok(j) => Ok(typ::Sized { size: j, value: typ::ExprType::Rom(t) }),
                Err(e) => Err(e),
            }
        },
        untyp::Expr::FnCall(_) => {
            proof {
                assert(false);
            }
            Err(TypingError::NegativeSizeBus(Pos(0, 0, 0), 0))
        },
        other => match type_expr_term(other, vt, st, tc) {
            Ok(t) => Ok(typ::Sized { size: t.size, value: typ::ExprType::Term(t) }),
            Err(e) => Err(e),
        },
    }
}


/// The arguments of a call from `a_1|b_2|...`, as ` a = 1, b = 2,` for the first `j` pieces.
pub open spec fn fmt_args_upto(parts: Seq<Seq<char>>, j: int) -> Seq<char>
    decreases j,
{
    if j <= 0 || j > parts.len() {
        Seq::empty()
    } else {
        let w = pieces(parts[j - 1], '_');
        fmt_args_upto(parts, j - 1) + " "@ + w[0] + " = "@ + (if w.len() >= 2 {
            w[1]
        } else {
            Seq::empty()
        }) + ","@
    }
}

/// The arguments of a call, from the text `a_1|b_2|...`.
pub open spec fn fmt_args(args: Seq<char>) -> Seq<char> {
    fmt_args_upto(split_nonempty(args, '|'), split_nonempty(args, '|').len() as int)
}

/// The text of a variable name in messages: a name made by function expansion
/// (`$kind$f$args$x...`, the arguments possibly empty) is shown as
/// `"x" in call of function "f" with arguments a = 1, ...`; others as they are.
pub open spec fn fmt_var(v: Seq<char>) -> Seq<char> {
    let parts = pieces(v, '$');
    if v.len() > 0 && v[0] == '$' && parts.len() >= 5 {
        "\""@ + pieces(parts[4], '#')[0] + "\" in call of function \""@ + parts[2] + "\" with arguments"@
            + fmt_args(parts[3])
    } else {
        v
    }
}

/// A statement the typing accepts: a single assignment of a typable expression.
pub open spec fn stmt_shape(s: untyp::Statement) -> bool {
    s matches untyp::Statement::Assign(v) && v@.len() == 1 && typable(v@[0].expr.value)
}

/// The typed statement, by value (its variable, local or shared, and its expression), with
/// the local variables after it, or the first error: a variable cannot be assigned twice in a
/// state unless it is shared, a shared variable keeps its size, a variable with a required
/// size must have it, and any other variable becomes local with the size of its expression.
pub open spec fn stmt_type(s: untyp::Statement, vt: Types, st: Types, tc: Constraints) -> Result<
    ((bool, Seq<char>), (usize, ExprTypeV), Types),
    TypingErrorV,
> {
    match s {
        untyp::Statement::Assign(v) => {
            let a = v@[0];
            let name = a.var.value@;
            match expr_type(a.expr.value, vt, st, tc) {
                Err(e) => Err(e),
                Ok(te) => match table_get(vt, name) {
                    Some((_, loc)) => Err(TypingErrorV::DuplicateVar(name, a.var.loc, loc)),
                    None => match table_get(st, name) {
                        Some((size, loc)) => if size == te.0 {
                            Ok(((false, name), te, vt))
                        } else {
                            Err(
                                TypingErrorV::MismatchedBusSize(
                                    TokenV { loc, name: Some(fmt_var(name)), length: size },
                                    tok(a.expr.loc, te.0),
                                ),
                            )
                        },
                        None => match table_get(tc, name) {
                            Some((size, loc)) => if size < 0 {
                                Err(TypingErrorV::NegativeSizeBus(loc, size))
                            } else if size as usize == te.0 {
                                Ok(((true, name), te, vt.push((a.var.value, (te.0, a.var.loc)))))
                            } else {
                                Err(
                                    TypingErrorV::MismatchedBusSize(
                                        TokenV { loc, name: Some(fmt_var(name)), length: size as usize },
                                        tok(a.expr.loc, te.0),
                                    ),
                                )
                            },
                            None => Ok(((true, name), te, vt.push((a.var.value, (te.0, a.var.loc))))),
                        },
                    },
                },
            }
        },
        _ => Err(TypingErrorV::NegativeSizeBus(Pos(0, 0, 0), 0)),
    }
}

/// The arguments of a call, from the text `a_1|b_2|...`; see `fmt_args`.
fn format_args(args: &str) -> (r: String)
    ensures
        r@ == fmt_args(args@),
{
    let parts = split_nonempty_exec(args, '|');
    let mut r = String::new();
    let mut j: usize = 0;
    while j < parts.len()
        invariant
            j <= parts@.len(),
            texts(parts@) == split_nonempty(args@, '|'),
            r@ == fmt_args_upto(texts(parts@), j as int),
        decreases parts@.len() - j,
    {
        let w = split_pieces(parts[j].as_str(), '_');
        let ghost before = r@;
        r.append(" ");
        proof {
            assert(texts(w@).len() >= 1) by {
                lemma_pieces_nonempty(texts(parts@)[j as int], '_');
            }
        }
        r.append(w[0].as_str());
        r.append(" = ");
        if w.len() >= 2 {
            r.append(w[1].as_str());
        }
        r.append(",");
        j = j + 1;
        proof {
            assert(texts(parts@)[j - 1] == parts@[j - 1]@);
            assert(r@ =~= fmt_args_upto(texts(parts@), j as int));
        }
    }
    r
}

/// The name of a variable in messages; see `fmt_var`.
pub fn format_var(var: String) -> (r: String)
    ensures
        r@ == fmt_var(var@),
{
    let parts = split_pieces(var.as_str(), '$');
    if var.unicode_len() > 0 && var.as_str().get_char(0) == '$' && parts.len() >= 5 {
        let first = split_pieces(parts[4].as_str(), '#');
        proof {
            lemma_pieces_nonempty(texts(parts@)[4], '#');
        }
        let mut r = String::new();
        r.append("\"");
        r.append(first[0].as_str());
        r.append("\" in call of function \"");
        r.append(parts[2].as_str());
        r.append("\" with arguments");
        let a = format_args(parts[3].as_str());
        r.append(a.as_str());
        proof {
            assert(texts(parts@)[2] == parts@[2]@);
            assert(texts(parts@)[3] == parts@[3]@);
            assert(texts(parts@)[4] == parts@[4]@);
            assert(texts(first@)[0] == first@[0]@);
        }
        r
    } else {
        var
    }
}


/// A named token.
fn named_token(loc: Pos, name: &String, length: usize) -> (r: Token)
    ensures
        token_view(r) == (TokenV { loc, name: Some(fmt_var(name@)), length }),
{
    Token { loc, name: Some(format_var(name.clone())), length }
}

/// Types a statement; see `stmt_type`. The local variables grow by the one it defines.
pub fn type_statement(
    statement: untyp::Statement,
    var_types: &mut Vec<(String, (usize, Pos))>,
    shared_types: &Vec<(String, (usize, Pos))>,
    type_constraints: &Vec<(String, (i32, Pos))>,
) -> (r: Result<(typ::Var, typ::Expr), TypingError>)
    requires
        stmt_shape(statement),
    ensures
        match stmt_type(statement, old(var_types)@, shared_types@, type_constraints@) {
            Ok((v, e, vt)) => (r matches Ok((x, y)) && var_view(x) == v && texpr_view(y) == e) && final(var_types)@ == vt,
            Err(e) => (r matches Err(x) && error_view(x) == e) && final(var_types)@ == old(var_types)@,
        },
{
    match statement {
        untyp::Statement::Assign(v) => {
            let mut v = v;
            let untyp::VarAssign { var, expr } = v.remove(0);
            let eloc = expr.loc;
            let te = match type_expr(expr.value, var_types, shared_types, type_constraints) {
                Ok(te) => te,
                Err(e) => {
                    return Err(e);
                },
            };
            match table_lookup(var_types, var.value.as_str()) {
                Some(p) => {
                    return Err(TypingError::DuplicateVar(var.value, var.loc, p.1));
                },
                None => {},
            }
            match table_lookup(shared_types, var.value.as_str()) {
                Some(p) => {
                    if p.0 == te.size {
                        return Ok((typ::Var::Shared(var.value), te));
                    } else {
                        let t1 = named_token(p.1, &var.value, p.0);
                        return Err(TypingError::MismatchedBusSize(t1, token(eloc, te.size)));
                    }
                },
                None => {},
            }
            match table_lookup(type_constraints, var.value.as_str()) {
                Some(p) => {
                    let size_u = match to_size(p.0, p.1) {
                        Ok(s) => s,
                        Err(e) => {
                            return Err(e);
                        },
                    };
                    if size_u == te.size {
                        var_types.push((var.value.clone(), (te.size, var.loc)));
                        Ok((typ::Var::Local(var.value), te))
                    } else {
                        let t1 = named_token(p.1, &var.value, size_u);
                        Err(TypingError::MismatchedBusSize(t1, token(eloc, te.size)))
                    }
                },
                None => {
                    var_types.push((var.value.clone(), (te.size, var.loc)));
                    Ok((typ::Var::Local(var.value), te))
                },
            }
        },
        _ => {
            proof {
                assert(false);
            }
            Err(TypingError::NegativeSizeBus(Pos(0, 0, 0), 0))
        },
    }
}


/// The position of the entry with key `k`, looking from `i` on.
pub open spec fn key_index<V>(m: Seq<((bool, Seq<char>), V)>, k: (bool, Seq<char>), i: int) -> Option<int>
    decreases m.len() - i,
{
    if i < 0 || i >= m.len() {
        None
    } else if m[i].0 == k {
        Some(i)
    } else {
        key_index(m, k, i + 1)
    }
}

/// The table with `k` set to `v`: the entry with that key is replaced, or one is added.
pub open spec fn insert_var<V>(m: Seq<((bool, Seq<char>), V)>, k: (bool, Seq<char>), v: V) -> Seq<((bool, Seq<char>), V)> {
    match key_index(m, k, 0) {
        Some(i) => m.update(i, (k, v)),
        None => m.push((k, v)),
    }
}

/// A typed statement table, by value.
pub type StmtsV = Seq<((bool, Seq<char>), (usize, ExprTypeV))>;

/// The typed statements of the first `j` statements, a later one for the same variable
/// replacing an earlier one, with the local variables after them, or the first error.
pub open spec fn stmts_type(stmts: Seq<untyp::Statement>, j: int, st: Types, tc: Constraints) -> Result<(StmtsV, Types), TypingErrorV>
    decreases j,
{
    if j <= 0 || j > stmts.len() {
        Ok((Seq::empty(), Seq::empty()))
    } else {
        match stmts_type(stmts, j - 1, st, tc) {
            Err(e) => Err(e),
            Ok((m, vt)) => match stmt_type(stmts[j - 1], vt, st, tc) {
                Err(e) => Err(e),
                Ok((k, e, vt2)) => Ok((insert_var(m, k, e), vt2)),
            },
        }
    }
}

/// A transition the typing accepts: its condition is a variable.
pub open spec fn trans_shape(t: untyp::Transition) -> bool {
    t.condition.value matches untyp::TrCond::Expr(untyp::Expr::Var(_))
}

/// The variable of a transition's condition.
pub open spec fn cond_var(t: untyp::Transition) -> Loc<String> {
    match t.condition.value {
        untyp::TrCond::Expr(untyp::Expr::Var(v)) => v,
        _ => arbitrary(),
    }
}

/// A typed transition, by value: its variable, its target state, and whether it resets.
pub type TransV = ((bool, Seq<char>), Option<Seq<char>>, bool);

/// An optional name, by value.
pub open spec fn opt_text(o: Option<String>) -> Option<Seq<char>> {
    match o {
        Some(s) => Some(s@),
        None => None,
    }
}

/// The typed transitions of the first `j` transitions, or the first error: the target must
/// be a state, and the condition a variable of size one, local only in a weak state.
pub open spec fn trans_type(
    trs: Seq<untyp::Transition>,
    j: int,
    vt: Types,
    st: Types,
    states: Seq<(String, Pos)>,
    weak: bool,
) -> Result<Seq<TransV>, TypingErrorV>
    decreases j,
{
    if j <= 0 || j > trs.len() {
        Ok(Seq::empty())
    } else {
        match trans_type(trs, j - 1, vt, st, states, weak) {
            Err(e) => Err(e),
            Ok(r) => {
                let t = trs[j - 1];
                let v = cond_var(t);
                if t.state.value is Some && !table_has(states, t.state.value->Some_0@) {
                    Err(TypingErrorV::UnknownState(t.state.value->Some_0@, t.state.loc))
                } else {
                    match table_get(vt, v.value@) {
                        Some((size, _)) => if !weak {
                            Err(TypingErrorV::LocalVarInUnless(v.loc, v.value@))
                        } else if size != 1 {
                            Err(TypingErrorV::ExpectedSizeOne(v.loc, size))
                        } else {
                            Ok(r.push(((true, v.value@), opt_text(t.state.value), t.reset)))
                        },
                        None => match table_get(st, v.value@) {
                            Some((size, _)) => if size != 1 {
                                Err(TypingErrorV::ExpectedSizeOne(v.loc, size))
                            } else {
                                Ok(r.push(((false, v.value@), opt_text(t.state.value), t.reset)))
                            },
                            None => Err(TypingErrorV::UnknownVar(v.value@, v.loc)),
                        },
                    }
                }
            },
        }
    }
}

/// A typed state, by value.
pub struct StateV {
    pub name: Seq<char>,
    pub statements: StmtsV,
    pub transitions: Seq<TransV>,
    pub weak: bool,
}

/// A typed state, by value.
pub open spec fn tstate_view(s: typ::State) -> StateV {
    StateV {
        name: s.name@,
        statements: s.statements@.map_values(|p: (typ::Var, typ::Expr)| (var_view(p.0), texpr_view(p.1))),
        transitions: s.transitions@.map_values(
            |p: (typ::Var, Option<String>, bool)| (var_view(p.0), opt_text(p.1), p.2),
        ),
        weak: s.weak,
    }
}

/// A state the typing accepts.
pub open spec fn state_shape(s: untyp::State) -> bool {
    &&& forall|i: int| 0 <= i < s.statements@.len() ==> stmt_shape(#[trigger] s.statements@[i])
    &&& forall|i: int| 0 <= i < s.transitions@.len() ==> trans_shape(#[trigger] s.transitions@[i])
}

/// The typed state: its statements, then its transitions (which see its local variables).
pub open spec fn state_type(s: untyp::State, states: Seq<(String, Pos)>, st: Types, tc: Constraints) -> Result<StateV, TypingErrorV> {
    match stmts_type(s.statements@, s.statements@.len() as int, st, tc) {
        Err(e) => Err(e),
        Ok((m, vt)) => match trans_type(s.transitions@, s.transitions@.len() as int, vt, st, states, s.weak) {
            Err(e) => Err(e),
            Ok(t) => Ok(StateV { name: s.name.value@, statements: m, transitions: t, weak: s.weak }),
        },
    }
}

proof fn lemma_stmts_err(stmts: Seq<untyp::Statement>, j: int, len: int, st: Types, tc: Constraints)
    requires
        0 < j <= len <= stmts.len(),
        stmts_type(stmts, j, st, tc) is Err,
    ensures
        stmts_type(stmts, len, st, tc) == stmts_type(stmts, j, st, tc),
    decreases len,
{
    if len > j {
        lemma_stmts_err(stmts, j, len - 1, st, tc);
    }
}

proof fn lemma_trans_err(trs: Seq<untyp::Transition>, j: int, len: int, vt: Types, st: Types, states: Seq<(String, Pos)>, weak: bool)
    requires
        0 < j <= len <= trs.len(),
        trans_type(trs, j, vt, st, states, weak) is Err,
    ensures
        trans_type(trs, len, vt, st, states, weak) == trans_type(trs, j, vt, st, states, weak),
    decreases len,
{
    if len > j {
        lemma_trans_err(trs, j, len - 1, vt, st, states, weak);
    }
}

/// Sets the typed statement of a variable; see `insert_var`.
fn insert_stmt(m: &mut Vec<(typ::Var, typ::Expr)>, v: typ::Var, e: typ::Expr)
    ensures
        final(m)@.map_values(|p: (typ::Var, typ::Expr)| (var_view(p.0), texpr_view(p.1))) == insert_var(
            old(m)@.map_values(|p: (typ::Var, typ::Expr)| (var_view(p.0), texpr_view(p.1))),
            var_view(v),
            texpr_view(e),
        ),
{
    let ghost mv = old(m)@.map_values(|p: (typ::Var, typ::Expr)| (var_view(p.0), texpr_view(p.1)));
    let mut i: usize = 0;
    while i < m.len()
        invariant
            i <= m@.len(),
            m@ == old(m)@,
            mv == old(m)@.map_values(|p: (typ::Var, typ::Expr)| (var_view(p.0), texpr_view(p.1))),
            key_index(mv, var_view(v), 0) == key_index(mv, var_view(v), i as int),
        decreases m@.len() - i,
    {
        let same = match (&m[i].0, &v) {
            (typ::Var::Local(a), typ::Var::Local(b)) => crate::util::tables::string_eq_str(a, b.as_str()),
            (typ::Var::Shared(a), typ::Var::Shared(b)) => crate::util::tables::string_eq_str(a, b.as_str()),
            _ => false,
        };
        if same {
            assert(mv[i as int].0 == var_view(v));
            m.set(i, (v, e));
            assert(m@.map_values(|p: (typ::Var, typ::Expr)| (var_view(p.0), texpr_view(p.1))) =~= mv.update(i as int, (var_view(v), texpr_view(e))));
            return;
        }
        i = i + 1;
    }
    m.push((v, e));
    assert(m@.map_values(|p: (typ::Var, typ::Expr)| (var_view(p.0), texpr_view(p.1))) =~= mv.push((var_view(v), texpr_view(e))));
}


/// Types a state; see `state_type`.
pub fn type_state(
    state: untyp::State,
    states_map: &Vec<(String, Pos)>,
    shared_types: &Vec<(String, (usize, Pos))>,
    type_constraints: &Vec<(String, (i32, Pos))>,
) -> (r: Result<typ::State, TypingError>)
    requires
        state_shape(state),
    ensures
        outcome(r, state_type(state, states_map@, shared_types@, type_constraints@), |s: typ::State| tstate_view(s)),
{
    let ghost s0 = state;
    let untyp::State { name, statements, transitions, weak } = state;
    let ghost stmts0 = statements@;
    let len = statements.len();
    let mut rest = statements;
    let mut var_types: Vec<(String, (usize, Pos))> = Vec::new();
    let mut typed: Vec<(typ::Var, typ::Expr)> = Vec::new();
    proof {
        assert(rest@ =~= stmts0.subrange(0, len as int));
        assert(typed@.map_values(|p: (typ::Var, typ::Expr)| (var_view(p.0), texpr_view(p.1))) =~= Seq::<((bool, Seq<char>), (usize, ExprTypeV))>::empty());
        assert(var_types@ =~= Seq::<(String, (usize, Pos))>::empty());
    }
    let mut i: usize = 0;
    while i < len
        invariant
            i <= len,
            len == stmts0.len(),
            stmts0 == s0.statements@,
            s0 == state,
            state_shape(s0),
            rest@ == stmts0.subrange(i as int, len as int),
            stmts_type(stmts0, i as int, shared_types@, type_constraints@) == Ok::<(StmtsV, Types), TypingErrorV>((
                typed@.map_values(|p: (typ::Var, typ::Expr)| (var_view(p.0), texpr_view(p.1))),
                var_types@,
            )),
        decreases len - i,
    {
        let st = rest.remove(0);
        assert(st == stmts0[i as int]);
        match type_statement(st, &mut var_types, shared_types, type_constraints) {
            Ok((v, e)) => {
                insert_stmt(&mut typed, v, e);
            },
            Err(e) => {
                proof {
                    assert(stmts_type(stmts0, i as int + 1, shared_types@, type_constraints@) == Err::<(StmtsV, Types), TypingErrorV>(error_view(e)));
                    lemma_stmts_err(stmts0, i as int + 1, len as int, shared_types@, type_constraints@);
                    assert(state_type(s0, states_map@, shared_types@, type_constraints@) == Err::<StateV, TypingErrorV>(error_view(e)));
                }
                return Err(e);
            },
        }
        i = i + 1;
    }
    let ghost trs0 = transitions@;
    let mut typed_trs: Vec<(typ::Var, Option<String>, bool)> = Vec::new();
    let ghost stv = typed@.map_values(|p: (typ::Var, typ::Expr)| (var_view(p.0), texpr_view(p.1)));
    proof {
        assert(stmts_type(stmts0, stmts0.len() as int, shared_types@, type_constraints@) == Ok::<(StmtsV, Types), TypingErrorV>((stv, var_types@)));
        assert(typed_trs@.map_values(|p: (typ::Var, Option<String>, bool)| (var_view(p.0), opt_text(p.1), p.2)) =~= Seq::<TransV>::empty());
    }
    let mut j: usize = 0;
    while j < transitions.len()
        invariant
            j <= transitions@.len(),
            trs0 == transitions@,
            trs0 == s0.transitions@,
            s0 == state,
            state_shape(s0),
            weak == s0.weak,
            name == s0.name,
            stmts0 == s0.statements@,
            stv == typed@.map_values(|p: (typ::Var, typ::Expr)| (var_view(p.0), texpr_view(p.1))),
            stmts_type(stmts0, stmts0.len() as int, shared_types@, type_constraints@) == Ok::<(StmtsV, Types), TypingErrorV>((stv, var_types@)),
            trans_type(trs0, j as int, var_types@, shared_types@, states_map@, weak) == Ok::<Seq<TransV>, TypingErrorV>(
                typed_trs@.map_values(|p: (typ::Var, Option<String>, bool)| (var_view(p.0), opt_text(p.1), p.2)),
            ),
        decreases transitions@.len() - j,
    {
        let t = &transitions[j];
        assert(trans_shape(trs0[j as int]));
        let v = match &t.condition.value {
            untyp::TrCond::Expr(untyp::Expr::Var(v)) => v,
            _ => {
                proof {
                    assert(false);
                }
                return Err(TypingError::NegativeSizeBus(Pos(0, 0, 0), 0));
            },
        };
        if let Some(target) = &t.state.value {
            if !table_contains(states_map, target.as_str()) {
                proof {
                    lemma_trans_err(trs0, j as int + 1, trs0.len() as int, var_types@, shared_types@, states_map@, weak);
                }
                return Err(TypingError::UnknownState(target.clone(), t.state.loc));
            }
        }
        let target = match &t.state.value {
            Some(x) => Some(x.clone()),
            None => None,
        };
        let entry = match table_lookup(&var_types, v.value.as_str()) {
            Some(p) => {
                if !weak {
                    proof {
                        lemma_trans_err(trs0, j as int + 1, trs0.len() as int, var_types@, shared_types@, states_map@, weak);
                    }
                    return Err(TypingError::LocalVarInUnless(v.loc, v.value.clone()));
                }
                if p.0 != 1 {
                    proof {
                        lemma_trans_err(trs0, j as int + 1, trs0.len() as int, var_types@, shared_types@, states_map@, weak);
                    }
                    return Err(TypingError::ExpectedSizeOne(v.loc, p.0));
                }
                (typ::Var::Local(v.value.clone()), target, t.reset)
            },
            None => match table_lookup(shared_types, v.value.as_str()) {
                Some(p) => {
                    if p.0 != 1 {
                        proof {
                            lemma_trans_err(trs0, j as int + 1, trs0.len() as int, var_types@, shared_types@, states_map@, weak);
                        }
                        return Err(TypingError::ExpectedSizeOne(v.loc, p.0));
                    }
                    (typ::Var::Shared(v.value.clone()), target, t.reset)
                },
                None => {
                    proof {
                        lemma_trans_err(trs0, j as int + 1, trs0.len() as int, var_types@, shared_types@, states_map@, weak);
                    }
                    return Err(TypingError::UnknownVar(v.value.clone(), v.loc));
                },
            },
        };
        let ghost before = typed_trs@;
        typed_trs.push(entry);
        assert(typed_trs@.map_values(|p: (typ::Var, Option<String>, bool)| (var_view(p.0), opt_text(p.1), p.2))
            =~= before.map_values(|p: (typ::Var, Option<String>, bool)| (var_view(p.0), opt_text(p.1), p.2)).push(
            (var_view(entry.0), opt_text(entry.1), entry.2)));
        j = j + 1;
    }
    Ok(typ::State { name: name.value, statements: typed, transitions: typed_trs, weak })
}


/// A shared variable declaration the typing accepts: its initial value is a constant whose
/// size, if given by a constant expression, is a value.
pub open spec fn shared_shape(a: untyp::VarAssign) -> bool {
    match a.expr.value {
        untyp::Expr::Const(ConstExpr::Known(_)) => true,
        untyp::Expr::Const(ConstExpr::Unknown(_, c)) => c.value is Value,
        _ => false,
    }
}

/// The initial value of a shared variable, or the error for a negative size.
pub open spec fn shared_value(a: untyp::VarAssign) -> Result<Seq<bool>, TypingErrorV> {
    match a.expr.value {
        untyp::Expr::Const(ConstExpr::Known(v)) => Ok(v@),
        untyp::Expr::Const(ConstExpr::Unknown(b, c)) => match c.value {
            Const::Value(i) => if i >= 0 {
                Ok(filled(i as nat, b))
            } else {
                Err(TypingErrorV::NegativeSizeBus(c.loc, i))
            },
            _ => Err(TypingErrorV::NegativeSizeBus(c.loc, 0)),
        },
        _ => Err(TypingErrorV::NegativeSizeBus(a.expr.loc, 0)),
    }
}

/// Initial values of shared variables by name.
pub type SharedV = Seq<(String, Seq<bool>)>;

/// The shared variables of the first `j` declarations, with their values and their sizes
/// (declared where their value is), or the first error: a negative size, or a name
/// declared twice.
pub open spec fn shared_type(sh: Seq<untyp::VarAssign>, j: int) -> Result<(SharedV, Types), TypingErrorV>
    decreases j,
{
    if j <= 0 || j > sh.len() {
        Ok((Seq::empty(), Seq::empty()))
    } else {
        match shared_type(sh, j - 1) {
            Err(e) => Err(e),
            Ok((m, st)) => {
                let a = sh[j - 1];
                match shared_value(a) {
                    Err(e) => Err(e),
                    Ok(v) => match table_get(st, a.var.value@) {
                        Some((_, l)) => Err(TypingErrorV::DuplicateVar(a.var.value@, a.expr.loc, l)),
                        None => Ok((m.push((a.var.value, v)), st.push((a.var.value, (v.len() as usize, a.expr.loc))))),
                    },
                }
            },
        }
    }
}

/// The names of `m` are names of `st`.
pub open spec fn names_within<V, W>(m: Seq<(String, V)>, st: Seq<(String, W)>) -> bool {
    forall|k: Seq<char>| table_has(m, k) ==> #[trigger] table_has(st, k)
}

proof fn lemma_shared_err(sh: Seq<untyp::VarAssign>, j: int, len: int)
    requires
        0 < j <= len <= sh.len(),
        shared_type(sh, j) is Err,
    ensures
        shared_type(sh, len) == shared_type(sh, j),
    decreases len,
{
    if len > j {
        lemma_shared_err(sh, j, len - 1);
    }
}

/// The value of a shared variable declaration; see `shared_value`.
fn shared_init(a: &untyp::VarAssign) -> (r: Result<Vec<bool>, TypingError>)
    requires
        shared_shape(*a),
    ensures
        match shared_value(*a) {
            Ok(v) => r matches Ok(x) && x@ == v,
            Err(e) => r matches Err(x) && error_view(x) == e,
        },
{
    match &a.expr.value {
        untyp::Expr::Const(ConstExpr::Known(v)) => Ok(crate::interpreters::low_level_interpreter::copy_bits(v)),
        untyp::Expr::Const(ConstExpr::Unknown(b, c)) => match &c.value {
            Const::Value(i) => match to_size(*i, c.loc) {
                Ok(n) => Ok(filled_vec(n, *b)),
                Err(e) => Err(e),
            },
            _ => {
                proof {
                    assert(false);
                }
                Err(TypingError::NegativeSizeBus(c.loc, 0))
            },
        },
        _ => {
            proof {
                assert(false);
            }
            Err(TypingError::NegativeSizeBus(a.expr.loc, 0))
        },
    }
}


/// Initial values of shared variables, by value.
pub open spec fn shared_view(m: Seq<(String, Vec<bool>)>) -> SharedV {
    m.map_values(|p: (String, Vec<bool>)| (p.0, p.1@))
}

/// The shared variables and their sizes come in the same order, under the same names.
proof fn lemma_shared_keys(sh: Seq<untyp::VarAssign>, j: int)
    requires
        shared_type(sh, j) is Ok,
    ensures
        ({
            let (m, st) = shared_type(sh, j)->Ok_0;
            &&& m.len() == st.len()
            &&& forall|i: int| 0 <= i < m.len() ==> #[trigger] m[i].0 == st[i].0
        }),
    decreases j,
{
    if j > 0 && j <= sh.len() {
        lemma_shared_keys(sh, j - 1);
    }
}

/// Types the shared variable declarations; see `shared_type`.
fn type_shared(shared: &Vec<untyp::VarAssign>) -> (r: Result<(Vec<(String, Vec<bool>)>, Vec<(String, (usize, Pos))>), TypingError>)
    requires
        forall|i: int| 0 <= i < shared@.len() ==> shared_shape(#[trigger] shared@[i]),
    ensures
        match shared_type(shared@, shared@.len() as int) {
            Ok((m, st)) => r matches Ok((x, y)) && shared_view(x@) == m && y@ == st,
            Err(e) => r matches Err(x) && error_view(x) == e,
        },
{
    let mut map: Vec<(String, Vec<bool>)> = Vec::new();
    let mut types: Vec<(String, (usize, Pos))> = Vec::new();
    proof {
        assert(shared_view(map@) =~= Seq::<(String, Seq<bool>)>::empty());
        assert(types@ =~= Seq::<(String, (usize, Pos))>::empty());
    }
    let mut i: usize = 0;
    while i < shared.len()
        invariant
            i <= shared@.len(),
            forall|k: int| 0 <= k < shared@.len() ==> shared_shape(#[trigger] shared@[k]),
            shared_type(shared@, i as int) == Ok::<(SharedV, Types), TypingErrorV>((shared_view(map@), types@)),
        decreases shared@.len() - i,
    {
        let a = &shared[i];
        let v = match shared_init(a) {
            Ok(v) => v,
            Err(e) => {
                proof {
                    lemma_shared_err(shared@, i as int + 1, shared@.len() as int);
                }
                return Err(e);
            },
        };
        match table_lookup(&types, a.var.value.as_str()) {
            Some(p) => {
                proof {
                    lemma_shared_err(shared@, i as int + 1, shared@.len() as int);
                }
                return Err(TypingError::DuplicateVar(a.var.value.clone(), a.expr.loc, p.1));
            },
            None => {},
        }
        let ghost before = map@;
        let n = v.len();
        map.push((a.var.value.clone(), v));
        types.push((a.var.value.clone(), (n, a.expr.loc)));
        proof {
            assert(shared_view(map@) =~= shared_view(before).push((a.var.value, v@)));
        }
        i = i + 1;
    }
    Ok((map, types))
}


/// The sizes after adding each state name as a shared variable of size one, or the error
/// for a state named as a shared variable.
pub open spec fn state_names_type(states: Seq<(String, untyp::State)>, j: int, m: SharedV, st: Types) -> Result<Types, TypingErrorV>
    decreases j,
{
    if j <= 0 || j > states.len() {
        Ok(st)
    } else {
        match state_names_type(states, j - 1, m, st) {
            Err(e) => Err(e),
            Ok(t) => {
                let (name, s) = states[j - 1];
                if table_has(m, name@) {
                    Err(TypingErrorV::ConflictingStateShared(s.name.loc, s.name.value@, table_get(t, name@)->Some_0.1))
                } else {
                    Ok(table_set(t, name, (1usize, s.name.loc)))
                }
            },
        }
    }
}

proof fn lemma_state_names_err(states: Seq<(String, untyp::State)>, j: int, len: int, m: SharedV, st: Types)
    requires
        0 < j <= len <= states.len(),
        state_names_type(states, j, m, st) is Err,
    ensures
        state_names_type(states, len, m, st) == state_names_type(states, j, m, st),
    decreases len,
{
    if len > j {
        lemma_state_names_err(states, j, len - 1, m, st);
    }
}

/// Taking the values by value keeps the names.
proof fn lemma_shared_view_has(m: Seq<(String, Vec<bool>)>, k: Seq<char>)
    ensures
        table_has(shared_view(m), k) == table_has(m, k),
{
    let v = shared_view(m);
    if table_has(m, k) {
        let i = choose|i: int| 0 <= i < m.len() && #[trigger] m[i].0@ == k;
        assert(v[i].0@ == k);
    }
    if table_has(v, k) {
        let i = choose|i: int| 0 <= i < v.len() && #[trigger] v[i].0@ == k;
        assert(m[i].0@ == k);
    }
}

/// Adds the state names to the shared variables; see `state_names_type`.
fn type_state_names(
    states: &Vec<(String, untyp::State)>,
    map: &Vec<(String, Vec<bool>)>,
    types: &mut Vec<(String, (usize, Pos))>,
) -> (r: Result<(), TypingError>)
    requires
        names_within(shared_view(map@), old(types)@),
    ensures
        match state_names_type(states@, states@.len() as int, shared_view(map@), old(types)@) {
            Ok(t) => r is Ok && final(types)@ == t,
            Err(e) => r matches Err(x) && error_view(x) == e,
        },
{
    let ghost st0 = types@;
    let mut i: usize = 0;
    while i < states.len()
        invariant
            i <= states@.len(),
            names_within(shared_view(map@), types@),
            st0 == old(types)@,
            state_names_type(states@, i as int, shared_view(map@), st0) == Ok::<Types, TypingErrorV>(types@),
        decreases states@.len() - i,
    {
        let name = &states[i].0;
        let s = &states[i].1;
        proof {
            lemma_shared_view_has(map@, name@);
        }
        if table_contains(map, name.as_str()) {
            proof {
                crate::util::tables::lemma_table_get_some(types@, name@);
            }
            let other = match table_lookup(types, name.as_str()) {
                Some(p) => p.1,
                None => {
                    proof {
                        assert(false);
                    }
                    Pos(0, 0, 0)
                },
            };
            proof {
                lemma_state_names_err(states@, i as int + 1, states@.len() as int, shared_view(map@), st0);
            }
            return Err(TypingError::ConflictingStateShared(s.name.loc, s.name.value.clone(), other));
        }
        let key = name.clone();
        let ghost gk = key;
        let ghost before = types@;
        table_insert(types, key, (1, s.name.loc));
        proof {
            assert forall|k: Seq<char>| table_has(shared_view(map@), k) implies #[trigger] table_has(types@, k) by {
                crate::util::tables::lemma_table_set_has(before, gk, (1usize, s.name.loc), k);
            }
        }
        i = i + 1;
    }
    Ok(())
}


/// An input or output the typing accepts: its size is a value.
pub open spec fn arg_shape(a: untyp::Arg) -> bool {
    a.size.value is Value
}

/// A sized name, by value.
pub open spec fn sized_view(x: typ::Arg) -> (Seq<char>, usize) {
    (x.value@, x.size)
}

/// The typed inputs of the first `j` inputs, each becoming a shared variable, or the first
/// error: a negative size, or a name already taken.
pub open spec fn inputs_type(args: Seq<untyp::Arg>, j: int, st: Types) -> Result<(Seq<(Seq<char>, usize)>, Types), TypingErrorV>
    decreases j,
{
    if j <= 0 || j > args.len() {
        Ok((Seq::empty(), st))
    } else {
        match inputs_type(args, j - 1, st) {
            Err(e) => Err(e),
            Ok((r, t)) => {
                let a = args[j - 1];
                let loc = a.size.loc;
                match a.size.value {
                    Const::Value(i) => if i < 0 {
                        Err(TypingErrorV::NegativeSizeBus(loc, i))
                    } else {
                        match table_get(t, a.name@) {
                            Some((_, l)) => Err(TypingErrorV::DuplicateVar(a.name@, loc, l)),
                            None => Ok((r.push((a.name@, i as usize)), t.push((a.name, (i as usize, loc))))),
                        }
                    },
                    _ => Err(TypingErrorV::NegativeSizeBus(loc, 0)),
                }
            },
        }
    }
}

/// The typed outputs of the first `j` outputs, or the first error: a negative size, or a
/// size other than that of the variable of the same name. An output that is no variable yet
/// becomes a shared variable, initially all zeros.
pub open spec fn outputs_type(args: Seq<untyp::Arg>, j: int, m: SharedV, st: Types) -> Result<(Seq<(Seq<char>, usize)>, SharedV, Types), TypingErrorV>
    decreases j,
{
    if j <= 0 || j > args.len() {
        Ok((Seq::empty(), m, st))
    } else {
        match outputs_type(args, j - 1, m, st) {
            Err(e) => Err(e),
            Ok((r, m2, t)) => {
                let a = args[j - 1];
                let loc = a.size.loc;
                match a.size.value {
                    Const::Value(i) => if i < 0 {
                        Err(TypingErrorV::NegativeSizeBus(loc, i))
                    } else {
                        match table_get(t, a.name@) {
                            Some((d, l)) => if d != i as usize {
                                Err(TypingErrorV::MismatchedBusSize(
                                    TokenV { loc: l, name: Some(fmt_var(a.name@)), length: d },
                                    TokenV { loc, name: Some(fmt_var(a.name@)), length: i as usize },
                                ))
                            } else {
                                Ok((r.push((a.name@, i as usize)), m2, t))
                            },
                            None => Ok((
                                r.push((a.name@, i as usize)),
                                m2.push((a.name, filled(i as nat, false))),
                                t.push((a.name, (i as usize, loc))),
                            )),
                        }
                    },
                    _ => Err(TypingErrorV::NegativeSizeBus(loc, 0)),
                }
            },
        }
    }
}

proof fn lemma_inputs_err(args: Seq<untyp::Arg>, j: int, len: int, st: Types)
    requires
        0 < j <= len <= args.len(),
        inputs_type(args, j, st) is Err,
    ensures
        inputs_type(args, len, st) == inputs_type(args, j, st),
    decreases len,
{
    if len > j {
        lemma_inputs_err(args, j, len - 1, st);
    }
}

proof fn lemma_outputs_err(args: Seq<untyp::Arg>, j: int, len: int, m: SharedV, st: Types)
    requires
        0 < j <= len <= args.len(),
        outputs_type(args, j, m, st) is Err,
    ensures
        outputs_type(args, len, m, st) == outputs_type(args, j, m, st),
    decreases len,
{
    if len > j {
        lemma_outputs_err(args, j, len - 1, m, st);
    }
}

/// Types the inputs, adding them to the shared variables; see `inputs_type`.
fn type_inputs(args: &Vec<untyp::Arg>, types: &mut Vec<(String, (usize, Pos))>) -> (r: Result<Vec<typ::Arg>, TypingError>)
    requires
        forall|i: int| 0 <= i < args@.len() ==> arg_shape(#[trigger] args@[i]),
    ensures
        match inputs_type(args@, args@.len() as int, old(types)@) {
            Ok((x, t)) => r matches Ok(y) && y@.map_values(|a: typ::Arg| sized_view(a)) == x && final(types)@ == t,
            Err(e) => r matches Err(y) && error_view(y) == e,
        },
{
    let ghost st0 = types@;
    let mut out: Vec<typ::Arg> = Vec::new();
    proof {
        assert(out@.map_values(|a: typ::Arg| sized_view(a)) =~= Seq::<(Seq<char>, usize)>::empty());
    }
    let mut i: usize = 0;
    while i < args.len()
        invariant
            i <= args@.len(),
            st0 == old(types)@,
            forall|k: int| 0 <= k < args@.len() ==> arg_shape(#[trigger] args@[k]),
            inputs_type(args@, i as int, st0) == Ok::<(Seq<(Seq<char>, usize)>, Types), TypingErrorV>((out@.map_values(|a: typ::Arg| sized_view(a)), types@)),
        decreases args@.len() - i,
    {
        let a = &args[i];
        let loc = a.size.loc;
        let n = match &a.size.value {
            Const::Value(v) => match to_size(*v, loc) {
                Ok(n) => n,
                Err(e) => {
                    proof {
                        lemma_inputs_err(args@, i as int + 1, args@.len() as int, st0);
                    }
                    return Err(e);
                },
            },
            _ => {
                proof {
                    assert(false);
                }
                return Err(TypingError::NegativeSizeBus(loc, 0));
            },
        };
        match table_lookup(types, a.name.as_str()) {
            Some(p) => {
                proof {
                    lemma_inputs_err(args@, i as int + 1, args@.len() as int, st0);
                }
                return Err(TypingError::DuplicateVar(a.name.clone(), loc, p.1));
            },
            None => {},
        }
        let ghost before = out@;
        types.push((a.name.clone(), (n, loc)));
        out.push(typ::Sized { value: a.name.clone(), size: n });
        proof {
            assert(out@.map_values(|a: typ::Arg| sized_view(a)) =~= before.map_values(|a: typ::Arg| sized_view(a)).push((a.name@, n)));
        }
        i = i + 1;
    }
    Ok(out)
}

/// Types the outputs; see `outputs_type`.
fn type_outputs(
    args: &Vec<untyp::Arg>,
    map: &mut Vec<(String, Vec<bool>)>,
    types: &mut Vec<(String, (usize, Pos))>,
) -> (r: Result<Vec<typ::Arg>, TypingError>)
    requires
        forall|i: int| 0 <= i < args@.len() ==> arg_shape(#[trigger] args@[i]),
    ensures
        match outputs_type(args@, args@.len() as int, shared_view(old(map)@), old(types)@) {
            Ok((x, m, t)) => r matches Ok(y) && y@.map_values(|a: typ::Arg| sized_view(a)) == x
                && shared_view(final(map)@) == m && final(types)@ == t,
            Err(e) => r matches Err(y) && error_view(y) == e,
        },
{
    let ghost st0 = types@;
    let ghost m0 = shared_view(map@);
    let mut out: Vec<typ::Arg> = Vec::new();
    proof {
        assert(out@.map_values(|a: typ::Arg| sized_view(a)) =~= Seq::<(Seq<char>, usize)>::empty());
    }
    let mut i: usize = 0;
    while i < args.len()
        invariant
            i <= args@.len(),
            st0 == old(types)@,
            m0 == shared_view(old(map)@),
            forall|k: int| 0 <= k < args@.len() ==> arg_shape(#[trigger] args@[k]),
            outputs_type(args@, i as int, m0, st0) == Ok::<(Seq<(Seq<char>, usize)>, SharedV, Types), TypingErrorV>((
                out@.map_values(|a: typ::Arg| sized_view(a)),
                shared_view(map@),
                types@,
            )),
        decreases args@.len() - i,
    {
        let a = &args[i];
        let loc = a.size.loc;
        let n = match &a.size.value {
            Const::Value(v) => match to_size(*v, loc) {
                Ok(n) => n,
                Err(e) => {
                    proof {
                        lemma_outputs_err(args@, i as int + 1, args@.len() as int, m0, st0);
                    }
                    return Err(e);
                },
            },
            _ => {
                proof {
                    assert(false);
                }
                return Err(TypingError::NegativeSizeBus(loc, 0));
            },
        };
        let ghost before = out@;
        match table_lookup(types, a.name.as_str()) {
            Some(p) => {
                if p.0 != n {
                    let t1 = named_token(p.1, &a.name, p.0);
                    let t2 = named_token(loc, &a.name, n);
                    proof {
                        lemma_outputs_err(args@, i as int + 1, args@.len() as int, m0, st0);
                    }
                    return Err(TypingError::MismatchedBusSize(t1, t2));
                }
            },
            None => {
                let ghost mb = map@;
                map.push((a.name.clone(), filled_vec(n, false)));
                types.push((a.name.clone(), (n, loc)));
                proof {
                    assert(shared_view(map@) =~= shared_view(mb).push((a.name, filled(n as nat, false))));
                }
            },
        }
        out.push(typ::Sized { value: a.name.clone(), size: n });
        proof {
            assert(out@.map_values(|a: typ::Arg| sized_view(a)) =~= before.map_values(|a: typ::Arg| sized_view(a)).push((a.name@, n)));
        }
        i = i + 1;
    }
    Ok(out)
}


/// The states by name, each with the position of its name.
pub open spec fn state_map(states: Seq<(String, untyp::State)>) -> Seq<(String, Pos)> {
    states.map_values(|p: (String, untyp::State)| (p.1.name.value, p.1.name.loc))
}

/// The names of the first `j` initial states, or the first one that is no state.
pub open spec fn inits_type(inits: Seq<Loc<String>>, j: int, sm: Seq<(String, Pos)>) -> Result<Seq<Seq<char>>, TypingErrorV>
    decreases j,
{
    if j <= 0 || j > inits.len() {
        Ok(Seq::empty())
    } else {
        match inits_type(inits, j - 1, sm) {
            Err(e) => Err(e),
            Ok(r) => {
                let s = inits[j - 1];
                if table_has(sm, s.value@) {
                    Ok(r.push(s.value@))
                } else {
                    Err(TypingErrorV::UnknownState(s.value@, s.loc))
                }
            },
        }
    }
}

/// The typed first `j` states, by name, or the first error.
pub open spec fn states_type(
    states: Seq<(String, untyp::State)>,
    j: int,
    sm: Seq<(String, Pos)>,
    st: Types,
    tc: Constraints,
) -> Result<Seq<(Seq<char>, StateV)>, TypingErrorV>
    decreases j,
{
    if j <= 0 || j > states.len() {
        Ok(Seq::empty())
    } else {
        match states_type(states, j - 1, sm, st, tc) {
            Err(e) => Err(e),
            Ok(r) => match state_type(states[j - 1].1, sm, st, tc) {
                Err(e) => Err(e),
                Ok(v) => Ok(r.push((states[j - 1].1.name.value@, v))),
            },
        }
    }
}

proof fn lemma_inits_err(inits: Seq<Loc<String>>, j: int, len: int, sm: Seq<(String, Pos)>)
    requires
        0 < j <= len <= inits.len(),
        inits_type(inits, j, sm) is Err,
    ensures
        inits_type(inits, len, sm) == inits_type(inits, j, sm),
    decreases len,
{
    if len > j {
        lemma_inits_err(inits, j, len - 1, sm);
    }
}

proof fn lemma_states_err(states: Seq<(String, untyp::State)>, j: int, len: int, sm: Seq<(String, Pos)>, st: Types, tc: Constraints)
    requires
        0 < j <= len <= states.len(),
        states_type(states, j, sm, st, tc) is Err,
    ensures
        states_type(states, len, sm, st, tc) == states_type(states, j, sm, st, tc),
    decreases len,
{
    if len > j {
        lemma_states_err(states, j, len - 1, sm, st, tc);
    }
}

/// The map of states; see `state_map`.
fn make_state_map(states: &Vec<(String, untyp::State)>) -> (r: Vec<(String, Pos)>)
    ensures
        r@ == state_map(states@),
{
    let mut r: Vec<(String, Pos)> = Vec::new();
    let mut i: usize = 0;
    while i < states.len()
        invariant
            i <= states@.len(),
            r@ == state_map(states@).subrange(0, i as int),
        decreases states@.len() - i,
    {
        let ghost before = r@;
        r.push((states[i].1.name.value.clone(), states[i].1.name.loc));
        proof {
            assert(r@ =~= state_map(states@).subrange(0, i as int + 1));
        }
        i = i + 1;
    }
    proof {
        assert(r@ =~= state_map(states@));
    }
    r
}

/// Checks the initial states; see `inits_type`.
fn type_inits(inits: &Vec<Loc<String>>, sm: &Vec<(String, Pos)>) -> (r: Result<Vec<String>, TypingError>)
    ensures
        match inits_type(inits@, inits@.len() as int, sm@) {
            Ok(x) => r matches Ok(y) && y@.map_values(|s: String| s@) == x,
            Err(e) => r matches Err(y) && error_view(y) == e,
        },
{
    let mut out: Vec<String> = Vec::new();
    proof {
        assert(out@.map_values(|s: String| s@) =~= Seq::<Seq<char>>::empty());
    }
    let mut i: usize = 0;
    while i < inits.len()
        invariant
            i <= inits@.len(),
            inits_type(inits@, i as int, sm@) == Ok::<Seq<Seq<char>>, TypingErrorV>(out@.map_values(|s: String| s@)),
        decreases inits@.len() - i,
    {
        let s = &inits[i];
        if !table_contains(sm, s.value.as_str()) {
            proof {
                lemma_inits_err(inits@, i as int + 1, inits@.len() as int, sm@);
            }
            return Err(TypingError::UnknownState(s.value.clone(), s.loc));
        }
        let ghost before = out@;
        out.push(s.value.clone());
        proof {
            assert(out@.map_values(|s: String| s@) =~= before.map_values(|s: String| s@).push(s.value@));
        }
        i = i + 1;
    }
    Ok(out)
}

/// Types the states; see `states_type`.
fn type_states(
    states: Vec<(String, untyp::State)>,
    sm: &Vec<(String, Pos)>,
    shared_types: &Vec<(String, (usize, Pos))>,
    type_constraints: &Vec<(String, (i32, Pos))>,
) -> (r: Result<Vec<(String, typ::State)>, TypingError>)
    requires
        forall|i: int| 0 <= i < states@.len() ==> state_shape(#[trigger] states@[i].1),
    ensures
        match states_type(states@, states@.len() as int, sm@, shared_types@, type_constraints@) {
            Ok(x) => r matches Ok(y) && y@.map_values(|p: (String, typ::State)| (p.0@, tstate_view(p.1))) == x,
            Err(e) => r matches Err(y) && error_view(y) == e,
        },
{
    let ghost s0 = states@;
    let len = states.len();
    let mut rest = states;
    let mut out: Vec<(String, typ::State)> = Vec::new();
    proof {
        assert(rest@ =~= s0.subrange(0, len as int));
        assert(out@.map_values(|p: (String, typ::State)| (p.0@, tstate_view(p.1))) =~= Seq::<(Seq<char>, StateV)>::empty());
    }
    let mut i: usize = 0;
    while i < len
        invariant
            i <= len,
            len == s0.len(),
            s0 == states@,
            forall|k: int| 0 <= k < s0.len() ==> state_shape(#[trigger] s0[k].1),
            rest@ == s0.subrange(i as int, len as int),
            states_type(s0, i as int, sm@, shared_types@, type_constraints@) == Ok::<Seq<(Seq<char>, StateV)>, TypingErrorV>(
                out@.map_values(|p: (String, typ::State)| (p.0@, tstate_view(p.1))),
            ),
        decreases len - i,
    {
        let (_, st) = rest.remove(0);
        assert(st == s0[i as int].1);
        assert(state_shape(s0[i as int].1));
        let name = st.name.value.clone();
        match type_state(st, sm, shared_types, type_constraints) {
            Ok(t) => {
                let ghost before = out@;
                out.push((name, t));
                proof {
                    assert(out@.map_values(|p: (String, typ::State)| (p.0@, tstate_view(p.1))) =~= before.map_values(
                        |p: (String, typ::State)| (p.0@, tstate_view(p.1)),
                    ).push((s0[i as int].1.name.value@, tstate_view(t))));
                }
            },
            Err(e) => {
                proof {
                    lemma_states_err(s0, i as int + 1, len as int, sm@, shared_types@, type_constraints@);
                }
                return Err(e);
            },
        }
        i = i + 1;
    }
    Ok(out)
}


/// A typed program, by value.
pub struct ProgramV {
    pub inputs: Seq<(Seq<char>, usize)>,
    pub outputs: Seq<(Seq<char>, usize)>,
    pub shared: SharedV,
    pub states: Seq<(Seq<char>, StateV)>,
    pub init_states: Seq<Seq<char>>,
}

/// A typed program, by value.
pub open spec fn prog_view(p: typ::Program) -> ProgramV {
    ProgramV {
        inputs: p.inputs@.map_values(|a: typ::Arg| sized_view(a)),
        outputs: p.outputs@.map_values(|a: typ::Arg| sized_view(a)),
        shared: shared_view(p.shared@),
        states: p.states@.map_values(|q: (String, typ::State)| (q.0@, tstate_view(q.1))),
        init_states: p.init_states@.map_values(|s: String| s@),
    }
}

/// An automaton the typing accepts: its constants are values, its statements single
/// assignments and its transition conditions variables.
pub open spec fn automaton_shape(a: untyp::Automaton) -> bool {
    &&& forall|i: int| 0 <= i < a.shared@.len() ==> shared_shape(#[trigger] a.shared@[i])
    &&& forall|i: int| 0 <= i < a.inputs@.len() ==> arg_shape(#[trigger] a.inputs@[i])
    &&& forall|i: int| 0 <= i < a.outputs@.len() ==> arg_shape(#[trigger] a.outputs@[i])
    &&& forall|i: int| 0 <= i < a.states@.len() ==> state_shape(#[trigger] a.states@[i].1)
}

/// The typed automaton: its shared variables, then its state names (shared variables of
/// size one), its inputs (shared too) and its outputs are declared, in this order; then its
/// initial states are checked and its states typed.
pub open spec fn automaton_type(a: untyp::Automaton, tc: Constraints) -> Result<ProgramV, TypingErrorV> {
    match shared_type(a.shared@, a.shared@.len() as int) {
        Err(e) => Err(e),
        Ok((m, st0)) => match state_names_type(a.states@, a.states@.len() as int, m, st0) {
            Err(e) => Err(e),
            Ok(st1) => match inputs_type(a.inputs@, a.inputs@.len() as int, st1) {
                Err(e) => Err(e),
                Ok((ins, st2)) => match outputs_type(a.outputs@, a.outputs@.len() as int, m, st2) {
                    Err(e) => Err(e),
                    Ok((outs, m2, st3)) => {
                        let sm = state_map(a.states@);
                        match inits_type(a.init_states@, a.init_states@.len() as int, sm) {
                            Err(e) => Err(e),
                            Ok(inits) => match states_type(a.states@, a.states@.len() as int, sm, st3, tc) {
                                Err(e) => Err(e),
                                Ok(sts) => Ok(ProgramV { inputs: ins, outputs: outs, shared: m2, states: sts, init_states: inits }),
                            },
                        }
                    },
                },
            },
        },
    }
}

/// The automaton named `main`, which the program must have.
pub open spec fn main_automaton(prog: untyp::Program) -> untyp::Automaton {
    table_get(prog.automata@, "main"@)->Some_0
}

/// Types the program, made of its automaton `main`; see `automaton_type`.
pub fn type_prog(prog: untyp::Program, type_constraints: Vec<(String, (i32, Pos))>) -> (r: Result<typ::Program, TypingError>)
    requires
        table_get(prog.automata@, "main"@) is Some,
        automaton_shape(main_automaton(prog)),
    ensures
        outcome(r, automaton_type(main_automaton(prog), type_constraints@), |p: typ::Program| prog_view(p)),
{
    let ghost a0 = main_automaton(prog);
    let mut automata = prog.automata;
    let i = match crate::util::tables::table_position(&automata, "main") {
        Some(i) => i,
        None => {
            proof {
                assert(false);
            }
            return Err(TypingError::UnknownState(String::new(), Pos(0, 0, 0)));
        },
    };
    let (_, main) = automata.remove(i);
    assert(main == a0);
    let (map, shared_types) = match type_shared(&main.shared) {
        Ok(p) => p,
        Err(e) => {
            return Err(e);
        },
    };
    let mut map = map;
    let mut shared_types = shared_types;
    proof {
        lemma_shared_keys(main.shared@, main.shared@.len() as int);
        assert forall|k: Seq<char>| table_has(shared_view(map@), k) implies #[trigger] table_has(shared_types@, k) by {
            let j = choose|j: int| 0 <= j < shared_view(map@).len() && #[trigger] shared_view(map@)[j].0@ == k;
            assert(shared_types@[j].0@ == k);
        }
    }
    let ghost m0 = shared_view(map@);
    match type_state_names(&main.states, &map, &mut shared_types) {
        Ok(()) => {},
        Err(e) => {
            return Err(e);
        },
    }
    let inputs = match type_inputs(&main.inputs, &mut shared_types) {
        Ok(x) => x,
        Err(e) => {
            return Err(e);
        },
    };
    let outputs = match type_outputs(&main.outputs, &mut map, &mut shared_types) {
        Ok(x) => x,
        Err(e) => {
            return Err(e);
        },
    };
    let states_map = make_state_map(&main.states);
    let init_states = match type_inits(&main.init_states, &states_map) {
        Ok(x) => x,
        Err(e) => {
            return Err(e);
        },
    };
    let states = match type_states(main.states, &states_map, &shared_types, &type_constraints) {
        Ok(x) => x,
        Err(e) => {
            return Err(e);
        },
    };
    Ok(typ::Program { inputs, outputs, shared: map, states, init_states })
}


/// Whether an operand is one the typing accepts; see `term_shape`.
fn term_shape_exec(e: &untyp::Expr) -> (r: bool)
    ensures
        r == term_shape(*e),
{
    match e {
        untyp::Expr::Var(_) => true,
        untyp::Expr::Const(ConstExpr::Known(_)) => true,
        untyp::Expr::Const(ConstExpr::Unknown(_, c)) => matches!(c.value, Const::Value(_)),
        _ => false,
    }
}

/// Whether an optional bound of a slice is a value.
fn bound_shape(c: &Option<Const>) -> (r: bool)
    ensures
        r == (*c is None || c->Some_0 is Value),
{
    match c {
        None => true,
        Some(Const::Value(_)) => true,
        Some(_) => false,
    }
}

/// Whether an expression is one the typing accepts; see `typable`.
fn typable_exec(e: &untyp::Expr) -> (r: bool)
    ensures
        r == typable(*e),
{
    match e {
        untyp::Expr::Const(_) => term_shape_exec(e),
        untyp::Expr::Var(_) => true,
        untyp::Expr::Last(_) => true,
        untyp::Expr::Not(x) => term_shape_exec(x),
        untyp::Expr::Slice(x, c1, c2) => term_shape_exec(&x.value) && bound_shape(c1) && bound_shape(c2),
        untyp::Expr::BiOp(_, a, b) => term_shape_exec(&a.value) && term_shape_exec(&b.value),
        untyp::Expr::Mux(a, b, c) => term_shape_exec(&a.value) && term_shape_exec(&b.value) && term_shape_exec(&c.value),
        untyp::Expr::Reg(c, x) => term_shape_exec(&x.value) && matches!(c.value, Const::Value(_)),
        untyp::Expr::Ram(r) => term_shape_exec(&r.read_addr.value) && term_shape_exec(&r.write_enable.value)
            && term_shape_exec(&r.write_addr.value) && term_shape_exec(&r.write_data.value),
        untyp::Expr::Rom(r) => term_shape_exec(&r.read_addr.value) && matches!(r.word_size, Const::Value(_)),
        untyp::Expr::FnCall(_) => false,
    }
}

/// Whether a state has the shape the typing accepts; see `state_shape`.
fn state_shape_exec(s: &untyp::State) -> (r: bool)
    ensures
        r == state_shape(*s),
{
    let mut i: usize = 0;
    while i < s.statements.len()
        invariant
            i <= s.statements@.len(),
            forall|k: int| 0 <= k < i ==> stmt_shape(#[trigger] s.statements@[k]),
        decreases s.statements@.len() - i,
    {
        let ok = match &s.statements[i] {
            untyp::Statement::Assign(v) => v.len() == 1 && typable_exec(&v[0].expr.value),
            _ => false,
        };
        if !ok {
            return false;
        }
        i = i + 1;
    }
    let mut i: usize = 0;
    while i < s.transitions.len()
        invariant
            i <= s.transitions@.len(),
            forall|k: int| 0 <= k < s.statements@.len() ==> stmt_shape(#[trigger] s.statements@[k]),
            forall|k: int| 0 <= k < i ==> trans_shape(#[trigger] s.transitions@[k]),
        decreases s.transitions@.len() - i,
    {
        let ok = match &s.transitions[i].condition.value {
            untyp::TrCond::Expr(untyp::Expr::Var(_)) => true,
            _ => false,
        };
        if !ok {
            return false;
        }
        i = i + 1;
    }
    true
}

/// Whether an automaton has the shape the typing accepts, as it is once the earlier passes
/// have run: its shared variables are initialised by constants of known size, its inputs and
/// outputs have known sizes, its statements are single assignments of flat expressions, and
/// its conditions are variables; see `automaton_shape`.
pub fn automaton_shape_exec(a: &untyp::Automaton) -> (r: bool)
    ensures
        r == automaton_shape(*a),
{
    let mut i: usize = 0;
    while i < a.shared.len()
        invariant
            i <= a.shared@.len(),
            forall|k: int| 0 <= k < i ==> shared_shape(#[trigger] a.shared@[k]),
        decreases a.shared@.len() - i,
    {
        let ok = match &a.shared[i].expr.value {
            untyp::Expr::Const(ConstExpr::Known(_)) => true,
            untyp::Expr::Const(ConstExpr::Unknown(_, c)) => matches!(c.value, Const::Value(_)),
            _ => false,
        };
        if !ok {
            return false;
        }
        i = i + 1;
    }
    let mut i: usize = 0;
    while i < a.inputs.len()
        invariant
            i <= a.inputs@.len(),
            forall|k: int| 0 <= k < i ==> arg_shape(#[trigger] a.inputs@[k]),
        decreases a.inputs@.len() - i,
    {
        if !matches!(a.inputs[i].size.value, Const::Value(_)) {
            return false;
        }
        i = i + 1;
    }
    let mut i: usize = 0;
    while i < a.outputs.len()
        invariant
            i <= a.outputs@.len(),
            forall|k: int| 0 <= k < i ==> arg_shape(#[trigger] a.outputs@[k]),
        decreases a.outputs@.len() - i,
    {
        if !matches!(a.outputs[i].size.value, Const::Value(_)) {
            return false;
        }
        i = i + 1;
    }
    let mut i: usize = 0;
    while i < a.states.len()
        invariant
            i <= a.states@.len(),
            forall|k: int| 0 <= k < i ==> state_shape(#[trigger] a.states@[k].1),
        decreases a.states@.len() - i,
    {
        if !state_shape_exec(&a.states[i].1) {
            return false;
        }
        i = i + 1;
    }
    proof {
        assert(forall|k: int| 0 <= k < a.shared@.len() ==> shared_shape(#[trigger] a.shared@[k]));
    }
    true
}
} // verus!
