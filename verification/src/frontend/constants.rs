//! Constant evaluation.
//!
//! Global constants are reduced to values, then every constant outside functions is
//! replaced by its value. Inside functions, constants are simplified as far as possible
//! without knowing the static arguments.
use vstd::prelude::*;

use crate::ast::parse_ast::{
    Arg, Automaton, Const, ConstBiOp, ConstExpr, Expr, FnCall, Function, IfStruct, Loc, Pos, Program, RamStruct, RomStruct, State,
    Statement, Table, TrCond, VarAssign,
};
use crate::util::solver::{
    dep_graph_dependencies_of, dep_graph_new, dep_graph_register_dependencies,
    dep_graph_register_dependency, dep_edges, dep_nodes, dep_marked, cycle_from, DependencyError,
};
use crate::util::tables::{
    str_eq, strings_contain, table_get, table_has, table_insert, table_lookup, table_set,
    lemma_table_get_some,
};

verus! {

/// The errors of constant evaluation.
#[derive(Debug)]
pub enum ComputeConstError {
    /// An unknown constant variable.
    UnknowVariable(Pos, String),
    /// A division by zero.
    DivisionByZero(Pos),
    /// A cycle among the global constant definitions.
    CyclicDefinition,
    /// An unexpected error of the dependency solver.
    Other(String),
    /// The value of the named global constant does not fit in an `i32`.
    Overflow(String),
}

/// Whether an integer fits in an `i32`.
pub open spec fn fits_i32(v: int) -> bool {
    i32::MIN <= v <= i32::MAX
}

/// Division rounding toward zero (the divisor is not zero). On a nonnegative dividend the
/// euclidean quotient already rounds toward zero; a negative dividend is handled by symmetry.
pub open spec fn trunc_div(a: int, b: int) -> int {
    if a >= 0 {
        a / b
    } else {
        -((-a) / b)
    }
}

/// The value of a boolean as an integer.
pub open spec fn bool_value(b: bool) -> int {
    if b {
        1
    } else {
        0
    }
}

/// The value of an operation on two constants (the divisor of a division is not zero).
pub open spec fn const_op_value(op: ConstBiOp, v1: int, v2: int) -> int {
    match op {
        ConstBiOp::Plus => v1 + v2,
        ConstBiOp::Times => v1 * v2,
        ConstBiOp::Minus => v1 - v2,
        ConstBiOp::Div => trunc_div(v1, v2),
        ConstBiOp::Le => bool_value(v1 <= v2),
        ConstBiOp::Lt => bool_value(v1 < v2),
        ConstBiOp::Ge => bool_value(v1 >= v2),
        ConstBiOp::Gt => bool_value(v1 > v2),
        ConstBiOp::Eq => bool_value(v1 == v2),
        ConstBiOp::Neq => bool_value(v1 != v2),
        ConstBiOp::And => bool_value(v1 != 0 && v2 != 0),
        ConstBiOp::Or => bool_value(v1 != 0 || v2 != 0),
    }
}

/// What each operation on constants computes: the arithmetic operations their usual
/// values; the comparisons 1 when the first operand stands in that relation to the second,
/// else 0; `And` and `Or` the truth of both, of either, operand (non-zero being true).
pub proof fn law_const_ops(v1: int, v2: int)
    ensures
        const_op_value(ConstBiOp::Plus, v1, v2) == v1 + v2,
        const_op_value(ConstBiOp::Minus, v1, v2) == v1 - v2,
        const_op_value(ConstBiOp::Times, v1, v2) == v1 * v2,
        const_op_value(ConstBiOp::Lt, v1, v2) == (if v1 < v2 { 1int } else { 0int }),
        const_op_value(ConstBiOp::Le, v1, v2) == (if v1 <= v2 { 1int } else { 0int }),
        const_op_value(ConstBiOp::Gt, v1, v2) == (if v1 > v2 { 1int } else { 0int }),
        const_op_value(ConstBiOp::Ge, v1, v2) == (if v1 >= v2 { 1int } else { 0int }),
        const_op_value(ConstBiOp::Eq, v1, v2) == (if v1 == v2 { 1int } else { 0int }),
        const_op_value(ConstBiOp::Neq, v1, v2) == (if v1 != v2 { 1int } else { 0int }),
        const_op_value(ConstBiOp::And, v1, v2) == (if v1 != 0 && v2 != 0 { 1int } else { 0int }),
        const_op_value(ConstBiOp::Or, v1, v2) == (if v1 != 0 || v2 != 0 { 1int } else { 0int }),
{
}

/// Division rounds toward zero: the remainder is smaller than the divisor in size and is
/// zero or of the sign of the dividend.
pub proof fn law_const_div(v1: int, v2: int)
    requires
        v2 != 0,
    ensures
        ({
            let q = const_op_value(ConstBiOp::Div, v1, v2);
            let r = v1 - q * v2;
            &&& (if r >= 0 { r } else { -r }) < (if v2 >= 0 { v2 } else { -v2 })
            &&& (r == 0 || (r > 0) == (v1 > 0))
        }),
{
    let q = const_op_value(ConstBiOp::Div, v1, v2);
    if v1 >= 0 {
        assert(q == v1 / v2);
        let r0 = v1 % v2;
        assert(v1 == v2 * (v1 / v2) + v1 % v2 && 0 <= v1 % v2 < (if v2 >= 0 { v2 } else { -v2 })) by (nonlinear_arith)
            requires v2 != 0;
        assert(v1 - q * v2 == r0) by (nonlinear_arith)
            requires v1 == v2 * (v1 / v2) + v1 % v2, q == v1 / v2, r0 == v1 % v2;
        if v1 == 0 {
            assert(r0 == 0) by (nonlinear_arith)
                requires 0 == v2 * q + r0, 0 <= r0 < (if v2 >= 0 { v2 } else { -v2 }), v2 != 0;
        }
    } else {
        let w = -v1;
        assert(q == -(w / v2));
        assert(w == v2 * (w / v2) + w % v2 && 0 <= w % v2 < (if v2 >= 0 { v2 } else { -v2 })) by (nonlinear_arith)
            requires v2 != 0;
        assert(v1 - q * v2 == -(w % v2)) by (nonlinear_arith)
            requires w == v2 * (w / v2) + w % v2, q == -(w / v2), v1 == -w;
    }
}

/// The result of an operation: an error on a division by zero, reported at `loc`.
pub open spec fn const_op_result(op: ConstBiOp, v1: int, v2: int, loc: Pos) -> Result<
    int,
    ComputeConstError,
> {
    if op == ConstBiOp::Div && v2 == 0 {
        Err(ComputeConstError::DivisionByZero(loc))
    } else {
        Ok(const_op_value(op, v1, v2))
    }
}

/// Whether the operation fits in an `i32` (a division by zero counts as fitting: it is an error).
pub open spec fn const_op_fits(op: ConstBiOp, v1: int, v2: int) -> bool {
    (op == ConstBiOp::Div && v2 == 0) || fits_i32(const_op_value(op, v1, v2))
}

/// A result on `i32` seen as a result on integers.
pub open spec fn int_result(r: Result<i32, ComputeConstError>) -> Result<int, ComputeConstError> {
    match r {
        Ok(v) => Ok(v as int),
        Err(e) => Err(e),
    }
}

/// The value of a constant known by name: only a constant already reduced to a value counts.
pub open spec fn named_value(consts: Seq<(String, Const)>, name: Seq<char>) -> Option<i32> {
    match table_get(consts, name) {
        Some(Const::Value(i)) => Some(i),
        _ => None,
    }
}

/// The value of a constant, or the first error met evaluating it from left to right.
pub open spec fn const_value(c: Const, consts: Seq<(String, Const)>) -> Result<
    int,
    ComputeConstError,
>
    decreases c,
{
    match c {
        Const::Value(i) => Ok(i as int),
        Const::Var(v) => match named_value(consts, v.value@) {
            Some(i) => Ok(i as int),
            None => Err(ComputeConstError::UnknowVariable(v.loc, v.value)),
        },
        Const::BiOp(op, c1, c2) => match const_value(*c1, consts) {
            Err(e) => Err(e),
            Ok(v1) => match const_value(c2.value, consts) {
                Err(e) => Err(e),
                Ok(v2) => const_op_result(op, v1, v2, c2.loc),
            },
        },
    }
}

/// Whether every operation that the evaluation of `c` performs fits in an `i32`.
pub open spec fn const_fits(c: Const, consts: Seq<(String, Const)>) -> bool
    decreases c,
{
    match c {
        Const::BiOp(op, c1, c2) => {
            &&& const_fits(*c1, consts)
            &&& const_value(*c1, consts) is Ok ==> {
                &&& const_fits(c2.value, consts)
                &&& const_value(c2.value, consts) is Ok ==> const_op_fits(
                    op,
                    const_value(*c1, consts)->Ok_0,
                    const_value(c2.value, consts)->Ok_0,
                )
            }
        },
        _ => true,
    }
}

/// Applies an operation to two values; fails on a division by zero, reported at `loc`.
pub fn compute_op(op: &ConstBiOp, v1: i32, v2: i32, loc: Pos) -> (r: Result<
    i32,
    ComputeConstError,
>)
    requires
        const_op_fits(*op, v1 as int, v2 as int),
    ensures
        int_result(r) == const_op_result(*op, v1 as int, v2 as int, loc),
{
    match op {
        ConstBiOp::Plus => Ok(v1 + v2),
        ConstBiOp::Times => Ok(v1 * v2),
        ConstBiOp::Div => {
            if v2 != 0 {
                Ok(v1 / v2)
            } else {
                Err(ComputeConstError::DivisionByZero(loc))
            }
        },
        ConstBiOp::Minus => Ok(v1 - v2),
        ConstBiOp::Eq => Ok(if v1 == v2 { 1 } else { 0 }),
        ConstBiOp::Neq => Ok(if v1 != v2 { 1 } else { 0 }),
        ConstBiOp::Ge => Ok(if v1 >= v2 { 1 } else { 0 }),
        ConstBiOp::Le => Ok(if v1 <= v2 { 1 } else { 0 }),
        ConstBiOp::Gt => Ok(if v1 > v2 { 1 } else { 0 }),
        ConstBiOp::Lt => Ok(if v1 < v2 { 1 } else { 0 }),
        ConstBiOp::And => Ok(if v1 != 0 && v2 != 0 { 1 } else { 0 }),
        ConstBiOp::Or => Ok(if v1 != 0 || v2 != 0 { 1 } else { 0 }),
    }
}

/// Reduces a constant to a value, failing on an unknown variable or a division by zero.
pub fn compute_const(c: &Const, consts: &Table<Const>) -> (r: Result<i32, ComputeConstError>)
    requires
        const_fits(*c, consts@),
    ensures
        int_result(r) == const_value(*c, consts@),
    decreases c,
{
    match c {
        Const::Value(i) => Ok(*i),
        Const::Var(v) => {
            match table_lookup(consts, v.value.as_str()) {
                Some(Const::Value(i)) => Ok(*i),
                _ => Err(ComputeConstError::UnknowVariable(v.loc, v.value.clone())),
            }
        },
        Const::BiOp(op, c1, c2) => {
            let v1 = compute_const(c1, consts)?;
            let v2 = compute_const(&c2.value, consts)?;
            compute_op(op, v1, v2, c2.loc)
        },
    }
}


/// Whether `statics` holds a string equal to `name`.
pub open spec fn names_contain(statics: Seq<String>, name: Seq<char>) -> bool {
    exists|i: int| 0 <= i < statics.len() && #[trigger] statics[i]@ == name
}

/// A constant simplified as far as possible without the values of the static arguments,
/// with the first error met. On an error, the parts simplified before it stay simplified.
pub open spec fn simplified(c: Const, consts: Seq<(String, Const)>, statics: Seq<String>) -> (
    Const,
    Option<ComputeConstError>,
)
    decreases c,
{
    match c {
        Const::Value(i) => (c, None),
        Const::Var(v) => if names_contain(statics, v.value@) {
            (c, None)
        } else {
            match named_value(consts, v.value@) {
                Some(i) => (Const::Value(i), None),
                None => (c, Some(ComputeConstError::UnknowVariable(v.loc, v.value))),
            }
        },
        Const::BiOp(op, c1, c2) => {
            let (n1, err1) = simplified(*c1, consts, statics);
            if err1 is Some {
                (Const::BiOp(op, Box::new(n1), c2), err1)
            } else {
                let (n2, err2) = simplified(c2.value, consts, statics);
                let l2 = Loc { loc: c2.loc, value: n2 };
                let kept = Const::BiOp(op, Box::new(n1), Box::new(l2));
                if err2 is Some {
                    (kept, err2)
                } else {
                    match (n1, n2) {
                        (Const::Value(v1), Const::Value(v2)) => match const_op_result(
                            op,
                            v1 as int,
                            v2 as int,
                            c2.loc,
                        ) {
                            Ok(v) => (Const::Value(v as i32), None),
                            Err(e) => (kept, Some(e)),
                        },
                        (Const::Value(v1), _) if op == ConstBiOp::Times && v1 == 0 => (
                            Const::Value(0),
                            None,
                        ),
                        (_, Const::Value(v2)) if op == ConstBiOp::Times && v2 == 0 => (
                            Const::Value(0),
                            None,
                        ),
                        (_, Const::Value(v2)) if op == ConstBiOp::Div && v2 == 0 => (
                            kept,
                            Some(ComputeConstError::DivisionByZero(c2.loc)),
                        ),
                        (Const::Value(v1), _) if op == ConstBiOp::Div && v1 == 0 => (
                            Const::Value(0),
                            None,
                        ),
                        _ => (kept, None),
                    }
                }
            }
        },
    }
}

/// Whether every operation that the simplification of `c` performs fits in an `i32`.
pub open spec fn simplify_fits(c: Const, consts: Seq<(String, Const)>, statics: Seq<String>) -> bool
    decreases c,
{
    match c {
        Const::BiOp(op, c1, c2) => {
            &&& simplify_fits(*c1, consts, statics)
            &&& simplified(*c1, consts, statics).1 is None ==> {
                &&& simplify_fits(c2.value, consts, statics)
                &&& simplified(c2.value, consts, statics).1 is None ==> match (
                    simplified(*c1, consts, statics).0,
                    simplified(c2.value, consts, statics).0,
                ) {
                    (Const::Value(v1), Const::Value(v2)) => const_op_fits(op, v1 as int, v2 as int),
                    _ => true,
                }
            }
        },
        _ => true,
    }
}

/// Simplifies a constant as far as possible, keeping the static arguments unknown.
/// Fails on an unknown variable or a division by zero.
pub fn simplify_const(c: &mut Const, consts: &Table<Const>, static_args: &Vec<String>) -> (r: Result<
    (),
    ComputeConstError,
>)
    requires
        simplify_fits(*old(c), consts@, static_args@),
    ensures
        *final(c) == simplified(*old(c), consts@, static_args@).0,
        r is Err <==> simplified(*old(c), consts@, static_args@).1 is Some,
        r matches Err(e) ==> simplified(*old(c), consts@, static_args@).1 == Some(e),
    decreases *old(c),
{
    let res: Option<Const> = match c {
        Const::Value(i) => None,
        Const::Var(v) => {
            if strings_contain(static_args, v.value.as_str()) {
                None
            } else {
                match table_lookup(consts, v.value.as_str()) {
                    Some(Const::Value(i)) => Some(Const::Value(*i)),
                    _ => {
                        return Err(ComputeConstError::UnknowVariable(v.loc, v.value.clone()));
                    },
                }
            }
        },
        Const::BiOp(op, c1, c2) => {
            simplify_const(&mut **c1, consts, static_args)?;
            simplify_const(&mut c2.value, consts, static_args)?;
            let op = *op;
            match (&**c1, &c2.value) {
                (Const::Value(v1), Const::Value(v2)) => Some(
                    Const::Value(compute_op(&op, *v1, *v2, c2.loc)?),
                ),
                (Const::Value(v1), _) if op == ConstBiOp::Times && *v1 == 0 => Some(
                    Const::Value(0),
                ),
                (_, Const::Value(v2)) if op == ConstBiOp::Times && *v2 == 0 => Some(
                    Const::Value(0),
                ),
                (_, Const::Value(v2)) if op == ConstBiOp::Div && *v2 == 0 => {
                    return Err(ComputeConstError::DivisionByZero(c2.loc));
                },
                (Const::Value(v1), _) if op == ConstBiOp::Div && *v1 == 0 => Some(
                    Const::Value(0),
                ),
                _ => None,
            }
        },
    };
    if let Some(res) = res {
        *c = res;
    }
    Ok(())
}


/// One constant rewritten by a pass: reduced to its value when `statics` is `None`,
/// simplified keeping the static arguments `statics` unknown otherwise.
pub open spec fn const_step(c: Const, consts: Seq<(String, Const)>, statics: Option<Seq<String>>) -> (
    Const,
    Option<ComputeConstError>,
) {
    match statics {
        None => match const_value(c, consts) {
            Ok(v) => (Const::Value(v as i32), None),
            Err(e) => (c, Some(e)),
        },
        Some(s) => simplified(c, consts, s),
    }
}

/// Whether the rewriting of one constant stays within `i32`.
pub open spec fn const_step_fits(
    c: Const,
    consts: Seq<(String, Const)>,
    statics: Option<Seq<String>>,
) -> bool {
    match statics {
        None => const_fits(c, consts),
        Some(s) => simplify_fits(c, consts, s),
    }
}

/// The view of the optional static arguments.
pub open spec fn statics_view(static_args: Option<&Vec<String>>) -> Option<Seq<String>> {
    match static_args {
        None => None,
        Some(v) => Some(v@),
    }
}

/// Rewrites one constant.
fn const_step_exec(c: &mut Const, consts: &Table<Const>, static_args: Option<&Vec<String>>) -> (r: Result<
    (),
    ComputeConstError,
>)
    requires
        const_step_fits(*old(c), consts@, statics_view(static_args)),
    ensures
        *final(c) == const_step(*old(c), consts@, statics_view(static_args)).0,
        r is Err <==> const_step(*old(c), consts@, statics_view(static_args)).1 is Some,
        r matches Err(e) ==> const_step(*old(c), consts@, statics_view(static_args)).1 == Some(e),
{
    match static_args {
        None => {
            let v = compute_const(c, consts)?;
            *c = Const::Value(v);
            Ok(())
        },
        Some(statics) => simplify_const(c, consts, statics),
    }
}

/// An optional constant rewritten.
pub open spec fn mapped_opt_const(
    c: Option<Const>,
    consts: Seq<(String, Const)>,
    statics: Option<Seq<String>>,
) -> (Option<Const>, Option<ComputeConstError>) {
    match c {
        None => (None, None),
        Some(c) => {
            let (n, err) = const_step(c, consts, statics);
            (Some(n), err)
        },
    }
}


/// The first of two errors.
pub open spec fn first_err(a: Option<ComputeConstError>, b: Option<ComputeConstError>) -> Option<
    ComputeConstError,
> {
    if a is Some {
        a
    } else {
        b
    }
}

/// The error met rewriting an optional constant.
pub open spec fn opt_const_err(
    c: Option<Const>,
    consts: Seq<(String, Const)>,
    statics: Option<Seq<String>>,
) -> Option<ComputeConstError> {
    mapped_opt_const(c, consts, statics).1
}

/// `n` is `c` rewritten when `go` holds, and `c` unchanged otherwise.
pub open spec fn const_stepped(
    c: Const,
    n: Const,
    go: bool,
    consts: Seq<(String, Const)>,
    statics: Option<Seq<String>>,
) -> bool {
    if go {
        n == const_step(c, consts, statics).0
    } else {
        n == c
    }
}

/// `n` is `c` rewritten when `go` holds, and `c` unchanged otherwise.
pub open spec fn opt_const_stepped(
    c: Option<Const>,
    n: Option<Const>,
    go: bool,
    consts: Seq<(String, Const)>,
    statics: Option<Seq<String>>,
) -> bool {
    if go {
        n == mapped_opt_const(c, consts, statics).0
    } else {
        n == c
    }
}

/// The first error met rewriting the constants of `s` from index `i` on.
pub open spec fn consts_err_from(
    s: Seq<Const>,
    i: int,
    consts: Seq<(String, Const)>,
    statics: Option<Seq<String>>,
) -> Option<ComputeConstError>
    decreases s.len() - i,
{
    if 0 <= i < s.len() {
        first_err(const_step(s[i], consts, statics).1, consts_err_from(s, i + 1, consts, statics))
    } else {
        None
    }
}

/// `t` is `s` with its constants rewritten from index `i` on, up to the first error.
pub open spec fn consts_mapped_from(
    s: Seq<Const>,
    t: Seq<Const>,
    i: int,
    consts: Seq<(String, Const)>,
    statics: Option<Seq<String>>,
) -> bool
    decreases s.len() - i,
{
    if 0 <= i < s.len() {
        &&& i < t.len()
        &&& t[i] == const_step(s[i], consts, statics).0
        &&& if const_step(s[i], consts, statics).1 is Some {
            forall|j: int| i < j < s.len() ==> #[trigger] t[j] == s[j]
        } else {
            consts_mapped_from(s, t, i + 1, consts, statics)
        }
    } else {
        true
    }
}

/// Whether every constant of a sequence can be rewritten within `i32`.
pub open spec fn consts_fit(
    s: Seq<Const>,
    consts: Seq<(String, Const)>,
    statics: Option<Seq<String>>,
) -> bool {
    forall|i: int| 0 <= i < s.len() ==> const_step_fits(#[trigger] s[i], consts, statics)
}

proof fn lemma_consts_scan(
    s: Seq<Const>,
    t: Seq<Const>,
    k: int,
    stop: int,
    consts: Seq<(String, Const)>,
    statics: Option<Seq<String>>,
)
    requires
        0 <= k <= stop <= s.len(),
        s.len() == t.len(),
        forall|j: int|
            k <= j < stop ==> #[trigger] t[j] == const_step(s[j], consts, statics).0
                && const_step(s[j], consts, statics).1 is None,
        stop < s.len() ==> t[stop] == const_step(s[stop], consts, statics).0 && const_step(
            s[stop],
            consts,
            statics,
        ).1 is Some,
        forall|j: int| stop < j < s.len() ==> #[trigger] t[j] == s[j],
    ensures
        consts_mapped_from(s, t, k, consts, statics),
        consts_err_from(s, k, consts, statics) == (if stop < s.len() {
            const_step(s[stop], consts, statics).1
        } else {
            None
        }),
    decreases stop - k,
{
    if k < stop {
        assert(t[k] == const_step(s[k], consts, statics).0);
        lemma_consts_scan(s, t, k + 1, stop, consts, statics);
    }
}

/// Rewrites the constants of a vector from left to right, stopping at the first error.
fn map_consts_in_vec(v: &mut Vec<Const>, consts: &Table<Const>, static_args: Option<&Vec<String>>) -> (r:
    Result<(), ComputeConstError>)
    requires
        consts_fit(old(v)@, consts@, statics_view(static_args)),
    ensures
        final(v)@.len() == old(v)@.len(),
        consts_mapped_from(old(v)@, final(v)@, 0, consts@, statics_view(static_args)),
        r is Err <==> consts_err_from(old(v)@, 0, consts@, statics_view(static_args)) is Some,
        r matches Err(e) ==> consts_err_from(old(v)@, 0, consts@, statics_view(static_args))
            == Some(e),
{
    let ghost sv = statics_view(static_args);
    let ghost s0 = v@;
    let n = v.len();
    let mut i: usize = 0;
    let mut out: Result<(), ComputeConstError> = Ok(());
    while i < n && out.is_ok()
        invariant
            n == s0.len(),
            v@.len() == n,
            i <= n,
            consts_fit(s0, consts@, sv),
            sv == statics_view(static_args),
            forall|j: int| 0 <= j < i ==> #[trigger] v@[j] == const_step(s0[j], consts@, sv).0,
            forall|j: int| 0 <= j < i ==> (#[trigger] const_step(s0[j], consts@, sv)).1 is None,
            forall|j: int| i < j < n ==> #[trigger] v@[j] == s0[j],
            out is Ok ==> i < n ==> v@[i as int] == s0[i as int],
            out matches Err(e) ==> i < n && v@[i as int] == const_step(s0[i as int], consts@, sv).0
                && const_step(s0[i as int], consts@, sv).1 == Some(e),
        decreases n - i, (if out is Ok { 1int } else { 0int }),
    {
        assert(const_step_fits(s0[i as int], consts@, sv));
        let res = const_step_exec(&mut v[i], consts, static_args);
        match res {
            Err(e) => {
                out = Err(e);
            },
            Ok(()) => {
                i = i + 1;
            },
        }
    }
    proof {
        if out is Err {
            lemma_consts_scan(s0, v@, 0, i as int, consts@, sv);
        } else {
            lemma_consts_scan(s0, v@, 0, n as int, consts@, sv);
        }
    }
    out
}


/// The first error met rewriting the constants of an expression, in evaluation order.
pub open spec fn expr_err(e: Expr, consts: Seq<(String, Const)>, statics: Option<Seq<String>>) -> Option<
    ComputeConstError,
>
    decreases e, 0int,
{
    match e {
        Expr::Const(ConstExpr::Unknown(_, c)) => const_step(c.value, consts, statics).1,
        Expr::Not(x) => expr_err(*x, consts, statics),
        Expr::Slice(x, c1, c2) => first_err(
            opt_const_err(c1, consts, statics),
            first_err(opt_const_err(c2, consts, statics), expr_err(x.value, consts, statics)),
        ),
        Expr::BiOp(_, x, y) => first_err(
            expr_err(x.value, consts, statics),
            expr_err(y.value, consts, statics),
        ),
        Expr::Mux(x, y, z) => first_err(
            expr_err(x.value, consts, statics),
            first_err(expr_err(y.value, consts, statics), expr_err(z.value, consts, statics)),
        ),
        Expr::Reg(c, x) => first_err(
            const_step(c.value, consts, statics).1,
            expr_err(x.value, consts, statics),
        ),
        Expr::Ram(r) => first_err(
            expr_err(r.read_addr.value, consts, statics),
            first_err(
                expr_err(r.write_enable.value, consts, statics),
                first_err(
                    expr_err(r.write_addr.value, consts, statics),
                    expr_err(r.write_data.value, consts, statics),
                ),
            ),
        ),
        Expr::Rom(r) => first_err(
            expr_err(r.read_addr.value, consts, statics),
            const_step(r.word_size, consts, statics).1,
        ),
        Expr::FnCall(f) => first_err(
            args_err_from(f.args.value@, 0, consts, statics),
            consts_err_from(f.static_args.value@, 0, consts, statics),
        ),
        _ => None,
    }
}

/// The first error met rewriting the constants of the expressions of `s` from index `i` on.
pub open spec fn args_err_from(
    s: Seq<Loc<Expr>>,
    i: int,
    consts: Seq<(String, Const)>,
    statics: Option<Seq<String>>,
) -> Option<ComputeConstError>
    decreases s, s.len() - i,
{
    if 0 <= i < s.len() {
        first_err(expr_err(s[i].value, consts, statics), args_err_from(s, i + 1, consts, statics))
    } else {
        None
    }
}

/// `n` is the expression `e` rewritten when `go` holds, and `e` unchanged otherwise.
pub open spec fn loc_stepped(
    e: Loc<Expr>,
    n: Loc<Expr>,
    go: bool,
    consts: Seq<(String, Const)>,
    statics: Option<Seq<String>>,
) -> bool
    decreases e, 1int,
{
    if go {
        n.loc == e.loc && expr_mapped(e.value, n.value, consts, statics)
    } else {
        n == e
    }
}

/// `n` is `e` with its constants rewritten in evaluation order, up to the first error.
pub open spec fn expr_mapped(
    e: Expr,
    n: Expr,
    consts: Seq<(String, Const)>,
    statics: Option<Seq<String>>,
) -> bool
    decreases e, 0int,
{
    match e {
        Expr::Const(ConstExpr::Unknown(b, c)) => n == Expr::Const(
            ConstExpr::Unknown(b, Loc { loc: c.loc, value: const_step(c.value, consts, statics).0 }),
        ),
        Expr::Not(x) => n matches Expr::Not(nx) && expr_mapped(*x, *nx, consts, statics),
        Expr::Slice(x, c1, c2) => n matches Expr::Slice(nx, n1, n2) && {
            let go2 = opt_const_err(c1, consts, statics) is None;
            let gox = go2 && opt_const_err(c2, consts, statics) is None;
            &&& opt_const_stepped(c1, n1, true, consts, statics)
            &&& opt_const_stepped(c2, n2, go2, consts, statics)
            &&& loc_stepped(*x, *nx, gox, consts, statics)
        },
        Expr::BiOp(op, x, y) => n matches Expr::BiOp(nop, nx, ny) && {
            &&& nop == op
            &&& loc_stepped(*x, *nx, true, consts, statics)
            &&& loc_stepped(*y, *ny, expr_err(x.value, consts, statics) is None, consts, statics)
        },
        Expr::Mux(x, y, z) => n matches Expr::Mux(nx, ny, nz) && {
            let goy = expr_err(x.value, consts, statics) is None;
            let goz = goy && expr_err(y.value, consts, statics) is None;
            &&& loc_stepped(*x, *nx, true, consts, statics)
            &&& loc_stepped(*y, *ny, goy, consts, statics)
            &&& loc_stepped(*z, *nz, goz, consts, statics)
        },
        Expr::Reg(c, x) => n matches Expr::Reg(nc, nx) && {
            &&& nc.loc == c.loc
            &&& nc.value == const_step(c.value, consts, statics).0
            &&& loc_stepped(
                *x,
                *nx,
                const_step(c.value, consts, statics).1 is None,
                consts,
                statics,
            )
        },
        Expr::Ram(r) => n matches Expr::Ram(nr) && {
            let go2 = expr_err(r.read_addr.value, consts, statics) is None;
            let go3 = go2 && expr_err(r.write_enable.value, consts, statics) is None;
            let go4 = go3 && expr_err(r.write_addr.value, consts, statics) is None;
            &&& loc_stepped(*r.read_addr, *nr.read_addr, true, consts, statics)
            &&& loc_stepped(*r.write_enable, *nr.write_enable, go2, consts, statics)
            &&& loc_stepped(*r.write_addr, *nr.write_addr, go3, consts, statics)
            &&& loc_stepped(*r.write_data, *nr.write_data, go4, consts, statics)
        },
        Expr::Rom(r) => n matches Expr::Rom(nr) && {
            &&& loc_stepped(*r.read_addr, *nr.read_addr, true, consts, statics)
            &&& const_stepped(
                r.word_size,
                nr.word_size,
                expr_err(r.read_addr.value, consts, statics) is None,
                consts,
                statics,
            )
        },
        Expr::FnCall(f) => n matches Expr::FnCall(nf) && {
            &&& nf.name == f.name
            &&& nf.args.loc == f.args.loc
            &&& nf.static_args.loc == f.static_args.loc
            &&& nf.args.value@.len() == f.args.value@.len()
            &&& args_mapped_from(f.args.value@, nf.args.value@, 0, consts, statics)
            &&& nf.static_args.value@.len() == f.static_args.value@.len()
            &&& if args_err_from(f.args.value@, 0, consts, statics) is None {
                consts_mapped_from(f.static_args.value@, nf.static_args.value@, 0, consts, statics)
            } else {
                nf.static_args.value@ == f.static_args.value@
            }
        },
        _ => n == e,
    }
}

/// `t` is `s` with the constants of its expressions rewritten from index `i` on,
/// up to the first error.
pub open spec fn args_mapped_from(
    s: Seq<Loc<Expr>>,
    t: Seq<Loc<Expr>>,
    i: int,
    consts: Seq<(String, Const)>,
    statics: Option<Seq<String>>,
) -> bool
    decreases s, s.len() - i,
{
    if 0 <= i < s.len() {
        &&& i < t.len()
        &&& loc_stepped(s[i], t[i], true, consts, statics)
        &&& if expr_err(s[i].value, consts, statics) is Some {
            forall|j: int| i < j < s.len() ==> #[trigger] t[j] == s[j]
        } else {
            args_mapped_from(s, t, i + 1, consts, statics)
        }
    } else {
        true
    }
}


/// Whether every constant of an optional constant can be rewritten within `i32`.
pub open spec fn opt_const_fits(
    c: Option<Const>,
    consts: Seq<(String, Const)>,
    statics: Option<Seq<String>>,
) -> bool {
    match c {
        None => true,
        Some(c) => const_step_fits(c, consts, statics),
    }
}

/// Whether every constant of an expression can be rewritten within `i32`.
pub open spec fn expr_fits(e: Expr, consts: Seq<(String, Const)>, statics: Option<Seq<String>>) -> bool
    decreases e, 0int,
{
    match e {
        Expr::Const(ConstExpr::Unknown(_, c)) => const_step_fits(c.value, consts, statics),
        Expr::Not(x) => expr_fits(*x, consts, statics),
        Expr::Slice(x, c1, c2) => opt_const_fits(c1, consts, statics) && opt_const_fits(
            c2,
            consts,
            statics,
        ) && expr_fits(x.value, consts, statics),
        Expr::BiOp(_, x, y) => expr_fits(x.value, consts, statics) && expr_fits(
            y.value,
            consts,
            statics,
        ),
        Expr::Mux(x, y, z) => expr_fits(x.value, consts, statics) && expr_fits(
            y.value,
            consts,
            statics,
        ) && expr_fits(z.value, consts, statics),
        Expr::Reg(c, x) => const_step_fits(c.value, consts, statics) && expr_fits(
            x.value,
            consts,
            statics,
        ),
        Expr::Ram(r) => expr_fits(r.read_addr.value, consts, statics) && expr_fits(
            r.write_enable.value,
            consts,
            statics,
        ) && expr_fits(r.write_addr.value, consts, statics) && expr_fits(
            r.write_data.value,
            consts,
            statics,
        ),
        Expr::Rom(r) => expr_fits(r.read_addr.value, consts, statics) && const_step_fits(
            r.word_size,
            consts,
            statics,
        ),
        Expr::FnCall(f) => args_fit_from(f.args.value@, 0, consts, statics) && consts_fit(
            f.static_args.value@,
            consts,
            statics,
        ),
        _ => true,
    }
}

/// Whether every constant of the expressions of `s` from index `i` on can be rewritten within `i32`.
pub open spec fn args_fit_from(
    s: Seq<Loc<Expr>>,
    i: int,
    consts: Seq<(String, Const)>,
    statics: Option<Seq<String>>,
) -> bool
    decreases s, s.len() - i,
{
    if 0 <= i < s.len() {
        expr_fits(s[i].value, consts, statics) && args_fit_from(s, i + 1, consts, statics)
    } else {
        true
    }
}

proof fn lemma_args_fit(
    s: Seq<Loc<Expr>>,
    i: int,
    j: int,
    consts: Seq<(String, Const)>,
    statics: Option<Seq<String>>,
)
    requires
        0 <= i <= j < s.len(),
        args_fit_from(s, i, consts, statics),
    ensures
        expr_fits(s[j].value, consts, statics),
    decreases j - i,
{
    if i < j {
        lemma_args_fit(s, i + 1, j, consts, statics);
    }
}

proof fn lemma_args_scan(
    s: Seq<Loc<Expr>>,
    t: Seq<Loc<Expr>>,
    k: int,
    stop: int,
    consts: Seq<(String, Const)>,
    statics: Option<Seq<String>>,
)
    requires
        0 <= k <= stop <= s.len(),
        s.len() == t.len(),
        forall|j: int| k <= j < stop ==> loc_stepped(#[trigger] s[j], t[j], true, consts, statics),
        forall|j: int| k <= j < stop ==> expr_err((#[trigger] s[j]).value, consts, statics) is None,
        stop < s.len() ==> loc_stepped(s[stop], t[stop], true, consts, statics) && expr_err(
            s[stop].value,
            consts,
            statics,
        ) is Some,
        forall|j: int| stop < j < s.len() ==> #[trigger] t[j] == s[j],
    ensures
        args_mapped_from(s, t, k, consts, statics),
        args_err_from(s, k, consts, statics) == (if stop < s.len() {
            expr_err(s[stop].value, consts, statics)
        } else {
            None
        }),
    decreases stop - k,
{
    if k < stop {
        assert(loc_stepped(s[k], t[k], true, consts, statics));
        assert(expr_err(s[k].value, consts, statics) is None);
        lemma_args_scan(s, t, k + 1, stop, consts, statics);
    }
}

/// Rewrites the constants of the expressions of a vector from left to right,
/// stopping at the first error.
fn map_consts_in_args(
    v: &mut Vec<Loc<Expr>>,
    consts: &Table<Const>,
    static_args: Option<&Vec<String>>,
) -> (r: Result<(), ComputeConstError>)
    requires
        args_fit_from(old(v)@, 0, consts@, statics_view(static_args)),
    ensures
        final(v)@.len() == old(v)@.len(),
        args_mapped_from(old(v)@, final(v)@, 0, consts@, statics_view(static_args)),
        r is Err <==> args_err_from(old(v)@, 0, consts@, statics_view(static_args)) is Some,
        r matches Err(e) ==> args_err_from(old(v)@, 0, consts@, statics_view(static_args))
            == Some(e),
    decreases *old(v), 1int,
{
    let ghost sv = statics_view(static_args);
    let ghost s0 = v@;
    let n = v.len();
    let mut i: usize = 0;
    let mut out: Result<(), ComputeConstError> = Ok(());
    while i < n && out.is_ok()
        invariant
            n == s0.len(),
            s0 == old(v)@,
            v@.len() == n,
            i <= n,
            args_fit_from(s0, 0, consts@, sv),
            sv == statics_view(static_args),
            forall|j: int| 0 <= j < i ==> loc_stepped(#[trigger] s0[j], v@[j], true, consts@, sv),
            forall|j: int| 0 <= j < i ==> expr_err((#[trigger] s0[j]).value, consts@, sv) is None,
            forall|j: int| i < j < n ==> #[trigger] v@[j] == s0[j],
            out is Ok ==> i < n ==> v@[i as int] == s0[i as int],
            out matches Err(e) ==> i < n && loc_stepped(s0[i as int], v@[i as int], true, consts@, sv)
                && expr_err(s0[i as int].value, consts@, sv) == Some(e),
        decreases n - i, (if out is Ok { 1int } else { 0int }),
    {
        proof {
            lemma_args_fit(s0, 0, i as int, consts@, sv);
            assert(decreases_to!(s0 => s0[i as int].value));
        }
        let res = map_consts_in_expr(&mut v[i].value, consts, static_args);
        match res {
            Err(e) => {
                out = Err(e);
            },
            Ok(()) => {
                i = i + 1;
            },
        }
    }
    proof {
        if out is Err {
            lemma_args_scan(s0, v@, 0, i as int, consts@, sv);
        } else {
            lemma_args_scan(s0, v@, 0, n as int, consts@, sv);
        }
    }
    out
}

#[verifier::rlimit(30)]
fn map_consts_in_biop(
    expr: &mut Expr,
    consts: &Table<Const>,
    static_args: Option<&Vec<String>>,
) -> (r: Result<(), ComputeConstError>)
    requires
        *old(expr) is BiOp,
        expr_fits(*old(expr), consts@, statics_view(static_args)),
    ensures
        expr_mapped(*old(expr), *final(expr), consts@, statics_view(static_args)),
        r is Err <==> expr_err(*old(expr), consts@, statics_view(static_args)) is Some,
        r matches Err(e) ==> expr_err(*old(expr), consts@, statics_view(static_args)) == Some(e),
    decreases *old(expr), 1int,
{
    let ghost sv = statics_view(static_args);
    let mut taken = Expr::Const(ConstExpr::Known(Vec::new()));
    std::mem::swap(expr, &mut taken);
    match taken {
        Expr::BiOp(op, mut e1, mut e2) => {
            let ghost e10 = *e1;
            let res = map_consts_in_expr(&mut e1.value, consts, static_args);
            assert(loc_stepped(e10, *e1, true, consts@, sv));
            if res.is_err() {
                assert(expr_err(e10.value, consts@, sv) is Some);
                assert(loc_stepped(*e2, *e2, false, consts@, sv));
                *expr = Expr::BiOp(op, e1, e2);
                return res;
            }
            let ghost e20 = *e2;
            let res = map_consts_in_expr(&mut e2.value, consts, static_args);
            assert(loc_stepped(e20, *e2, true, consts@, sv));
            *expr = Expr::BiOp(op, e1, e2);
            res
        },
        other => {
            *expr = other;
            Ok(())
        },
    }
}

#[verifier::rlimit(30)]
fn map_consts_in_mux(
    expr: &mut Expr,
    consts: &Table<Const>,
    static_args: Option<&Vec<String>>,
) -> (r: Result<(), ComputeConstError>)
    requires
        *old(expr) is Mux,
        expr_fits(*old(expr), consts@, statics_view(static_args)),
    ensures
        expr_mapped(*old(expr), *final(expr), consts@, statics_view(static_args)),
        r is Err <==> expr_err(*old(expr), consts@, statics_view(static_args)) is Some,
        r matches Err(e) ==> expr_err(*old(expr), consts@, statics_view(static_args)) == Some(e),
    decreases *old(expr), 1int,
{
    let ghost sv = statics_view(static_args);
    let mut taken = Expr::Const(ConstExpr::Known(Vec::new()));
    std::mem::swap(expr, &mut taken);
    match taken {
        Expr::Mux(mut e1, mut e2, mut e3) => {
            let ghost e10 = *e1;
            let res = map_consts_in_expr(&mut e1.value, consts, static_args);
            assert(loc_stepped(e10, *e1, true, consts@, sv));
            if res.is_err() {
                assert(expr_err(e10.value, consts@, sv) is Some);
                assert(loc_stepped(*e2, *e2, false, consts@, sv));
                assert(loc_stepped(*e3, *e3, false, consts@, sv));
                *expr = Expr::Mux(e1, e2, e3);
                return res;
            }
            let ghost e20 = *e2;
            let res = map_consts_in_expr(&mut e2.value, consts, static_args);
            assert(loc_stepped(e20, *e2, true, consts@, sv));
            if res.is_err() {
                assert(expr_err(e20.value, consts@, sv) is Some);
                assert(loc_stepped(*e3, *e3, false, consts@, sv));
                *expr = Expr::Mux(e1, e2, e3);
                return res;
            }
            let ghost e30 = *e3;
            let res = map_consts_in_expr(&mut e3.value, consts, static_args);
            assert(loc_stepped(e30, *e3, true, consts@, sv));
            *expr = Expr::Mux(e1, e2, e3);
            res
        },
        other => {
            *expr = other;
            Ok(())
        },
    }
}

#[verifier::rlimit(30)]
fn map_consts_in_ram(
    expr: &mut Expr,
    consts: &Table<Const>,
    static_args: Option<&Vec<String>>,
) -> (r: Result<(), ComputeConstError>)
    requires
        *old(expr) is Ram,
        expr_fits(*old(expr), consts@, statics_view(static_args)),
    ensures
        expr_mapped(*old(expr), *final(expr), consts@, statics_view(static_args)),
        r is Err <==> expr_err(*old(expr), consts@, statics_view(static_args)) is Some,
        r matches Err(e) ==> expr_err(*old(expr), consts@, statics_view(static_args)) == Some(e),
    decreases *old(expr), 1int,
{
    let ghost sv = statics_view(static_args);
    let mut taken = Expr::Const(ConstExpr::Known(Vec::new()));
    std::mem::swap(expr, &mut taken);
    match taken {
        Expr::Ram(RamStruct { read_addr: mut e1, write_enable: mut e2, write_addr: mut e3, write_data: mut e4 }) => {
            let ghost e10 = *e1;
            let res = map_consts_in_expr(&mut e1.value, consts, static_args);
            assert(loc_stepped(e10, *e1, true, consts@, sv));
            if res.is_err() {
                assert(expr_err(e10.value, consts@, sv) is Some);
                assert(loc_stepped(*e2, *e2, false, consts@, sv));
                assert(loc_stepped(*e3, *e3, false, consts@, sv));
                assert(loc_stepped(*e4, *e4, false, consts@, sv));
                *expr = Expr::Ram(RamStruct { read_addr: e1, write_enable: e2, write_addr: e3, write_data: e4 });
                return res;
            }
            let ghost e20 = *e2;
            let res = map_consts_in_expr(&mut e2.value, consts, static_args);
            assert(loc_stepped(e20, *e2, true, consts@, sv));
            if res.is_err() {
                assert(expr_err(e20.value, consts@, sv) is Some);
                assert(loc_stepped(*e3, *e3, false, consts@, sv));
                assert(loc_stepped(*e4, *e4, false, consts@, sv));
                *expr = Expr::Ram(RamStruct { read_addr: e1, write_enable: e2, write_addr: e3, write_data: e4 });
                return res;
            }
            let ghost e30 = *e3;
            let res = map_consts_in_expr(&mut e3.value, consts, static_args);
            assert(loc_stepped(e30, *e3, true, consts@, sv));
            if res.is_err() {
                assert(expr_err(e30.value, consts@, sv) is Some);
                assert(loc_stepped(*e4, *e4, false, consts@, sv));
                *expr = Expr::Ram(RamStruct { read_addr: e1, write_enable: e2, write_addr: e3, write_data: e4 });
                return res;
            }
            let ghost e40 = *e4;
            let res = map_consts_in_expr(&mut e4.value, consts, static_args);
            assert(loc_stepped(e40, *e4, true, consts@, sv));
            *expr = Expr::Ram(RamStruct { read_addr: e1, write_enable: e2, write_addr: e3, write_data: e4 });
            res
        },
        other => {
            *expr = other;
            Ok(())
        },
    }
}

#[verifier::rlimit(30)]
fn map_consts_in_rom(
    expr: &mut Expr,
    consts: &Table<Const>,
    static_args: Option<&Vec<String>>,
) -> (r: Result<(), ComputeConstError>)
    requires
        *old(expr) is Rom,
        expr_fits(*old(expr), consts@, statics_view(static_args)),
    ensures
        expr_mapped(*old(expr), *final(expr), consts@, statics_view(static_args)),
        r is Err <==> expr_err(*old(expr), consts@, statics_view(static_args)) is Some,
        r matches Err(e) ==> expr_err(*old(expr), consts@, statics_view(static_args)) == Some(e),
    decreases *old(expr), 1int,
{
    let ghost sv = statics_view(static_args);
    let mut taken = Expr::Const(ConstExpr::Known(Vec::new()));
    std::mem::swap(expr, &mut taken);
    match taken {
        Expr::Rom(RomStruct { word_size: mut w, read_addr: mut e1 }) => {
            let ghost e10 = *e1;
            let res = map_consts_in_expr(&mut e1.value, consts, static_args);
            assert(loc_stepped(e10, *e1, true, consts@, sv));
            if res.is_err() {
                assert(expr_err(e10.value, consts@, sv) is Some);
                *expr = Expr::Rom(RomStruct { word_size: w, read_addr: e1 });
                return res;
            }
            let res = const_step_exec(&mut w, consts, static_args);
            *expr = Expr::Rom(RomStruct { word_size: w, read_addr: e1 });
            res
        },
        other => {
            *expr = other;
            Ok(())
        },
    }
}

#[verifier::rlimit(30)]
fn map_consts_in_slice(
    expr: &mut Expr,
    consts: &Table<Const>,
    static_args: Option<&Vec<String>>,
) -> (r: Result<(), ComputeConstError>)
    requires
        *old(expr) is Slice,
        expr_fits(*old(expr), consts@, statics_view(static_args)),
    ensures
        expr_mapped(*old(expr), *final(expr), consts@, statics_view(static_args)),
        r is Err <==> expr_err(*old(expr), consts@, statics_view(static_args)) is Some,
        r matches Err(e) ==> expr_err(*old(expr), consts@, statics_view(static_args)) == Some(e),
    decreases *old(expr), 1int,
{
    let ghost sv = statics_view(static_args);
    let mut taken = Expr::Const(ConstExpr::Known(Vec::new()));
    std::mem::swap(expr, &mut taken);
    match taken {
        Expr::Slice(mut e, mut c1, mut c2) => {
            let ghost c10 = c1;
            let ghost c20 = c2;
            if let Some(c) = &mut c1 {
                let res = const_step_exec(c, consts, static_args);
                if res.is_err() {
                    assert(opt_const_err(c10, consts@, sv) is Some);
                    assert(opt_const_stepped(c20, c2, false, consts@, sv));
                    assert(loc_stepped(*e, *e, false, consts@, sv));
                    *expr = Expr::Slice(e, c1, c2);
                    return res;
                }
            }
            assert(opt_const_err(c10, consts@, sv) is None);
            assert(opt_const_stepped(c10, c1, true, consts@, sv));
            if let Some(c) = &mut c2 {
                let res = const_step_exec(c, consts, static_args);
                if res.is_err() {
                    assert(opt_const_err(c20, consts@, sv) is Some);
                    assert(loc_stepped(*e, *e, false, consts@, sv));
                    *expr = Expr::Slice(e, c1, c2);
                    return res;
                }
            }
            let ghost e0 = *e;
            let res = map_consts_in_expr(&mut e.value, consts, static_args);
            assert(loc_stepped(e0, *e, true, consts@, sv));
            *expr = Expr::Slice(e, c1, c2);
            res
        },
        other => {
            *expr = other;
            Ok(())
        },
    }
}

#[verifier::rlimit(30)]
fn map_consts_in_call(
    expr: &mut Expr,
    consts: &Table<Const>,
    static_args: Option<&Vec<String>>,
) -> (r: Result<(), ComputeConstError>)
    requires
        *old(expr) is FnCall,
        expr_fits(*old(expr), consts@, statics_view(static_args)),
    ensures
        expr_mapped(*old(expr), *final(expr), consts@, statics_view(static_args)),
        r is Err <==> expr_err(*old(expr), consts@, statics_view(static_args)) is Some,
        r matches Err(e) ==> expr_err(*old(expr), consts@, statics_view(static_args)) == Some(e),
    decreases *old(expr), 1int,
{
    let ghost sv = statics_view(static_args);
    let mut taken = Expr::Const(ConstExpr::Known(Vec::new()));
    std::mem::swap(expr, &mut taken);
    match taken {
        Expr::FnCall(mut f) => {
            let res = map_consts_in_args(&mut f.args.value, consts, static_args);
            if res.is_err() {
                *expr = Expr::FnCall(f);
                return res;
            }
            let res = map_consts_in_vec(&mut f.static_args.value, consts, static_args);
            *expr = Expr::FnCall(f);
            res
        },
        other => {
            *expr = other;
            Ok(())
        },
    }
}

#[verifier::rlimit(30)]
fn map_consts_in_reg(
    expr: &mut Expr,
    consts: &Table<Const>,
    static_args: Option<&Vec<String>>,
) -> (r: Result<(), ComputeConstError>)
    requires
        *old(expr) is Reg,
        expr_fits(*old(expr), consts@, statics_view(static_args)),
    ensures
        expr_mapped(*old(expr), *final(expr), consts@, statics_view(static_args)),
        r is Err <==> expr_err(*old(expr), consts@, statics_view(static_args)) is Some,
        r matches Err(e) ==> expr_err(*old(expr), consts@, statics_view(static_args)) == Some(e),
    decreases *old(expr), 1int,
{
    let ghost sv = statics_view(static_args);
    let mut taken = Expr::Const(ConstExpr::Known(Vec::new()));
    std::mem::swap(expr, &mut taken);
    match taken {
        Expr::Reg(mut c, mut e) => {
            let ghost cv0 = c.value;
            let res = const_step_exec(&mut c.value, consts, static_args);
            if res.is_err() {
                assert(const_step(cv0, consts@, sv).1 is Some);
                assert(loc_stepped(*e, *e, false, consts@, sv));
                *expr = Expr::Reg(c, e);
                return res;
            }
            let ghost e0 = *e;
            let res = map_consts_in_expr(&mut e.value, consts, static_args);
            assert(loc_stepped(e0, *e, true, consts@, sv));
            *expr = Expr::Reg(c, e);
            res
        },
        other => {
            *expr = other;
            Ok(())
        },
    }
}

/// Rewrites the constants of an expression in evaluation order, stopping at the first error:
/// each is reduced to its value when `static_args` is `None`, and simplified keeping the
/// static arguments unknown otherwise.
pub fn map_consts_in_expr(
    expr: &mut Expr,
    consts: &Table<Const>,
    static_args: Option<&Vec<String>>,
) -> (r: Result<(), ComputeConstError>)
    requires
        expr_fits(*old(expr), consts@, statics_view(static_args)),
    ensures
        expr_mapped(*old(expr), *final(expr), consts@, statics_view(static_args)),
        r is Err <==> expr_err(*old(expr), consts@, statics_view(static_args)) is Some,
        r matches Err(e) ==> expr_err(*old(expr), consts@, statics_view(static_args)) == Some(e),
    decreases *old(expr), 2int,
{
    match expr {
        Expr::Const(ConstExpr::Unknown(_, c)) => {
            return const_step_exec(&mut c.value, consts, static_args);
        },
        Expr::Not(e) => {
            return map_consts_in_expr(&mut **e, consts, static_args);
        },
        _ => {},
    }
    if matches!(*expr, Expr::Slice(..)) {
        map_consts_in_slice(expr, consts, static_args)
    } else if matches!(*expr, Expr::BiOp(..)) {
        map_consts_in_biop(expr, consts, static_args)
    } else if matches!(*expr, Expr::Mux(..)) {
        map_consts_in_mux(expr, consts, static_args)
    } else if matches!(*expr, Expr::Reg(..)) {
        map_consts_in_reg(expr, consts, static_args)
    } else if matches!(*expr, Expr::Ram(..)) {
        map_consts_in_ram(expr, consts, static_args)
    } else if matches!(*expr, Expr::Rom(..)) {
        map_consts_in_rom(expr, consts, static_args)
    } else if matches!(*expr, Expr::FnCall(..)) {
        map_consts_in_call(expr, consts, static_args)
    } else {
        Ok(())
    }
}


/// The first error met rewriting the constants of the assignments of `s` from index `i` on.
pub open spec fn assigns_err_from(
    s: Seq<VarAssign>,
    i: int,
    consts: Seq<(String, Const)>,
    statics: Option<Seq<String>>,
) -> Option<ComputeConstError>
    decreases s.len() - i,
{
    if 0 <= i < s.len() {
        first_err(
            expr_err(s[i].expr.value, consts, statics),
            assigns_err_from(s, i + 1, consts, statics),
        )
    } else {
        None
    }
}

/// `n` is the assignment `a` with its expression rewritten when `go` holds, and `a` otherwise.
pub open spec fn assign_stepped(
    a: VarAssign,
    n: VarAssign,
    go: bool,
    consts: Seq<(String, Const)>,
    statics: Option<Seq<String>>,
) -> bool {
    n.var == a.var && loc_stepped(a.expr, n.expr, go, consts, statics)
}

/// `t` is `s` with the constants of its assignments rewritten from index `i` on,
/// up to the first error.
pub open spec fn assigns_mapped_from(
    s: Seq<VarAssign>,
    t: Seq<VarAssign>,
    i: int,
    consts: Seq<(String, Const)>,
    statics: Option<Seq<String>>,
) -> bool
    decreases s.len() - i,
{
    if 0 <= i < s.len() {
        &&& i < t.len()
        &&& assign_stepped(s[i], t[i], true, consts, statics)
        &&& if expr_err(s[i].expr.value, consts, statics) is Some {
            forall|j: int| i < j < s.len() ==> #[trigger] t[j] == s[j]
        } else {
            assigns_mapped_from(s, t, i + 1, consts, statics)
        }
    } else {
        true
    }
}

/// Whether every constant of the assignments of `s` from index `i` on can be rewritten
/// within `i32`.
pub open spec fn assigns_fit_from(
    s: Seq<VarAssign>,
    i: int,
    consts: Seq<(String, Const)>,
    statics: Option<Seq<String>>,
) -> bool
    decreases s.len() - i,
{
    if 0 <= i < s.len() {
        expr_fits(s[i].expr.value, consts, statics) && assigns_fit_from(s, i + 1, consts, statics)
    } else {
        true
    }
}

proof fn lemma_assigns_fit(
    s: Seq<VarAssign>,
    i: int,
    j: int,
    consts: Seq<(String, Const)>,
    statics: Option<Seq<String>>,
)
    requires
        0 <= i <= j < s.len(),
        assigns_fit_from(s, i, consts, statics),
    ensures
        expr_fits(s[j].expr.value, consts, statics),
    decreases j - i,
{
    if i < j {
        lemma_assigns_fit(s, i + 1, j, consts, statics);
    }
}

proof fn lemma_assigns_scan(
    s: Seq<VarAssign>,
    t: Seq<VarAssign>,
    k: int,
    stop: int,
    consts: Seq<(String, Const)>,
    statics: Option<Seq<String>>,
)
    requires
        0 <= k <= stop <= s.len(),
        s.len() == t.len(),
        forall|j: int|
            k <= j < stop ==> assign_stepped(#[trigger] s[j], t[j], true, consts, statics),
        forall|j: int|
            k <= j < stop ==> expr_err((#[trigger] s[j]).expr.value, consts, statics) is None,
        stop < s.len() ==> assign_stepped(s[stop], t[stop], true, consts, statics) && expr_err(
            s[stop].expr.value,
            consts,
            statics,
        ) is Some,
        forall|j: int| stop < j < s.len() ==> #[trigger] t[j] == s[j],
    ensures
        assigns_mapped_from(s, t, k, consts, statics),
        assigns_err_from(s, k, consts, statics) == (if stop < s.len() {
            expr_err(s[stop].expr.value, consts, statics)
        } else {
            None
        }),
    decreases stop - k,
{
    if k < stop {
        assert(assign_stepped(s[k], t[k], true, consts, statics));
        assert(expr_err(s[k].expr.value, consts, statics) is None);
        lemma_assigns_scan(s, t, k + 1, stop, consts, statics);
    }
}

/// Rewrites the constants of the expressions of assignments from left to right,
/// stopping at the first error.
fn map_consts_in_assigns(
    v: &mut Vec<VarAssign>,
    consts: &Table<Const>,
    static_args: Option<&Vec<String>>,
) -> (r: Result<(), ComputeConstError>)
    requires
        assigns_fit_from(old(v)@, 0, consts@, statics_view(static_args)),
    ensures
        final(v)@.len() == old(v)@.len(),
        assigns_mapped_from(old(v)@, final(v)@, 0, consts@, statics_view(static_args)),
        r is Err <==> assigns_err_from(old(v)@, 0, consts@, statics_view(static_args)) is Some,
        r matches Err(e) ==> assigns_err_from(old(v)@, 0, consts@, statics_view(static_args))
            == Some(e),
{
    let ghost sv = statics_view(static_args);
    let ghost s0 = v@;
    let n = v.len();
    let mut i: usize = 0;
    let mut out: Result<(), ComputeConstError> = Ok(());
    while i < n && out.is_ok()
        invariant
            n == s0.len(),
            s0 == old(v)@,
            v@.len() == n,
            i <= n,
            assigns_fit_from(s0, 0, consts@, sv),
            sv == statics_view(static_args),
            forall|j: int|
                0 <= j < i ==> assign_stepped(#[trigger] s0[j], v@[j], true, consts@, sv),
            forall|j: int|
                0 <= j < i ==> expr_err((#[trigger] s0[j]).expr.value, consts@, sv) is None,
            forall|j: int| i < j < n ==> #[trigger] v@[j] == s0[j],
            out is Ok ==> i < n ==> v@[i as int] == s0[i as int],
            out matches Err(e) ==> i < n && assign_stepped(
                s0[i as int],
                v@[i as int],
                true,
                consts@,
                sv,
            ) && expr_err(s0[i as int].expr.value, consts@, sv) == Some(e),
        decreases n - i, (if out is Ok { 1int } else { 0int }),
    {
        proof {
            lemma_assigns_fit(s0, 0, i as int, consts@, sv);
        }
        let ghost a0 = v@[i as int];
        let res = map_consts_in_expr(&mut v[i].expr.value, consts, static_args);
        assert(assign_stepped(a0, v@[i as int], true, consts@, sv));
        match res {
            Err(e) => {
                out = Err(e);
            },
            Ok(()) => {
                i = i + 1;
            },
        }
    }
    proof {
        if out is Err {
            lemma_assigns_scan(s0, v@, 0, i as int, consts@, sv);
        } else {
            lemma_assigns_scan(s0, v@, 0, n as int, consts@, sv);
        }
    }
    out
}

/// The first error met rewriting the constants of a statement, in evaluation order.
pub open spec fn stmt_err(
    st: Statement,
    consts: Seq<(String, Const)>,
    statics: Option<Seq<String>>,
) -> Option<ComputeConstError>
    decreases st, 0int,
{
    match st {
        Statement::Assign(v) => assigns_err_from(v@, 0, consts, statics),
        Statement::If(s) => first_err(
            const_step(s.condition, consts, statics).1,
            first_err(
                stmts_err_from(s.if_block@, 0, consts, statics),
                stmts_err_from(s.else_block@, 0, consts, statics),
            ),
        ),
        Statement::FnAssign(fa) => first_err(
            args_err_from(fa.f.args.value@, 0, consts, statics),
            consts_err_from(fa.f.static_args.value@, 0, consts, statics),
        ),
        Statement::ExtAutomaton(ea) => args_err_from(ea.inputs.value@, 0, consts, statics),
    }
}

/// The first error met rewriting the constants of the statements of `s` from index `i` on.
pub open spec fn stmts_err_from(
    s: Seq<Statement>,
    i: int,
    consts: Seq<(String, Const)>,
    statics: Option<Seq<String>>,
) -> Option<ComputeConstError>
    decreases s, s.len() - i,
{
    if 0 <= i < s.len() {
        first_err(stmt_err(s[i], consts, statics), stmts_err_from(s, i + 1, consts, statics))
    } else {
        None
    }
}

/// `t` is the statement block `s` rewritten from index `i` on when `go` holds,
/// and `s` unchanged otherwise.
pub open spec fn block_stepped(
    s: Seq<Statement>,
    t: Seq<Statement>,
    go: bool,
    consts: Seq<(String, Const)>,
    statics: Option<Seq<String>>,
) -> bool
    decreases s, s.len() + 1,
{
    if go {
        s.len() == t.len() && stmts_mapped_from(s, t, 0, consts, statics)
    } else {
        t == s
    }
}

/// `n` is the statement `st` with its constants rewritten in evaluation order,
/// up to the first error.
pub open spec fn stmt_mapped(
    st: Statement,
    n: Statement,
    consts: Seq<(String, Const)>,
    statics: Option<Seq<String>>,
) -> bool
    decreases st, 0int,
{
    match st {
        Statement::Assign(v) => n matches Statement::Assign(nv) && nv@.len() == v@.len()
            && assigns_mapped_from(v@, nv@, 0, consts, statics),
        Statement::If(s) => n matches Statement::If(ns) && {
            let go_if = const_step(s.condition, consts, statics).1 is None;
            let go_else = go_if && stmts_err_from(s.if_block@, 0, consts, statics) is None;
            &&& ns.condition == const_step(s.condition, consts, statics).0
            &&& block_stepped(s.if_block@, ns.if_block@, go_if, consts, statics)
            &&& block_stepped(s.else_block@, ns.else_block@, go_else, consts, statics)
        },
        Statement::FnAssign(fa) => n matches Statement::FnAssign(nfa) && {
            &&& nfa.vars == fa.vars
            &&& nfa.f.name == fa.f.name
            &&& nfa.f.args.loc == fa.f.args.loc
            &&& nfa.f.static_args.loc == fa.f.static_args.loc
            &&& nfa.f.args.value@.len() == fa.f.args.value@.len()
            &&& args_mapped_from(fa.f.args.value@, nfa.f.args.value@, 0, consts, statics)
            &&& nfa.f.static_args.value@.len() == fa.f.static_args.value@.len()
            &&& if args_err_from(fa.f.args.value@, 0, consts, statics) is None {
                consts_mapped_from(
                    fa.f.static_args.value@,
                    nfa.f.static_args.value@,
                    0,
                    consts,
                    statics,
                )
            } else {
                nfa.f.static_args.value@ == fa.f.static_args.value@
            }
        },
        Statement::ExtAutomaton(ea) => n matches Statement::ExtAutomaton(nea) && {
            &&& nea.name == ea.name
            &&& nea.outputs == ea.outputs
            &&& nea.inputs.loc == ea.inputs.loc
            &&& nea.inputs.value@.len() == ea.inputs.value@.len()
            &&& args_mapped_from(ea.inputs.value@, nea.inputs.value@, 0, consts, statics)
        },
    }
}

/// `t` is `s` with the constants of its statements rewritten from index `i` on,
/// up to the first error.
pub open spec fn stmts_mapped_from(
    s: Seq<Statement>,
    t: Seq<Statement>,
    i: int,
    consts: Seq<(String, Const)>,
    statics: Option<Seq<String>>,
) -> bool
    decreases s, s.len() - i,
{
    if 0 <= i < s.len() {
        &&& i < t.len()
        &&& stmt_mapped(s[i], t[i], consts, statics)
        &&& if stmt_err(s[i], consts, statics) is Some {
            forall|j: int| i < j < s.len() ==> #[trigger] t[j] == s[j]
        } else {
            stmts_mapped_from(s, t, i + 1, consts, statics)
        }
    } else {
        true
    }
}

/// Whether every constant of a statement can be rewritten within `i32`.
pub open spec fn stmt_fits(
    st: Statement,
    consts: Seq<(String, Const)>,
    statics: Option<Seq<String>>,
) -> bool
    decreases st, 0int,
{
    match st {
        Statement::Assign(v) => assigns_fit_from(v@, 0, consts, statics),
        Statement::If(s) => const_step_fits(s.condition, consts, statics) && stmts_fit_from(
            s.if_block@,
            0,
            consts,
            statics,
        ) && stmts_fit_from(s.else_block@, 0, consts, statics),
        Statement::FnAssign(fa) => args_fit_from(fa.f.args.value@, 0, consts, statics)
            && consts_fit(fa.f.static_args.value@, consts, statics),
        Statement::ExtAutomaton(ea) => args_fit_from(ea.inputs.value@, 0, consts, statics),
    }
}

/// Whether every constant of the statements of `s` from index `i` on can be rewritten
/// within `i32`.
pub open spec fn stmts_fit_from(
    s: Seq<Statement>,
    i: int,
    consts: Seq<(String, Const)>,
    statics: Option<Seq<String>>,
) -> bool
    decreases s, s.len() - i,
{
    if 0 <= i < s.len() {
        stmt_fits(s[i], consts, statics) && stmts_fit_from(s, i + 1, consts, statics)
    } else {
        true
    }
}

proof fn lemma_stmts_fit(
    s: Seq<Statement>,
    i: int,
    j: int,
    consts: Seq<(String, Const)>,
    statics: Option<Seq<String>>,
)
    requires
        0 <= i <= j < s.len(),
        stmts_fit_from(s, i, consts, statics),
    ensures
        stmt_fits(s[j], consts, statics),
    decreases j - i,
{
    if i < j {
        lemma_stmts_fit(s, i + 1, j, consts, statics);
    }
}

proof fn lemma_stmts_scan(
    s: Seq<Statement>,
    t: Seq<Statement>,
    k: int,
    stop: int,
    consts: Seq<(String, Const)>,
    statics: Option<Seq<String>>,
)
    requires
        0 <= k <= stop <= s.len(),
        s.len() == t.len(),
        forall|j: int| k <= j < stop ==> stmt_mapped(#[trigger] s[j], t[j], consts, statics),
        forall|j: int| k <= j < stop ==> stmt_err(#[trigger] s[j], consts, statics) is None,
        stop < s.len() ==> stmt_mapped(s[stop], t[stop], consts, statics) && stmt_err(
            s[stop],
            consts,
            statics,
        ) is Some,
        forall|j: int| stop < j < s.len() ==> #[trigger] t[j] == s[j],
    ensures
        stmts_mapped_from(s, t, k, consts, statics),
        stmts_err_from(s, k, consts, statics) == (if stop < s.len() {
            stmt_err(s[stop], consts, statics)
        } else {
            None
        }),
    decreases stop - k,
{
    if k < stop {
        assert(stmt_mapped(s[k], t[k], consts, statics));
        assert(stmt_err(s[k], consts, statics) is None);
        lemma_stmts_scan(s, t, k + 1, stop, consts, statics);
    }
}

/// Rewrites the constants of a block of statements from left to right,
/// stopping at the first error.
fn map_consts_in_block(
    v: &mut Vec<Statement>,
    consts: &Table<Const>,
    static_args: Option<&Vec<String>>,
) -> (r: Result<(), ComputeConstError>)
    requires
        stmts_fit_from(old(v)@, 0, consts@, statics_view(static_args)),
    ensures
        final(v)@.len() == old(v)@.len(),
        stmts_mapped_from(old(v)@, final(v)@, 0, consts@, statics_view(static_args)),
        r is Err <==> stmts_err_from(old(v)@, 0, consts@, statics_view(static_args)) is Some,
        r matches Err(e) ==> stmts_err_from(old(v)@, 0, consts@, statics_view(static_args))
            == Some(e),
    decreases *old(v), 1int,
{
    let ghost sv = statics_view(static_args);
    let ghost s0 = v@;
    let n = v.len();
    let mut i: usize = 0;
    let mut out: Result<(), ComputeConstError> = Ok(());
    while i < n && out.is_ok()
        invariant
            n == s0.len(),
            s0 == old(v)@,
            v@.len() == n,
            i <= n,
            stmts_fit_from(s0, 0, consts@, sv),
            sv == statics_view(static_args),
            forall|j: int| 0 <= j < i ==> stmt_mapped(#[trigger] s0[j], v@[j], consts@, sv),
            forall|j: int| 0 <= j < i ==> stmt_err(#[trigger] s0[j], consts@, sv) is None,
            forall|j: int| i < j < n ==> #[trigger] v@[j] == s0[j],
            out is Ok ==> i < n ==> v@[i as int] == s0[i as int],
            out matches Err(e) ==> i < n && stmt_mapped(s0[i as int], v@[i as int], consts@, sv)
                && stmt_err(s0[i as int], consts@, sv) == Some(e),
        decreases n - i, (if out is Ok { 1int } else { 0int }),
    {
        proof {
            lemma_stmts_fit(s0, 0, i as int, consts@, sv);
            assert(decreases_to!(s0 => s0[i as int]));
        }
        let res = map_consts_in_statement(&mut v[i], consts, static_args);
        match res {
            Err(e) => {
                out = Err(e);
            },
            Ok(()) => {
                i = i + 1;
            },
        }
    }
    proof {
        if out is Err {
            lemma_stmts_scan(s0, v@, 0, i as int, consts@, sv);
        } else {
            lemma_stmts_scan(s0, v@, 0, n as int, consts@, sv);
        }
    }
    out
}

#[verifier::rlimit(30)]
fn map_consts_in_if(
    statement: &mut Statement,
    consts: &Table<Const>,
    static_args: Option<&Vec<String>>,
) -> (r: Result<(), ComputeConstError>)
    requires
        *old(statement) is If,
        stmt_fits(*old(statement), consts@, statics_view(static_args)),
    ensures
        stmt_mapped(*old(statement), *final(statement), consts@, statics_view(static_args)),
        r is Err <==> stmt_err(*old(statement), consts@, statics_view(static_args)) is Some,
        r matches Err(e) ==> stmt_err(*old(statement), consts@, statics_view(static_args))
            == Some(e),
    decreases *old(statement), 1int,
{
    let ghost sv = statics_view(static_args);
    let mut taken = Statement::Assign(Vec::new());
    std::mem::swap(statement, &mut taken);
    match taken {
        Statement::If(mut s) => {
            let ghost c0 = s.condition;
            let ghost b0 = s.if_block@;
            let ghost e0 = s.else_block@;
            let res = const_step_exec(&mut s.condition, consts, static_args);
            if res.is_err() {
                assert(const_step(c0, consts@, sv).1 is Some);
                assert(block_stepped(b0, s.if_block@, false, consts@, sv));
                assert(block_stepped(e0, s.else_block@, false, consts@, sv));
                *statement = Statement::If(s);
                return res;
            }
            let res = map_consts_in_block(&mut s.if_block, consts, static_args);
            assert(block_stepped(b0, s.if_block@, true, consts@, sv));
            if res.is_err() {
                assert(block_stepped(e0, s.else_block@, false, consts@, sv));
                *statement = Statement::If(s);
                return res;
            }
            let res = map_consts_in_block(&mut s.else_block, consts, static_args);
            assert(block_stepped(e0, s.else_block@, true, consts@, sv));
            *statement = Statement::If(s);
            res
        },
        other => {
            *statement = other;
            Ok(())
        },
    }
}

#[verifier::rlimit(30)]
fn map_consts_in_fn_assign(
    statement: &mut Statement,
    consts: &Table<Const>,
    static_args: Option<&Vec<String>>,
) -> (r: Result<(), ComputeConstError>)
    requires
        *old(statement) is FnAssign,
        stmt_fits(*old(statement), consts@, statics_view(static_args)),
    ensures
        stmt_mapped(*old(statement), *final(statement), consts@, statics_view(static_args)),
        r is Err <==> stmt_err(*old(statement), consts@, statics_view(static_args)) is Some,
        r matches Err(e) ==> stmt_err(*old(statement), consts@, statics_view(static_args))
            == Some(e),
{
    let mut taken = Statement::Assign(Vec::new());
    std::mem::swap(statement, &mut taken);
    match taken {
        Statement::FnAssign(mut fa) => {
            let res = map_consts_in_args(&mut fa.f.args.value, consts, static_args);
            if res.is_err() {
                *statement = Statement::FnAssign(fa);
                return res;
            }
            let res = map_consts_in_vec(&mut fa.f.static_args.value, consts, static_args);
            *statement = Statement::FnAssign(fa);
            res
        },
        other => {
            *statement = other;
            Ok(())
        },
    }
}

/// Rewrites the constants of a statement in evaluation order, stopping at the first error:
/// each is reduced to its value when `static_args` is `None`, and simplified keeping the
/// static arguments unknown otherwise.
pub fn map_consts_in_statement(
    statement: &mut Statement,
    consts: &Table<Const>,
    static_args: Option<&Vec<String>>,
) -> (r: Result<(), ComputeConstError>)
    requires
        stmt_fits(*old(statement), consts@, statics_view(static_args)),
    ensures
        stmt_mapped(*old(statement), *final(statement), consts@, statics_view(static_args)),
        r is Err <==> stmt_err(*old(statement), consts@, statics_view(static_args)) is Some,
        r matches Err(e) ==> stmt_err(*old(statement), consts@, statics_view(static_args))
            == Some(e),
    decreases *old(statement), 2int,
{
    match statement {
        Statement::Assign(v) => {
            return map_consts_in_assigns(v, consts, static_args);
        },
        Statement::ExtAutomaton(ea) => {
            return map_consts_in_args(&mut ea.inputs.value, consts, static_args);
        },
        _ => {},
    }
    if matches!(*statement, Statement::If(..)) {
        map_consts_in_if(statement, consts, static_args)
    } else {
        map_consts_in_fn_assign(statement, consts, static_args)
    }
}

/// Replaces every constant of a statement by its value, in evaluation order;
/// stops at the first error (an unknown variable or a division by zero).
pub fn compute_consts_in_statement(statement: &mut Statement, consts: &Table<Const>) -> (r: Result<
    (),
    ComputeConstError,
>)
    requires
        stmt_fits(*old(statement), consts@, None),
    ensures
        stmt_mapped(*old(statement), *final(statement), consts@, None),
        r is Err <==> stmt_err(*old(statement), consts@, None) is Some,
        r matches Err(e) ==> stmt_err(*old(statement), consts@, None) == Some(e),
{
    map_consts_in_statement(statement, consts, None)
}

/// Simplifies every constant of a statement, keeping the static arguments unknown;
/// stops at the first error.
pub fn simplify_consts_in_statement(
    statement: &mut Statement,
    consts: &Table<Const>,
    static_args: &Vec<String>,
) -> (r: Result<(), ComputeConstError>)
    requires
        stmt_fits(*old(statement), consts@, Some(static_args@)),
    ensures
        stmt_mapped(*old(statement), *final(statement), consts@, Some(static_args@)),
        r is Err <==> stmt_err(*old(statement), consts@, Some(static_args@)) is Some,
        r matches Err(e) ==> stmt_err(*old(statement), consts@, Some(static_args@)) == Some(e),
{
    map_consts_in_statement(statement, consts, Some(static_args))
}

/// Replaces every constant of an expression by its value, in evaluation order;
/// stops at the first error.
pub fn compute_consts_in_expr(expr: &mut Expr, consts: &Table<Const>) -> (r: Result<
    (),
    ComputeConstError,
>)
    requires
        expr_fits(*old(expr), consts@, None),
    ensures
        expr_mapped(*old(expr), *final(expr), consts@, None),
        r is Err <==> expr_err(*old(expr), consts@, None) is Some,
        r matches Err(e) ==> expr_err(*old(expr), consts@, None) == Some(e),
{
    map_consts_in_expr(expr, consts, None)
}


/// The constant variables of `c`, from left to right.
pub open spec fn const_vars(c: Const) -> Seq<Loc<String>>
    decreases c,
{
    match c {
        Const::Value(_) => seq![],
        Const::Var(v) => seq![v],
        Const::BiOp(_, c1, c2) => const_vars(*c1) + const_vars(c2.value),
    }
}

/// `locs` after recording the position of each variable of `vars`, in order.
pub open spec fn locs_with(locs: Seq<(String, Pos)>, vars: Seq<Loc<String>>) -> Seq<(String, Pos)>
    decreases vars.len(),
{
    if vars.len() == 0 {
        locs
    } else {
        locs_with(table_set(locs, vars[0].value, vars[0].loc), vars.drop_first())
    }
}

proof fn lemma_locs_with_concat(locs: Seq<(String, Pos)>, a: Seq<Loc<String>>, b: Seq<Loc<String>>)
    ensures
        locs_with(locs, a + b) == locs_with(locs_with(locs, a), b),
    decreases a.len(),
{
    if a.len() == 0 {
        assert(a + b =~= b);
    } else {
        assert((a + b).drop_first() =~= a.drop_first() + b);
        lemma_locs_with_concat(table_set(locs, a[0].value, a[0].loc), a.drop_first(), b);
    }
}

/// The names of a sequence of positioned names.
pub open spec fn loc_names(vars: Seq<Loc<String>>) -> Seq<String> {
    vars.map_values(|l: Loc<String>| l.value)
}

/// Appends the variables `c` depends on to `deps`, and records their positions in `locs`.
pub fn get_dependancies(c: &Const, deps: &mut Vec<String>, locs: &mut Table<Pos>)
    ensures
        final(deps)@ == old(deps)@ + loc_names(const_vars(*c)),
        final(locs)@ == locs_with(old(locs)@, const_vars(*c)),
    decreases c,
{
    match c {
        Const::Value(_) => {
            assert(const_vars(*c) =~= Seq::<Loc<String>>::empty());
            assert(locs_with(locs@, Seq::<Loc<String>>::empty()) == locs@);

            assert(old(deps)@ + loc_names(const_vars(*c)) =~= old(deps)@);
        },
        Const::Var(s) => {
            table_insert(locs, s.value.clone(), s.loc);
            deps.push(s.value.clone());
            assert(loc_names(const_vars(*c)) =~= seq![s.value]);
            assert(const_vars(*c).drop_first() =~= Seq::<Loc<String>>::empty());
            assert(const_vars(*c)[0] == *s);
            assert(locs_with(table_set(old(locs)@, s.value, s.loc), Seq::<Loc<String>>::empty())
                == table_set(old(locs)@, s.value, s.loc));
        },
        Const::BiOp(_, c1, c2) => {
            let ghost d0 = deps@;
            let ghost l0 = locs@;
            get_dependancies(c1, deps, locs);
            get_dependancies(&c2.value, deps, locs);
            proof {
                lemma_locs_with_concat(l0, const_vars(**c1), const_vars(c2.value));
                assert(loc_names(const_vars(**c1) + const_vars(c2.value)) =~= loc_names(
                    const_vars(**c1),
                ) + loc_names(const_vars(c2.value)));
            }
        },
    }
}

/// Whether an operation on two `i32` fits in an `i32` (a division by zero counts as fitting).
fn const_op_fits_exec(op: &ConstBiOp, v1: i32, v2: i32) -> (r: bool)
    ensures
        r == const_op_fits(*op, v1 as int, v2 as int),
{
    let a = v1 as i64;
    let b = v2 as i64;
    let v: i64 = match op {
        ConstBiOp::Plus => a + b,
        ConstBiOp::Times => {
            assert(-0x4000_0000_0000_0000 <= a * b <= 0x4000_0000_0000_0000) by (nonlinear_arith)
                requires
                    -0x8000_0000 <= a <= 0x7fff_ffff,
                    -0x8000_0000 <= b <= 0x7fff_ffff,
            ;
            a * b
        },
        ConstBiOp::Minus => a - b,
        ConstBiOp::Div => {
            if b == 0 {
                return true;
            }
            proof {
                lemma_trunc_div_bounds(v1 as int, v2 as int);
            }
            a / b
        },
        _ => 0,
    };
    i32::MIN as i64 <= v && v <= i32::MAX as i64
}

proof fn lemma_trunc_div_bounds(a: int, b: int)
    requires
        b != 0,
        -0x8000_0000 <= a < 0x8000_0000,
    ensures
        -0x8000_0000 <= trunc_div(a, b) <= 0x8000_0000,
{
    if a >= 0 {
        if b > 0 {
            assert(0 <= a / b <= a) by (nonlinear_arith)
                requires
                    a >= 0,
                    b > 0,
            ;
        } else {
            assert(-a <= a / b <= 0) by (nonlinear_arith)
                requires
                    a >= 0,
                    b < 0,
            ;
        }
    } else {
        let m = -a;
        if b > 0 {
            assert(0 <= m / b <= m) by (nonlinear_arith)
                requires
                    m >= 0,
                    b > 0,
            ;
        } else {
            assert(-m <= m / b <= 0) by (nonlinear_arith)
                requires
                    m >= 0,
                    b < 0,
            ;
        }
    }
}

/// Whether every operation that the evaluation of `c` performs fits in an `i32`.
pub fn const_fits_exec(c: &Const, consts: &Table<Const>) -> (r: bool)
    ensures
        r == const_fits(*c, consts@),
    decreases c,
{
    match c {
        Const::BiOp(op, c1, c2) => {
            if !const_fits_exec(c1, consts) {
                return false;
            }
            match compute_const(c1, consts) {
                Err(_) => true,
                Ok(v1) => {
                    if !const_fits_exec(&c2.value, consts) {
                        return false;
                    }
                    match compute_const(&c2.value, consts) {
                        Err(_) => true,
                        Ok(v2) => const_op_fits_exec(op, v1, v2),
                    }
                },
            }
        },
        _ => true,
    }
}

/// The name of the start node of the dependency graph of the global constants
/// (no constant can be named so).
pub open spec fn start_name() -> Seq<char> {
    seq!['0']
}

/// One step of the resolution of the global constants: the constant `name` is replaced
/// by its value. The start node is skipped.
pub open spec fn resolve_step(consts: Seq<(String, Const)>, locs: Seq<(String, Pos)>, name: String) -> Result<
    Seq<(String, Const)>,
    ComputeConstError,
> {
    if name@ == start_name() {
        Ok(consts)
    } else {
        match table_get(consts, name@) {
            None => Err(ComputeConstError::UnknowVariable(table_get(locs, name@)->Some_0, name)),
            Some(c) => if !const_fits(c, consts) {
                Err(ComputeConstError::Overflow(name))
            } else {
                match const_value(c, consts) {
                    Err(e) => Err(e),
                    Ok(v) => Ok(table_set(consts, name, Const::Value(v as i32))),
                }
            },
        }
    }
}

/// The global constants after resolving the constants of `order` one after the other,
/// or the first error met.
pub open spec fn resolved(consts: Seq<(String, Const)>, locs: Seq<(String, Pos)>, order: Seq<String>) -> Result<
    Seq<(String, Const)>,
    ComputeConstError,
>
    decreases order.len(),
{
    if order.len() == 0 {
        Ok(consts)
    } else {
        match resolve_step(consts, locs, order[0]) {
            Err(e) => Err(e),
            Ok(next) => resolved(next, locs, locs_free_tail(order)),
        }
    }
}

/// The order without its first name.
pub open spec fn locs_free_tail(order: Seq<String>) -> Seq<String> {
    order.drop_first()
}

/// Whether each name of `order` is the start node, a constant, or a recorded dependency.
pub open spec fn order_known(
    consts: Seq<(String, Const)>,
    locs: Seq<(String, Pos)>,
    order: Seq<String>,
) -> bool {
    forall|k: int|
        0 <= k < order.len() ==> (#[trigger] order[k])@ == start_name() || table_has(
            consts,
            order[k]@,
        ) || table_has(locs, order[k]@)
}

/// Replaces the global constants named in `order` by their values, one after the other.
/// The start node is skipped. Fails on a name that is neither a constant nor known, on an
/// error of evaluation, or on a value that does not fit in an `i32`; the constants resolved
/// before the failure keep their values.
pub fn resolve_global_consts(consts: &mut Table<Const>, order: &Vec<String>, locs: &Table<Pos>) -> (r:
    Result<(), ComputeConstError>)
    requires
        order_known(old(consts)@, locs@, order@),
    ensures
        match resolved(old(consts)@, locs@, order@) {
            Ok(t) => r is Ok && final(consts)@ == t,
            Err(e) => r == Err::<(), ComputeConstError>(e),
        },
{
    let n = order.len();
    let mut i: usize = 0;
    let mut out: Result<(), ComputeConstError> = Ok(());
    assert(order@.subrange(0, n as int) =~= order@);
    while i < n && out.is_ok()
        invariant
            n == order@.len(),
            i <= n,
            order_known(consts@, locs@, order@),
            out is Ok ==> resolved(old(consts)@, locs@, order@) == resolved(
                consts@,
                locs@,
                order@.subrange(i as int, n as int),
            ),
            out matches Err(e) ==> resolved(old(consts)@, locs@, order@) == Err::<
                Seq<(String, Const)>,
                ComputeConstError,
            >(e),
        decreases n - i, (if out is Ok { 1int } else { 0int }),
    {
        let ghost before = consts@;
        let ghost rest = order@.subrange(i as int, n as int);
        assert(rest[0] == order@[i as int]);
        assert(locs_free_tail(rest) =~= order@.subrange(i + 1, n as int));
        let step = resolve_one(consts, &order[i], locs);
        match step {
            Err(e) => {
                out = Err(e);
            },
            Ok(()) => {
                assert forall|k: int| 0 <= k < order@.len() implies (#[trigger] order@[k])@
                    == start_name() || table_has(consts@, order@[k]@) || table_has(
                    locs@,
                    order@[k]@,
                ) by {
                    assert(table_has(before, order@[k]@) == table_has(consts@, order@[k]@));
                }
                i = i + 1;
            },
        }
    }
    if out.is_ok() {
        assert(order@.subrange(n as int, n as int) =~= Seq::<String>::empty());
    }
    out
}

fn resolve_one(consts: &mut Table<Const>, name: &String, locs: &Table<Pos>) -> (r: Result<
    (),
    ComputeConstError,
>)
    requires
        name@ == start_name() || table_has(old(consts)@, name@) || table_has(locs@, name@),
    ensures
        match resolve_step(old(consts)@, locs@, *name) {
            Ok(t) => r is Ok && final(consts)@ == t,
            Err(e) => r == Err::<(), ComputeConstError>(e),
        },
        forall|other: Seq<char>| #[trigger] table_has(final(consts)@, other) == table_has(
            old(consts)@,
            other,
        ),
{
    proof {
        reveal_strlit("0");
        assert("0"@ =~= start_name());
    }
    if str_eq(name.as_str(), "0") {
        return Ok(());
    }
    let c = match table_lookup(consts, name.as_str()) {
        Some(c) => c,
        None => {
            proof {
                crate::util::tables::lemma_table_get_some(locs@, name@);
                crate::util::tables::lemma_table_get_some(consts@, name@);
            }
            let pos = match table_lookup(locs, name.as_str()) {
                Some(p) => *p,
                None => {
                    return Err(ComputeConstError::Other(name.clone()));
                },
            };
            return Err(ComputeConstError::UnknowVariable(pos, name.clone()));
        },
    };
    if !const_fits_exec(c, consts) {
        return Err(ComputeConstError::Overflow(name.clone()));
    }
    let v = compute_const(c, consts)?;
    proof {
        crate::util::tables::lemma_table_get_some(consts@, name@);
    }
    let ghost before = consts@;
    table_insert(consts, name.clone(), Const::Value(v));
    assert forall|other: Seq<char>| #[trigger] table_has(consts@, other) == table_has(
        before,
        other,
    ) by {
        crate::util::tables::lemma_table_set_keys(before, *name, Const::Value(v), other);
    }
    Ok(())
}

/// Maps an error of the dependency solver to an error of constant evaluation.
pub fn from_solvent_error(e: DependencyError) -> (r: ComputeConstError)
    ensures
        e == DependencyError::CycleDetected ==> r == ComputeConstError::CyclicDefinition,
        e == DependencyError::NoSuchNode ==> (r matches ComputeConstError::Other(m) && m@
            == no_such_node_message()),
{
    match e {
        DependencyError::CycleDetected => ComputeConstError::CyclicDefinition,
        DependencyError::NoSuchNode => {
            proof {
                reveal_strlit("Unknown error while computing constants dependancy graph");
            }
            ComputeConstError::Other(
                String::from_str("Unknown error while computing constants dependancy graph"),
            )
        },
    }
}

/// The message of an unexpected error of the solver.
pub open spec fn no_such_node_message() -> Seq<char> {
    "Unknown error while computing constants dependancy graph"@
}


/// The positions recorded for the dependencies of the first `n` global constants.
pub open spec fn global_locs(consts: Seq<(String, Const)>, n: int) -> Seq<(String, Pos)>
    decreases n,
{
    if n <= 0 {
        Seq::empty()
    } else {
        locs_with(global_locs(consts, n - 1), const_vars(consts[n - 1].1))
    }
}

proof fn lemma_locs_with_has(locs: Seq<(String, Pos)>, vars: Seq<Loc<String>>, x: Seq<char>)
    ensures
        table_has(locs_with(locs, vars), x) == (table_has(locs, x) || exists|k: int|
            0 <= k < vars.len() && (#[trigger] vars[k]).value@ == x),
    decreases vars.len(),
{
    if vars.len() > 0 {
        let next = table_set(locs, vars[0].value, vars[0].loc);
        lemma_locs_with_has(next, vars.drop_first(), x);
        crate::util::tables::lemma_table_set_has(locs, vars[0].value, vars[0].loc, x);
        if exists|k: int| 0 <= k < vars.drop_first().len() && (#[trigger] vars.drop_first()[k]).value@ == x {
            let k = choose|k: int| 0 <= k < vars.drop_first().len() && (#[trigger] vars.drop_first()[k]).value@ == x;
            assert(vars[k + 1].value@ == x);
        }
        if exists|k: int| 0 <= k < vars.len() && (#[trigger] vars[k]).value@ == x {
            let k = choose|k: int| 0 <= k < vars.len() && (#[trigger] vars[k]).value@ == x;
            if k > 0 {
                assert(vars.drop_first()[k - 1].value@ == x);
            }
        }
    }
}

/// What the resolution of the global constants ends with, for the order `order` the solver
/// gave and the error `stopped` that ended it, if any: the constants of `order` resolved
/// one after the other, then the solver's error.
pub open spec fn global_outcome(
    consts: Seq<(String, Const)>,
    order: Seq<String>,
    stopped: Option<DependencyError>,
    result: Seq<(String, Const)>,
    r: Result<(), ComputeConstError>,
) -> bool {
    match resolved(consts, global_locs(consts, consts.len() as int), order) {
        Err(e) => r == Err::<(), ComputeConstError>(e),
        Ok(t) => result == t && match stopped {
            None => r is Ok,
            Some(DependencyError::CycleDetected) => r == Err::<(), ComputeConstError>(
                ComputeConstError::CyclicDefinition,
            ),
            Some(DependencyError::NoSuchNode) => r matches Err(ComputeConstError::Other(m)) && m@
                == no_such_node_message(),
        },
    }
}

/// The dependencies of the first `n` global constants: the start node on each constant,
/// and each constant on each variable of its definition.
pub open spec fn global_edges(consts: Seq<(String, Const)>, n: int) -> Set<(Seq<char>, Seq<char>)> {
    Set::new(|e: (Seq<char>, Seq<char>)| exists|j: int| 0 <= j < n && {
        ||| e == (start_name(), (#[trigger] consts[j]).0@)
        ||| (e.0 == consts[j].0@ && exists|k: int| 0 <= k < const_vars(consts[j].1).len()
            && (#[trigger] const_vars(consts[j].1)[k]).value@ == e.1)
    })
}

/// The global constants depend on one another in a cycle (a constant named as the start
/// node counts as one).
pub open spec fn global_cycle(consts: Seq<(String, Const)>) -> bool {
    cycle_from(global_edges(consts, consts.len() as int), start_name())
}

/// Whether every name of `order` comes after the variables its constant depends on.
pub open spec fn dependencies_first(consts: Seq<(String, Const)>, order: Seq<String>) -> bool {
    forall|i: int, k: int|
        0 <= i < order.len() && table_get(consts, order[i]@) is Some && 0 <= k < const_vars(
            table_get(consts, order[i]@)->Some_0,
        ).len() ==> exists|j: int|
            0 <= j < i && #[trigger] order[j]@ == (#[trigger] const_vars(
                table_get(consts, order[i]@)->Some_0,
            )[k]).value@
}

/// Reduces the global constants to values. They may be defined in any order: a solver
/// orders them so that each comes after the constants it depends on, and a cycle among
/// them is an error. Each constant is then replaced by its value in that order.
pub fn compute_global_consts(consts: &mut Table<Const>) -> (r: Result<(), ComputeConstError>)
    ensures
        old(consts)@.len() == 0 ==> r is Ok && final(consts)@ == old(consts)@,
        old(consts)@.len() > 0 ==> exists|order: Seq<String>, stopped: Option<DependencyError>|
            {
                &&& #[trigger] global_outcome(old(consts)@, order, stopped, final(consts)@, r)
                &&& (stopped is None <==> !global_cycle(old(consts)@))
                &&& (stopped is Some ==> stopped == Some(DependencyError::CycleDetected))
                &&& dependencies_first(old(consts)@, order)
                &&& stopped is None ==> forall|j: int|
                    0 <= j < old(consts)@.len() ==> exists|k: int|
                        0 <= k < order.len() && #[trigger] order[k]@ == (#[trigger] old(
                            consts,
                        )@[j]).0@
            },
{
    if consts.len() == 0 {
        return Ok(());
    }
    let ghost c0 = consts@;
    let mut g = dep_graph_new();
    proof {
        reveal_strlit("0");
        assert("0"@ =~= start_name());
    }
    let start = String::from_str("0");
    let mut locs: Table<Pos> = Vec::new();
    let n = consts.len();
    let mut i: usize = 0;
    while i < n
        invariant
            n == c0.len(),
            consts@ == c0,
            i <= n,
            start@ == start_name(),
            locs@ == global_locs(c0, i as int),
            forall|x: Seq<char>|
                #[trigger] dep_nodes(g).contains(x) ==> x == start_name() || table_has(c0, x)
                    || table_has(locs@, x),
            forall|j: int| 0 <= j < i ==> dep_edges(g).contains((start_name(), (#[trigger] c0[j]).0@)),
            dep_edges(g) == global_edges(c0, i as int),
            dep_marked(g) == Set::<Seq<char>>::empty(),
            i > 0 ==> dep_nodes(g).contains(start_name()),
            forall|j: int, k: int|
                0 <= j < i && 0 <= k < const_vars(c0[j].1).len() ==> dep_edges(g).contains(
                    ((#[trigger] c0[j]).0@, (#[trigger] const_vars(c0[j].1)[k]).value@),
                ),
        decreases n - i,
    {
        let name = consts[i].0.clone();
        let ghost g0 = g;
        let ghost l0 = locs@;
        dep_graph_register_dependency(&mut g, start.clone(), name.clone());
        let mut deps: Vec<String> = Vec::new();
        get_dependancies(&consts[i].1, &mut deps, &mut locs);
        let ghost g1 = g;
        dep_graph_register_dependencies(&mut g, name, deps);
        proof {
            assert(c0[i as int].0@ == name@);
            assert(table_has(c0, name@)) by {
                assert(c0[i as int].0@ == name@);
            }
            assert forall|x: Seq<char>| #[trigger] table_has(l0, x) implies table_has(locs@, x) by {
                lemma_locs_with_has(l0, const_vars(c0[i as int].1), x);
            }
            assert forall|x: Seq<char>| #[trigger] dep_nodes(g).contains(x) implies x
                == start_name() || table_has(c0, x) || table_has(locs@, x) by {
                if !dep_nodes(g0).contains(x) && x != name@ && x != start_name() {
                    let d = choose|d: int| 0 <= d < deps@.len() && #[trigger] deps@[d]@ == x;
                    assert(deps@[d] == loc_names(const_vars(c0[i as int].1))[d]);
                    lemma_locs_with_has(l0, const_vars(c0[i as int].1), x);
                    assert(const_vars(c0[i as int].1)[d].value@ == x);
                }
            }
            assert forall|k: int| 0 <= k < const_vars(c0[i as int].1).len() implies dep_edges(
                g,
            ).contains((c0[i as int].0@, (#[trigger] const_vars(c0[i as int].1)[k]).value@)) by {
                assert(deps@[k] == loc_names(const_vars(c0[i as int].1))[k]);
                assert(deps@[k]@ == const_vars(c0[i as int].1)[k].value@);
            }
            assert forall|e: (Seq<char>, Seq<char>)| #[trigger] dep_edges(g).contains(e) == global_edges(c0, i + 1).contains(e) by {
                let vs = const_vars(c0[i as int].1);
                if dep_edges(g).contains(e) {
                    if global_edges(c0, i as int).contains(e) {
                        let j = choose|j: int| 0 <= j < i && {
                            ||| e == (start_name(), (#[trigger] c0[j]).0@)
                            ||| (e.0 == c0[j].0@ && exists|k: int| 0 <= k < const_vars(c0[j].1).len()
                                && (#[trigger] const_vars(c0[j].1)[k]).value@ == e.1)
                        };
                        assert(global_edges(c0, i + 1).contains(e));
                    } else if e == (start_name(), name@) {
                        assert(global_edges(c0, i + 1).contains(e));
                    } else {
                        let d = choose|d: int| 0 <= d < deps@.len() && #[trigger] deps@[d]@ == e.1;
                        assert(deps@[d] == loc_names(vs)[d]);
                        assert(vs[d].value@ == e.1);
                        assert(global_edges(c0, i + 1).contains(e));
                    }
                }
                if global_edges(c0, i + 1).contains(e) {
                    let j = choose|j: int| 0 <= j < i + 1 && {
                        ||| e == (start_name(), (#[trigger] c0[j]).0@)
                        ||| (e.0 == c0[j].0@ && exists|k: int| 0 <= k < const_vars(c0[j].1).len()
                            && (#[trigger] const_vars(c0[j].1)[k]).value@ == e.1)
                    };
                    if j < i {
                        assert(global_edges(c0, i as int).contains(e));
                    } else if e != (start_name(), c0[j].0@) {
                        let k = choose|k: int| 0 <= k < const_vars(c0[j].1).len()
                            && (#[trigger] const_vars(c0[j].1)[k]).value@ == e.1;
                        assert(deps@[k] == loc_names(vs)[k]);
                    }
                }
            }
            assert(dep_edges(g) =~= global_edges(c0, i + 1));
        }
        i = i + 1;
    }
    let (order, stopped) = dep_graph_dependencies_of(&g, &start);
    proof {
        assert(n > 0);
    }
    let ghost locs_all = locs@;
    assert(order_known(consts@, locs@, order@)) by {
        assert forall|k: int| 0 <= k < order@.len() implies (#[trigger] order@[k])@
            == start_name() || table_has(consts@, order@[k]@) || table_has(locs@, order@[k]@) by {
            assert(dep_nodes(g).contains(order@[k]@));
        }
    }
    let res = resolve_global_consts(consts, &order, &locs);
    let stopped_kind = stopped;
    let r = match res {
        Err(e) => Err(e),
        Ok(()) => match stopped_kind {
            None => Ok(()),
            Some(k) => Err(from_solvent_error(k)),
        },
    };
    proof {
        assert(global_outcome(c0, order@, stopped_kind, consts@, r));
        assert forall|a: int, k: int|
            0 <= a < order@.len() && table_get(c0, order@[a]@) is Some && 0 <= k < const_vars(
                table_get(c0, order@[a]@)->Some_0,
            ).len() implies exists|j: int|
            0 <= j < a && #[trigger] order@[j]@ == (#[trigger] const_vars(
                table_get(c0, order@[a]@)->Some_0,
            )[k]).value@ by {
            crate::util::tables::lemma_table_get_from_index(c0, order@[a]@, 0);
            let w = table_first(c0, order@[a]@);
            assert(c0[w].0@ == order@[a]@);
            assert(dep_edges(g).contains((c0[w].0@, const_vars(c0[w].1)[k].value@)));
        }
        if stopped_kind is None {
            assert forall|j: int| 0 <= j < c0.len() implies exists|k: int|
                0 <= k < order@.len() && #[trigger] order@[k]@ == (#[trigger] c0[j]).0@ by {
                let last = order@.len() - 1;
                assert(order@[last]@ == start_name());
                assert(dep_edges(g).contains((order@[last]@, c0[j].0@)));
            }
        }
    }
    r
}

/// The index of the first entry named `name`, when there is one.
pub open spec fn table_first<V>(t: Seq<(String, V)>, name: Seq<char>) -> int {
    choose|i: int|
        0 <= i < t.len() && #[trigger] t[i].0@ == name && table_get(t, name) == Some(t[i].1)
}


/// Whether the simplification of a constant stays within `i32`; see `simplify_fits`.
pub fn simplify_fits_exec(c: &Const, consts: &Table<Const>, static_args: &Vec<String>) -> (r: bool)
    ensures
        r == simplify_fits(*c, consts@, static_args@),
    decreases c,
{
    match c {
        Const::BiOp(op, c1, c2) => {
            if !simplify_fits_exec(c1, consts, static_args) {
                return false;
            }
            let mut x = crate::ast::parse_ast::copy_const(c1);
            match simplify_const(&mut x, consts, static_args) {
                Err(_) => true,
                Ok(()) => {
                    if !simplify_fits_exec(&c2.value, consts, static_args) {
                        return false;
                    }
                    let mut y = crate::ast::parse_ast::copy_const(&c2.value);
                    match simplify_const(&mut y, consts, static_args) {
                        Err(_) => true,
                        Ok(()) => match (&x, &y) {
                            (Const::Value(v1), Const::Value(v2)) => const_op_fits_exec(op, *v1, *v2),
                            _ => true,
                        },
                    }
                },
            }
        },
        _ => true,
    }
}

/// Whether the rewriting of one constant stays within `i32`; see `const_step_fits`.
pub fn const_step_fits_exec(c: &Const, consts: &Table<Const>, static_args: Option<&Vec<String>>) -> (r: bool)
    ensures
        r == const_step_fits(*c, consts@, statics_view(static_args)),
{
    match static_args {
        None => const_fits_exec(c, consts),
        Some(st) => simplify_fits_exec(c, consts, st),
    }
}

/// Whether every constant of a list can be rewritten within `i32`; see `consts_fit`.
fn consts_fit_exec(v: &Vec<Const>, consts: &Table<Const>, st: Option<&Vec<String>>) -> (r: bool)
    ensures
        r == consts_fit(v@, consts@, statics_view(st)),
{
    let mut i: usize = 0;
    while i < v.len()
        invariant
            i <= v@.len(),
            forall|k: int| 0 <= k < i ==> const_step_fits(#[trigger] v@[k], consts@, statics_view(st)),
        decreases v@.len() - i,
    {
        if !const_step_fits_exec(&v[i], consts, st) {
            return false;
        }
        i = i + 1;
    }
    true
}

/// Whether an optional constant can be rewritten within `i32`; see `opt_const_fits`.
fn opt_const_fits_exec(c: &Option<Const>, consts: &Table<Const>, st: Option<&Vec<String>>) -> (r: bool)
    ensures
        r == opt_const_fits(*c, consts@, statics_view(st)),
{
    match c {
        None => true,
        Some(k) => const_step_fits_exec(k, consts, st),
    }
}

/// Whether every constant of the expressions of a list can be rewritten within `i32`; see
/// `args_fit_from`.
fn args_fit_exec(v: &Vec<Loc<Expr>>, consts: &Table<Const>, st: Option<&Vec<String>>, Ghost(parent): Ghost<Expr>) -> (r: bool)
    requires
        forall|i: int| 0 <= i < v@.len() ==> decreases_to!(parent => (#[trigger] v@[i]).value),
    ensures
        r == args_fit_from(v@, 0, consts@, statics_view(st)),
    decreases parent, 0int,
{
    let mut i: usize = v.len();
    let mut ok = true;
    while i > 0
        invariant
            i <= v@.len(),
            forall|k: int| 0 <= k < v@.len() ==> decreases_to!(parent => (#[trigger] v@[k]).value),
            ok == args_fit_from(v@, i as int, consts@, statics_view(st)),
        decreases i,
    {
        i = i - 1;
        assert(decreases_to!(parent => v@[i as int].value));
        let f = expr_fits_exec(&v[i].value, consts, st);
        ok = f && ok;
    }
    ok
}

/// Whether every constant of an expression can be rewritten within `i32`; see `expr_fits`.
pub fn expr_fits_exec(e: &Expr, consts: &Table<Const>, st: Option<&Vec<String>>) -> (r: bool)
    ensures
        r == expr_fits(*e, consts@, statics_view(st)),
    decreases *e, 1int,
{
    match e {
        Expr::Const(ConstExpr::Unknown(_, c)) => const_step_fits_exec(&c.value, consts, st),
        Expr::Not(x) => expr_fits_exec(x, consts, st),
        Expr::Slice(x, c1, c2) => opt_const_fits_exec(c1, consts, st) && opt_const_fits_exec(c2, consts, st) && expr_fits_exec(&x.value, consts, st),
        Expr::BiOp(_, x, y) => expr_fits_exec(&x.value, consts, st) && expr_fits_exec(&y.value, consts, st),
        Expr::Mux(x, y, z) => expr_fits_exec(&x.value, consts, st) && expr_fits_exec(&y.value, consts, st) && expr_fits_exec(&z.value, consts, st),
        Expr::Reg(c, x) => const_step_fits_exec(&c.value, consts, st) && expr_fits_exec(&x.value, consts, st),
        Expr::Ram(r) => expr_fits_exec(&r.read_addr.value, consts, st) && expr_fits_exec(&r.write_enable.value, consts, st)
            && expr_fits_exec(&r.write_addr.value, consts, st) && expr_fits_exec(&r.write_data.value, consts, st),
        Expr::Rom(r) => expr_fits_exec(&r.read_addr.value, consts, st) && const_step_fits_exec(&r.word_size, consts, st),
        Expr::FnCall(f) => args_fit_exec(&f.args.value, consts, st, Ghost(*e)) && consts_fit_exec(&f.static_args.value, consts, st),
        _ => true,
    }
}

/// Whether every constant of the expressions of a statement can be rewritten within `i32`.
fn args_fit_stmt(v: &Vec<Loc<Expr>>, consts: &Table<Const>, st: Option<&Vec<String>>) -> (r: bool)
    ensures
        r == args_fit_from(v@, 0, consts@, statics_view(st)),
{
    let mut i: usize = v.len();
    let mut ok = true;
    while i > 0
        invariant
            i <= v@.len(),
            ok == args_fit_from(v@, i as int, consts@, statics_view(st)),
        decreases i,
    {
        i = i - 1;
        let f = expr_fits_exec(&v[i].value, consts, st);
        ok = f && ok;
    }
    ok
}

/// Whether every constant of the statements of a block can be rewritten within `i32`.
fn stmts_fit_exec(v: &Vec<Statement>, consts: &Table<Const>, st: Option<&Vec<String>>, Ghost(parent): Ghost<Statement>) -> (r: bool)
    requires
        forall|i: int| 0 <= i < v@.len() ==> decreases_to!(parent => #[trigger] v@[i]),
    ensures
        r == stmts_fit_from(v@, 0, consts@, statics_view(st)),
    decreases parent, 0int,
{
    let mut i: usize = v.len();
    let mut ok = true;
    while i > 0
        invariant
            i <= v@.len(),
            forall|k: int| 0 <= k < v@.len() ==> decreases_to!(parent => #[trigger] v@[k]),
            ok == stmts_fit_from(v@, i as int, consts@, statics_view(st)),
        decreases i,
    {
        i = i - 1;
        assert(decreases_to!(parent => v@[i as int]));
        let f = stmt_fits_exec(&v[i], consts, st);
        ok = f && ok;
    }
    ok
}

/// Whether every constant of a statement can be rewritten within `i32`; see `stmt_fits`.
pub fn stmt_fits_exec(s: &Statement, consts: &Table<Const>, st: Option<&Vec<String>>) -> (r: bool)
    ensures
        r == stmt_fits(*s, consts@, statics_view(st)),
    decreases *s, 1int,
{
    match s {
        Statement::Assign(v) => {
            let mut i: usize = v.len();
            let mut ok = true;
            while i > 0
                invariant
                    i <= v@.len(),
                    ok == assigns_fit_from(v@, i as int, consts@, statics_view(st)),
                decreases i,
            {
                i = i - 1;
                let f = expr_fits_exec(&v[i].expr.value, consts, st);
                ok = f && ok;
            }
            ok
        },
        Statement::If(i) => const_step_fits_exec(&i.condition, consts, st) && stmts_fit_exec(&i.if_block, consts, st, Ghost(*s))
            && stmts_fit_exec(&i.else_block, consts, st, Ghost(*s)),
        Statement::FnAssign(fa) => args_fit_stmt(&fa.f.args.value, consts, st) && consts_fit_exec(&fa.f.static_args.value, consts, st),
        Statement::ExtAutomaton(ea) => args_fit_stmt(&ea.inputs.value, consts, st),
    }
}


/// `b` are the arguments `a` with their sizes reduced to values.
pub open spec fn args_valued(a: Seq<Arg>, b: Seq<Arg>, g: Seq<(String, Const)>) -> bool {
    &&& b.len() == a.len()
    &&& forall|k: int| 0 <= k < a.len() ==> {
        &&& (#[trigger] b[k]).name == a[k].name
        &&& b[k].size.loc == a[k].size.loc
        &&& (const_value(a[k].size.value, g) matches Ok(v) && b[k].size.value == Const::Value(v as i32))
    }
}

/// `b` are the arguments `a` with their sizes simplified, keeping `statics` unknown.
pub open spec fn args_simplified(a: Seq<Arg>, b: Seq<Arg>, g: Seq<(String, Const)>, statics: Seq<String>) -> bool {
    &&& b.len() == a.len()
    &&& forall|k: int| 0 <= k < a.len() ==> {
        &&& (#[trigger] b[k]).name == a[k].name
        &&& b[k].size.loc == a[k].size.loc
        &&& b[k].size.value == simplified(a[k].size.value, g, statics).0
    }
}

/// `t` is the state `s` with its constants reduced to values.
pub open spec fn state_consts_rel(s: State, t: State, g: Seq<(String, Const)>) -> bool {
    &&& t.name == s.name
    &&& t.weak == s.weak
    &&& t.statements@.len() == s.statements@.len()
    &&& forall|k: int| 0 <= k < s.statements@.len() ==> stmt_mapped(#[trigger] s.statements@[k], t.statements@[k], g, None)
    &&& t.transitions@.len() == s.transitions@.len()
    &&& forall|k: int| 0 <= k < s.transitions@.len() ==> {
        &&& (#[trigger] t.transitions@[k]).state == s.transitions@[k].state
        &&& t.transitions@[k].reset == s.transitions@[k].reset
        &&& t.transitions@[k].condition.loc == s.transitions@[k].condition.loc
        &&& match (s.transitions@[k].condition.value, t.transitions@[k].condition.value) {
            (TrCond::Default, TrCond::Default) => true,
            (TrCond::Expr(e), TrCond::Expr(f)) => expr_mapped(e, f, g, None),
            _ => false,
        }
    }
}

/// `b` is the automaton `a` with its constants reduced to values.
pub open spec fn auto_consts_rel(a: Automaton, b: Automaton, g: Seq<(String, Const)>) -> bool {
    &&& b.name == a.name
    &&& b.init_states == a.init_states
    &&& args_valued(a.inputs@, b.inputs@, g)
    &&& args_valued(a.outputs@, b.outputs@, g)
    &&& b.shared@.len() == a.shared@.len()
    &&& forall|k: int| 0 <= k < a.shared@.len() ==> {
        &&& (#[trigger] b.shared@[k]).var == a.shared@[k].var
        &&& b.shared@[k].expr.loc == a.shared@[k].expr.loc
        &&& expr_mapped(a.shared@[k].expr.value, b.shared@[k].expr.value, g, None)
    }
    &&& b.states@.len() == a.states@.len()
    &&& forall|k: int| 0 <= k < a.states@.len() ==> (#[trigger] b.states@[k]).0 == a.states@[k].0
        && state_consts_rel(a.states@[k].1, b.states@[k].1, g)
}

/// `h` is the function `f` with its constants simplified, its static arguments kept unknown.
pub open spec fn fn_consts_rel(f: Function, h: Function, g: Seq<(String, Const)>) -> bool {
    &&& h.name == f.name
    &&& h.static_args == f.static_args
    &&& args_simplified(f.args@, h.args@, g, f.static_args@)
    &&& args_simplified(f.return_vars@, h.return_vars@, g, f.static_args@)
    &&& h.statements@.len() == f.statements@.len()
    &&& forall|k: int| 0 <= k < f.statements@.len() ==> stmt_mapped(#[trigger] f.statements@[k], h.statements@[k], g, Some(f.static_args@))
}

/// Whether the size of every argument reduces to a value within `i32`.
pub open spec fn args_value_ok(a: Seq<Arg>, g: Seq<(String, Const)>) -> bool {
    forall|k: int| 0 <= k < a.len() ==> const_fits((#[trigger] a[k]).size.value, g)
        && const_value(a[k].size.value, g) is Ok
}

/// Whether the size of every argument simplifies within `i32` and without error.
pub open spec fn args_simplify_ok(a: Seq<Arg>, g: Seq<(String, Const)>, statics: Seq<String>) -> bool {
    forall|k: int| 0 <= k < a.len() ==> simplify_fits((#[trigger] a[k]).size.value, g, statics)
        && simplified(a[k].size.value, g, statics).1 is None
}

/// Whether the constants of an expression reduce to values within `i32` and without error.
pub open spec fn expr_consts_ok(e: Expr, g: Seq<(String, Const)>) -> bool {
    expr_fits(e, g, None) && expr_err(e, g, None) is None
}

/// Whether the constants of a state reduce to values within `i32` and without error.
pub open spec fn state_consts_ok(s: State, g: Seq<(String, Const)>) -> bool {
    &&& forall|k: int| 0 <= k < s.statements@.len() ==> stmt_fits(#[trigger] s.statements@[k], g, None)
        && stmt_err(s.statements@[k], g, None) is None
    &&& forall|k: int| 0 <= k < s.transitions@.len() ==> match (#[trigger] s.transitions@[k]).condition.value {
        TrCond::Expr(e) => expr_consts_ok(e, g),
        TrCond::Default => true,
    }
}

/// Whether the constants of an automaton reduce to values within `i32` and without error.
pub open spec fn auto_consts_ok(a: Automaton, g: Seq<(String, Const)>) -> bool {
    &&& args_value_ok(a.inputs@, g)
    &&& args_value_ok(a.outputs@, g)
    &&& forall|k: int| 0 <= k < a.shared@.len() ==> expr_consts_ok((#[trigger] a.shared@[k]).expr.value, g)
    &&& forall|k: int| 0 <= k < a.states@.len() ==> state_consts_ok((#[trigger] a.states@[k]).1, g)
}

/// Whether the constants of a function simplify within `i32` and without error.
pub open spec fn fn_consts_ok(f: Function, g: Seq<(String, Const)>) -> bool {
    &&& args_simplify_ok(f.args@, g, f.static_args@)
    &&& args_simplify_ok(f.return_vars@, g, f.static_args@)
    &&& forall|k: int| 0 <= k < f.statements@.len() ==> stmt_fits(#[trigger] f.statements@[k], g, Some(f.static_args@))
        && stmt_err(f.statements@[k], g, Some(f.static_args@)) is None
}

/// Reduces the sizes of arguments to values.
fn compute_args(args: &mut Vec<Arg>, g: &Table<Const>) -> (r: Result<(), ComputeConstError>)
    ensures
        r is Ok ==> args_valued(old(args)@, final(args)@, g@),
        r is Ok <==> args_value_ok(old(args)@, g@),
{
    let ghost a0 = args@;
    let mut i: usize = 0;
    while i < args.len()
        invariant
            i <= args@.len(),
            a0 == old(args)@,
            args@.len() == a0.len(),
            forall|k: int| i <= k < a0.len() ==> args@[k] == a0[k],
            forall|k: int| 0 <= k < i ==> {
                &&& (#[trigger] args@[k]).name == a0[k].name
                &&& args@[k].size.loc == a0[k].size.loc
                &&& (const_value(a0[k].size.value, g@) matches Ok(v) && args@[k].size.value == Const::Value(v as i32))
                &&& const_fits(a0[k].size.value, g@)
            },
        decreases args@.len() - i,
    {
        proof {
            assert(a0[i as int] == args@[i as int]);
        }
        if !const_fits_exec(&args[i].size.value, g) {
            return Err(ComputeConstError::Overflow(args[i].name.clone()));
        }
        let v = match compute_const(&args[i].size.value, g) {
            Ok(v) => v,
            Err(e) => {
                return Err(e);
            },
        };
        args[i].size.value = Const::Value(v);
        i = i + 1;
    }
    proof {
        assert forall|k: int| 0 <= k < a0.len() implies {
            &&& (#[trigger] args@[k]).name == a0[k].name
            &&& args@[k].size.loc == a0[k].size.loc
            &&& (const_value(a0[k].size.value, g@) matches Ok(v) && args@[k].size.value == Const::Value(v as i32))
        } by {}
        assert forall|k: int| 0 <= k < a0.len() implies const_fits((#[trigger] a0[k]).size.value, g@)
            && const_value(a0[k].size.value, g@) is Ok by {
            assert(args@[k].name == a0[k].name);
        }
    }
    Ok(())
}

/// Simplifies the sizes of arguments, keeping the static arguments unknown.
fn simplify_args(args: &mut Vec<Arg>, g: &Table<Const>, statics: &Vec<String>) -> (r: Result<(), ComputeConstError>)
    ensures
        r is Ok ==> args_simplified(old(args)@, final(args)@, g@, statics@),
        r is Ok <==> args_simplify_ok(old(args)@, g@, statics@),
{
    let ghost a0 = args@;
    let mut i: usize = 0;
    while i < args.len()
        invariant
            i <= args@.len(),
            a0 == old(args)@,
            args@.len() == a0.len(),
            forall|k: int| i <= k < a0.len() ==> args@[k] == a0[k],
            forall|k: int| 0 <= k < i ==> {
                &&& (#[trigger] args@[k]).name == a0[k].name
                &&& args@[k].size.loc == a0[k].size.loc
                &&& args@[k].size.value == simplified(a0[k].size.value, g@, statics@).0
                &&& simplify_fits(a0[k].size.value, g@, statics@)
                &&& simplified(a0[k].size.value, g@, statics@).1 is None
            },
        decreases args@.len() - i,
    {
        proof {
            assert(a0[i as int] == args@[i as int]);
        }
        if !simplify_fits_exec(&args[i].size.value, g, statics) {
            return Err(ComputeConstError::Overflow(args[i].name.clone()));
        }
        match simplify_const(&mut args[i].size.value, g, statics) {
            Ok(()) => {},
            Err(e) => {
                return Err(e);
            },
        }
        i = i + 1;
    }
    proof {
        assert forall|k: int| 0 <= k < a0.len() implies simplify_fits((#[trigger] a0[k]).size.value, g@, statics@)
            && simplified(a0[k].size.value, g@, statics@).1 is None by {
            assert(args@[k].name == a0[k].name);
        }
    }
    Ok(())
}

/// Reduces the constants of a state to values.
fn compute_state(s: &mut State, g: &Table<Const>) -> (r: Result<(), ComputeConstError>)
    ensures
        r is Ok ==> state_consts_rel(*old(s), *final(s), g@),
        r is Ok <==> state_consts_ok(*old(s), g@),
{
    let ghost s0 = *s;
    let mut i: usize = 0;
    while i < s.statements.len()
        invariant
            i <= s.statements@.len(),
            s0 == *old(s),
            s.statements@.len() == s0.statements@.len(),
            s.name == s0.name,
            s.weak == s0.weak,
            s.transitions == s0.transitions,
            forall|k: int| i <= k < s0.statements@.len() ==> s.statements@[k] == s0.statements@[k],
            forall|k: int| 0 <= k < i ==> stmt_mapped(#[trigger] s0.statements@[k], s.statements@[k], g@, None),
            forall|k: int| 0 <= k < i ==> stmt_fits(#[trigger] s0.statements@[k], g@, None)
                && stmt_err(s0.statements@[k], g@, None) is None,
        decreases s.statements@.len() - i,
    {
        proof {
            assert(s0.statements@[i as int] == s.statements@[i as int]);
        }
        if !stmt_fits_exec(&s.statements[i], g, None) {
            return Err(ComputeConstError::Overflow(s.name.value.clone()));
        }
        match compute_consts_in_statement(&mut s.statements[i], g) {
            Ok(()) => {},
            Err(e) => {
                return Err(e);
            },
        }
        i = i + 1;
    }
    let mut i: usize = 0;
    while i < s.transitions.len()
        invariant
            i <= s.transitions@.len(),
            s0 == *old(s),
            s.transitions@.len() == s0.transitions@.len(),
            s.name == s0.name,
            s.weak == s0.weak,
            s.statements@.len() == s0.statements@.len(),
            forall|k: int| 0 <= k < s0.statements@.len() ==> stmt_mapped(#[trigger] s0.statements@[k], s.statements@[k], g@, None),
            forall|k: int| 0 <= k < s0.statements@.len() ==> stmt_fits(#[trigger] s0.statements@[k], g@, None)
                && stmt_err(s0.statements@[k], g@, None) is None,
            forall|k: int| 0 <= k < i ==> match (#[trigger] s0.transitions@[k]).condition.value {
                TrCond::Expr(e) => expr_consts_ok(e, g@),
                TrCond::Default => true,
            },
            forall|k: int| i <= k < s0.transitions@.len() ==> s.transitions@[k] == s0.transitions@[k],
            forall|k: int| 0 <= k < i ==> {
                &&& (#[trigger] s.transitions@[k]).state == s0.transitions@[k].state
                &&& s.transitions@[k].reset == s0.transitions@[k].reset
                &&& s.transitions@[k].condition.loc == s0.transitions@[k].condition.loc
                &&& match (s0.transitions@[k].condition.value, s.transitions@[k].condition.value) {
                    (TrCond::Default, TrCond::Default) => true,
                    (TrCond::Expr(e), TrCond::Expr(f)) => expr_mapped(e, f, g@, None),
                    _ => false,
                }
            },
        decreases s.transitions@.len() - i,
    {
        proof {
            assert(s0.transitions@[i as int] == s.transitions@[i as int]);
        }
        if let TrCond::Expr(e) = &s.transitions[i].condition.value {
            if !expr_fits_exec(e, g, None) {
                return Err(ComputeConstError::Overflow(s.name.value.clone()));
            }
        }
        match &mut s.transitions[i].condition.value {
            TrCond::Expr(e) => {
                match compute_consts_in_expr(e, g) {
                    Ok(()) => {},
                    Err(err) => {
                        return Err(err);
                    },
                }
            },
            TrCond::Default => {},
        }
        i = i + 1;
    }
    Ok(())
}

/// Reduces the constants of an automaton to values.
fn compute_automaton(a: &mut Automaton, g: &Table<Const>) -> (r: Result<(), ComputeConstError>)
    ensures
        r is Ok ==> auto_consts_rel(*old(a), *final(a), g@),
        r is Ok <==> auto_consts_ok(*old(a), g@),
{
    let ghost a0 = *a;
    match compute_args(&mut a.inputs, g) {
        Ok(()) => {},
        Err(e) => {
            return Err(e);
        },
    }
    match compute_args(&mut a.outputs, g) {
        Ok(()) => {},
        Err(e) => {
            return Err(e);
        },
    }
    let mut i: usize = 0;
    while i < a.shared.len()
        invariant
            i <= a.shared@.len(),
            a0 == *old(a),
            a.shared@.len() == a0.shared@.len(),
            a.name == a0.name,
            a.init_states == a0.init_states,
            a.states == a0.states,
            args_valued(a0.inputs@, a.inputs@, g@),
            args_valued(a0.outputs@, a.outputs@, g@),
            args_value_ok(a0.inputs@, g@),
            args_value_ok(a0.outputs@, g@),
            forall|k: int| 0 <= k < i ==> expr_consts_ok((#[trigger] a0.shared@[k]).expr.value, g@),
            forall|k: int| i <= k < a0.shared@.len() ==> a.shared@[k] == a0.shared@[k],
            forall|k: int| 0 <= k < i ==> {
                &&& (#[trigger] a.shared@[k]).var == a0.shared@[k].var
                &&& a.shared@[k].expr.loc == a0.shared@[k].expr.loc
                &&& expr_mapped(a0.shared@[k].expr.value, a.shared@[k].expr.value, g@, None)
            },
        decreases a.shared@.len() - i,
    {
        proof {
            assert(a0.shared@[i as int] == a.shared@[i as int]);
        }
        if !expr_fits_exec(&a.shared[i].expr.value, g, None) {
            return Err(ComputeConstError::Overflow(a.shared[i].var.value.clone()));
        }
        match compute_consts_in_expr(&mut a.shared[i].expr.value, g) {
            Ok(()) => {},
            Err(e) => {
                return Err(e);
            },
        }
        i = i + 1;
    }
    let mut i: usize = 0;
    while i < a.states.len()
        invariant
            i <= a.states@.len(),
            a0 == *old(a),
            a.states@.len() == a0.states@.len(),
            a.name == a0.name,
            a.init_states == a0.init_states,
            args_valued(a0.inputs@, a.inputs@, g@),
            args_valued(a0.outputs@, a.outputs@, g@),
            args_value_ok(a0.inputs@, g@),
            args_value_ok(a0.outputs@, g@),
            forall|k: int| 0 <= k < a0.shared@.len() ==> expr_consts_ok((#[trigger] a0.shared@[k]).expr.value, g@),
            forall|k: int| 0 <= k < i ==> state_consts_ok((#[trigger] a0.states@[k]).1, g@),
            a.shared@.len() == a0.shared@.len(),
            forall|k: int| 0 <= k < a0.shared@.len() ==> {
                &&& (#[trigger] a.shared@[k]).var == a0.shared@[k].var
                &&& a.shared@[k].expr.loc == a0.shared@[k].expr.loc
                &&& expr_mapped(a0.shared@[k].expr.value, a.shared@[k].expr.value, g@, None)
            },
            forall|k: int| i <= k < a0.states@.len() ==> a.states@[k] == a0.states@[k],
            forall|k: int| 0 <= k < i ==> (#[trigger] a.states@[k]).0 == a0.states@[k].0
                && state_consts_rel(a0.states@[k].1, a.states@[k].1, g@),
        decreases a.states@.len() - i,
    {
        proof {
            assert(a0.states@[i as int] == a.states@[i as int]);
        }
        match compute_state(&mut a.states[i].1, g) {
            Ok(()) => {},
            Err(e) => {
                return Err(e);
            },
        }
        i = i + 1;
    }
    Ok(())
}

/// Simplifies the constants of a function, keeping its static arguments unknown.
fn compute_function(f: &mut Function, g: &Table<Const>) -> (r: Result<(), ComputeConstError>)
    ensures
        r is Ok ==> fn_consts_rel(*old(f), *final(f), g@),
        r is Ok <==> fn_consts_ok(*old(f), g@),
{
    let ghost f0 = *f;
    let statics = &f.static_args;
    match simplify_args(&mut f.args, g, statics) {
        Ok(()) => {},
        Err(e) => {
            return Err(e);
        },
    }
    match simplify_args(&mut f.return_vars, g, &f.static_args) {
        Ok(()) => {},
        Err(e) => {
            return Err(e);
        },
    }
    let mut i: usize = 0;
    while i < f.statements.len()
        invariant
            i <= f.statements@.len(),
            f0 == *old(f),
            f.statements@.len() == f0.statements@.len(),
            f.name == f0.name,
            f.static_args == f0.static_args,
            args_simplified(f0.args@, f.args@, g@, f0.static_args@),
            args_simplified(f0.return_vars@, f.return_vars@, g@, f0.static_args@),
            args_simplify_ok(f0.args@, g@, f0.static_args@),
            args_simplify_ok(f0.return_vars@, g@, f0.static_args@),
            forall|k: int| 0 <= k < i ==> stmt_fits(#[trigger] f0.statements@[k], g@, Some(f0.static_args@))
                && stmt_err(f0.statements@[k], g@, Some(f0.static_args@)) is None,
            forall|k: int| i <= k < f0.statements@.len() ==> f.statements@[k] == f0.statements@[k],
            forall|k: int| 0 <= k < i ==> stmt_mapped(#[trigger] f0.statements@[k], f.statements@[k], g@, Some(f0.static_args@)),
        decreases f.statements@.len() - i,
    {
        proof {
            assert(f0.statements@[i as int] == f.statements@[i as int]);
        }
        if !stmt_fits_exec(&f.statements[i], g, Some(&f.static_args)) {
            return Err(ComputeConstError::Overflow(f.name.value.clone()));
        }
        match simplify_consts_in_statement(&mut f.statements[i], g, &f.static_args) {
            Ok(()) => {},
            Err(e) => {
                return Err(e);
            },
        }
        i = i + 1;
    }
    Ok(())
}

/// Whether every constant of the automata and functions of `p` reduces, or simplifies,
/// within `i32` and without error, with the global constants `g`.
pub open spec fn program_consts_ok(p: Program, g: Seq<(String, Const)>) -> bool {
    &&& forall|k: int| 0 <= k < p.automata@.len() ==> auto_consts_ok((#[trigger] p.automata@[k]).1, g)
    &&& forall|k: int| 0 <= k < p.functions@.len() ==> fn_consts_ok((#[trigger] p.functions@[k]).1, g)
}

/// What computing the constants of `p0` ends with, for the order `order` in which the solver
/// gave the global constants, the solver's error `stopped` if any, and the result `rg` of the
/// global constants: an error there is the result; else the program fails exactly when one
/// of its automata or functions does.
pub open spec fn consts_outcome(
    p0: Program,
    p1: Program,
    order: Seq<String>,
    stopped: Option<DependencyError>,
    rg: Result<(), ComputeConstError>,
    r: Result<(), ComputeConstError>,
) -> bool {
    &&& global_outcome(p0.global_consts@, order, stopped, p1.global_consts@, rg)
    &&& (stopped is None <==> !global_cycle(p0.global_consts@))
    &&& (stopped is Some ==> stopped == Some(DependencyError::CycleDetected))
    &&& dependencies_first(p0.global_consts@, order)
    &&& stopped is None ==> forall|j: int|
        0 <= j < p0.global_consts@.len() ==> exists|k: int|
            0 <= k < order.len() && #[trigger] order[k]@ == (#[trigger] p0.global_consts@[j]).0@
    &&& rg is Err ==> r == rg
    &&& rg is Ok ==> (r is Ok <==> program_consts_ok(p0, p1.global_consts@))
}

/// Computes the constants of the program: the global constants are reduced to values
/// (see `compute_global_consts`), then every constant of the automata is reduced to its
/// value with them, and every constant of the functions simplified with them, the static
/// arguments kept unknown. A constant whose computation would leave `i32` is refused.
pub fn compute_consts(prog: &mut Program) -> (r: Result<(), ComputeConstError>)
    ensures
        exists|order: Seq<String>, stopped: Option<DependencyError>, rg: Result<(), ComputeConstError>|
            #[trigger] consts_outcome(*old(prog), *final(prog), order, stopped, rg, r),
        r is Ok ==> {
            &&& final(prog).imports == old(prog).imports
            &&& final(prog).automata@.len() == old(prog).automata@.len()
            &&& forall|k: int| 0 <= k < old(prog).automata@.len() ==> (#[trigger] final(prog).automata@[k]).0 == old(prog).automata@[k].0
                && auto_consts_rel(old(prog).automata@[k].1, final(prog).automata@[k].1, final(prog).global_consts@)
            &&& final(prog).functions@.len() == old(prog).functions@.len()
            &&& forall|k: int| 0 <= k < old(prog).functions@.len() ==> (#[trigger] final(prog).functions@[k]).0 == old(prog).functions@[k].0
                && fn_consts_rel(old(prog).functions@[k].1, final(prog).functions@[k].1, final(prog).global_consts@)
        },
{
    let ghost g0 = prog.global_consts@;
    let rg = compute_global_consts(&mut prog.global_consts);
    let ghost w: (Seq<String>, Option<DependencyError>) = if g0.len() == 0 {
        (Seq::empty(), None)
    } else {
        choose|order: Seq<String>, stopped: Option<DependencyError>| {
            &&& #[trigger] global_outcome(g0, order, stopped, prog.global_consts@, rg)
            &&& (stopped is None <==> !global_cycle(g0))
            &&& (stopped is Some ==> stopped == Some(DependencyError::CycleDetected))
            &&& dependencies_first(g0, order)
            &&& stopped is None ==> forall|j: int|
                0 <= j < g0.len() ==> exists|k: int|
                    0 <= k < order.len() && #[trigger] order[k]@ == (#[trigger] g0[j]).0@
        }
    };
    proof {
        if g0.len() == 0 {
            assert(resolved(g0, global_locs(g0, 0), w.0) == Ok::<Seq<(String, Const)>, ComputeConstError>(g0));
            if global_cycle(g0) {
                let path = choose|path: Seq<Seq<char>>| #[trigger] crate::util::solver::looping_path(global_edges(g0, 0), start_name(), path);
                assert(global_edges(g0, 0).contains((path[0], path[1])));
            }
        }
    }
    match rg {
        Ok(()) => {},
        Err(e) => {
            assert(consts_outcome(*old(prog), *prog, w.0, w.1, rg, Err(e)));
            return Err(e);
        },
    }
    let ghost p0 = *old(prog);
    let mut i: usize = 0;
    while i < prog.automata.len()
        invariant
            i <= prog.automata@.len(),
            p0 == *old(prog),
            prog.imports == p0.imports,
            prog.functions == p0.functions,
            prog.automata@.len() == p0.automata@.len(),
            forall|k: int| i <= k < p0.automata@.len() ==> prog.automata@[k] == p0.automata@[k],
            forall|k: int| 0 <= k < i ==> (#[trigger] prog.automata@[k]).0 == p0.automata@[k].0
                && auto_consts_rel(p0.automata@[k].1, prog.automata@[k].1, prog.global_consts@),
            forall|k: int| 0 <= k < i ==> auto_consts_ok((#[trigger] p0.automata@[k]).1, prog.global_consts@),
            global_outcome(p0.global_consts@, w.0, w.1, prog.global_consts@, rg),
            (w.1 is None <==> !global_cycle(p0.global_consts@)),
            (w.1 is Some ==> w.1 == Some(DependencyError::CycleDetected)),
            dependencies_first(p0.global_consts@, w.0),
            w.1 is None ==> forall|j: int|
                0 <= j < p0.global_consts@.len() ==> exists|k: int|
                    0 <= k < w.0.len() && #[trigger] w.0[k]@ == (#[trigger] p0.global_consts@[j]).0@,
            rg is Ok,
        decreases prog.automata@.len() - i,
    {
        proof {
            assert(p0.automata@[i as int] == prog.automata@[i as int]);
        }
        match compute_automaton(&mut prog.automata[i].1, &prog.global_consts) {
            Ok(()) => {},
            Err(e) => {
                assert(!program_consts_ok(p0, prog.global_consts@));
                assert(consts_outcome(p0, *prog, w.0, w.1, rg, Err(e)));
                return Err(e);
            },
        }
        i = i + 1;
    }
    let mut i: usize = 0;
    while i < prog.functions.len()
        invariant
            i <= prog.functions@.len(),
            p0 == *old(prog),
            prog.imports == p0.imports,
            prog.automata@.len() == p0.automata@.len(),
            forall|k: int| 0 <= k < p0.automata@.len() ==> (#[trigger] prog.automata@[k]).0 == p0.automata@[k].0
                && auto_consts_rel(p0.automata@[k].1, prog.automata@[k].1, prog.global_consts@),
            prog.functions@.len() == p0.functions@.len(),
            forall|k: int| i <= k < p0.functions@.len() ==> prog.functions@[k] == p0.functions@[k],
            forall|k: int| 0 <= k < i ==> (#[trigger] prog.functions@[k]).0 == p0.functions@[k].0
                && fn_consts_rel(p0.functions@[k].1, prog.functions@[k].1, prog.global_consts@),
            forall|k: int| 0 <= k < p0.automata@.len() ==> auto_consts_ok((#[trigger] p0.automata@[k]).1, prog.global_consts@),
            forall|k: int| 0 <= k < i ==> fn_consts_ok((#[trigger] p0.functions@[k]).1, prog.global_consts@),
            global_outcome(p0.global_consts@, w.0, w.1, prog.global_consts@, rg),
            (w.1 is None <==> !global_cycle(p0.global_consts@)),
            (w.1 is Some ==> w.1 == Some(DependencyError::CycleDetected)),
            dependencies_first(p0.global_consts@, w.0),
            w.1 is None ==> forall|j: int|
                0 <= j < p0.global_consts@.len() ==> exists|k: int|
                    0 <= k < w.0.len() && #[trigger] w.0[k]@ == (#[trigger] p0.global_consts@[j]).0@,
            rg is Ok,
        decreases prog.functions@.len() - i,
    {
        proof {
            assert(p0.functions@[i as int] == prog.functions@[i as int]);
        }
        match compute_function(&mut prog.functions[i].1, &prog.global_consts) {
            Ok(()) => {},
            Err(e) => {
                assert(!program_consts_ok(p0, prog.global_consts@));
                assert(consts_outcome(p0, *prog, w.0, w.1, rg, Err(e)));
                return Err(e);
            },
        }
        i = i + 1;
    }
    assert(program_consts_ok(p0, prog.global_consts@));
    assert(consts_outcome(p0, *prog, w.0, w.1, rg, Ok(())));
    Ok(())
}


/// Once the constants of the automata are computed, the size of every input and output of
/// every automaton is a value.
pub proof fn lemma_sizes_are_values(p0: Program, p1: Program, g: Seq<(String, Const)>)
    requires
        p1.automata@.len() == p0.automata@.len(),
        forall|k: int| 0 <= k < p0.automata@.len() ==> auto_consts_rel(p0.automata@[k].1, #[trigger] p1.automata@[k].1, g),
    ensures
        forall|k: int, i: int| 0 <= k < p1.automata@.len() && 0 <= i < p1.automata@[k].1.inputs@.len()
            ==> (#[trigger] p1.automata@[k].1.inputs@[i]).size.value is Value,
        forall|k: int, i: int| 0 <= k < p1.automata@.len() && 0 <= i < p1.automata@[k].1.outputs@.len()
            ==> (#[trigger] p1.automata@[k].1.outputs@[i]).size.value is Value,
{
    assert forall|k: int, i: int| 0 <= k < p1.automata@.len() && 0 <= i < p1.automata@[k].1.inputs@.len()
        implies (#[trigger] p1.automata@[k].1.inputs@[i]).size.value is Value by {
        assert(auto_consts_rel(p0.automata@[k].1, p1.automata@[k].1, g));
        assert(args_valued(p0.automata@[k].1.inputs@, p1.automata@[k].1.inputs@, g));
    }
    assert forall|k: int, i: int| 0 <= k < p1.automata@.len() && 0 <= i < p1.automata@[k].1.outputs@.len()
        implies (#[trigger] p1.automata@[k].1.outputs@[i]).size.value is Value by {
        assert(auto_consts_rel(p0.automata@[k].1, p1.automata@[k].1, g));
        assert(args_valued(p0.automata@[k].1.outputs@, p1.automata@[k].1.outputs@, g));
    }
}
} // verus!
