//! Flattening of nested expressions.
//!
//! Netlists cannot nest expressions, so every statement is rewritten into a list of
//! statements whose expressions take only variables and constants as operands:
//!
//! ```text
//! a = 1 + 0 * b + f(0)
//! ```
//!
//! becomes
//!
//! ```text
//! x = 0 * b
//! y = 1 + x
//! z = f(0)
//! a = y + z
//! ```
//!
//! The intermediate variables are named `base#flatten#n`, where `#` cannot appear in a
//! source name and `n` is a counter threaded through the pass, so that every name is new.
//! An expression under a register is put in "register form" first: each variable it reads
//! is read through the register, which is not possible for slices, concatenations and memories.
use vstd::prelude::*;

use crate::ast::parse_ast::{
    copy_loc_const, Automaton, BiOp, Const, Expr, FnAssign, FnCall, Function, IfStruct, Loc, Pos,
    Program, RamStruct, RomStruct, State, Statement, Table, TrCond, Transition, VarAssign,
};
use crate::util::text::{decimal, push_decimal};

verus! {

/// Why an expression cannot be put under a register; the position is the register's argument.
#[derive(Debug, Clone, Copy, PartialEq, Eq, Structural)]
pub enum FlattenError {
    ConcatInReg(Pos),
    SliceInReg(Pos),
    MemoryInReg(Pos),
}

/// Whether an expression is being flattened in register form, and if so under which
/// register: the position of the register's argument and the register's size.
pub type RegMode = Option<(Pos, Loc<Const>)>;

/// The first of two optional errors.
pub open spec fn first_of(a: Option<FlattenError>, b: Option<FlattenError>) -> Option<FlattenError> {
    if a is Some {
        a
    } else {
        b
    }
}

/// The first reason, in reading order, why `e` cannot be put under a register whose
/// argument is at `pos`. Registers inside `e` are left as they are.
pub open spec fn regify_err(e: Expr, pos: Pos) -> Option<FlattenError>
    decreases e, 0int,
{
    match e {
        Expr::Not(x) => regify_err(*x, pos),
        Expr::Slice(..) => Some(FlattenError::SliceInReg(pos)),
        Expr::BiOp(op, a, b) => if op == BiOp::Concat {
            Some(FlattenError::ConcatInReg(pos))
        } else {
            first_of(regify_err(a.value, pos), regify_err(b.value, pos))
        },
        Expr::Mux(a, b, c) => first_of(
            regify_err(a.value, pos),
            first_of(regify_err(b.value, pos), regify_err(c.value, pos)),
        ),
        Expr::Ram(_) => Some(FlattenError::MemoryInReg(pos)),
        Expr::Rom(_) => Some(FlattenError::MemoryInReg(pos)),
        Expr::FnCall(f) => regify_args_err(f.args.value@, f.args.value@.len() as int, pos),
        _ => None,
    }
}

/// The first reason why one of the first `j` expressions of `s` cannot be put under a register.
pub open spec fn regify_args_err(s: Seq<Loc<Expr>>, j: int, pos: Pos) -> Option<FlattenError>
    decreases s, j,
{
    if 0 < j <= s.len() {
        first_of(regify_args_err(s, j - 1, pos), regify_err(s[j - 1].value, pos))
    } else {
        None
    }
}

/// The number of statements that flattening `e` adds, which is also the number of names
/// it takes from the counter.
pub open spec fn flat_count(e: Expr, m: RegMode) -> nat
    decreases e, 0int,
{
    match e {
        Expr::Const(_) => 0,
        Expr::Var(_) => if m is Some {
            1
        } else {
            0
        },
        Expr::Last(_) => 1,
        Expr::Not(x) => flat_count(*x, m) + 1,
        Expr::Slice(x, _, _) => flat_count(x.value, m) + 1,
        Expr::BiOp(_, a, b) => flat_count(a.value, m) + flat_count(b.value, m) + 1,
        Expr::Mux(a, b, c) => flat_count(a.value, m) + flat_count(b.value, m) + flat_count(c.value, m)
            + 1,
        Expr::Reg(c, x) => if x.value is Var {
            1
        } else {
            flat_count(x.value, Some((x.loc, c)))
        },
        Expr::Ram(r) => flat_count(r.read_addr.value, m) + flat_count(r.write_enable.value, m)
            + flat_count(r.write_addr.value, m) + flat_count(r.write_data.value, m) + 1,
        Expr::Rom(r) => flat_count(r.read_addr.value, m) + 1,
        Expr::FnCall(f) => args_count(f.args.value@, f.args.value@.len() as int, m) + 1,
    }
}

/// The number of statements that flattening the first `j` expressions of `s` adds.
pub open spec fn args_count(s: Seq<Loc<Expr>>, j: int, m: RegMode) -> nat
    decreases s, j,
{
    if 0 < j <= s.len() {
        args_count(s, j - 1, m) + flat_count(s[j - 1].value, m)
    } else {
        0
    }
}

/// The first error met flattening `e`, in the order the flattening goes.
pub open spec fn flat_err(e: Expr, m: RegMode) -> Option<FlattenError>
    decreases e, 0int,
{
    match e {
        Expr::Not(x) => flat_err(*x, m),
        Expr::Slice(x, _, _) => flat_err(x.value, m),
        Expr::BiOp(_, a, b) => first_of(flat_err(a.value, m), flat_err(b.value, m)),
        Expr::Mux(a, b, c) => first_of(
            flat_err(a.value, m),
            first_of(flat_err(b.value, m), flat_err(c.value, m)),
        ),
        Expr::Reg(c, x) => if x.value is Var {
            None
        } else {
            first_of(regify_err(x.value, x.loc), flat_err(x.value, Some((x.loc, c))))
        },
        Expr::Ram(r) => first_of(
            flat_err(r.read_addr.value, m),
            first_of(
                flat_err(r.write_enable.value, m),
                first_of(flat_err(r.write_addr.value, m), flat_err(r.write_data.value, m)),
            ),
        ),
        Expr::Rom(r) => flat_err(r.read_addr.value, m),
        Expr::FnCall(f) => args_err(f.args.value@, f.args.value@.len() as int, m),
        _ => None,
    }
}

/// The first error met flattening the first `j` expressions of `s`.
pub open spec fn args_err(s: Seq<Loc<Expr>>, j: int, m: RegMode) -> Option<FlattenError>
    decreases s, j,
{
    if 0 < j <= s.len() {
        first_of(args_err(s, j - 1, m), flat_err(s[j - 1].value, m))
    } else {
        None
    }
}

/// Whether flattening `e` comes to an end. It does not when a `last` is put in register
/// form (`reg(last(x))` or `reg(a & last(x))`): the register form of `last(x)` is a
/// register on `last(x)` again. Parts after a first error are not flattened.
pub open spec fn flat_ends(e: Expr, m: RegMode) -> bool
    decreases e, 0int,
{
    match e {
        Expr::Last(_) => m is None,
        Expr::Not(x) => flat_ends(*x, m),
        Expr::Slice(x, _, _) => flat_ends(x.value, m),
        Expr::BiOp(_, a, b) => flat_ends(a.value, m) && (flat_err(a.value, m) is Some || flat_ends(
            b.value,
            m,
        )),
        Expr::Mux(a, b, c) => flat_ends(a.value, m) && (flat_err(a.value, m) is Some || (flat_ends(
            b.value,
            m,
        ) && (flat_err(b.value, m) is Some || flat_ends(c.value, m)))),
        Expr::Reg(c, x) => x.value is Var || regify_err(x.value, x.loc) is Some || flat_ends(
            x.value,
            Some((x.loc, c)),
        ),
        Expr::Ram(r) => flat_ends(r.read_addr.value, m) && (flat_err(r.read_addr.value, m) is Some
            || (flat_ends(r.write_enable.value, m) && (flat_err(r.write_enable.value, m) is Some || (
        flat_ends(r.write_addr.value, m) && (flat_err(r.write_addr.value, m) is Some || flat_ends(
            r.write_data.value,
            m,
        )))))),
        Expr::Rom(r) => flat_ends(r.read_addr.value, m),
        Expr::FnCall(f) => args_ends(f.args.value@, f.args.value@.len() as int, m),
        _ => true,
    }
}

/// Whether flattening the first `j` expressions of `s` comes to an end.
pub open spec fn args_ends(s: Seq<Loc<Expr>>, j: int, m: RegMode) -> bool
    decreases s, j,
{
    if 0 < j <= s.len() {
        args_ends(s, j - 1, m) && (args_err(s, j - 1, m) is Some || flat_ends(s[j - 1].value, m))
    } else {
        true
    }
}

/// The name of the `n`-th intermediate variable, made from the name `base`.
pub open spec fn fresh_name(base: Seq<char>, n: nat) -> Seq<char> {
    base + "#flatten#"@ + decimal(n)
}

/// Intermediate names with different numbers differ, whatever names they are made from;
/// made from names without `#` (as every identifier of the language is), two of them are
/// equal only when made from the same name with the same number, and none is such an
/// identifier.
pub proof fn law_fresh_names_distinct(b1: Seq<char>, n1: nat, b2: Seq<char>, n2: nat)
    ensures
        fresh_name(b1, n1) == fresh_name(b2, n2) ==> n1 == n2,
        !b1.contains('#') && !b2.contains('#') ==> (fresh_name(b1, n1) == fresh_name(b2, n2) <==> (b1 == b2 && n1 == n2)),
        fresh_name(b1, n1).contains('#'),
{
    let s1 = fresh_name(b1, n1);
    let s2 = fresh_name(b2, n2);
    let d1 = decimal(n1);
    let d2 = decimal(n2);
    reveal_strlit("#flatten#");
    crate::util::text::lemma_decimal_digits(n1, '#');
    crate::util::text::lemma_decimal_digits(n2, '#');
    assert(s1[b1.len() as int] == '#');
    if s1 == s2 {
        let l = s1.len();
        if d1.len() < d2.len() {
            assert(s1[l - 1 - d1.len()] == '#');
            assert(s2[l - 1 - d1.len()] == d2[d2.len() - 1 - d1.len()]);
            assert(d2.contains(d2[d2.len() - 1 - d1.len()]));
        }
        if d2.len() < d1.len() {
            assert(s2[l - 1 - d2.len()] == '#');
            assert(s1[l - 1 - d2.len()] == d1[d1.len() - 1 - d2.len()]);
            assert(d1.contains(d1[d1.len() - 1 - d2.len()]));
        }
        assert(d1 =~= s1.subrange(l - d1.len(), l as int));
        assert(d2 =~= s2.subrange(l - d2.len(), l as int));
        crate::util::text::lemma_decimal_injective(n1, n2);
        if !b1.contains('#') && !b2.contains('#') {
            assert(s2[b2.len() as int] == '#');
            if b1.len() < b2.len() {
                assert(s2[b1.len() as int] == b2[b1.len() as int]);
            }
            if b2.len() < b1.len() {
                assert(s1[b2.len() as int] == b1[b2.len() as int]);
            }
            assert(b1 =~= s1.subrange(0, b1.len() as int));
            assert(b2 =~= s2.subrange(0, b2.len() as int));
        }
    }
}

/// Flattenings that share the counter never introduce the same variable twice: a later
/// flattening, which starts where an earlier one left the counter, assigns no variable that
/// the earlier one assigns.
pub proof fn law_flattenings_fresh(
    name1: Seq<char>,
    e1: Loc<Expr>,
    m1: RegMode,
    n1: nat,
    stmts1: Seq<Statement>,
    out1: Expr,
    name2: Seq<char>,
    e2: Loc<Expr>,
    m2: RegMode,
    n2: nat,
    stmts2: Seq<Statement>,
    out2: Expr,
    i1: int,
    i2: int,
    v1: Seq<char>,
    v2: Seq<char>,
)
    requires
        flat_rel(name1, e1, m1, n1, stmts1, out1),
        flat_rel(name2, e2, m2, n2, stmts2, out2),
        n1 + flat_count(e1.value, m1) <= n2,
        0 <= i1 < stmts1.len(),
        0 <= i2 < stmts2.len(),
        assigns_name(stmts1[i1], v1),
        assigns_name(stmts2[i2], v2),
    ensures
        v1 != v2,
{
    lemma_flat_names(name1, e1, m1, n1, stmts1, out1);
    lemma_flat_names(name2, e2, m2, n2, stmts2, out2);
    assert(assigns_fresh_in(stmts1[i1], n1, n1 + flat_count(e1.value, m1)));
    assert(assigns_fresh_in(stmts2[i2], n2, n2 + flat_count(e2.value, m2)));
    let (b1, k1) = choose|b: Seq<char>, k: nat| n1 <= k < n1 + flat_count(e1.value, m1) && #[trigger] assigns_name(stmts1[i1], fresh_name(b, k));
    let (b2, k2) = choose|b: Seq<char>, k: nat| n2 <= k < n2 + flat_count(e2.value, m2) && #[trigger] assigns_name(stmts2[i2], fresh_name(b, k));
    law_fresh_names_distinct(b1, k1, b2, k2);
}

/// `s` assigns to a single variable, named `var` at `p`.
pub open spec fn assign_of(s: Statement, p: Pos, var: Seq<char>) -> bool {
    s matches Statement::Assign(v) && v@.len() == 1 && v@[0].var.loc == p && v@[0].var.value@ == var
}

/// The expression of a single assignment.
pub open spec fn assign_expr(s: Statement) -> Loc<Expr> {
    match s {
        Statement::Assign(v) => v@[0].expr,
        _ => arbitrary(),
    }
}

/// `e` is the variable named `var` at `p`.
pub open spec fn var_named(e: Expr, p: Pos, var: Seq<char>) -> bool {
    e matches Expr::Var(l) && l.loc == p && l.value@ == var
}

/// `stmts` and `out` are the result of flattening `e` with intermediate names made from
/// `name` and taken from the counter from `n` on: once `stmts` have run, `out`, a variable
/// or a constant, holds the value of `e`. Each operation becomes one assignment to a new
/// variable, at the position of the operation (of its first operand for binary operations
/// and memories, of its argument for registers and ROMs), after the statements of its operands
/// in order. A `last(x)` is named after `x`; the arguments of a call after the function.
/// In register form a variable `x` becomes `reg(x)` at the position of the register's argument.
pub open spec fn flat_rel(
    name: Seq<char>,
    e: Loc<Expr>,
    m: RegMode,
    n: nat,
    stmts: Seq<Statement>,
    out: Expr,
) -> bool
    decreases e.value, 0int,
{
    let g = e.loc;
    stmts.len() == flat_count(e.value, m) && match e.value {
        Expr::Const(_) => out == e.value,
        Expr::Var(v) => match m {
            None => out == e.value,
            Some((p, c)) => {
                let f = fresh_name(name, n);
                &&& assign_of(stmts[0], p, f)
                &&& assign_expr(stmts[0]) == Loc {
                    loc: p,
                    value: Expr::Reg(c, Box::new(Loc { loc: p, value: Expr::Var(v) })),
                }
                &&& var_named(out, p, f)
            },
        },
        Expr::Last(v) => {
            let f = fresh_name(v.value@, n);
            &&& assign_of(stmts[0], v.loc, f)
            &&& assign_expr(stmts[0]) == Loc { loc: g, value: Expr::Last(v) }
            &&& var_named(out, v.loc, f)
        },
        Expr::Not(x) => {
            let k = flat_count(*x, m);
            let a = assign_expr(stmts[k as int]);
            &&& assign_of(stmts[k as int], g, fresh_name(name, n + k))
            &&& a.loc == g
            &&& a.value matches Expr::Not(o)
            &&& flat_rel(name, Loc { loc: g, value: *x }, m, n, stmts.subrange(0, k as int), *o)
            &&& var_named(out, g, fresh_name(name, n + k))
        },
        Expr::Slice(x, c1, c2) => {
            let k = flat_count(x.value, m);
            let a = assign_expr(stmts[k as int]);
            &&& assign_of(stmts[k as int], g, fresh_name(name, n + k))
            &&& a.loc == g
            &&& a.value matches Expr::Slice(o, d1, d2)
            &&& d1 == c1
            &&& d2 == c2
            &&& o.loc == x.loc
            &&& flat_rel(name, *x, m, n, stmts.subrange(0, k as int), o.value)
            &&& var_named(out, g, fresh_name(name, n + k))
        },
        Expr::BiOp(op, x, y) => {
            let k1 = flat_count(x.value, m);
            let k2 = flat_count(y.value, m);
            let a = assign_expr(stmts[(k1 + k2) as int]);
            let p = x.loc;
            &&& assign_of(stmts[(k1 + k2) as int], p, fresh_name(name, n + k1 + k2))
            &&& a.loc == p
            &&& a.value matches Expr::BiOp(op2, o1, o2)
            &&& op2 == op
            &&& o1.loc == x.loc
            &&& o2.loc == y.loc
            &&& flat_rel(name, *x, m, n, stmts.subrange(0, k1 as int), o1.value)
            &&& flat_rel(name, *y, m, n + k1, stmts.subrange(k1 as int, (k1 + k2) as int), o2.value)
            &&& var_named(out, p, fresh_name(name, n + k1 + k2))
        },
        Expr::Mux(x, y, z) => {
            let k1 = flat_count(x.value, m);
            let k2 = flat_count(y.value, m);
            let k3 = flat_count(z.value, m);
            let a = assign_expr(stmts[(k1 + k2 + k3) as int]);
            &&& assign_of(stmts[(k1 + k2 + k3) as int], g, fresh_name(name, n + k1 + k2 + k3))
            &&& a.loc == g
            &&& a.value matches Expr::Mux(o1, o2, o3)
            &&& o1.loc == x.loc
            &&& o2.loc == y.loc
            &&& o3.loc == z.loc
            &&& flat_rel(name, *x, m, n, stmts.subrange(0, k1 as int), o1.value)
            &&& flat_rel(name, *y, m, n + k1, stmts.subrange(k1 as int, (k1 + k2) as int), o2.value)
            &&& flat_rel(
                name,
                *z,
                m,
                n + k1 + k2,
                stmts.subrange((k1 + k2) as int, (k1 + k2 + k3) as int),
                o3.value,
            )
            &&& var_named(out, g, fresh_name(name, n + k1 + k2 + k3))
        },
        Expr::Reg(c, x) => if x.value is Var {
            let f = fresh_name(name, n);
            &&& assign_of(stmts[0], x.loc, f)
            &&& assign_expr(stmts[0]) == Loc { loc: x.loc, value: Expr::Reg(c, x) }
            &&& var_named(out, x.loc, f)
        } else {
            flat_rel(name, *x, Some((x.loc, c)), n, stmts, out)
        },
        Expr::Ram(r) => {
            let k1 = flat_count(r.read_addr.value, m);
            let k2 = flat_count(r.write_enable.value, m);
            let k3 = flat_count(r.write_addr.value, m);
            let k4 = flat_count(r.write_data.value, m);
            let k = k1 + k2 + k3 + k4;
            let a = assign_expr(stmts[k as int]);
            let p = r.read_addr.loc;
            &&& assign_of(stmts[k as int], p, fresh_name(name, n + k))
            &&& a.loc == p
            &&& a.value matches Expr::Ram(o)
            &&& o.read_addr.loc == r.read_addr.loc
            &&& o.write_enable.loc == r.write_enable.loc
            &&& o.write_addr.loc == r.write_addr.loc
            &&& o.write_data.loc == r.write_data.loc
            &&& flat_rel(name, *r.read_addr, m, n, stmts.subrange(0, k1 as int), o.read_addr.value)
            &&& flat_rel(
                name,
                *r.write_enable,
                m,
                n + k1,
                stmts.subrange(k1 as int, (k1 + k2) as int),
                o.write_enable.value,
            )
            &&& flat_rel(
                name,
                *r.write_addr,
                m,
                n + k1 + k2,
                stmts.subrange((k1 + k2) as int, (k1 + k2 + k3) as int),
                o.write_addr.value,
            )
            &&& flat_rel(
                name,
                *r.write_data,
                m,
                n + k1 + k2 + k3,
                stmts.subrange((k1 + k2 + k3) as int, k as int),
                o.write_data.value,
            )
            &&& var_named(out, p, fresh_name(name, n + k))
        },
        Expr::Rom(r) => {
            let k = flat_count(r.read_addr.value, m);
            let a = assign_expr(stmts[k as int]);
            let p = r.read_addr.loc;
            &&& assign_of(stmts[k as int], p, fresh_name(name, n + k))
            &&& a.loc == p
            &&& a.value matches Expr::Rom(o)
            &&& o.word_size == r.word_size
            &&& o.read_addr.loc == p
            &&& flat_rel(name, *r.read_addr, m, n, stmts.subrange(0, k as int), o.read_addr.value)
            &&& var_named(out, p, fresh_name(name, n + k))
        },
        Expr::FnCall(fc) => {
            let len = fc.args.value@.len() as int;
            let k = args_count(fc.args.value@, len, m);
            let f = fresh_name(name, n);
            &&& stmts[k as int] matches Statement::FnAssign(fa)
            &&& fa.vars@.len() == 1
            &&& fa.vars@[0].loc == g
            &&& fa.vars@[0].value@ == f
            &&& fa.f.name == fc.name
            &&& fa.f.static_args == fc.static_args
            &&& fa.f.args.loc == g
            &&& fa.f.args.value@.len() == len
            &&& args_rel(
                fc.name.value@,
                fc.args.value@,
                len,
                m,
                n + 1,
                stmts.subrange(0, k as int),
                fa.f.args.value@,
            )
            &&& var_named(out, g, f)
        },
    }
}

/// `stmts` and `outs` are the result of flattening the first `j` expressions of `s` in order,
/// with names made from `name` and taken from the counter from `n` on: `outs[i]` is the
/// result of `s[i]`, at the same position.
pub open spec fn args_rel(
    name: Seq<char>,
    s: Seq<Loc<Expr>>,
    j: int,
    m: RegMode,
    n: nat,
    stmts: Seq<Statement>,
    outs: Seq<Loc<Expr>>,
) -> bool
    decreases s, j,
{
    if 0 < j <= s.len() {
        let t = args_count(s, j - 1, m);
        let k = flat_count(s[j - 1].value, m);
        &&& stmts.len() == t + k
        &&& args_rel(name, s, j - 1, m, n, stmts.subrange(0, t as int), outs)
        &&& outs[j - 1].loc == s[j - 1].loc
        &&& flat_rel(name, s[j - 1], m, n + t, stmts.subrange(t as int, (t + k) as int), outs[j - 1].value)
    } else {
        stmts.len() == 0
    }
}


/// The statement assigns a single variable named `v`.
pub open spec fn assigns_name(s: Statement, v: Seq<char>) -> bool {
    match s {
        Statement::Assign(a) => a@.len() == 1 && a@[0].var.value@ == v,
        Statement::FnAssign(fa) => fa.vars@.len() == 1 && fa.vars@[0].value@ == v,
        _ => false,
    }
}

/// The statement assigns a single intermediate variable, numbered from `lo` up to `hi`.
pub open spec fn assigns_fresh_in(s: Statement, lo: nat, hi: nat) -> bool {
    exists|b: Seq<char>, k: nat| lo <= k < hi && #[trigger] assigns_name(s, fresh_name(b, k))
}

/// A statement numbered within a range is numbered within any range around it.
proof fn lemma_part_fresh(stmts: Seq<Statement>, a: int, b: int, lo: nat, hi: nat, lo2: nat, hi2: nat)
    requires
        0 <= a <= b <= stmts.len(),
        lo <= lo2,
        hi2 <= hi,
        forall|i: int| 0 <= i < b - a ==> assigns_fresh_in(#[trigger] stmts.subrange(a, b)[i], lo2, hi2),
    ensures
        forall|i: int| a <= i < b ==> assigns_fresh_in(#[trigger] stmts[i], lo, hi),
{
    assert forall|i: int| a <= i < b implies assigns_fresh_in(#[trigger] stmts[i], lo, hi) by {
        assert(stmts.subrange(a, b)[i - a] == stmts[i]);
        assert(assigns_fresh_in(stmts.subrange(a, b)[i - a], lo2, hi2));
        let (bb, k) = choose|bb: Seq<char>, k: nat| lo2 <= k < hi2 && #[trigger] assigns_name(stmts[i], fresh_name(bb, k));
        assert(assigns_name(stmts[i], fresh_name(bb, k)));
    }
}

/// Each statement that flattening `e` from the counter value `n` adds assigns one
/// intermediate variable, numbered from `n` up to the counter value it leaves: the numbers
/// that a flattening takes are its own.
pub proof fn lemma_flat_names(name: Seq<char>, e: Loc<Expr>, m: RegMode, n: nat, stmts: Seq<Statement>, out: Expr)
    requires
        flat_rel(name, e, m, n, stmts, out),
    ensures
        forall|i: int| 0 <= i < stmts.len() ==> assigns_fresh_in(#[trigger] stmts[i], n, n + flat_count(e.value, m)),
    decreases e.value, 0int,
{
    let g = e.loc;
    let hi = n + flat_count(e.value, m);
    match e.value {
        Expr::Const(_) => {},
        Expr::Var(v) => {
            if m is Some {
                assert(assigns_name(stmts[0], fresh_name(name, n)));
            }
        },
        Expr::Last(v) => {
            assert(assigns_name(stmts[0], fresh_name(v.value@, n)));
        },
        Expr::Not(x) => {
            let k = flat_count(*x, m);
            if let Expr::Not(o) = assign_expr(stmts[k as int]).value {
                lemma_flat_names(name, Loc { loc: g, value: *x }, m, n, stmts.subrange(0, k as int), *o);
            }
            lemma_part_fresh(stmts, 0, k as int, n, hi, n, n + k);
            assert(assigns_name(stmts[k as int], fresh_name(name, n + k)));
        },
        Expr::Slice(x, _, _) => {
            let k = flat_count(x.value, m);
            if let Expr::Slice(o, _, _) = assign_expr(stmts[k as int]).value {
                lemma_flat_names(name, *x, m, n, stmts.subrange(0, k as int), o.value);
            }
            lemma_part_fresh(stmts, 0, k as int, n, hi, n, n + k);
            assert(assigns_name(stmts[k as int], fresh_name(name, n + k)));
        },
        Expr::BiOp(_, x, y) => {
            let k1 = flat_count(x.value, m);
            let k2 = flat_count(y.value, m);
            if let Expr::BiOp(_, o1, o2) = assign_expr(stmts[(k1 + k2) as int]).value {
                lemma_flat_names(name, *x, m, n, stmts.subrange(0, k1 as int), o1.value);
                lemma_flat_names(name, *y, m, n + k1, stmts.subrange(k1 as int, (k1 + k2) as int), o2.value);
            }
            lemma_part_fresh(stmts, 0, k1 as int, n, hi, n, n + k1);
            lemma_part_fresh(stmts, k1 as int, (k1 + k2) as int, n, hi, n + k1, n + k1 + k2);
            assert(assigns_name(stmts[(k1 + k2) as int], fresh_name(name, n + k1 + k2)));
        },
        Expr::Mux(x, y, z) => {
            let k1 = flat_count(x.value, m);
            let k2 = flat_count(y.value, m);
            let k3 = flat_count(z.value, m);
            if let Expr::Mux(o1, o2, o3) = assign_expr(stmts[(k1 + k2 + k3) as int]).value {
                lemma_flat_names(name, *x, m, n, stmts.subrange(0, k1 as int), o1.value);
                lemma_flat_names(name, *y, m, n + k1, stmts.subrange(k1 as int, (k1 + k2) as int), o2.value);
                lemma_flat_names(name, *z, m, n + k1 + k2, stmts.subrange((k1 + k2) as int, (k1 + k2 + k3) as int), o3.value);
            }
            lemma_part_fresh(stmts, 0, k1 as int, n, hi, n, n + k1);
            lemma_part_fresh(stmts, k1 as int, (k1 + k2) as int, n, hi, n + k1, n + k1 + k2);
            lemma_part_fresh(stmts, (k1 + k2) as int, (k1 + k2 + k3) as int, n, hi, n + k1 + k2, n + k1 + k2 + k3);
            assert(assigns_name(stmts[(k1 + k2 + k3) as int], fresh_name(name, n + k1 + k2 + k3)));
        },
        Expr::Reg(c, x) => {
            if x.value is Var {
                assert(assigns_name(stmts[0], fresh_name(name, n)));
            } else {
                lemma_flat_names(name, *x, Some((x.loc, c)), n, stmts, out);
            }
        },
        Expr::Ram(r) => {
            let k1 = flat_count(r.read_addr.value, m);
            let k2 = flat_count(r.write_enable.value, m);
            let k3 = flat_count(r.write_addr.value, m);
            let k4 = flat_count(r.write_data.value, m);
            let k = k1 + k2 + k3 + k4;
            if let Expr::Ram(o) = assign_expr(stmts[k as int]).value {
                lemma_flat_names(name, *r.read_addr, m, n, stmts.subrange(0, k1 as int), o.read_addr.value);
                lemma_flat_names(name, *r.write_enable, m, n + k1, stmts.subrange(k1 as int, (k1 + k2) as int), o.write_enable.value);
                lemma_flat_names(name, *r.write_addr, m, n + k1 + k2, stmts.subrange((k1 + k2) as int, (k1 + k2 + k3) as int), o.write_addr.value);
                lemma_flat_names(name, *r.write_data, m, n + k1 + k2 + k3, stmts.subrange((k1 + k2 + k3) as int, k as int), o.write_data.value);
            }
            lemma_part_fresh(stmts, 0, k1 as int, n, hi, n, n + k1);
            lemma_part_fresh(stmts, k1 as int, (k1 + k2) as int, n, hi, n + k1, n + k1 + k2);
            lemma_part_fresh(stmts, (k1 + k2) as int, (k1 + k2 + k3) as int, n, hi, n + k1 + k2, n + k1 + k2 + k3);
            lemma_part_fresh(stmts, (k1 + k2 + k3) as int, k as int, n, hi, n + k1 + k2 + k3, n + k);
            assert(assigns_name(stmts[k as int], fresh_name(name, n + k)));
        },
        Expr::Rom(r) => {
            let k = flat_count(r.read_addr.value, m);
            if let Expr::Rom(o) = assign_expr(stmts[k as int]).value {
                lemma_flat_names(name, *r.read_addr, m, n, stmts.subrange(0, k as int), o.read_addr.value);
            }
            lemma_part_fresh(stmts, 0, k as int, n, hi, n, n + k);
            assert(assigns_name(stmts[k as int], fresh_name(name, n + k)));
        },
        Expr::FnCall(fc) => {
            let len = fc.args.value@.len() as int;
            let k = args_count(fc.args.value@, len, m);
            if let Statement::FnAssign(fa) = stmts[k as int] {
                lemma_args_names(fc.name.value@, fc.args.value@, len, m, n + 1, stmts.subrange(0, k as int), fa.f.args.value@);
            }
            lemma_part_fresh(stmts, 0, k as int, n, hi, n + 1, n + 1 + k);
            assert(assigns_name(stmts[k as int], fresh_name(name, n)));
        },
    }
}

/// The statements that flattening the first `j` arguments adds each assign one intermediate
/// variable, numbered from `n` up to the counter value it leaves.
pub proof fn lemma_args_names(name: Seq<char>, s: Seq<Loc<Expr>>, j: int, m: RegMode, n: nat, stmts: Seq<Statement>, outs: Seq<Loc<Expr>>)
    requires
        args_rel(name, s, j, m, n, stmts, outs),
    ensures
        forall|i: int| 0 <= i < stmts.len() ==> assigns_fresh_in(#[trigger] stmts[i], n, n + args_count(s, j, m)),
    decreases s, j,
{
    if 0 < j <= s.len() {
        let t = args_count(s, j - 1, m);
        let k = flat_count(s[j - 1].value, m);
        lemma_args_names(name, s, j - 1, m, n, stmts.subrange(0, t as int), outs);
        lemma_flat_names(name, s[j - 1], m, n + t, stmts.subrange(t as int, (t + k) as int), outs[j - 1].value);
        lemma_part_fresh(stmts, 0, t as int, n, n + t + k, n, n + t);
        lemma_part_fresh(stmts, t as int, (t + k) as int, n, n + t + k, n + t, n + t + k);
    }
}

/// The mode of a register form given by reference.
pub open spec fn mode_view(mode: Option<(Pos, &Loc<Const>)>) -> RegMode {
    match mode {
        Some((p, c)) => Some((p, *c)),
        None => None,
    }
}

/// What flattening `e` from the counter value `n0` promises: on success the statements and
/// the result that `flat_rel` describes and the counter moved past the names taken; on
/// failure the first error met.
pub open spec fn flat_done(
    name: Seq<char>,
    e: Loc<Expr>,
    m: RegMode,
    n0: nat,
    n1: nat,
    r: Result<(Vec<Statement>, Expr), FlattenError>,
) -> bool {
    match r {
        Ok((stmts, out)) => {
            &&& flat_err(e.value, m) is None
            &&& flat_rel(name, e, m, n0, stmts@, out)
            &&& n1 == n0 + flat_count(e.value, m)
        },
        Err(x) => flat_err(e.value, m) == Some(x),
    }
}

/// Takes a new intermediate name made from `name`.
fn get_name(name: &String, counter: &mut usize) -> (r: String)
    requires
        *old(counter) < usize::MAX,
    ensures
        r@ == fresh_name(name@, *old(counter) as nat),
        *final(counter) == *old(counter) + 1,
{
    let mut s = name.clone();
    s.append("#flatten#");
    push_decimal(&mut s, *counter);
    *counter = *counter + 1;
    s
}

/// The statement `var = expr` with the variable named `var` at `p`.
fn assign_stmt(p: Pos, var: String, expr: Loc<Expr>) -> (r: Statement)
    ensures
        assign_of(r, p, var@),
        assign_expr(r) == expr,
{
    Statement::Assign(vec![VarAssign { var: Loc { loc: p, value: var }, expr }])
}

/// Checks that `e` can be put under a register whose argument is at `pos`.
fn regify_check(e: &Expr, pos: Pos) -> (r: Option<FlattenError>)
    ensures
        r == regify_err(*e, pos),
    decreases e, 2int,
{
    match e {
        Expr::Not(x) => regify_check(x, pos),
        Expr::Slice(..) => Some(FlattenError::SliceInReg(pos)),
        Expr::BiOp(op, a, b) => {
            if *op == BiOp::Concat {
                Some(FlattenError::ConcatInReg(pos))
            } else {
                let r = regify_check(&a.value, pos);
                if r.is_some() {
                    r
                } else {
                    regify_check(&b.value, pos)
                }
            }
        },
        Expr::Mux(a, b, c) => {
            let r = regify_check(&a.value, pos);
            if r.is_some() {
                return r;
            }
            let r = regify_check(&b.value, pos);
            if r.is_some() {
                return r;
            }
            regify_check(&c.value, pos)
        },
        Expr::Ram(_) => Some(FlattenError::MemoryInReg(pos)),
        Expr::Rom(_) => Some(FlattenError::MemoryInReg(pos)),
        Expr::FnCall(f) => regify_args_check(&f.args.value, pos),
        _ => None,
    }
}

/// Checks that the expressions of `args` can be put under a register whose argument is at `pos`.
fn regify_args_check(args: &Vec<Loc<Expr>>, pos: Pos) -> (r: Option<FlattenError>)
    ensures
        r == regify_args_err(args@, args@.len() as int, pos),
    decreases args, 1int,
{
    let ghost s0 = args@;
    let mut r: Option<FlattenError> = None;
    let mut i: usize = 0;
    while i < args.len()
        invariant
            s0 == args@,
            i <= args@.len(),
            r == regify_args_err(args@, i as int, pos),
        decreases args@.len() - i,
    {
        if r.is_none() {
            proof {
                assert(decreases_to!(s0 => s0[i as int].value));
            }
            r = regify_check(&args[i].value, pos);
        }
        i = i + 1;
    }
    r
}


/// Flattening stops at the first error of a list of expressions.
proof fn lemma_args_err_stays(s: Seq<Loc<Expr>>, j: int, len: int, m: RegMode)
    requires
        0 <= j <= len <= s.len(),
        args_err(s, j, m) is Some,
    ensures
        args_err(s, len, m) == args_err(s, j, m),
    decreases len,
{
    if len > j {
        lemma_args_err_stays(s, j, len - 1, m);
    }
}

/// The names taken by a prefix of a list of expressions are at most those of a longer one.
proof fn lemma_args_count_grows(s: Seq<Loc<Expr>>, j: int, len: int, m: RegMode)
    requires
        0 <= j <= len <= s.len(),
    ensures
        args_count(s, j, m) <= args_count(s, len, m),
    decreases len,
{
    if len > j {
        lemma_args_count_grows(s, j, len - 1, m);
    }
}

/// When flattening a list comes to an end, so does flattening each expression reached.
proof fn lemma_args_ends(s: Seq<Loc<Expr>>, j: int, len: int, m: RegMode)
    requires
        0 <= j < len <= s.len(),
        args_ends(s, len, m),
        args_err(s, j, m) is None,
    ensures
        flat_ends(s[j].value, m),
    decreases len,
{
    if len > j + 1 {
        lemma_args_ends(s, j, len - 1, m);
    }
}

/// `args_rel` on the first `j` expressions only reads the first `j` results.
proof fn lemma_args_rel_outs(
    name: Seq<char>,
    s: Seq<Loc<Expr>>,
    j: int,
    m: RegMode,
    n: nat,
    stmts: Seq<Statement>,
    outs: Seq<Loc<Expr>>,
    outs2: Seq<Loc<Expr>>,
)
    requires
        0 <= j <= s.len(),
        j <= outs.len(),
        j <= outs2.len(),
        forall|i: int| 0 <= i < j ==> outs[i] == outs2[i],
    ensures
        args_rel(name, s, j, m, n, stmts, outs) == args_rel(name, s, j, m, n, stmts, outs2),
    decreases j,
{
    if j > 0 {
        let t = args_count(s, j - 1, m);
        lemma_args_rel_outs(name, s, j - 1, m, n, stmts.subrange(0, t as int), outs, outs2);
    }
}

/// Flattens `expr` (in register form when `mode` is set) with names made from `name`,
/// returning the statements to run before and the variable or constant that holds its value.
fn flatten_expr(
    name: &String,
    expr: Loc<Expr>,
    mode: Option<(Pos, &Loc<Const>)>,
    counter: &mut usize,
) -> (r: Result<(Vec<Statement>, Expr), FlattenError>)
    requires
        flat_ends(expr.value, mode_view(mode)),
        *old(counter) + flat_count(expr.value, mode_view(mode)) <= usize::MAX,
    ensures
        flat_done(name@, expr, mode_view(mode), *old(counter) as nat, *final(counter) as nat, r),
    decreases expr.value, 1int,
{
    if matches!(expr.value, Expr::Not(_)) {
        return flatten_not(name, expr, mode, counter);
    }
    if matches!(expr.value, Expr::Slice(..)) {
        return flatten_slice(name, expr, mode, counter);
    }
    if matches!(expr.value, Expr::BiOp(..)) {
        return flatten_biop(name, expr, mode, counter);
    }
    if matches!(expr.value, Expr::Mux(..)) {
        return flatten_mux(name, expr, mode, counter);
    }
    if matches!(expr.value, Expr::Reg(..)) {
        return flatten_reg(name, expr, mode, counter);
    }
    if matches!(expr.value, Expr::Ram(..)) {
        return flatten_ram(name, expr, mode, counter);
    }
    if matches!(expr.value, Expr::Rom(..)) {
        return flatten_rom(name, expr, mode, counter);
    }
    if matches!(expr.value, Expr::FnCall(..)) {
        return flatten_call(name, expr, mode, counter);
    }
    let Loc { loc: g, value } = expr;
    match value {
        Expr::Var(v) => match mode {
            None => Ok((Vec::new(), Expr::Var(v))),
            Some((p, c)) => {
                let f = get_name(name, counter);
                let st = assign_stmt(
                    p,
                    f.clone(),
                    Loc {
                        loc: p,
                        value: Expr::Reg(
                            copy_loc_const(c),
                            Box::new(Loc { loc: p, value: Expr::Var(v) }),
                        ),
                    },
                );
                Ok((vec![st], Expr::Var(Loc { loc: p, value: f })))
            },
        },
        Expr::Last(v) => {
            let f = get_name(&v.value, counter);
            let p = v.loc;
            let st = assign_stmt(p, f.clone(), Loc { loc: g, value: Expr::Last(v) });
            Ok((vec![st], Expr::Var(Loc { loc: p, value: f })))
        },
        other => Ok((Vec::new(), other)),
    }
}

fn flatten_not(
    name: &String,
    expr: Loc<Expr>,
    mode: Option<(Pos, &Loc<Const>)>,
    counter: &mut usize,
) -> (r: Result<(Vec<Statement>, Expr), FlattenError>)
    requires
        expr.value is Not,
        flat_ends(expr.value, mode_view(mode)),
        *old(counter) + flat_count(expr.value, mode_view(mode)) <= usize::MAX,
    ensures
        flat_done(name@, expr, mode_view(mode), *old(counter) as nat, *final(counter) as nat, r),
    decreases expr.value, 0int,
{
    let Loc { loc: g, value } = expr;
    match value {
        Expr::Not(x) => {
            let (mut v, o) = match flatten_expr(name, Loc { loc: g, value: *x }, mode, counter) {
                Ok(p) => p,
                Err(e) => {
                    return Err(e);
                },
            };
            let ghost v0 = v@;
            let f = get_name(name, counter);
            let st = assign_stmt(g, f.clone(), Loc { loc: g, value: Expr::Not(Box::new(o)) });
            v.push(st);
            assert(v@.subrange(0, v0.len() as int) =~= v0);
            Ok((v, Expr::Var(Loc { loc: g, value: f })))
        },
        _ => {
            proof {
                assert(false);
            }
            Err(FlattenError::ConcatInReg(g))
        },
    }
}

fn flatten_slice(
    name: &String,
    expr: Loc<Expr>,
    mode: Option<(Pos, &Loc<Const>)>,
    counter: &mut usize,
) -> (r: Result<(Vec<Statement>, Expr), FlattenError>)
    requires
        expr.value is Slice,
        flat_ends(expr.value, mode_view(mode)),
        *old(counter) + flat_count(expr.value, mode_view(mode)) <= usize::MAX,
    ensures
        flat_done(name@, expr, mode_view(mode), *old(counter) as nat, *final(counter) as nat, r),
    decreases expr.value, 0int,
{
    let Loc { loc: g, value } = expr;
    match value {
        Expr::Slice(x, c1, c2) => {
            let p = x.loc;
            let (mut v, o) = match flatten_expr(name, *x, mode, counter) {
                Ok(p) => p,
                Err(e) => {
                    return Err(e);
                },
            };
            let ghost v0 = v@;
            let f = get_name(name, counter);
            let st = assign_stmt(
                g,
                f.clone(),
                Loc { loc: g, value: Expr::Slice(Box::new(Loc { loc: p, value: o }), c1, c2) },
            );
            v.push(st);
            assert(v@.subrange(0, v0.len() as int) =~= v0);
            Ok((v, Expr::Var(Loc { loc: g, value: f })))
        },
        _ => {
            proof {
                assert(false);
            }
            Err(FlattenError::ConcatInReg(g))
        },
    }
}

fn flatten_biop(
    name: &String,
    expr: Loc<Expr>,
    mode: Option<(Pos, &Loc<Const>)>,
    counter: &mut usize,
) -> (r: Result<(Vec<Statement>, Expr), FlattenError>)
    requires
        expr.value is BiOp,
        flat_ends(expr.value, mode_view(mode)),
        *old(counter) + flat_count(expr.value, mode_view(mode)) <= usize::MAX,
    ensures
        flat_done(name@, expr, mode_view(mode), *old(counter) as nat, *final(counter) as nat, r),
    decreases expr.value, 0int,
{
    let Loc { loc: g, value } = expr;
    match value {
        Expr::BiOp(op, a, b) => {
            let p1 = a.loc;
            let p2 = b.loc;
            let (mut v1, o1) = match flatten_expr(name, *a, mode, counter) {
                Ok(p) => p,
                Err(e) => {
                    return Err(e);
                },
            };
            let (mut v2, o2) = match flatten_expr(name, *b, mode, counter) {
                Ok(p) => p,
                Err(e) => {
                    return Err(e);
                },
            };
            let ghost s1 = v1@;
            let ghost s2 = v2@;
            let f = get_name(name, counter);
            v1.append(&mut v2);
            let st = assign_stmt(
                p1,
                f.clone(),
                Loc {
                    loc: p1,
                    value: Expr::BiOp(
                        op,
                        Box::new(Loc { loc: p1, value: o1 }),
                        Box::new(Loc { loc: p2, value: o2 }),
                    ),
                },
            );
            v1.push(st);
            assert(v1@.subrange(0, s1.len() as int) =~= s1);
            assert(v1@.subrange(s1.len() as int, (s1.len() + s2.len()) as int) =~= s2);
            Ok((v1, Expr::Var(Loc { loc: p1, value: f })))
        },
        _ => {
            proof {
                assert(false);
            }
            Err(FlattenError::ConcatInReg(g))
        },
    }
}

fn flatten_mux(
    name: &String,
    expr: Loc<Expr>,
    mode: Option<(Pos, &Loc<Const>)>,
    counter: &mut usize,
) -> (r: Result<(Vec<Statement>, Expr), FlattenError>)
    requires
        expr.value is Mux,
        flat_ends(expr.value, mode_view(mode)),
        *old(counter) + flat_count(expr.value, mode_view(mode)) <= usize::MAX,
    ensures
        flat_done(name@, expr, mode_view(mode), *old(counter) as nat, *final(counter) as nat, r),
    decreases expr.value, 0int,
{
    let Loc { loc: g, value } = expr;
    match value {
        Expr::Mux(a, b, c) => {
            let p1 = a.loc;
            let p2 = b.loc;
            let p3 = c.loc;
            let (mut v1, o1) = match flatten_expr(name, *a, mode, counter) {
                Ok(p) => p,
                Err(e) => {
                    return Err(e);
                },
            };
            let (mut v2, o2) = match flatten_expr(name, *b, mode, counter) {
                Ok(p) => p,
                Err(e) => {
                    return Err(e);
                },
            };
            let (mut v3, o3) = match flatten_expr(name, *c, mode, counter) {
                Ok(p) => p,
                Err(e) => {
                    return Err(e);
                },
            };
            let ghost s1 = v1@;
            let ghost s2 = v2@;
            let ghost s3 = v3@;
            let f = get_name(name, counter);
            v1.append(&mut v2);
            v1.append(&mut v3);
            let st = assign_stmt(
                g,
                f.clone(),
                Loc {
                    loc: g,
                    value: Expr::Mux(
                        Box::new(Loc { loc: p1, value: o1 }),
                        Box::new(Loc { loc: p2, value: o2 }),
                        Box::new(Loc { loc: p3, value: o3 }),
                    ),
                },
            );
            v1.push(st);
            assert(v1@.subrange(0, s1.len() as int) =~= s1);
            assert(v1@.subrange(s1.len() as int, (s1.len() + s2.len()) as int) =~= s2);
            assert(v1@.subrange((s1.len() + s2.len()) as int, (s1.len() + s2.len() + s3.len()) as int)
                =~= s3);
            Ok((v1, Expr::Var(Loc { loc: g, value: f })))
        },
        _ => {
            proof {
                assert(false);
            }
            Err(FlattenError::ConcatInReg(g))
        },
    }
}

fn flatten_reg(
    name: &String,
    expr: Loc<Expr>,
    mode: Option<(Pos, &Loc<Const>)>,
    counter: &mut usize,
) -> (r: Result<(Vec<Statement>, Expr), FlattenError>)
    requires
        expr.value is Reg,
        flat_ends(expr.value, mode_view(mode)),
        *old(counter) + flat_count(expr.value, mode_view(mode)) <= usize::MAX,
    ensures
        flat_done(name@, expr, mode_view(mode), *old(counter) as nat, *final(counter) as nat, r),
    decreases expr.value, 0int,
{
    let Loc { loc: g, value } = expr;
    match value {
        Expr::Reg(c, x) => {
            let p = x.loc;
            if matches!(x.value, Expr::Var(_)) {
                let f = get_name(name, counter);
                let st = assign_stmt(p, f.clone(), Loc { loc: p, value: Expr::Reg(c, x) });
                Ok((vec![st], Expr::Var(Loc { loc: p, value: f })))
            } else {
                match regify_check(&x.value, p) {
                    Some(e) => {
                        return Err(e);
                    },
                    None => {},
                }
                flatten_expr(name, *x, Some((p, &c)), counter)
            }
        },
        _ => {
            proof {
                assert(false);
            }
            Err(FlattenError::ConcatInReg(g))
        },
    }
}

fn flatten_ram(
    name: &String,
    expr: Loc<Expr>,
    mode: Option<(Pos, &Loc<Const>)>,
    counter: &mut usize,
) -> (r: Result<(Vec<Statement>, Expr), FlattenError>)
    requires
        expr.value is Ram,
        flat_ends(expr.value, mode_view(mode)),
        *old(counter) + flat_count(expr.value, mode_view(mode)) <= usize::MAX,
    ensures
        flat_done(name@, expr, mode_view(mode), *old(counter) as nat, *final(counter) as nat, r),
    decreases expr.value, 0int,
{
    let Loc { loc: g, value } = expr;
    match value {
        Expr::Ram(RamStruct { read_addr, write_enable, write_addr, write_data }) => {
            let p1 = read_addr.loc;
            let p2 = write_enable.loc;
            let p3 = write_addr.loc;
            let p4 = write_data.loc;
            let (mut v1, o1) = match flatten_expr(name, *read_addr, mode, counter) {
                Ok(p) => p,
                Err(e) => {
                    return Err(e);
                },
            };
            let (mut v2, o2) = match flatten_expr(name, *write_enable, mode, counter) {
                Ok(p) => p,
                Err(e) => {
                    return Err(e);
                },
            };
            let (mut v3, o3) = match flatten_expr(name, *write_addr, mode, counter) {
                Ok(p) => p,
                Err(e) => {
                    return Err(e);
                },
            };
            let (mut v4, o4) = match flatten_expr(name, *write_data, mode, counter) {
                Ok(p) => p,
                Err(e) => {
                    return Err(e);
                },
            };
            let ghost s1 = v1@;
            let ghost s2 = v2@;
            let ghost s3 = v3@;
            let ghost s4 = v4@;
            let f = get_name(name, counter);
            v1.append(&mut v2);
            v1.append(&mut v3);
            v1.append(&mut v4);
            let st = assign_stmt(
                p1,
                f.clone(),
                Loc {
                    loc: p1,
                    value: Expr::Ram(
                        RamStruct {
                            read_addr: Box::new(Loc { loc: p1, value: o1 }),
                            write_enable: Box::new(Loc { loc: p2, value: o2 }),
                            write_addr: Box::new(Loc { loc: p3, value: o3 }),
                            write_data: Box::new(Loc { loc: p4, value: o4 }),
                        },
                    ),
                },
            );
            v1.push(st);
            let ghost l1 = s1.len() as int;
            let ghost l2 = l1 + s2.len();
            let ghost l3 = l2 + s3.len();
            let ghost l4 = l3 + s4.len();
            assert(v1@.subrange(0, l1) =~= s1);
            assert(v1@.subrange(l1, l2) =~= s2);
            assert(v1@.subrange(l2, l3) =~= s3);
            assert(v1@.subrange(l3, l4) =~= s4);
            Ok((v1, Expr::Var(Loc { loc: p1, value: f })))
        },
        _ => {
            proof {
                assert(false);
            }
            Err(FlattenError::ConcatInReg(g))
        },
    }
}

fn flatten_rom(
    name: &String,
    expr: Loc<Expr>,
    mode: Option<(Pos, &Loc<Const>)>,
    counter: &mut usize,
) -> (r: Result<(Vec<Statement>, Expr), FlattenError>)
    requires
        expr.value is Rom,
        flat_ends(expr.value, mode_view(mode)),
        *old(counter) + flat_count(expr.value, mode_view(mode)) <= usize::MAX,
    ensures
        flat_done(name@, expr, mode_view(mode), *old(counter) as nat, *final(counter) as nat, r),
    decreases expr.value, 0int,
{
    let Loc { loc: g, value } = expr;
    match value {
        Expr::Rom(RomStruct { word_size, read_addr }) => {
            let p = read_addr.loc;
            let (mut v, o) = match flatten_expr(name, *read_addr, mode, counter) {
                Ok(p) => p,
                Err(e) => {
                    return Err(e);
                },
            };
            let ghost v0 = v@;
            let f = get_name(name, counter);
            let st = assign_stmt(
                p,
                f.clone(),
                Loc {
                    loc: p,
                    value: Expr::Rom(
                        RomStruct { word_size, read_addr: Box::new(Loc { loc: p, value: o }) },
                    ),
                },
            );
            v.push(st);
            assert(v@.subrange(0, v0.len() as int) =~= v0);
            Ok((v, Expr::Var(Loc { loc: p, value: f })))
        },
        _ => {
            proof {
                assert(false);
            }
            Err(FlattenError::ConcatInReg(g))
        },
    }
}

fn flatten_call(
    name: &String,
    expr: Loc<Expr>,
    mode: Option<(Pos, &Loc<Const>)>,
    counter: &mut usize,
) -> (r: Result<(Vec<Statement>, Expr), FlattenError>)
    requires
        expr.value is FnCall,
        flat_ends(expr.value, mode_view(mode)),
        *old(counter) + flat_count(expr.value, mode_view(mode)) <= usize::MAX,
    ensures
        flat_done(name@, expr, mode_view(mode), *old(counter) as nat, *final(counter) as nat, r),
    decreases expr.value, 0int,
{
    let Loc { loc: g, value } = expr;
    match value {
        Expr::FnCall(fc) => {
            let f = get_name(name, counter);
            let FnCall { name: fname, args, static_args } = fc;
            let (mut v, outs) = match flatten_args(&fname.value, args.value, mode, counter) {
                Ok(p) => p,
                Err(e) => {
                    return Err(e);
                },
            };
            let ghost v0 = v@;
            v.push(
                Statement::FnAssign(
                    FnAssign {
                        vars: vec![Loc { loc: g, value: f.clone() }],
                        f: FnCall { name: fname, args: Loc { loc: g, value: outs }, static_args },
                    },
                ),
            );
            assert(v@.subrange(0, v0.len() as int) =~= v0);
            Ok((v, Expr::Var(Loc { loc: g, value: f })))
        },
        _ => {
            proof {
                assert(false);
            }
            Err(FlattenError::ConcatInReg(g))
        },
    }
}

/// Flattens the arguments of a call in order, with names made from the function's name.
fn flatten_args(
    name: &String,
    args: Vec<Loc<Expr>>,
    mode: Option<(Pos, &Loc<Const>)>,
    counter: &mut usize,
) -> (r: Result<(Vec<Statement>, Vec<Loc<Expr>>), FlattenError>)
    requires
        args_ends(args@, args@.len() as int, mode_view(mode)),
        *old(counter) + args_count(args@, args@.len() as int, mode_view(mode)) <= usize::MAX,
    ensures
        match r {
            Ok((stmts, outs)) => {
                &&& args_err(args@, args@.len() as int, mode_view(mode)) is None
                &&& outs@.len() == args@.len()
                &&& args_rel(name@, args@, args@.len() as int, mode_view(mode), *old(counter) as nat, stmts@, outs@)
                &&& *final(counter) == *old(counter) + args_count(args@, args@.len() as int, mode_view(mode))
            },
            Err(x) => args_err(args@, args@.len() as int, mode_view(mode)) == Some(x),
        },
    decreases args, 2int,
{
    let ghost m = mode_view(mode);
    let ghost s0 = args@;
    let ghost n0 = *counter as nat;
    let len = args.len();
    let mut rest = args;
    let mut stmts: Vec<Statement> = Vec::new();
    let mut outs: Vec<Loc<Expr>> = Vec::new();
    let mut err: Option<FlattenError> = None;
    let mut i: usize = 0;
    while i < len && err.is_none()
        invariant
            i <= len,
            len == s0.len(),
            m == mode_view(mode),
            s0 == args@,
            args_ends(s0, len as int, m),
            n0 + args_count(s0, len as int, m) <= usize::MAX,
            err is None ==> {
                &&& rest@ == s0.subrange(i as int, len as int)
                &&& outs@.len() == i
                &&& args_err(s0, i as int, m) is None
                &&& args_rel(name@, s0, i as int, m, n0, stmts@, outs@)
                &&& *counter == n0 + args_count(s0, i as int, m)
            },
            err matches Some(x) ==> args_err(s0, len as int, m) == Some(x),
        decreases len - i, (if err is None { 1int } else { 0int }),
    {
        let a = rest.remove(0);
        proof {
            assert(a == s0[i as int]);
            assert(decreases_to!(s0 => s0[i as int].value));
            lemma_args_ends(s0, i as int, len as int, m);
            lemma_args_count_grows(s0, i as int + 1, len as int, m);
        }
        let p = a.loc;
        match flatten_expr(name, a, mode, counter) {
            Err(e) => {
                proof {
                    lemma_args_err_stays(s0, i as int + 1, len as int, m);
                }
                err = Some(e);
            },
            Ok((mut v, o)) => {
                let ghost st0 = stmts@;
                let ghost outs0 = outs@;
                let ghost vv = v@;
                stmts.append(&mut v);
                outs.push(Loc { loc: p, value: o });
                proof {
                    let t = args_count(s0, i as int, m);
                    assert(stmts@.subrange(0, t as int) =~= st0);
                    assert(stmts@.subrange(t as int, stmts@.len() as int) =~= vv);
                    lemma_args_rel_outs(name@, s0, i as int, m, n0, st0, outs0, outs@);
                }
                i = i + 1;
            },
        }
    }
    match err {
        Some(e) => Err(e),
        None => Ok((stmts, outs)),
    }
}

/// The number of names that flattening the first `j` assignments of `s` takes.
pub open spec fn assigns_count(s: Seq<VarAssign>, j: int) -> nat
    decreases j,
{
    if 0 < j <= s.len() {
        assigns_count(s, j - 1) + flat_count(s[j - 1].expr.value, None)
    } else {
        0
    }
}

/// The first error met flattening the first `j` assignments of `s`.
pub open spec fn assigns_err(s: Seq<VarAssign>, j: int) -> Option<FlattenError>
    decreases j,
{
    if 0 < j <= s.len() {
        first_of(assigns_err(s, j - 1), flat_err(s[j - 1].expr.value, None))
    } else {
        None
    }
}

/// Whether flattening the first `j` assignments of `s` comes to an end.
pub open spec fn assigns_ends(s: Seq<VarAssign>, j: int) -> bool
    decreases j,
{
    if 0 < j <= s.len() {
        assigns_ends(s, j - 1) && (assigns_err(s, j - 1) is Some || flat_ends(
            s[j - 1].expr.value,
            None,
        ))
    } else {
        true
    }
}

/// The number of statements that flattening the first `j` assignments of `s` gives: those
/// of each expression, or one for an expression that is already a variable or a constant.
pub open spec fn assigns_len(s: Seq<VarAssign>, j: int) -> nat
    decreases j,
{
    if 0 < j <= s.len() {
        let k = flat_count(s[j - 1].expr.value, None);
        assigns_len(s, j - 1) + (if k == 0 { 1 } else { k })
    } else {
        0
    }
}

/// A statement that assigns one variable: a single assignment or a call.
pub open spec fn assigns_one(st: Statement) -> bool {
    (st matches Statement::Assign(w) && w@.len() == 1) || st is FnAssign
}

/// The last statement that flattening an expression gives, when it gives any, assigns one
/// variable.
proof fn lemma_flat_last(name: Seq<char>, e: Loc<Expr>, m: RegMode, n: nat, stmts: Seq<Statement>, out: Expr)
    requires
        flat_rel(name, e, m, n, stmts, out),
        flat_count(e.value, m) > 0,
    ensures
        assigns_one(stmts[stmts.len() - 1]),
    decreases e.value,
{
    match e.value {
        Expr::Reg(c, x) => {
            if !(x.value is Var) {
                lemma_flat_last(name, *x, Some((x.loc, c)), n, stmts, out);
            }
        },
        _ => {},
    }
}

/// Gives `st`, which assigns one variable, assigning `var` instead.
fn reassign(st: Statement, var: Loc<String>) -> (r: Statement)
    requires
        assigns_one(st),
    ensures
        reassigned(st, r, var),
{
    match st {
        Statement::Assign(w) => {
            let mut w = w;
            let a = w.remove(0);
            let mut v: Vec<VarAssign> = Vec::new();
            v.push(VarAssign { var, expr: a.expr });
            proof {
                assert(v@ =~= seq![VarAssign { var, expr: a.expr }]);
            }
            Statement::Assign(v)
        },
        Statement::FnAssign(fa) => {
            let mut vars: Vec<Loc<String>> = Vec::new();
            vars.push(var);
            proof {
                assert(vars@ =~= seq![var]);
            }
            Statement::FnAssign(FnAssign { vars, f: fa.f })
        },
        other => other,
    }
}

/// `b` is the statement `a` assigning `var` in place of its one variable.
pub open spec fn reassigned(a: Statement, b: Statement, var: Loc<String>) -> bool {
    match a {
        Statement::Assign(w) => b matches Statement::Assign(w2) && w@.len() == 1 && w2@ == seq![
            VarAssign { var, expr: w@[0].expr },
        ],
        Statement::FnAssign(fa) => b matches Statement::FnAssign(fb) && fb.f == fa.f && fb.vars@ == seq![var],
        _ => false,
    }
}

/// `out` is the result of flattening the first `j` assignments of `s` with names taken from
/// `n` on: for each, the statements of its expression, with names made from the assigned
/// variable, the last of them assigning the variable itself; an expression that is already
/// a variable or a constant is assigned as it is.
pub open spec fn assigns_rel(s: Seq<VarAssign>, j: int, n: nat, out: Seq<Statement>) -> bool
    decreases j,
{
    if 0 < j <= s.len() {
        let t = assigns_count(s, j - 1);
        let l = assigns_len(s, j - 1) as int;
        let k = flat_count(s[j - 1].expr.value, None) as int;
        &&& assigns_rel(s, j - 1, n, out.subrange(0, l))
        &&& if k == 0 {
            &&& out.len() == l + 1
            &&& out[l] matches Statement::Assign(w)
            &&& w@.len() == 1
            &&& w@[0].var == s[j - 1].var
            &&& w@[0].expr.loc == s[j - 1].expr.loc
            &&& flat_rel(s[j - 1].var.value@, s[j - 1].expr, None, n + t, Seq::empty(), w@[0].expr.value)
        } else {
            &&& out.len() == l + k
            &&& exists|st: Seq<Statement>, o: Expr| #[trigger] flat_rel(s[j - 1].var.value@, s[j - 1].expr, None, n + t, st, o)
                && out.subrange(l, l + k - 1) == st.subrange(0, k - 1)
                && reassigned(st[k - 1], out[l + k - 1], s[j - 1].var)
        }
    } else {
        out.len() == 0
    }
}

/// The number of names that flattening a statement takes.
pub open spec fn stmt_count(s: Statement) -> nat
    decreases s, 0int,
{
    match s {
        Statement::Assign(v) => assigns_count(v@, v@.len() as int),
        Statement::If(i) => block_count(i.if_block@, i.if_block@.len() as int) + block_count(
            i.else_block@,
            i.else_block@.len() as int,
        ),
        Statement::FnAssign(fa) => args_count(fa.f.args.value@, fa.f.args.value@.len() as int, None),
        Statement::ExtAutomaton(_) => 0,
    }
}

/// The number of statements that flattening a statement gives.
pub open spec fn stmt_len(s: Statement) -> nat {
    match s {
        Statement::Assign(v) => assigns_len(v@, v@.len() as int),
        Statement::If(_) => 1,
        Statement::FnAssign(fa) => args_count(fa.f.args.value@, fa.f.args.value@.len() as int, None)
            + 1,
        Statement::ExtAutomaton(_) => 0,
    }
}

/// The number of names that flattening the first `j` statements of `s` takes.
pub open spec fn block_count(s: Seq<Statement>, j: int) -> nat
    decreases s, j,
{
    if 0 < j <= s.len() {
        block_count(s, j - 1) + stmt_count(s[j - 1])
    } else {
        0
    }
}

/// The number of statements that flattening the first `j` statements of `s` gives.
pub open spec fn block_len(s: Seq<Statement>, j: int) -> nat
    decreases j,
{
    if 0 < j <= s.len() {
        block_len(s, j - 1) + stmt_len(s[j - 1])
    } else {
        0
    }
}

/// The first error met flattening a statement.
pub open spec fn stmt_err(s: Statement) -> Option<FlattenError>
    decreases s, 0int,
{
    match s {
        Statement::Assign(v) => assigns_err(v@, v@.len() as int),
        Statement::If(i) => first_of(
            block_err(i.if_block@, i.if_block@.len() as int),
            block_err(i.else_block@, i.else_block@.len() as int),
        ),
        Statement::FnAssign(fa) => args_err(fa.f.args.value@, fa.f.args.value@.len() as int, None),
        Statement::ExtAutomaton(_) => None,
    }
}

/// The first error met flattening the first `j` statements of `s`.
pub open spec fn block_err(s: Seq<Statement>, j: int) -> Option<FlattenError>
    decreases s, j,
{
    if 0 < j <= s.len() {
        first_of(block_err(s, j - 1), stmt_err(s[j - 1]))
    } else {
        None
    }
}

/// Whether flattening a statement comes to an end without meeting a call to an automaton,
/// which are all gone once the automata are collapsed.
pub open spec fn stmt_ends(s: Statement) -> bool
    decreases s, 0int,
{
    match s {
        Statement::Assign(v) => assigns_ends(v@, v@.len() as int),
        Statement::If(i) => block_ends(i.if_block@, i.if_block@.len() as int) && (block_err(
            i.if_block@,
            i.if_block@.len() as int,
        ) is Some || block_ends(i.else_block@, i.else_block@.len() as int)),
        Statement::FnAssign(fa) => args_ends(fa.f.args.value@, fa.f.args.value@.len() as int, None),
        Statement::ExtAutomaton(_) => false,
    }
}

/// Whether flattening the first `j` statements of `s` comes to an end.
pub open spec fn block_ends(s: Seq<Statement>, j: int) -> bool
    decreases s, j,
{
    if 0 < j <= s.len() {
        block_ends(s, j - 1) && (block_err(s, j - 1) is Some || stmt_ends(s[j - 1]))
    } else {
        true
    }
}

/// `out` is the result of flattening the statement `s` with names taken from `n` on.
/// An assignment gives the statements of its expressions; a static `if` stays one statement
/// with both blocks flattened; for an assignment from a call, the statements of the
/// arguments, with names made from the function, then the call on their results.
pub open spec fn stmt_rel(s: Statement, n: nat, out: Seq<Statement>) -> bool
    decreases s, 0int,
{
    out.len() == stmt_len(s) && match s {
        Statement::Assign(v) => assigns_rel(v@, v@.len() as int, n, out),
        Statement::If(i) => {
            &&& out[0] matches Statement::If(j)
            &&& j.condition == i.condition
            &&& block_rel(i.if_block@, i.if_block@.len() as int, n, j.if_block@)
            &&& block_rel(
                i.else_block@,
                i.else_block@.len() as int,
                n + block_count(i.if_block@, i.if_block@.len() as int),
                j.else_block@,
            )
        },
        Statement::FnAssign(fa) => {
            let len = fa.f.args.value@.len() as int;
            let k = args_count(fa.f.args.value@, len, None);
            &&& out[k as int] matches Statement::FnAssign(fb)
            &&& fb.vars == fa.vars
            &&& fb.f.name == fa.f.name
            &&& fb.f.static_args == fa.f.static_args
            &&& fb.f.args.loc == fa.f.name.loc
            &&& fb.f.args.value@.len() == len
            &&& args_rel(
                fa.f.name.value@,
                fa.f.args.value@,
                len,
                None,
                n,
                out.subrange(0, k as int),
                fb.f.args.value@,
            )
        },
        Statement::ExtAutomaton(_) => false,
    }
}

/// `out` is the result of flattening the first `j` statements of `s` in order, with names
/// taken from `n` on.
pub open spec fn block_rel(s: Seq<Statement>, j: int, n: nat, out: Seq<Statement>) -> bool
    decreases s, j,
{
    if 0 < j <= s.len() {
        let t = block_count(s, j - 1);
        let l = block_len(s, j - 1);
        let k = stmt_len(s[j - 1]);
        &&& out.len() == l + k
        &&& block_rel(s, j - 1, n, out.subrange(0, l as int))
        &&& stmt_rel(s[j - 1], n + t, out.subrange(l as int, (l + k) as int))
    } else {
        out.len() == 0
    }
}

proof fn lemma_assigns_err_stays(s: Seq<VarAssign>, j: int, len: int)
    requires
        0 <= j <= len <= s.len(),
        assigns_err(s, j) is Some,
    ensures
        assigns_err(s, len) == assigns_err(s, j),
    decreases len,
{
    if len > j {
        lemma_assigns_err_stays(s, j, len - 1);
    }
}

proof fn lemma_assigns_count_grows(s: Seq<VarAssign>, j: int, len: int)
    requires
        0 <= j <= len <= s.len(),
    ensures
        assigns_count(s, j) <= assigns_count(s, len),
    decreases len,
{
    if len > j {
        lemma_assigns_count_grows(s, j, len - 1);
    }
}

proof fn lemma_assigns_ends(s: Seq<VarAssign>, j: int, len: int)
    requires
        0 <= j < len <= s.len(),
        assigns_ends(s, len),
        assigns_err(s, j) is None,
    ensures
        flat_ends(s[j].expr.value, None),
    decreases len,
{
    if len > j + 1 {
        lemma_assigns_ends(s, j, len - 1);
    }
}

proof fn lemma_block_err_stays(s: Seq<Statement>, j: int, len: int)
    requires
        0 <= j <= len <= s.len(),
        block_err(s, j) is Some,
    ensures
        block_err(s, len) == block_err(s, j),
    decreases len,
{
    if len > j {
        lemma_block_err_stays(s, j, len - 1);
    }
}

proof fn lemma_block_count_grows(s: Seq<Statement>, j: int, len: int)
    requires
        0 <= j <= len <= s.len(),
    ensures
        block_count(s, j) <= block_count(s, len),
    decreases len,
{
    if len > j {
        lemma_block_count_grows(s, j, len - 1);
    }
}

proof fn lemma_block_ends(s: Seq<Statement>, j: int, len: int)
    requires
        0 <= j < len <= s.len(),
        block_ends(s, len),
        block_err(s, j) is None,
    ensures
        stmt_ends(s[j]),
    decreases len,
{
    if len > j + 1 {
        lemma_block_ends(s, j, len - 1);
    }
}

/// Flattens a list of assignments `a = e`: the statements of each expression, with names
/// made from the assigned variable, then the assignment of its result.
pub fn flatten_assigns(statement: Vec<VarAssign>, counter: &mut usize) -> (r: Result<
    Vec<Statement>,
    FlattenError,
>)
    requires
        assigns_ends(statement@, statement@.len() as int),
        *old(counter) + assigns_count(statement@, statement@.len() as int) <= usize::MAX,
    ensures
        match r {
            Ok(out) => {
                &&& assigns_err(statement@, statement@.len() as int) is None
                &&& assigns_rel(statement@, statement@.len() as int, *old(counter) as nat, out@)
                &&& *final(counter) == *old(counter) + assigns_count(statement@, statement@.len() as int)
            },
            Err(x) => assigns_err(statement@, statement@.len() as int) == Some(x),
        },
{
    let ghost s0 = statement@;
    let ghost n0 = *counter as nat;
    let len = statement.len();
    let mut rest = statement;
    let mut res: Vec<Statement> = Vec::new();
    let mut err: Option<FlattenError> = None;
    let mut i: usize = 0;
    while i < len && err.is_none()
        invariant
            i <= len,
            len == s0.len(),
            assigns_ends(s0, len as int),
            n0 + assigns_count(s0, len as int) <= usize::MAX,
            err is None ==> {
                &&& rest@ == s0.subrange(i as int, len as int)
                &&& assigns_err(s0, i as int) is None
                &&& assigns_rel(s0, i as int, n0, res@)
                &&& *counter == n0 + assigns_count(s0, i as int)
            },
            err matches Some(x) ==> assigns_err(s0, len as int) == Some(x),
        decreases len - i, (if err is None { 1int } else { 0int }),
    {
        let assign = rest.remove(0);
        proof {
            assert(assign == s0[i as int]);
            lemma_assigns_ends(s0, i as int, len as int);
            lemma_assigns_count_grows(s0, i as int + 1, len as int);
        }
        let name = assign.var.value.clone();
        let expr_pos = assign.expr.loc;
        let VarAssign { var, expr } = assign;
        match flatten_expr(&name, expr, None, counter) {
            Err(e) => {
                proof {
                    lemma_assigns_err_stays(s0, i as int + 1, len as int);
                }
                err = Some(e);
            },
            Ok((mut v, o)) => {
                let ghost r0 = res@;
                let ghost vv = v@;
                let ghost oo = o;
                if v.len() == 0 {
                    res.push(Statement::Assign(vec![VarAssign { expr: Loc { loc: expr_pos, value: o }, var }]));
                    proof {
                        let l = r0.len() as int;
                        assert(res@.subrange(0, l) =~= r0);
                        assert(vv =~= Seq::<Statement>::empty());
                    }
                } else {
                    proof {
                        lemma_flat_last(name@, s0[i as int].expr, None, (n0 + assigns_count(s0, i as int)) as nat, vv, oo);
                    }
                    let last = match v.pop() {
                        Some(x) => x,
                        None => {
                            proof {
                                assert(false);
                            }
                            Statement::ExtAutomaton(crate::ast::parse_ast::ExtAutomaton {
                                inputs: Loc { loc: expr_pos, value: Vec::new() },
                                outputs: Loc { loc: expr_pos, value: Vec::new() },
                                name: Loc { loc: expr_pos, value: String::new() },
                            })
                        },
                    };
                    let ghost vk = v@;
                    res.append(&mut v);
                    let st = reassign(last, var);
                    res.push(st);
                    proof {
                        let l = r0.len() as int;
                        let k = vv.len() as int;
                        assert(vk =~= vv.subrange(0, k - 1));
                        assert(res@.subrange(0, l) =~= r0);
                        assert(res@.subrange(l, l + k - 1) =~= vv.subrange(0, k - 1));
                        assert(res@[l + k - 1] == st);
                        assert(flat_rel(s0[i as int].var.value@, s0[i as int].expr, None, (n0 + assigns_count(s0, i as int)) as nat, vv, oo));
                    }
                }
                i = i + 1;
            },
        }
    }
    match err {
        Some(e) => Err(e),
        None => Ok(res),
    }
}

/// Flattens a statement; see `stmt_rel`.
pub fn flatten_statement(statement: Statement, counter: &mut usize) -> (r: Result<
    Vec<Statement>,
    FlattenError,
>)
    requires
        stmt_ends(statement),
        *old(counter) + stmt_count(statement) <= usize::MAX,
    ensures
        match r {
            Ok(out) => {
                &&& stmt_err(statement) is None
                &&& stmt_rel(statement, *old(counter) as nat, out@)
                &&& *final(counter) == *old(counter) + stmt_count(statement)
            },
            Err(x) => stmt_err(statement) == Some(x),
        },
    decreases statement, 1int,
{
    match statement {
        Statement::Assign(v) => flatten_assigns(v, counter),
        Statement::If(IfStruct { condition, if_block, else_block }) => {
            proof {
                lemma_block_count_grows(if_block@, if_block@.len() as int, if_block@.len() as int);
            }
            let a = match flatten_block(if_block, counter) {
                Ok(a) => a,
                Err(e) => {
                    return Err(e);
                },
            };
            let b = match flatten_block(else_block, counter) {
                Ok(b) => b,
                Err(e) => {
                    return Err(e);
                },
            };
            Ok(vec![Statement::If(IfStruct { condition, if_block: a, else_block: b })])
        },
        Statement::FnAssign(fa) => {
            let FnAssign { vars, f } = fa;
            let FnCall { name: fname, args, static_args } = f;
            let pos = fname.loc;
            let (mut v, outs) = match flatten_args(&fname.value, args.value, None, counter) {
                Ok(p) => p,
                Err(e) => {
                    return Err(e);
                },
            };
            let ghost v0 = v@;
            v.push(
                Statement::FnAssign(
                    FnAssign {
                        vars,
                        f: FnCall { name: fname, args: Loc { loc: pos, value: outs }, static_args },
                    },
                ),
            );
            assert(v@.subrange(0, v0.len() as int) =~= v0);
            Ok(v)
        },
        Statement::ExtAutomaton(_) => {
            proof {
                assert(false);
            }
            Ok(Vec::new())
        },
    }
}

/// Flattens a list of statements in order, concatenating the results.
pub fn flatten_block(block: Vec<Statement>, counter: &mut usize) -> (r: Result<
    Vec<Statement>,
    FlattenError,
>)
    requires
        block_ends(block@, block@.len() as int),
        *old(counter) + block_count(block@, block@.len() as int) <= usize::MAX,
    ensures
        match r {
            Ok(out) => {
                &&& block_err(block@, block@.len() as int) is None
                &&& block_rel(block@, block@.len() as int, *old(counter) as nat, out@)
                &&& *final(counter) == *old(counter) + block_count(block@, block@.len() as int)
            },
            Err(x) => block_err(block@, block@.len() as int) == Some(x),
        },
    decreases block, 0int,
{
    let ghost s0 = block@;
    let ghost n0 = *counter as nat;
    let len = block.len();
    let mut rest = block;
    let mut res: Vec<Statement> = Vec::new();
    let mut err: Option<FlattenError> = None;
    let mut i: usize = 0;
    while i < len && err.is_none()
        invariant
            i <= len,
            len == s0.len(),
            s0 == block@,
            block_ends(s0, len as int),
            n0 + block_count(s0, len as int) <= usize::MAX,
            err is None ==> {
                &&& rest@ == s0.subrange(i as int, len as int)
                &&& block_err(s0, i as int) is None
                &&& block_rel(s0, i as int, n0, res@)
                &&& res@.len() == block_len(s0, i as int)
                &&& *counter == n0 + block_count(s0, i as int)
            },
            err matches Some(x) ==> block_err(s0, len as int) == Some(x),
        decreases len - i, (if err is None { 1int } else { 0int }),
    {
        let st = rest.remove(0);
        proof {
            assert(st == s0[i as int]);
            assert(decreases_to!(s0 => s0[i as int]));
            lemma_block_ends(s0, i as int, len as int);
            lemma_block_count_grows(s0, i as int + 1, len as int);
        }
        match flatten_statement(st, counter) {
            Err(e) => {
                proof {
                    lemma_block_err_stays(s0, i as int + 1, len as int);
                }
                err = Some(e);
            },
            Ok(mut v) => {
                let ghost r0 = res@;
                let ghost vv = v@;
                res.append(&mut v);
                proof {
                    let l = r0.len() as int;
                    assert(res@.subrange(0, l) =~= r0);
                    assert(res@.subrange(l, l + vv.len()) =~= vv);
                }
                i = i + 1;
            },
        }
    }
    match err {
        Some(e) => Err(e),
        None => Ok(res),
    }
}

/// A variable or a constant.
pub open spec fn atom(e: Expr) -> bool {
    e is Var || e is Const
}

/// An expression whose operands are all variables or constants.
pub open spec fn shallow(e: Expr) -> bool {
    match e {
        Expr::Not(x) => atom(*x),
        Expr::Slice(x, _, _) => atom(x.value),
        Expr::BiOp(_, x, y) => atom(x.value) && atom(y.value),
        Expr::Mux(x, y, z) => atom(x.value) && atom(y.value) && atom(z.value),
        Expr::Reg(_, x) => x.value is Var,
        Expr::Ram(r) => atom(r.read_addr.value) && atom(r.write_enable.value) && atom(
            r.write_addr.value,
        ) && atom(r.write_data.value),
        Expr::Rom(r) => atom(r.read_addr.value),
        Expr::FnCall(_) => false,
        _ => true,
    }
}

/// A statement with no nested expression: assignments of shallow expressions, calls on
/// variables and constants, and static `if`s whose blocks are made of such statements.
pub open spec fn flat_stmt(s: Statement) -> bool
    decreases s,
{
    match s {
        Statement::Assign(v) => forall|i: int| 0 <= i < v@.len() ==> shallow(#[trigger] v@[i].expr.value),
        Statement::FnAssign(fa) => forall|i: int|
            0 <= i < fa.f.args.value@.len() ==> atom(#[trigger] fa.f.args.value@[i].value),
        Statement::If(i) => {
            &&& forall|j: int| 0 <= j < i.if_block@.len() ==> flat_stmt(#[trigger] i.if_block@[j])
            &&& forall|j: int| 0 <= j < i.else_block@.len() ==> flat_stmt(#[trigger] i.else_block@[j])
        },
        Statement::ExtAutomaton(_) => false,
    }
}

/// Flattening an expression gives flat statements and leaves a variable or a constant.
pub proof fn lemma_flat_expr_is_flat(
    name: Seq<char>,
    e: Loc<Expr>,
    m: RegMode,
    n: nat,
    stmts: Seq<Statement>,
    out: Expr,
)
    requires
        flat_rel(name, e, m, n, stmts, out),
    ensures
        atom(out),
        forall|i: int| 0 <= i < stmts.len() ==> flat_stmt(#[trigger] stmts[i]),
    decreases e.value, 0int,
{
    let g = e.loc;
    match e.value {
        Expr::Not(x) => {
            let k = flat_count(*x, m);
            let a = assign_expr(stmts[k as int]);
            if let Expr::Not(o) = a.value {
                lemma_flat_expr_is_flat(name, Loc { loc: g, value: *x }, m, n, stmts.subrange(0, k as int), *o);
            }
            assert forall|i: int| 0 <= i < stmts.len() implies flat_stmt(#[trigger] stmts[i]) by {
                if i < k {
                    assert(stmts[i] == stmts.subrange(0, k as int)[i]);
                }
            }
        },
        Expr::Slice(x, _, _) => {
            let k = flat_count(x.value, m);
            let a = assign_expr(stmts[k as int]);
            if let Expr::Slice(o, _, _) = a.value {
                lemma_flat_expr_is_flat(name, *x, m, n, stmts.subrange(0, k as int), o.value);
            }
            assert forall|i: int| 0 <= i < stmts.len() implies flat_stmt(#[trigger] stmts[i]) by {
                if i < k {
                    assert(stmts[i] == stmts.subrange(0, k as int)[i]);
                }
            }
        },
        Expr::BiOp(_, x, y) => {
            let k1 = flat_count(x.value, m);
            let k2 = flat_count(y.value, m);
            let a = assign_expr(stmts[(k1 + k2) as int]);
            if let Expr::BiOp(_, o1, o2) = a.value {
                lemma_flat_expr_is_flat(name, *x, m, n, stmts.subrange(0, k1 as int), o1.value);
                lemma_flat_expr_is_flat(name, *y, m, n + k1, stmts.subrange(k1 as int, (k1 + k2) as int), o2.value);
            }
            assert forall|i: int| 0 <= i < stmts.len() implies flat_stmt(#[trigger] stmts[i]) by {
                if i < k1 {
                    assert(stmts[i] == stmts.subrange(0, k1 as int)[i]);
                } else if i < k1 + k2 {
                    assert(stmts[i] == stmts.subrange(k1 as int, (k1 + k2) as int)[i - k1]);
                }
            }
        },
        Expr::Mux(x, y, z) => {
            let k1 = flat_count(x.value, m);
            let k2 = flat_count(y.value, m);
            let k3 = flat_count(z.value, m);
            let a = assign_expr(stmts[(k1 + k2 + k3) as int]);
            if let Expr::Mux(o1, o2, o3) = a.value {
                lemma_flat_expr_is_flat(name, *x, m, n, stmts.subrange(0, k1 as int), o1.value);
                lemma_flat_expr_is_flat(name, *y, m, n + k1, stmts.subrange(k1 as int, (k1 + k2) as int), o2.value);
                lemma_flat_expr_is_flat(name, *z, m, n + k1 + k2, stmts.subrange((k1 + k2) as int, (k1 + k2 + k3) as int), o3.value);
            }
            assert forall|i: int| 0 <= i < stmts.len() implies flat_stmt(#[trigger] stmts[i]) by {
                if i < k1 {
                    assert(stmts[i] == stmts.subrange(0, k1 as int)[i]);
                } else if i < k1 + k2 {
                    assert(stmts[i] == stmts.subrange(k1 as int, (k1 + k2) as int)[i - k1]);
                } else if i < k1 + k2 + k3 {
                    assert(stmts[i] == stmts.subrange((k1 + k2) as int, (k1 + k2 + k3) as int)[i - k1 - k2]);
                }
            }
        },
        Expr::Reg(c, x) => {
            if !(x.value is Var) {
                lemma_flat_expr_is_flat(name, *x, Some((x.loc, c)), n, stmts, out);
            }
        },
        Expr::Ram(r) => {
            let k1 = flat_count(r.read_addr.value, m);
            let k2 = flat_count(r.write_enable.value, m);
            let k3 = flat_count(r.write_addr.value, m);
            let k4 = flat_count(r.write_data.value, m);
            let k = k1 + k2 + k3 + k4;
            let a = assign_expr(stmts[k as int]);
            if let Expr::Ram(o) = a.value {
                lemma_flat_expr_is_flat(name, *r.read_addr, m, n, stmts.subrange(0, k1 as int), o.read_addr.value);
                lemma_flat_expr_is_flat(name, *r.write_enable, m, n + k1, stmts.subrange(k1 as int, (k1 + k2) as int), o.write_enable.value);
                lemma_flat_expr_is_flat(name, *r.write_addr, m, n + k1 + k2, stmts.subrange((k1 + k2) as int, (k1 + k2 + k3) as int), o.write_addr.value);
                lemma_flat_expr_is_flat(name, *r.write_data, m, n + k1 + k2 + k3, stmts.subrange((k1 + k2 + k3) as int, k as int), o.write_data.value);
            }
            assert forall|i: int| 0 <= i < stmts.len() implies flat_stmt(#[trigger] stmts[i]) by {
                if i < k1 {
                    assert(stmts[i] == stmts.subrange(0, k1 as int)[i]);
                } else if i < k1 + k2 {
                    assert(stmts[i] == stmts.subrange(k1 as int, (k1 + k2) as int)[i - k1]);
                } else if i < k1 + k2 + k3 {
                    assert(stmts[i] == stmts.subrange((k1 + k2) as int, (k1 + k2 + k3) as int)[i - k1 - k2]);
                } else if i < k {
                    assert(stmts[i] == stmts.subrange((k1 + k2 + k3) as int, k as int)[i - k1 - k2 - k3]);
                }
            }
        },
        Expr::Rom(r) => {
            let k = flat_count(r.read_addr.value, m);
            let a = assign_expr(stmts[k as int]);
            if let Expr::Rom(o) = a.value {
                lemma_flat_expr_is_flat(name, *r.read_addr, m, n, stmts.subrange(0, k as int), o.read_addr.value);
            }
            assert forall|i: int| 0 <= i < stmts.len() implies flat_stmt(#[trigger] stmts[i]) by {
                if i < k {
                    assert(stmts[i] == stmts.subrange(0, k as int)[i]);
                }
            }
        },
        Expr::FnCall(fc) => {
            let len = fc.args.value@.len() as int;
            let k = args_count(fc.args.value@, len, m);
            if let Statement::FnAssign(fa) = stmts[k as int] {
                lemma_flat_args_are_flat(fc.name.value@, fc.args.value@, len, m, n + 1, stmts.subrange(0, k as int), fa.f.args.value@);
            }
            assert forall|i: int| 0 <= i < stmts.len() implies flat_stmt(#[trigger] stmts[i]) by {
                if i < k {
                    assert(stmts[i] == stmts.subrange(0, k as int)[i]);
                }
            }
        },
        _ => {},
    }
}

/// Flattening a list of expressions gives flat statements and leaves variables or constants.
pub proof fn lemma_flat_args_are_flat(
    name: Seq<char>,
    s: Seq<Loc<Expr>>,
    j: int,
    m: RegMode,
    n: nat,
    stmts: Seq<Statement>,
    outs: Seq<Loc<Expr>>,
)
    requires
        0 <= j <= s.len(),
        args_rel(name, s, j, m, n, stmts, outs),
    ensures
        forall|i: int| 0 <= i < j ==> atom(#[trigger] outs[i].value),
        forall|i: int| 0 <= i < stmts.len() ==> flat_stmt(#[trigger] stmts[i]),
    decreases s, j,
{
    if 0 < j <= s.len() {
        let t = args_count(s, j - 1, m);
        let k = flat_count(s[j - 1].value, m);
        lemma_flat_args_are_flat(name, s, j - 1, m, n, stmts.subrange(0, t as int), outs);
        lemma_flat_expr_is_flat(name, s[j - 1], m, n + t, stmts.subrange(t as int, (t + k) as int), outs[j - 1].value);
        assert forall|i: int| 0 <= i < stmts.len() implies flat_stmt(#[trigger] stmts[i]) by {
            if i < t {
                assert(stmts[i] == stmts.subrange(0, t as int)[i]);
            } else {
                assert(stmts[i] == stmts.subrange(t as int, (t + k) as int)[i - t]);
            }
        }
    }
}

/// Flattening assignments gives flat statements.
pub proof fn lemma_flat_assigns_are_flat(s: Seq<VarAssign>, j: int, n: nat, out: Seq<Statement>)
    requires
        0 <= j <= s.len(),
        assigns_rel(s, j, n, out),
    ensures
        forall|i: int| 0 <= i < out.len() ==> flat_stmt(#[trigger] out[i]),
    decreases j,
{
    if j > 0 {
        let t = assigns_count(s, j - 1);
        let l = assigns_len(s, j - 1) as int;
        let k = flat_count(s[j - 1].expr.value, None) as int;
        lemma_flat_assigns_are_flat(s, j - 1, n, out.subrange(0, l));
        if k == 0 {
            if let Statement::Assign(w) = out[l] {
                lemma_flat_expr_is_flat(s[j - 1].var.value@, s[j - 1].expr, None, n + t, Seq::empty(), w@[0].expr.value);
                assert(flat_stmt(out[l]));
            }
            assert forall|i: int| 0 <= i < out.len() implies flat_stmt(#[trigger] out[i]) by {
                if i < l {
                    assert(out[i] == out.subrange(0, l)[i]);
                }
            }
        } else {
            let (st, o) = choose|st: Seq<Statement>, o: Expr| #[trigger] flat_rel(s[j - 1].var.value@, s[j - 1].expr, None, n + t, st, o)
                && out.subrange(l, l + k - 1) == st.subrange(0, k - 1)
                && reassigned(st[k - 1], out[l + k - 1], s[j - 1].var);
            lemma_flat_expr_is_flat(s[j - 1].var.value@, s[j - 1].expr, None, n + t, st, o);
            assert(flat_stmt(st[k - 1]));
            assert(flat_stmt(out[l + k - 1])) by {
                match st[k - 1] {
                    Statement::Assign(w) => {
                        if let Statement::Assign(w2) = out[l + k - 1] {
                            assert(w2@[0].expr == w@[0].expr);
                        }
                    },
                    _ => {},
                }
            }
            assert forall|i: int| 0 <= i < out.len() implies flat_stmt(#[trigger] out[i]) by {
                if i < l {
                    assert(out[i] == out.subrange(0, l)[i]);
                } else if i < l + k - 1 {
                    assert(out[i] == out.subrange(l, l + k - 1)[i - l]);
                    assert(st[i - l] == st.subrange(0, k - 1)[i - l]);
                }
            }
        }
    }
}

/// Flattening a statement gives flat statements.
pub proof fn lemma_flat_stmt_is_flat(st: Statement, n: nat, out: Seq<Statement>)
    requires
        stmt_rel(st, n, out),
    ensures
        forall|i: int| 0 <= i < out.len() ==> flat_stmt(#[trigger] out[i]),
    decreases st, 0int,
{
    match st {
        Statement::Assign(v) => {
            lemma_flat_assigns_are_flat(v@, v@.len() as int, n, out);
        },
        Statement::If(i) => {
            if let Statement::If(j) = out[0] {
                lemma_flat_block_is_flat(i.if_block@, i.if_block@.len() as int, n, j.if_block@);
                lemma_flat_block_is_flat(
                    i.else_block@,
                    i.else_block@.len() as int,
                    n + block_count(i.if_block@, i.if_block@.len() as int),
                    j.else_block@,
                );
            }
        },
        Statement::FnAssign(fa) => {
            let len = fa.f.args.value@.len() as int;
            let k = args_count(fa.f.args.value@, len, None);
            if let Statement::FnAssign(fb) = out[k as int] {
                lemma_flat_args_are_flat(fa.f.name.value@, fa.f.args.value@, len, None, n, out.subrange(0, k as int), fb.f.args.value@);
            }
            assert forall|i: int| 0 <= i < out.len() implies flat_stmt(#[trigger] out[i]) by {
                if i < k {
                    assert(out[i] == out.subrange(0, k as int)[i]);
                }
            }
        },
        Statement::ExtAutomaton(_) => {},
    }
}

/// Flattening a list of statements gives flat statements.
pub proof fn lemma_flat_block_is_flat(s: Seq<Statement>, j: int, n: nat, out: Seq<Statement>)
    requires
        0 <= j <= s.len(),
        block_rel(s, j, n, out),
    ensures
        forall|i: int| 0 <= i < out.len() ==> flat_stmt(#[trigger] out[i]),
    decreases s, j,
{
    if j > 0 {
        let t = block_count(s, j - 1);
        let l = block_len(s, j - 1);
        let k = stmt_len(s[j - 1]);
        lemma_flat_block_is_flat(s, j - 1, n, out.subrange(0, l as int));
        lemma_flat_stmt_is_flat(s[j - 1], n + t, out.subrange(l as int, (l + k) as int));
        assert forall|i: int| 0 <= i < out.len() implies flat_stmt(#[trigger] out[i]) by {
            if i < l {
                assert(out[i] == out.subrange(0, l as int)[i]);
            } else {
                assert(out[i] == out.subrange(l as int, (l + k) as int)[i - l]);
            }
        }
    }
}

/// The names that flattening a transition takes: none when its condition is a variable,
/// else those of its condition and one more for the variable that then holds it.
pub open spec fn tr_count(t: Transition) -> nat {
    match t.condition.value {
        TrCond::Expr(Expr::Var(_)) => 0,
        TrCond::Expr(e) => flat_count(e, None) + 1,
        TrCond::Default => 0,
    }
}

/// The names that flattening the first `j` transitions of `ts` takes.
pub open spec fn trs_count(ts: Seq<Transition>, j: int) -> nat
    decreases j,
{
    if 0 < j <= ts.len() {
        trs_count(ts, j - 1) + tr_count(ts[j - 1])
    } else {
        0
    }
}

/// The error met flattening the condition of a transition.
pub open spec fn tr_err(t: Transition) -> Option<FlattenError> {
    match t.condition.value {
        TrCond::Expr(Expr::Var(_)) => None,
        TrCond::Expr(e) => flat_err(e, None),
        TrCond::Default => None,
    }
}

/// The first error met flattening the first `j` transitions of `ts`.
pub open spec fn trs_err(ts: Seq<Transition>, j: int) -> Option<FlattenError>
    decreases j,
{
    if 0 < j <= ts.len() {
        first_of(trs_err(ts, j - 1), tr_err(ts[j - 1]))
    } else {
        None
    }
}

/// Whether flattening a transition comes to an end: its condition is explicit, since the
/// default conditions are all gone once the automata are collapsed.
pub open spec fn tr_ends(t: Transition) -> bool {
    match t.condition.value {
        TrCond::Expr(Expr::Var(_)) => true,
        TrCond::Expr(e) => flat_ends(e, None),
        TrCond::Default => false,
    }
}

/// Whether flattening the first `j` transitions of `ts` comes to an end.
pub open spec fn trs_ends(ts: Seq<Transition>, j: int) -> bool
    decreases j,
{
    if 0 < j <= ts.len() {
        trs_ends(ts, j - 1) && (trs_err(ts, j - 1) is Some || tr_ends(ts[j - 1]))
    } else {
        true
    }
}

/// `out` and `t2` are the result of flattening the transition `t` of the state named `name`
/// with names taken from `n` on. A condition that is a variable is kept. Any other condition
/// is flattened, then assigned to a new variable, at the position of the condition, which
/// becomes the condition.
pub open spec fn tr_rel(name: Seq<char>, t: Transition, n: nat, out: Seq<Statement>, t2: Transition) -> bool {
    match t.condition.value {
        TrCond::Expr(Expr::Var(_)) => out.len() == 0 && t2 == t,
        TrCond::Expr(e) => {
            let p = t.condition.loc;
            let c = flat_count(e, None);
            &&& out.len() == c + 1
            &&& flat_rel(name, Loc { loc: p, value: e }, None, n, out.subrange(0, c as int), assign_expr(out[c as int]).value)
            &&& assign_of(out[c as int], p, fresh_name(name, n + c))
            &&& assign_expr(out[c as int]).loc == p
            &&& t2.state == t.state
            &&& t2.reset == t.reset
            &&& t2.condition.loc == p
            &&& t2.condition.value matches TrCond::Expr(v) && var_named(v, p, fresh_name(name, n + c))
        },
        TrCond::Default => false,
    }
}

/// `out` and `touts` are the result of flattening the first `j` transitions of `ts`, of the
/// state named `name`, in order, with names taken from `n` on.
pub open spec fn trs_rel(
    name: Seq<char>,
    ts: Seq<Transition>,
    j: int,
    n: nat,
    out: Seq<Statement>,
    touts: Seq<Transition>,
) -> bool
    decreases j,
{
    if 0 < j <= ts.len() {
        let t = trs_count(ts, j - 1);
        let c = tr_count(ts[j - 1]);
        &&& out.len() == t + c
        &&& touts.len() == j
        &&& trs_rel(name, ts, j - 1, n, out.subrange(0, t as int), touts.subrange(0, j - 1))
        &&& tr_rel(name, ts[j - 1], n + t, out.subrange(t as int, (t + c) as int), touts[j - 1])
    } else {
        out.len() == 0 && touts.len() == 0
    }
}

proof fn lemma_trs_err_stays(s: Seq<Transition>, j: int, len: int)
    requires
        0 <= j <= len <= s.len(),
        trs_err(s, j) is Some,
    ensures
        trs_err(s, len) == trs_err(s, j),
    decreases len,
{
    if len > j {
        lemma_trs_err_stays(s, j, len - 1);
    }
}

proof fn lemma_trs_count_grows(s: Seq<Transition>, j: int, len: int)
    requires
        0 <= j <= len <= s.len(),
    ensures
        trs_count(s, j) <= trs_count(s, len),
    decreases len,
{
    if len > j {
        lemma_trs_count_grows(s, j, len - 1);
    }
}

proof fn lemma_trs_ends(s: Seq<Transition>, j: int, len: int)
    requires
        0 <= j < len <= s.len(),
        trs_ends(s, len),
        trs_err(s, j) is None,
    ensures
        tr_ends(s[j]),
    decreases len,
{
    if len > j + 1 {
        lemma_trs_ends(s, j, len - 1);
    }
}

/// Flattens the conditions of the transitions of the state named `name`: the statements
/// that compute them, and the transitions with their new conditions.
fn flatten_transitions(name: &String, ts: Vec<Transition>, counter: &mut usize) -> (r: Result<
    (Vec<Statement>, Vec<Transition>),
    FlattenError,
>)
    requires
        trs_ends(ts@, ts@.len() as int),
        *old(counter) + trs_count(ts@, ts@.len() as int) <= usize::MAX,
    ensures
        match r {
            Ok((out, touts)) => {
                &&& trs_err(ts@, ts@.len() as int) is None
                &&& trs_rel(name@, ts@, ts@.len() as int, *old(counter) as nat, out@, touts@)
                &&& *final(counter) == *old(counter) + trs_count(ts@, ts@.len() as int)
            },
            Err(x) => trs_err(ts@, ts@.len() as int) == Some(x),
        },
{
    let ghost s0 = ts@;
    let ghost n0 = *counter as nat;
    let len = ts.len();
    let mut rest = ts;
    let mut out: Vec<Statement> = Vec::new();
    let mut touts: Vec<Transition> = Vec::new();
    let mut err: Option<FlattenError> = None;
    let mut i: usize = 0;
    while i < len && err.is_none()
        invariant
            i <= len,
            len == s0.len(),
            trs_ends(s0, len as int),
            n0 + trs_count(s0, len as int) <= usize::MAX,
            err is None ==> {
                &&& rest@ == s0.subrange(i as int, len as int)
                &&& trs_err(s0, i as int) is None
                &&& trs_rel(name@, s0, i as int, n0, out@, touts@)
                &&& out@.len() == trs_count(s0, i as int)
                &&& touts@.len() == i
                &&& *counter == n0 + trs_count(s0, i as int)
            },
            err matches Some(x) ==> trs_err(s0, len as int) == Some(x),
        decreases len - i, (if err is None { 1int } else { 0int }),
    {
        let t = rest.remove(0);
        proof {
            assert(t == s0[i as int]);
            lemma_trs_ends(s0, i as int, len as int);
            lemma_trs_count_grows(s0, i as int + 1, len as int);
        }
        let ghost o0 = out@;
        let ghost u0 = touts@;
        let Transition { condition, state, reset } = t;
        let Loc { loc: p, value: cv } = condition;
        match cv {
            TrCond::Expr(Expr::Var(v)) => {
                touts.push(Transition { condition: Loc { loc: p, value: TrCond::Expr(Expr::Var(v)) }, state, reset });
                proof {
                    assert(out@.subrange(0, o0.len() as int) =~= o0);
                    assert(touts@.subrange(0, i as int) =~= u0);
                    assert(out@.subrange(o0.len() as int, o0.len() as int) =~= Seq::<Statement>::empty());
                }
                i = i + 1;
            },
            TrCond::Expr(e) => {
                let ghost e0 = e;
                match flatten_expr(name, Loc { loc: p, value: e }, None, counter) {
                    Err(x) => {
                        proof {
                            lemma_trs_err_stays(s0, i as int + 1, len as int);
                        }
                        err = Some(x);
                    },
                    Ok((stmts, res)) => {
                        let f = get_name(name, counter);
                        let ghost st0 = stmts@;
                        let mut stmts = stmts;
                        stmts.push(assign_stmt(p, f.clone(), Loc { loc: p, value: res }));
                        let ghost st1 = stmts@;
                        out.append(&mut stmts);
                        touts.push(
                            Transition {
                                condition: Loc { loc: p, value: TrCond::Expr(Expr::Var(Loc { loc: p, value: f })) },
                                state,
                                reset,
                            },
                        );
                        proof {
                            let l = o0.len() as int;
                            let c = flat_count(e0, None);
                            assert(out@.subrange(0, l) =~= o0);
                            assert(touts@.subrange(0, i as int) =~= u0);
                            assert(out@.subrange(l, l + c + 1) =~= st1);
                            assert(st1.subrange(0, c as int) =~= st0);
                        }
                        i = i + 1;
                    },
                }
            },
            TrCond::Default => {
                proof {
                    assert(false);
                }
            },
        }
    }
    match err {
        Some(x) => Err(x),
        None => Ok((out, touts)),
    }
}

/// The names that flattening a state takes: those of its statements, then of its transitions.
pub open spec fn state_flat_count(s: State) -> nat {
    block_count(s.statements@, s.statements@.len() as int) + trs_count(s.transitions@, s.transitions@.len() as int)
}

/// The first error met flattening a state.
pub open spec fn state_flat_err(s: State) -> Option<FlattenError> {
    first_of(block_err(s.statements@, s.statements@.len() as int), trs_err(s.transitions@, s.transitions@.len() as int))
}

/// Whether flattening a state comes to an end.
pub open spec fn state_flat_ends(s: State) -> bool {
    block_ends(s.statements@, s.statements@.len() as int) && (block_err(s.statements@, s.statements@.len() as int) is Some
        || trs_ends(s.transitions@, s.transitions@.len() as int))
}

/// `s2` is the state `s` flattened with names taken from `n` on: its statements flattened,
/// followed by the statements that compute the conditions of its transitions, which the
/// variables holding them replace.
pub open spec fn state_flat_rel(s: State, n: nat, s2: State) -> bool {
    let l = block_len(s.statements@, s.statements@.len() as int);
    let c = block_count(s.statements@, s.statements@.len() as int);
    &&& s2.name == s.name
    &&& s2.weak == s.weak
    &&& s2.statements@.len() == l + trs_count(s.transitions@, s.transitions@.len() as int)
    &&& block_rel(s.statements@, s.statements@.len() as int, n, s2.statements@.subrange(0, l as int))
    &&& trs_rel(
        s.name.value@,
        s.transitions@,
        s.transitions@.len() as int,
        n + c,
        s2.statements@.subrange(l as int, s2.statements@.len() as int),
        s2.transitions@,
    )
}

proof fn lemma_block_rel_len(s: Seq<Statement>, j: int, n: nat, out: Seq<Statement>)
    requires
        block_rel(s, j, n, out),
    ensures
        out.len() == block_len(s, j),
{
}

proof fn lemma_trs_rel_len(name: Seq<char>, ts: Seq<Transition>, j: int, n: nat, out: Seq<Statement>, touts: Seq<Transition>)
    requires
        trs_rel(name, ts, j, n, out, touts),
    ensures
        out.len() == trs_count(ts, j),
{
}

/// Flattens a state: its statements, then the conditions of its transitions.
pub fn flatten_state(s: State, counter: &mut usize) -> (r: Result<State, FlattenError>)
    requires
        state_flat_ends(s),
        *old(counter) + state_flat_count(s) <= usize::MAX,
    ensures
        match r {
            Ok(s2) => {
                &&& state_flat_err(s) is None
                &&& state_flat_rel(s, *old(counter) as nat, s2)
                &&& *final(counter) == *old(counter) + state_flat_count(s)
            },
            Err(x) => state_flat_err(s) == Some(x),
        },
{
    let ghost s0 = s;
    let State { name, statements, transitions, weak } = s;
    let mut block = match flatten_block(statements, counter) {
        Ok(b) => b,
        Err(x) => {
            return Err(x);
        },
    };
    let ghost b0 = block@;
    proof {
        lemma_block_rel_len(s0.statements@, s0.statements@.len() as int, *old(counter) as nat, b0);
    }
    let (mut extra, touts) = match flatten_transitions(&name.value, transitions, counter) {
        Ok(v) => v,
        Err(x) => {
            return Err(x);
        },
    };
    let ghost x0 = extra@;
    proof {
        lemma_trs_rel_len(
            s0.name.value@,
            s0.transitions@,
            s0.transitions@.len() as int,
            (*old(counter) + block_count(s0.statements@, s0.statements@.len() as int)) as nat,
            x0,
            touts@,
        );
    }
    block.append(&mut extra);
    proof {
        let l = b0.len() as int;
        assert(block@.subrange(0, l) =~= b0);
        assert(block@.subrange(l, block@.len() as int) =~= x0);
    }
    Ok(State { name, statements: block, transitions: touts, weak })
}

/// The names that flattening the first `j` states of `ss` takes.
pub open spec fn states_count(ss: Seq<(String, State)>, j: int) -> nat
    decreases j,
{
    if 0 < j <= ss.len() {
        states_count(ss, j - 1) + state_flat_count(ss[j - 1].1)
    } else {
        0
    }
}

/// The first error met flattening the first `j` states of `ss`.
pub open spec fn states_err(ss: Seq<(String, State)>, j: int) -> Option<FlattenError>
    decreases j,
{
    if 0 < j <= ss.len() {
        first_of(states_err(ss, j - 1), state_flat_err(ss[j - 1].1))
    } else {
        None
    }
}

/// Whether flattening the first `j` states of `ss` comes to an end.
pub open spec fn states_ends(ss: Seq<(String, State)>, j: int) -> bool
    decreases j,
{
    if 0 < j <= ss.len() {
        states_ends(ss, j - 1) && (states_err(ss, j - 1) is Some || state_flat_ends(ss[j - 1].1))
    } else {
        true
    }
}

/// `out` is the table of states `ss` flattened in order, with names taken from `n` on.
pub open spec fn states_rel(ss: Seq<(String, State)>, n: nat, out: Seq<(String, State)>) -> bool {
    &&& out.len() == ss.len()
    &&& forall|k: int| 0 <= k < ss.len() ==> (#[trigger] out[k]).0 == ss[k].0
        && state_flat_rel(ss[k].1, n + states_count(ss, k), out[k].1)
}

proof fn lemma_states_err_stays(s: Seq<(String, State)>, j: int, len: int)
    requires
        0 <= j <= len <= s.len(),
        states_err(s, j) is Some,
    ensures
        states_err(s, len) == states_err(s, j),
    decreases len,
{
    if len > j {
        lemma_states_err_stays(s, j, len - 1);
    }
}

proof fn lemma_states_count_grows(s: Seq<(String, State)>, j: int, len: int)
    requires
        0 <= j <= len <= s.len(),
    ensures
        states_count(s, j) <= states_count(s, len),
    decreases len,
{
    if len > j {
        lemma_states_count_grows(s, j, len - 1);
    }
}

proof fn lemma_states_ends(s: Seq<(String, State)>, j: int, len: int)
    requires
        0 <= j < len <= s.len(),
        states_ends(s, len),
        states_err(s, j) is None,
    ensures
        state_flat_ends(s[j].1),
    decreases len,
{
    if len > j + 1 {
        lemma_states_ends(s, j, len - 1);
    }
}

/// Flattens every state of a table, in order.
fn flatten_states(ss: Table<State>, counter: &mut usize) -> (r: Result<Table<State>, FlattenError>)
    requires
        states_ends(ss@, ss@.len() as int),
        *old(counter) + states_count(ss@, ss@.len() as int) <= usize::MAX,
    ensures
        match r {
            Ok(out) => {
                &&& states_err(ss@, ss@.len() as int) is None
                &&& states_rel(ss@, *old(counter) as nat, out@)
                &&& *final(counter) == *old(counter) + states_count(ss@, ss@.len() as int)
            },
            Err(x) => states_err(ss@, ss@.len() as int) == Some(x),
        },
{
    let ghost s0 = ss@;
    let ghost n0 = *counter as nat;
    let len = ss.len();
    let mut rest = ss;
    let mut out: Table<State> = Vec::new();
    let mut i: usize = 0;
    while i < len
        invariant
            i <= len,
            len == s0.len(),
            s0 == ss@,
            n0 == *old(counter),
            states_ends(s0, len as int),
            n0 + states_count(s0, len as int) <= usize::MAX,
            rest@ == s0.subrange(i as int, len as int),
            states_err(s0, i as int) is None,
            out@.len() == i,
            forall|k: int| 0 <= k < i ==> (#[trigger] out@[k]).0 == s0[k].0
                && state_flat_rel(s0[k].1, n0 + states_count(s0, k), out@[k].1),
            *counter == n0 + states_count(s0, i as int),
        decreases len - i,
    {
        let (nm, st) = rest.remove(0);
        proof {
            assert((nm, st) == s0[i as int]);
            lemma_states_ends(s0, i as int, len as int);
            lemma_states_count_grows(s0, i as int + 1, len as int);
        }
        match flatten_state(st, counter) {
            Err(x) => {
                proof {
                    lemma_states_err_stays(s0, i as int + 1, len as int);
                }
                return Err(x);
            },
            Ok(st2) => {
                out.push((nm, st2));
                i = i + 1;
            },
        }
    }
    Ok(out)
}

/// The names that flattening the statements of the first `j` functions of `fs` takes.
pub open spec fn fns_count(fs: Seq<(String, Function)>, j: int) -> nat
    decreases j,
{
    if 0 < j <= fs.len() {
        fns_count(fs, j - 1) + block_count(fs[j - 1].1.statements@, fs[j - 1].1.statements@.len() as int)
    } else {
        0
    }
}

/// The first error met flattening the statements of the first `j` functions of `fs`.
pub open spec fn fns_err(fs: Seq<(String, Function)>, j: int) -> Option<FlattenError>
    decreases j,
{
    if 0 < j <= fs.len() {
        first_of(fns_err(fs, j - 1), block_err(fs[j - 1].1.statements@, fs[j - 1].1.statements@.len() as int))
    } else {
        None
    }
}

/// Whether flattening the statements of the first `j` functions of `fs` comes to an end.
pub open spec fn fns_ends(fs: Seq<(String, Function)>, j: int) -> bool
    decreases j,
{
    if 0 < j <= fs.len() {
        fns_ends(fs, j - 1) && (fns_err(fs, j - 1) is Some || block_ends(
            fs[j - 1].1.statements@,
            fs[j - 1].1.statements@.len() as int,
        ))
    } else {
        true
    }
}

/// `h` is the function `f` with its statements flattened, names taken from `n` on.
pub open spec fn fn_flat_rel(f: Function, n: nat, h: Function) -> bool {
    &&& h.name == f.name
    &&& h.static_args == f.static_args
    &&& h.args == f.args
    &&& h.return_vars == f.return_vars
    &&& block_rel(f.statements@, f.statements@.len() as int, n, h.statements@)
}

/// The names that flattening the states of the first `j` automata of `aus` takes.
pub open spec fn autos_count(aus: Seq<(String, Automaton)>, j: int) -> nat
    decreases j,
{
    if 0 < j <= aus.len() {
        autos_count(aus, j - 1) + states_count(aus[j - 1].1.states@, aus[j - 1].1.states@.len() as int)
    } else {
        0
    }
}

/// The first error met flattening the states of the first `j` automata of `aus`.
pub open spec fn autos_err(aus: Seq<(String, Automaton)>, j: int) -> Option<FlattenError>
    decreases j,
{
    if 0 < j <= aus.len() {
        first_of(autos_err(aus, j - 1), states_err(aus[j - 1].1.states@, aus[j - 1].1.states@.len() as int))
    } else {
        None
    }
}

/// Whether flattening the states of the first `j` automata of `aus` comes to an end.
pub open spec fn autos_ends(aus: Seq<(String, Automaton)>, j: int) -> bool
    decreases j,
{
    if 0 < j <= aus.len() {
        autos_ends(aus, j - 1) && (autos_err(aus, j - 1) is Some || states_ends(
            aus[j - 1].1.states@,
            aus[j - 1].1.states@.len() as int,
        ))
    } else {
        true
    }
}

/// `b` is the automaton `a` with its states flattened, names taken from `n` on.
pub open spec fn auto_flat_rel(a: Automaton, n: nat, b: Automaton) -> bool {
    &&& b.name == a.name
    &&& b.inputs == a.inputs
    &&& b.outputs == a.outputs
    &&& b.shared == a.shared
    &&& b.init_states == a.init_states
    &&& states_rel(a.states@, n, b.states@)
}

/// The names that flattening a program takes: those of its functions, then of its automata.
pub open spec fn prog_flat_count(p: Program) -> nat {
    fns_count(p.functions@, p.functions@.len() as int) + autos_count(p.automata@, p.automata@.len() as int)
}

/// The first error met flattening a program.
pub open spec fn prog_flat_err(p: Program) -> Option<FlattenError> {
    first_of(fns_err(p.functions@, p.functions@.len() as int), autos_err(p.automata@, p.automata@.len() as int))
}

/// Whether flattening a program comes to an end.
pub open spec fn prog_flat_ends(p: Program) -> bool {
    fns_ends(p.functions@, p.functions@.len() as int) && (fns_err(p.functions@, p.functions@.len() as int) is Some
        || autos_ends(p.automata@, p.automata@.len() as int))
}

proof fn lemma_fns_err_stays(s: Seq<(String, Function)>, j: int, len: int)
    requires
        0 <= j <= len <= s.len(),
        fns_err(s, j) is Some,
    ensures
        fns_err(s, len) == fns_err(s, j),
    decreases len,
{
    if len > j {
        lemma_fns_err_stays(s, j, len - 1);
    }
}

proof fn lemma_fns_count_grows(s: Seq<(String, Function)>, j: int, len: int)
    requires
        0 <= j <= len <= s.len(),
    ensures
        fns_count(s, j) <= fns_count(s, len),
    decreases len,
{
    if len > j {
        lemma_fns_count_grows(s, j, len - 1);
    }
}

proof fn lemma_fns_ends(s: Seq<(String, Function)>, j: int, len: int)
    requires
        0 <= j < len <= s.len(),
        fns_ends(s, len),
        fns_err(s, j) is None,
    ensures
        block_ends(s[j].1.statements@, s[j].1.statements@.len() as int),
    decreases len,
{
    if len > j + 1 {
        lemma_fns_ends(s, j, len - 1);
    }
}

proof fn lemma_autos_err_stays(s: Seq<(String, Automaton)>, j: int, len: int)
    requires
        0 <= j <= len <= s.len(),
        autos_err(s, j) is Some,
    ensures
        autos_err(s, len) == autos_err(s, j),
    decreases len,
{
    if len > j {
        lemma_autos_err_stays(s, j, len - 1);
    }
}

proof fn lemma_autos_count_grows(s: Seq<(String, Automaton)>, j: int, len: int)
    requires
        0 <= j <= len <= s.len(),
    ensures
        autos_count(s, j) <= autos_count(s, len),
    decreases len,
{
    if len > j {
        lemma_autos_count_grows(s, j, len - 1);
    }
}

proof fn lemma_autos_ends(s: Seq<(String, Automaton)>, j: int, len: int)
    requires
        0 <= j < len <= s.len(),
        autos_ends(s, len),
        autos_err(s, j) is None,
    ensures
        states_ends(s[j].1.states@, s[j].1.states@.len() as int),
    decreases len,
{
    if len > j + 1 {
        lemma_autos_ends(s, j, len - 1);
    }
}

/// `p1` is the program `p0` flattened with names taken from `n0` on: the statements of its
/// functions, then the states of its automata, each with the names that follow those of
/// the parts before it.
pub open spec fn prog_flat_rel(p0: Program, n0: nat, p1: Program) -> bool {
    let nf = fns_count(p0.functions@, p0.functions@.len() as int);
    &&& p1.imports == p0.imports
    &&& p1.global_consts == p0.global_consts
    &&& p1.functions@.len() == p0.functions@.len()
    &&& forall|k: int| 0 <= k < p0.functions@.len() ==> (#[trigger] p1.functions@[k]).0 == p0.functions@[k].0
        && fn_flat_rel(p0.functions@[k].1, n0 + fns_count(p0.functions@, k), p1.functions@[k].1)
    &&& p1.automata@.len() == p0.automata@.len()
    &&& forall|k: int| 0 <= k < p0.automata@.len() ==> (#[trigger] p1.automata@[k]).0 == p0.automata@[k].0
        && auto_flat_rel(p0.automata@[k].1, n0 + nf + autos_count(p0.automata@, k), p1.automata@[k].1)
}

/// Flattens the nested expressions of a program: the statements of its functions, then the
/// statements and transitions of the states of its automata, in order, with intermediate
/// names taken from `counter` on. Stops at the first expression that cannot be put under a
/// register.
pub fn flatten(prog: &mut Program, counter: &mut usize) -> (r: Result<(), FlattenError>)
    requires
        prog_flat_ends(*old(prog)),
        *old(counter) + prog_flat_count(*old(prog)) <= usize::MAX,
    ensures
        match r {
            Ok(()) => {
                &&& prog_flat_err(*old(prog)) is None
                &&& prog_flat_rel(*old(prog), *old(counter) as nat, *final(prog))
                &&& *final(counter) == *old(counter) + prog_flat_count(*old(prog))
            },
            Err(x) => prog_flat_err(*old(prog)) == Some(x),
        },
{
    let ghost p0 = *prog;
    let ghost n0 = *counter as nat;
    let ghost fs0 = prog.functions@;
    let ghost as0 = prog.automata@;
    let nfs = prog.functions.len();
    let mut i: usize = 0;
    while i < nfs
        invariant
            i <= nfs,
            nfs == fs0.len(),
            p0 == *old(prog),
            fs0 == p0.functions@,
            as0 == p0.automata@,
            n0 == *old(counter),
            prog_flat_ends(p0),
            n0 + prog_flat_count(p0) <= usize::MAX,
            prog.imports == p0.imports,
            prog.global_consts == p0.global_consts,
            prog.automata == p0.automata,
            prog.functions@.len() == nfs,
            forall|k: int| i <= k < nfs ==> prog.functions@[k] == fs0[k],
            fns_err(fs0, i as int) is None,
            forall|k: int| 0 <= k < i ==> (#[trigger] prog.functions@[k]).0 == fs0[k].0
                && fn_flat_rel(fs0[k].1, n0 + fns_count(fs0, k), prog.functions@[k].1),
            *counter == n0 + fns_count(fs0, i as int),
        decreases nfs - i,
    {
        proof {
            assert(prog.functions@[i as int] == fs0[i as int]);
            lemma_fns_ends(fs0, i as int, nfs as int);
            lemma_fns_count_grows(fs0, i as int + 1, nfs as int);
        }
        let mut body: Vec<Statement> = Vec::new();
        std::mem::swap(&mut body, &mut prog.functions[i].1.statements);
        match flatten_block(body, counter) {
            Err(x) => {
                proof {
                    lemma_fns_err_stays(fs0, i as int + 1, nfs as int);
                }
                return Err(x);
            },
            Ok(out) => {
                let mut out = out;
                std::mem::swap(&mut out, &mut prog.functions[i].1.statements);
            },
        }
        i = i + 1;
    }
    let ghost nf = fns_count(fs0, nfs as int);
    let nas = prog.automata.len();
    let mut i: usize = 0;
    while i < nas
        invariant
            i <= nas,
            nas == as0.len(),
            p0 == *old(prog),
            fs0 == p0.functions@,
            as0 == p0.automata@,
            n0 == *old(counter),
            nf == fns_count(fs0, fs0.len() as int),
            fns_err(fs0, fs0.len() as int) is None,
            autos_ends(as0, nas as int),
            n0 + nf + autos_count(as0, nas as int) <= usize::MAX,
            prog.imports == p0.imports,
            prog.global_consts == p0.global_consts,
            prog.functions@.len() == fs0.len(),
            forall|k: int| 0 <= k < fs0.len() ==> (#[trigger] prog.functions@[k]).0 == fs0[k].0
                && fn_flat_rel(fs0[k].1, n0 + fns_count(fs0, k), prog.functions@[k].1),
            prog.automata@.len() == nas,
            forall|k: int| i <= k < nas ==> prog.automata@[k] == as0[k],
            autos_err(as0, i as int) is None,
            forall|k: int| 0 <= k < i ==> (#[trigger] prog.automata@[k]).0 == as0[k].0
                && auto_flat_rel(as0[k].1, n0 + nf + autos_count(as0, k), prog.automata@[k].1),
            *counter == n0 + nf + autos_count(as0, i as int),
        decreases nas - i,
    {
        proof {
            assert(prog.automata@[i as int] == as0[i as int]);
            lemma_autos_ends(as0, i as int, nas as int);
            lemma_autos_count_grows(as0, i as int + 1, nas as int);
        }
        let mut states: Table<State> = Vec::new();
        std::mem::swap(&mut states, &mut prog.automata[i].1.states);
        match flatten_states(states, counter) {
            Err(x) => {
                proof {
                    lemma_autos_err_stays(as0, i as int + 1, nas as int);
                }
                return Err(x);
            },
            Ok(out) => {
                let mut out = out;
                std::mem::swap(&mut out, &mut prog.automata[i].1.states);
            },
        }
        i = i + 1;
    }
    Ok(())
}

/// The transitions `touts` come from flattening: each condition is a variable; and the
/// statements `out` are flat.
proof fn lemma_flat_trs(name: Seq<char>, ts: Seq<Transition>, j: int, n: nat, out: Seq<Statement>, touts: Seq<Transition>)
    requires
        0 <= j <= ts.len(),
        trs_rel(name, ts, j, n, out, touts),
    ensures
        forall|i: int| 0 <= i < out.len() ==> flat_stmt(#[trigger] out[i]),
        forall|i: int| 0 <= i < touts.len() ==> (#[trigger] touts[i]).condition.value matches TrCond::Expr(Expr::Var(_)),
    decreases j,
{
    if j > 0 {
        let t = trs_count(ts, j - 1);
        let c = tr_count(ts[j - 1]);
        let o = out.subrange(t as int, (t + c) as int);
        lemma_flat_trs(name, ts, j - 1, n, out.subrange(0, t as int), touts.subrange(0, j - 1));
        match ts[j - 1].condition.value {
            TrCond::Expr(Expr::Var(_)) => {},
            TrCond::Expr(e) => {
                let k = flat_count(e, None);
                lemma_flat_expr_is_flat(name, Loc { loc: ts[j - 1].condition.loc, value: e }, None, n + t, o.subrange(0, k as int), assign_expr(o[k as int]).value);
                assert forall|i: int| 0 <= i < o.len() implies flat_stmt(#[trigger] o[i]) by {
                    if i < k {
                        assert(o[i] == o.subrange(0, k as int)[i]);
                    }
                }
            },
            TrCond::Default => {},
        }
        assert forall|i: int| 0 <= i < out.len() implies flat_stmt(#[trigger] out[i]) by {
            if i < t {
                assert(out[i] == out.subrange(0, t as int)[i]);
            } else {
                assert(out[i] == o[i - t]);
            }
        }
        assert forall|i: int| 0 <= i < touts.len() implies (#[trigger] touts[i]).condition.value matches TrCond::Expr(Expr::Var(_)) by {
            if i < j - 1 {
                assert(touts[i] == touts.subrange(0, j - 1)[i]);
            }
        }
    }
}

/// A state that flattening gives is flat: flat statements, and variables for conditions.
proof fn lemma_flat_state(s: State, n: nat, s2: State)
    requires
        state_flat_rel(s, n, s2),
    ensures
        state_is_flat(s2),
{
    let l = block_len(s.statements@, s.statements@.len() as int);
    let c = block_count(s.statements@, s.statements@.len() as int);
    let st = s2.statements@;
    lemma_flat_block_is_flat(s.statements@, s.statements@.len() as int, n, st.subrange(0, l as int));
    lemma_flat_trs(s.name.value@, s.transitions@, s.transitions@.len() as int, n + c, st.subrange(l as int, st.len() as int), s2.transitions@);
    assert forall|i: int| 0 <= i < st.len() implies flat_stmt(#[trigger] st[i]) by {
        if i < l {
            assert(st[i] == st.subrange(0, l as int)[i]);
        } else {
            assert(st[i] == st.subrange(l as int, st.len() as int)[i - l]);
        }
    }
}

/// A state whose statements are flat and whose conditions are all variables.
pub open spec fn state_is_flat(s: State) -> bool {
    &&& forall|i: int| 0 <= i < s.statements@.len() ==> flat_stmt(#[trigger] s.statements@[i])
    &&& forall|i: int| 0 <= i < s.transitions@.len() ==> (#[trigger] s.transitions@[i]).condition.value matches TrCond::Expr(Expr::Var(_))
}

/// A program with no nested expression left: the statements of its functions and states
/// are flat, and every condition of a transition is a variable.
pub open spec fn prog_is_flat(p: Program) -> bool {
    &&& forall|k: int, i: int| 0 <= k < p.functions@.len() && 0 <= i < p.functions@[k].1.statements@.len()
        ==> flat_stmt(#[trigger] p.functions@[k].1.statements@[i])
    &&& forall|k: int, j: int| 0 <= k < p.automata@.len() && 0 <= j < p.automata@[k].1.states@.len()
        ==> state_is_flat(#[trigger] p.automata@[k].1.states@[j].1)
}

/// A flattened program has no nested expression left: whatever the names taken, every
/// statement of its functions and states is flat and every condition a variable.
pub proof fn lemma_flattened_program_is_flat(p0: Program, n0: nat, p1: Program)
    requires
        prog_flat_rel(p0, n0, p1),
    ensures
        prog_is_flat(p1),
{
    let nf = fns_count(p0.functions@, p0.functions@.len() as int);
    assert forall|k: int, i: int| 0 <= k < p1.functions@.len() && 0 <= i < p1.functions@[k].1.statements@.len()
        implies flat_stmt(#[trigger] p1.functions@[k].1.statements@[i]) by {
        let f = p0.functions@[k].1;
        assert(fn_flat_rel(f, n0 + fns_count(p0.functions@, k), p1.functions@[k].1));
        lemma_flat_block_is_flat(f.statements@, f.statements@.len() as int, n0 + fns_count(p0.functions@, k), p1.functions@[k].1.statements@);
    }
    assert forall|k: int, j: int| 0 <= k < p1.automata@.len() && 0 <= j < p1.automata@[k].1.states@.len()
        implies state_is_flat(#[trigger] p1.automata@[k].1.states@[j].1) by {
        let a = p0.automata@[k].1;
        let n = n0 + nf + autos_count(p0.automata@, k);
        assert(auto_flat_rel(a, n, p1.automata@[k].1));
        assert(p1.automata@[k].1.states@[j].0 == a.states@[j].0);
        lemma_flat_state(a.states@[j].1, n + states_count(a.states@, j), p1.automata@[k].1.states@[j].1);
    }
}


/// A number of names, when it fits in a `usize`.
pub open spec fn fits(n: nat) -> Option<usize> {
    if n <= usize::MAX {
        Some(n as usize)
    } else {
        None
    }
}

/// What flattening a part of a program would meet: its first error, whether it comes to an
/// end, and how many names it takes, when that fits in a `usize`.
struct FlatInfo {
    err: Option<FlattenError>,
    ends: bool,
    count: Option<usize>,
}

/// The sum of two numbers of names.
fn add_counts(a: Option<usize>, b: Option<usize>, Ghost(x): Ghost<nat>, Ghost(y): Ghost<nat>) -> (r: Option<usize>)
    requires
        a == fits(x),
        b == fits(y),
    ensures
        r == fits(x + y),
{
    match (a, b) {
        (Some(u), Some(v)) => u.checked_add(v),
        _ => None,
    }
}

/// The first of two optional errors.
fn first_err(a: Option<FlattenError>, b: Option<FlattenError>) -> (r: Option<FlattenError>)
    ensures
        r == first_of(a, b),
{
    if a.is_some() {
        a
    } else {
        b
    }
}

/// What flattening `e` in the register form `m` would meet; see `flat_err`, `flat_ends` and
/// `flat_count`.
fn expr_info(e: &Expr, m: Option<(Pos, &Loc<Const>)>) -> (r: FlatInfo)
    ensures
        r.err == flat_err(*e, mode_view(m)),
        r.ends == flat_ends(*e, mode_view(m)),
        r.count == fits(flat_count(*e, mode_view(m))),
    decreases e, 1int,
{
    let ghost mv = mode_view(m);
    match e {
        Expr::Const(_) => FlatInfo { err: None, ends: true, count: Some(0) },
        Expr::Var(_) => FlatInfo { err: None, ends: true, count: if m.is_some() { Some(1) } else { Some(0) } },
        Expr::Last(_) => FlatInfo { err: None, ends: m.is_none(), count: Some(1) },
        Expr::Not(x) => {
            let i = expr_info(x, m);
            FlatInfo { err: i.err, ends: i.ends, count: add_counts(i.count, Some(1), Ghost(flat_count(**x, mv)), Ghost(1)) }
        },
        Expr::Slice(x, _, _) => {
            let i = expr_info(&x.value, m);
            FlatInfo { err: i.err, ends: i.ends, count: add_counts(i.count, Some(1), Ghost(flat_count(x.value, mv)), Ghost(1)) }
        },
        Expr::BiOp(_, a, b) => {
            let ia = expr_info(&a.value, m);
            let ib = expr_info(&b.value, m);
            let c = add_counts(ia.count, ib.count, Ghost(flat_count(a.value, mv)), Ghost(flat_count(b.value, mv)));
            FlatInfo {
                err: first_err(ia.err, ib.err),
                ends: ia.ends && (ia.err.is_some() || ib.ends),
                count: add_counts(c, Some(1), Ghost(flat_count(a.value, mv) + flat_count(b.value, mv)), Ghost(1)),
            }
        },
        Expr::Mux(a, b, c) => {
            let ia = expr_info(&a.value, m);
            let ib = expr_info(&b.value, m);
            let ic = expr_info(&c.value, m);
            let n1 = add_counts(ia.count, ib.count, Ghost(flat_count(a.value, mv)), Ghost(flat_count(b.value, mv)));
            let n2 = add_counts(n1, ic.count, Ghost(flat_count(a.value, mv) + flat_count(b.value, mv)), Ghost(flat_count(c.value, mv)));
            FlatInfo {
                err: first_err(ia.err, first_err(ib.err, ic.err)),
                ends: ia.ends && (ia.err.is_some() || (ib.ends && (ib.err.is_some() || ic.ends))),
                count: add_counts(
                    n2,
                    Some(1),
                    Ghost(flat_count(a.value, mv) + flat_count(b.value, mv) + flat_count(c.value, mv)),
                    Ghost(1),
                ),
            }
        },
        Expr::Reg(c, x) => {
            if matches!(x.value, Expr::Var(_)) {
                FlatInfo { err: None, ends: true, count: Some(1) }
            } else {
                let ri = regify_check(&x.value, x.loc);
                let xi = expr_info(&x.value, Some((x.loc, c)));
                FlatInfo { err: first_err(ri, xi.err), ends: ri.is_some() || xi.ends, count: xi.count }
            }
        },
        Expr::Ram(r) => {
            let i1 = expr_info(&r.read_addr.value, m);
            let i2 = expr_info(&r.write_enable.value, m);
            let i3 = expr_info(&r.write_addr.value, m);
            let i4 = expr_info(&r.write_data.value, m);
            let ghost c1 = flat_count(r.read_addr.value, mv);
            let ghost c2 = flat_count(r.write_enable.value, mv);
            let ghost c3 = flat_count(r.write_addr.value, mv);
            let ghost c4 = flat_count(r.write_data.value, mv);
            let n1 = add_counts(i1.count, i2.count, Ghost(c1), Ghost(c2));
            let n2 = add_counts(n1, i3.count, Ghost(c1 + c2), Ghost(c3));
            let n3 = add_counts(n2, i4.count, Ghost(c1 + c2 + c3), Ghost(c4));
            FlatInfo {
                err: first_err(i1.err, first_err(i2.err, first_err(i3.err, i4.err))),
                ends: i1.ends && (i1.err.is_some() || (i2.ends && (i2.err.is_some() || (i3.ends && (i3.err.is_some()
                    || i4.ends))))),
                count: add_counts(n3, Some(1), Ghost(c1 + c2 + c3 + c4), Ghost(1)),
            }
        },
        Expr::Rom(r) => {
            let i = expr_info(&r.read_addr.value, m);
            FlatInfo {
                err: i.err,
                ends: i.ends,
                count: add_counts(i.count, Some(1), Ghost(flat_count(r.read_addr.value, mv)), Ghost(1)),
            }
        },
        Expr::FnCall(f) => {
            let i = args_info(&f.args.value, m);
            FlatInfo {
                err: i.err,
                ends: i.ends,
                count: add_counts(
                    i.count,
                    Some(1),
                    Ghost(args_count(f.args.value@, f.args.value@.len() as int, mv)),
                    Ghost(1),
                ),
            }
        },
    }
}

/// What flattening a list of expressions would meet; see `args_err`, `args_ends` and
/// `args_count`.
fn args_info(args: &Vec<Loc<Expr>>, m: Option<(Pos, &Loc<Const>)>) -> (r: FlatInfo)
    ensures
        r.err == args_err(args@, args@.len() as int, mode_view(m)),
        r.ends == args_ends(args@, args@.len() as int, mode_view(m)),
        r.count == fits(args_count(args@, args@.len() as int, mode_view(m))),
    decreases args, 0int,
{
    let ghost s0 = args@;
    let ghost mv = mode_view(m);
    let mut r = FlatInfo { err: None, ends: true, count: Some(0) };
    let mut i: usize = 0;
    while i < args.len()
        invariant
            s0 == args@,
            mv == mode_view(m),
            i <= args@.len(),
            r.err == args_err(s0, i as int, mv),
            r.ends == args_ends(s0, i as int, mv),
            r.count == fits(args_count(s0, i as int, mv)),
        decreases args@.len() - i,
    {
        proof {
            assert(decreases_to!(s0 => s0[i as int].value));
        }
        let x = expr_info(&args[i].value, m);
        r = FlatInfo {
            err: first_err(r.err, x.err),
            ends: r.ends && (r.err.is_some() || x.ends),
            count: add_counts(r.count, x.count, Ghost(args_count(s0, i as int, mv)), Ghost(flat_count(s0[i as int].value, mv))),
        };
        i = i + 1;
    }
    r
}

/// What flattening a list of assignments would meet.
fn assigns_info(v: &Vec<VarAssign>) -> (r: FlatInfo)
    ensures
        r.err == assigns_err(v@, v@.len() as int),
        r.ends == assigns_ends(v@, v@.len() as int),
        r.count == fits(assigns_count(v@, v@.len() as int)),
{
    let mut r = FlatInfo { err: None, ends: true, count: Some(0) };
    let mut i: usize = 0;
    while i < v.len()
        invariant
            i <= v@.len(),
            r.err == assigns_err(v@, i as int),
            r.ends == assigns_ends(v@, i as int),
            r.count == fits(assigns_count(v@, i as int)),
        decreases v@.len() - i,
    {
        let x = expr_info(&v[i].expr.value, None);
        r = FlatInfo {
            err: first_err(r.err, x.err),
            ends: r.ends && (r.err.is_some() || x.ends),
            count: add_counts(r.count, x.count, Ghost(assigns_count(v@, i as int)), Ghost(flat_count(v@[i as int].expr.value, None))),
        };
        i = i + 1;
    }
    r
}

/// What flattening a statement would meet; see `stmt_err`, `stmt_ends` and `stmt_count`.
fn stmt_info(st: &Statement) -> (r: FlatInfo)
    ensures
        r.err == stmt_err(*st),
        r.ends == stmt_ends(*st),
        r.count == fits(stmt_count(*st)),
    decreases st, 1int,
{
    match st {
        Statement::Assign(v) => assigns_info(v),
        Statement::If(i) => {
            let a = block_info(&i.if_block);
            let b = block_info(&i.else_block);
            FlatInfo {
                err: first_err(a.err, b.err),
                ends: a.ends && (a.err.is_some() || b.ends),
                count: add_counts(
                    a.count,
                    b.count,
                    Ghost(block_count(i.if_block@, i.if_block@.len() as int)),
                    Ghost(block_count(i.else_block@, i.else_block@.len() as int)),
                ),
            }
        },
        Statement::FnAssign(fa) => args_info(&fa.f.args.value, None),
        Statement::ExtAutomaton(_) => FlatInfo { err: None, ends: false, count: Some(0) },
    }
}

/// What flattening a list of statements would meet.
fn block_info(b: &Vec<Statement>) -> (r: FlatInfo)
    ensures
        r.err == block_err(b@, b@.len() as int),
        r.ends == block_ends(b@, b@.len() as int),
        r.count == fits(block_count(b@, b@.len() as int)),
    decreases b, 0int,
{
    let ghost s0 = b@;
    let mut r = FlatInfo { err: None, ends: true, count: Some(0) };
    let mut i: usize = 0;
    while i < b.len()
        invariant
            s0 == b@,
            i <= b@.len(),
            r.err == block_err(s0, i as int),
            r.ends == block_ends(s0, i as int),
            r.count == fits(block_count(s0, i as int)),
        decreases b@.len() - i,
    {
        proof {
            assert(decreases_to!(s0 => s0[i as int]));
        }
        let x = stmt_info(&b[i]);
        r = FlatInfo {
            err: first_err(r.err, x.err),
            ends: r.ends && (r.err.is_some() || x.ends),
            count: add_counts(r.count, x.count, Ghost(block_count(s0, i as int)), Ghost(stmt_count(s0[i as int]))),
        };
        i = i + 1;
    }
    r
}

/// What flattening the transitions of a state would meet.
fn trs_info(ts: &Vec<Transition>) -> (r: FlatInfo)
    ensures
        r.err == trs_err(ts@, ts@.len() as int),
        r.ends == trs_ends(ts@, ts@.len() as int),
        r.count == fits(trs_count(ts@, ts@.len() as int)),
{
    let mut r = FlatInfo { err: None, ends: true, count: Some(0) };
    let mut i: usize = 0;
    while i < ts.len()
        invariant
            i <= ts@.len(),
            r.err == trs_err(ts@, i as int),
            r.ends == trs_ends(ts@, i as int),
            r.count == fits(trs_count(ts@, i as int)),
        decreases ts@.len() - i,
    {
        let x = match &ts[i].condition.value {
            TrCond::Expr(Expr::Var(_)) => FlatInfo { err: None, ends: true, count: Some(0) },
            TrCond::Expr(e) => {
                let y = expr_info(e, None);
                FlatInfo { err: y.err, ends: y.ends, count: add_counts(y.count, Some(1), Ghost(flat_count(*e, None)), Ghost(1)) }
            },
            TrCond::Default => FlatInfo { err: None, ends: false, count: Some(0) },
        };
        r = FlatInfo {
            err: first_err(r.err, x.err),
            ends: r.ends && (r.err.is_some() || x.ends),
            count: add_counts(r.count, x.count, Ghost(trs_count(ts@, i as int)), Ghost(tr_count(ts@[i as int]))),
        };
        i = i + 1;
    }
    r
}

/// What flattening the states of an automaton would meet.
fn states_info(ss: &Table<State>) -> (r: FlatInfo)
    ensures
        r.err == states_err(ss@, ss@.len() as int),
        r.ends == states_ends(ss@, ss@.len() as int),
        r.count == fits(states_count(ss@, ss@.len() as int)),
{
    let mut r = FlatInfo { err: None, ends: true, count: Some(0) };
    let mut i: usize = 0;
    while i < ss.len()
        invariant
            i <= ss@.len(),
            r.err == states_err(ss@, i as int),
            r.ends == states_ends(ss@, i as int),
            r.count == fits(states_count(ss@, i as int)),
        decreases ss@.len() - i,
    {
        let st = &ss[i].1;
        let a = block_info(&st.statements);
        let b = trs_info(&st.transitions);
        let x = FlatInfo {
            err: first_err(a.err, b.err),
            ends: a.ends && (a.err.is_some() || b.ends),
            count: add_counts(
                a.count,
                b.count,
                Ghost(block_count(st.statements@, st.statements@.len() as int)),
                Ghost(trs_count(st.transitions@, st.transitions@.len() as int)),
            ),
        };
        r = FlatInfo {
            err: first_err(r.err, x.err),
            ends: r.ends && (r.err.is_some() || x.ends),
            count: add_counts(r.count, x.count, Ghost(states_count(ss@, i as int)), Ghost(state_flat_count(ss@[i as int].1))),
        };
        i = i + 1;
    }
    r
}

/// Whether flattening the program `p` with names taken from `counter` on comes to an end
/// without running out of names: what `flatten` needs of its arguments.
pub fn flatten_ready(p: &Program, counter: usize) -> (r: bool)
    ensures
        r == (prog_flat_ends(*p) && counter + prog_flat_count(*p) <= usize::MAX),
{
    let mut f = FlatInfo { err: None, ends: true, count: Some(0) };
    let mut i: usize = 0;
    while i < p.functions.len()
        invariant
            i <= p.functions@.len(),
            f.err == fns_err(p.functions@, i as int),
            f.ends == fns_ends(p.functions@, i as int),
            f.count == fits(fns_count(p.functions@, i as int)),
        decreases p.functions@.len() - i,
    {
        let x = block_info(&p.functions[i].1.statements);
        let ghost fi = p.functions@[i as int].1;
        f = FlatInfo {
            err: first_err(f.err, x.err),
            ends: f.ends && (f.err.is_some() || x.ends),
            count: add_counts(f.count, x.count, Ghost(fns_count(p.functions@, i as int)), Ghost(block_count(fi.statements@, fi.statements@.len() as int))),
        };
        i = i + 1;
    }
    let mut a = FlatInfo { err: None, ends: true, count: Some(0) };
    let mut i: usize = 0;
    while i < p.automata.len()
        invariant
            i <= p.automata@.len(),
            a.err == autos_err(p.automata@, i as int),
            a.ends == autos_ends(p.automata@, i as int),
            a.count == fits(autos_count(p.automata@, i as int)),
        decreases p.automata@.len() - i,
    {
        let x = states_info(&p.automata[i].1.states);
        let ghost ai = p.automata@[i as int].1;
        a = FlatInfo {
            err: first_err(a.err, x.err),
            ends: a.ends && (a.err.is_some() || x.ends),
            count: add_counts(a.count, x.count, Ghost(autos_count(p.automata@, i as int)), Ghost(states_count(ai.states@, ai.states@.len() as int))),
        };
        i = i + 1;
    }
    let ends = f.ends && (f.err.is_some() || a.ends);
    let total = add_counts(
        f.count,
        a.count,
        Ghost(fns_count(p.functions@, p.functions@.len() as int)),
        Ghost(autos_count(p.automata@, p.automata@.len() as int)),
    );
    let all = add_counts(Some(counter), total, Ghost(counter as nat), Ghost(prog_flat_count(*p)));
    ends && all.is_some()
}
} // verus!
