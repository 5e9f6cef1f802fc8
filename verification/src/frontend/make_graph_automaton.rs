//! Building the automaton graph from the typed program.
//!
//! Each state becomes a set of expression DAGs: one per shared variable it writes, and one
//! per transition condition. A DAG points from an operation to its operands; the local
//! variables of the state are inlined, and the shared variables become inputs. States and
//! shared variables are numbered: the inputs first, then one variable per state (whether the
//! state runs), then the shared variables. Inside a register, a register stands for its own
//! previous value.
use vstd::prelude::*;
use std::rc::Rc;

use crate::ast::graph_automaton::{ExprNode, ExprOperation, ProgramGraph, ProgramState};
use crate::ast::typed_ast::{Arg, Expr, ExprTerm, ExprTermType, ExprType, Program, State, Var};
use crate::ast::BiOp;
use crate::interpreters::low_level_interpreter::{copy_bits, zeros, zeros_vec};
use crate::util::tables::{string_eq_str, strings_contain};

verus! {

/// An operation of an expression DAG, with its constants taken by value.
pub enum ExprOpV {
    Input(usize),
    Const(Seq<bool>),
    Not(Box<ExprNodeV>),
    Slice(Box<ExprNodeV>, usize, usize),
    BiOp(BiOp, Box<ExprNodeV>, Box<ExprNodeV>),
    Mux(Box<ExprNodeV>, Box<ExprNodeV>, Box<ExprNodeV>),
    Reg(usize, Option<Box<ExprNodeV>>),
    Ram(Box<ExprNodeV>, Box<ExprNodeV>, Box<ExprNodeV>, Box<ExprNodeV>),
    Rom(usize, Box<ExprNodeV>),
    Last(usize),
}

/// A node of an expression DAG, taken by value: the DAG unfolded into a tree.
pub struct ExprNodeV {
    pub id: Option<usize>,
    pub op: ExprOpV,
}

/// The value of a node of an expression DAG.
pub open spec fn node_of(n: ExprNode) -> ExprNodeV
    decreases n,
{
    ExprNodeV {
        id: n.id,
        op: match n.op {
            ExprOperation::Input(i) => ExprOpV::Input(i),
            ExprOperation::Const(c) => ExprOpV::Const(c@),
            ExprOperation::Not(a) => ExprOpV::Not(Box::new(node_of(*a))),
            ExprOperation::Slice(a, i, j) => ExprOpV::Slice(Box::new(node_of(*a)), i, j),
            ExprOperation::BiOp(op, a, b) => ExprOpV::BiOp(
                op,
                Box::new(node_of(*a)),
                Box::new(node_of(*b)),
            ),
            ExprOperation::Mux(a, b, c) => ExprOpV::Mux(
                Box::new(node_of(*a)),
                Box::new(node_of(*b)),
                Box::new(node_of(*c)),
            ),
            ExprOperation::Reg(s, a) => ExprOpV::Reg(
                s,
                match a {
                    Some(x) => Some(Box::new(node_of(*x))),
                    None => None,
                },
            ),
            ExprOperation::Ram(a, b, c, d) => ExprOpV::Ram(
                Box::new(node_of(*a)),
                Box::new(node_of(*b)),
                Box::new(node_of(*c)),
                Box::new(node_of(*d)),
            ),
            ExprOperation::Rom(s, a) => ExprOpV::Rom(s, Box::new(node_of(*a))),
            ExprOperation::Last(i) => ExprOpV::Last(i),
        },
    }
}

/// A variable as a key: whether it is local, and its name.
pub open spec fn var_key(v: Var) -> (bool, Seq<char>) {
    match v {
        Var::Local(s) => (true, s@),
        Var::Shared(s) => (false, s@),
    }
}

/// The index of the last of the first `j` names equal to `s`; later names shadow earlier ones.
pub open spec fn last_index(names: Seq<String>, s: Seq<char>, j: int) -> Option<int>
    decreases j,
{
    if j <= 0 || j > names.len() {
        None
    } else if names[j - 1]@ == s {
        Some(j - 1)
    } else {
        last_index(names, s, j - 1)
    }
}

/// The number given to the name `s` by the list `names`.
pub open spec fn lookup(names: Seq<String>, s: Seq<char>) -> Option<int> {
    last_index(names, s, names.len() as int)
}

/// The expression defining the variable `k`, from index `j` on: the first statement for it.
pub open spec fn stmt_of(stmts: Seq<(Var, Expr)>, k: (bool, Seq<char>), j: int) -> Option<Expr>
    decreases stmts.len() - j,
{
    if j < 0 || j >= stmts.len() {
        None
    } else if var_key(stmts[j].0) == k {
        Some(stmts[j].1)
    } else {
        stmt_of(stmts, k, j + 1)
    }
}

/// The local variables defined by the first `j` statements, in order.
pub open spec fn local_names(stmts: Seq<(Var, Expr)>, j: int) -> Seq<String>
    decreases j,
{
    if j <= 0 || j > stmts.len() {
        Seq::empty()
    } else {
        let r = local_names(stmts, j - 1);
        match stmts[j - 1].0 {
            Var::Local(s) => r.push(s),
            _ => r,
        }
    }
}

/// The number of different names among the first `j` of `names`.
pub open spec fn distinct_count(names: Seq<String>, j: int) -> nat
    decreases j,
{
    if j <= 0 || j > names.len() {
        0
    } else {
        distinct_count(names, j - 1) + if last_index(names, names[j - 1]@, j - 1) is Some {
            0nat
        } else {
            1nat
        }
    }
}

/// What a state's DAGs are built from: its statements, the numbering of the shared
/// variables, and the numbering of its local variables.
pub struct Ctx {
    pub stmts: Seq<(Var, Expr)>,
    pub shared: Seq<String>,
    pub locals: Seq<String>,
}

/// What a walk carries: the DAGs already built for local variables, when they are kept
/// (for transitions), and the shared variables read so far, when they are recorded (outside
/// registers and transitions).
pub type Walk = (Option<Seq<Option<ExprNodeV>>>, Option<Seq<usize>>);

/// The walk with the DAG `n` kept for the local variable `var_id`.
pub open spec fn remember_node(w: Walk, var_id: Option<usize>, n: ExprNodeV) -> Walk {
    match (w.0, var_id) {
        (Some(m), Some(id)) => if id < m.len() {
            (Some(m.update(id as int, Some(n))), w.1)
        } else {
            w
        },
        _ => w,
    }
}

/// The walk with the shared variable `id` recorded as read.
pub open spec fn record_input(w: Walk, id: usize) -> Walk {
    match w.1 {
        Some(l) => if l.contains(id) {
            w
        } else {
            (w.0, Some(l.push(id)))
        },
        None => w,
    }
}

/// The DAG of the expression `e`, named `var_id` when it defines a local variable, and the
/// walk after it; `None` where a name is unknown or the walk goes deeper than `fuel`.
/// A variable term is the DAG of the variable; a DAG kept for `var_id` is reused.
pub open spec fn e2s(c: Ctx, var_id: Option<usize>, e: Expr, w: Walk, fuel: nat) -> Option<
    (ExprNodeV, Walk),
>
    decreases fuel, 0int,
{
    if fuel == 0 {
        None
    } else if var_id is Some && w.0 is Some && var_id->Some_0 < w.0->Some_0.len() && w.0->Some_0[var_id->Some_0 as int] is Some {
        Some((w.0->Some_0[var_id->Some_0 as int]->Some_0, w))
    } else if e.value is Term && e.value->Term_0.value is Var {
        v2s(c, var_id, e.value->Term_0.value->Var_0, w, (fuel - 1) as nat)
    } else {
        match op_of(c, e, w, (fuel - 1) as nat) {
            None => None,
            Some((op, w1)) => {
                let n = ExprNodeV { id: var_id, op };
                Some((n, remember_node(w1, var_id, n)))
            },
        }
    }
}

/// The DAG of a variable: a shared variable is an input (recorded as read), a local variable
/// is the DAG of its definition, named after it unless a name is already given.
pub open spec fn v2s(c: Ctx, var_id: Option<usize>, v: Var, w: Walk, fuel: nat) -> Option<
    (ExprNodeV, Walk),
>
    decreases fuel, 0int,
{
    if fuel == 0 {
        None
    } else {
        match v {
            Var::Local(s) => match lookup(c.locals, s@) {
                None => None,
                Some(id) => match stmt_of(c.stmts, (true, s@), 0) {
                    None => None,
                    Some(e) => e2s(
                        c,
                        if var_id is Some {
                            var_id
                        } else {
                            Some(id as usize)
                        },
                        e,
                        w,
                        (fuel - 1) as nat,
                    ),
                },
            },
            Var::Shared(s) => match lookup(c.shared, s@) {
                None => None,
                Some(id) => Some(
                    (
                        ExprNodeV { id: None, op: ExprOpV::Input(id as usize) },
                        record_input(w, id as usize),
                    ),
                ),
            },
        }
    }
}

/// The DAG of an operand: a variable's, or an unnamed constant.
pub open spec fn term_of(c: Ctx, t: ExprTerm, w: Walk, f: nat) -> Option<(ExprNodeV, Walk)>
    decreases f, 1int,
{
    match t.value {
        ExprTermType::Var(v) => v2s(c, None, v, w, f),
        ExprTermType::Const(v) => Some((ExprNodeV { id: None, op: ExprOpV::Const(v@) }, w)),
    }
}

/// The bits of a constant, each flipped.
pub open spec fn flipped(v: Seq<bool>) -> Seq<bool> {
    Seq::new(v.len(), |i: int| !v[i])
}

/// The bits `i1` (included) to `i2` (excluded) of a constant, as far as it has them.
pub open spec fn slice_bits(v: Seq<bool>, i1: usize, i2: usize) -> Seq<bool> {
    let lo = if i1 <= v.len() { i1 as int } else { v.len() as int };
    let hi = if i2 < lo { lo } else if i2 > v.len() { v.len() as int } else { i2 as int };
    v.subrange(lo, hi)
}

/// The operation of an expression other than a variable term. A `not` of a constant is the
/// flipped constant, a slice of a constant its bits `i1..i2`, and a register of a constant
/// a register reading that constant.
pub open spec fn op_of(c: Ctx, e: Expr, w: Walk, f: nat) -> Option<(ExprOpV, Walk)>
    decreases f, 2int,
{
    match e.value {
        ExprType::Term(t) => match t.value {
            ExprTermType::Const(v) => Some((ExprOpV::Const(v@), w)),
            ExprTermType::Var(_) => None,
        },
        ExprType::Not(t) => match t.value {
            ExprTermType::Var(v) => match v2s(c, None, v, w, f) {
                None => None,
                Some((n, w1)) => Some((ExprOpV::Not(Box::new(n)), w1)),
            },
            ExprTermType::Const(v) => Some((ExprOpV::Const(flipped(v@)), w)),
        },
        ExprType::Slice(t, i1, i2) => match t.value {
            ExprTermType::Var(v) => match v2s(c, None, v, w, f) {
                None => None,
                Some((n, w1)) => Some((ExprOpV::Slice(Box::new(n), i1, i2), w1)),
            },
            ExprTermType::Const(v) => Some((ExprOpV::Const(slice_bits(v@, i1, i2)), w)),
        },
        ExprType::BiOp(op, t1, t2) => match term_of(c, t1, w, f) {
            None => None,
            Some((n1, w1)) => match term_of(c, t2, w1, f) {
                None => None,
                Some((n2, w2)) => Some((ExprOpV::BiOp(op, Box::new(n1), Box::new(n2)), w2)),
            },
        },
        ExprType::Mux(t1, t2, t3) => match term_of(c, t1, w, f) {
            None => None,
            Some((n1, w1)) => match term_of(c, t2, w1, f) {
                None => None,
                Some((n2, w2)) => match term_of(c, t3, w2, f) {
                    None => None,
                    Some((n3, w3)) => Some(
                        (ExprOpV::Mux(Box::new(n1), Box::new(n2), Box::new(n3)), w3),
                    ),
                },
            },
        },
        ExprType::Reg(t) => match t.value {
            ExprTermType::Var(v) => if w.1 is None {
                Some((ExprOpV::Reg(t.size, None), w))
            } else {
                match v2s(c, None, v, (w.0, None), f) {
                    None => None,
                    Some((n, w1)) => Some((ExprOpV::Reg(t.size, Some(Box::new(n))), (w1.0, w.1))),
                }
            },
            ExprTermType::Const(v) => Some(
                (ExprOpV::Reg(t.size, Some(Box::new(ExprNodeV { id: None, op: ExprOpV::Const(v@) }))), w),
            ),
        },
        ExprType::Ram(r) => match term_of(c, r.read_addr, w, f) {
            None => None,
            Some((n1, w1)) => match term_of(c, r.write_enable, w1, f) {
                None => None,
                Some((n2, w2)) => match term_of(c, r.write_addr, w2, f) {
                    None => None,
                    Some((n3, w3)) => match term_of(c, r.write_data, w3, f) {
                        None => None,
                        Some((n4, w4)) => Some(
                            (
                                ExprOpV::Ram(
                                    Box::new(n1),
                                    Box::new(n2),
                                    Box::new(n3),
                                    Box::new(n4),
                                ),
                                w4,
                            ),
                        ),
                    },
                },
            },
        },
        ExprType::Rom(t) => match term_of(c, t, w, f) {
            None => None,
            Some((n, w1)) => Some((ExprOpV::Rom(t.size, Box::new(n)), w1)),
        },
        ExprType::Last(s) => match lookup(c.shared, s@) {
            None => None,
            Some(i) => Some((ExprOpV::Last(i as usize), w)),
        },
    }
}



/// The DAGs kept for local variables, taken by value.
pub open spec fn memo_view(m: Seq<Option<Rc<ExprNode>>>) -> Seq<Option<ExprNodeV>> {
    m.map_values(
        |o: Option<Rc<ExprNode>>|
            match o {
                Some(x) => Some(node_of(*x)),
                None => None,
            },
    )
}

/// The walk that the exec state stands for.
pub open spec fn walk_view(memo: Seq<Option<Rc<ExprNode>>>, keep: bool, ins: Seq<usize>, track: bool) -> Walk {
    (
        if keep {
            Some(memo_view(memo))
        } else {
            None
        },
        if track {
            Some(ins)
        } else {
            None
        },
    )
}

/// The context that the exec tables stand for.
pub open spec fn ctx_of(stmts: Seq<(Var, Expr)>, shared: Seq<String>, locals: Seq<String>) -> Ctx {
    Ctx { stmts, shared, locals }
}

/// The operation of a node, taken by value.
pub open spec fn op_view(op: ExprOperation) -> ExprOpV {
    node_of(ExprNode { id: None, op }).op
}

/// `r` and the final exec state are the outcome `o` of a walk.
pub open spec fn walked(
    o: Option<(ExprNodeV, Walk)>,
    r: Option<Rc<ExprNode>>,
    memo: Seq<Option<Rc<ExprNode>>>,
    keep: bool,
    ins: Seq<usize>,
    track: bool,
) -> bool {
    match o {
        None => r is None,
        Some((n, w)) => r matches Some(x) && node_of(*x) == n && walk_view(memo, keep, ins, track) == w,
    }
}

/// The position of the last of the first `bound` names equal to `s`.
fn find_last_in(names: &Vec<String>, s: &String, bound: usize) -> (r: Option<usize>)
    requires
        bound <= names@.len(),
    ensures
        match last_index(names@, s@, bound as int) {
            Some(i) => r == Some(i as usize),
            None => r is None,
        },
{
    let mut j = bound;
    while j > 0
        invariant
            j <= bound <= names@.len(),
            last_index(names@, s@, bound as int) == last_index(names@, s@, j as int),
        decreases j,
    {
        if string_eq_str(&names[j - 1], s.as_str()) {
            return Some(j - 1);
        }
        j = j - 1;
    }
    None
}

/// The position of the last of `names` equal to `s`.
fn find_last(names: &Vec<String>, s: &String) -> (r: Option<usize>)
    ensures
        match lookup(names@, s@) {
            Some(i) => r == Some(i as usize),
            None => r is None,
        },
{
    find_last_in(names, s, names.len())
}

/// The position of the first statement defining the variable named `s`, local or shared.
fn find_stmt(stmts: &Vec<(Var, Expr)>, local: bool, s: &String) -> (r: Option<usize>)
    ensures
        match stmt_of(stmts@, (local, s@), 0) {
            Some(e) => r matches Some(k) && k < stmts@.len() && stmts@[k as int].1 == e,
            None => r is None,
        },
{
    let mut j: usize = 0;
    while j < stmts.len()
        invariant
            j <= stmts@.len(),
            stmt_of(stmts@, (local, s@), 0) == stmt_of(stmts@, (local, s@), j as int),
        decreases stmts@.len() - j,
    {
        let hit = match &stmts[j].0 {
            Var::Local(n) => local && string_eq_str(n, s.as_str()),
            Var::Shared(n) => !local && string_eq_str(n, s.as_str()),
        };
        if hit {
            return Some(j);
        }
        j = j + 1;
    }
    None
}

/// Whether `x` is in `v`.
fn contains_id(v: &Vec<usize>, x: usize) -> (r: bool)
    ensures
        r == v@.contains(x),
{
    let mut j: usize = 0;
    while j < v.len()
        invariant
            j <= v@.len(),
            forall|k: int| 0 <= k < j ==> v@[k] != x,
        decreases v@.len() - j,
    {
        if v[j] == x {
            return true;
        }
        j = j + 1;
    }
    false
}

/// The bits `i1..i2` of a constant; see `slice_bits`.
fn slice_of_bits(v: &Vec<bool>, i1: usize, i2: usize) -> (r: Vec<bool>)
    ensures
        r@ == slice_bits(v@, i1, i2),
{
    let lo = if i1 <= v.len() { i1 } else { v.len() };
    let hi = if i2 < lo { lo } else if i2 > v.len() { v.len() } else { i2 };
    let mut r: Vec<bool> = Vec::new();
    let mut j: usize = lo;
    while j < hi
        invariant
            lo <= j <= hi,
            hi <= v@.len(),
            r@ == v@.subrange(lo as int, j as int),
        decreases hi - j,
    {
        r.push(v[j]);
        j = j + 1;
        assert(r@ =~= v@.subrange(lo as int, j as int));
    }
    r
}

/// The bits of a constant, each flipped.
fn flip_bits(v: &Vec<bool>) -> (r: Vec<bool>)
    ensures
        r@ == flipped(v@),
{
    let mut r: Vec<bool> = Vec::new();
    let mut j: usize = 0;
    while j < v.len()
        invariant
            j <= v@.len(),
            r@.len() == j,
            forall|k: int| 0 <= k < j ==> r@[k] == !v@[k],
        decreases v@.len() - j,
    {
        r.push(!v[j]);
        j = j + 1;
    }
    assert(r@ =~= flipped(v@));
    r
}

/// A node with no name computing `op`.
fn unnamed(op: ExprOperation) -> (r: Rc<ExprNode>)
    ensures
        node_of(*r) == (ExprNodeV { id: None, op: op_view(op) }),
{
    Rc::new(ExprNode { id: None, op })
}

/// The DAG of a variable; see `v2s`.
fn var_to_state(
    var_id: Option<usize>,
    stmts: &Vec<(Var, Expr)>,
    shared: &Vec<String>,
    locals: &Vec<String>,
    v: &Var,
    memo: &mut Vec<Option<Rc<ExprNode>>>,
    keep: bool,
    ins: &mut Vec<usize>,
    track: bool,
    fuel: usize,
) -> (r: Option<Rc<ExprNode>>)
    ensures
        walked(
            v2s(ctx_of(stmts@, shared@, locals@), var_id, *v, walk_view(old(memo)@, keep, old(ins)@, track), fuel as nat),
            r,
            final(memo)@,
            keep,
            final(ins)@,
            track,
        ),
        !keep ==> final(memo)@ == old(memo)@,
        !track ==> final(ins)@ == old(ins)@,
        final(memo)@.len() == old(memo)@.len(),
    decreases fuel, 0int,
{
    if fuel == 0 {
        return None;
    }
    match v {
        Var::Local(s) => {
            let id = match find_last(locals, s) {
                None => {
                    return None;
                },
                Some(i) => i,
            };
            let k = match find_stmt(stmts, true, s) {
                None => {
                    return None;
                },
                Some(k) => k,
            };
            let vid = if var_id.is_some() {
                var_id
            } else {
                Some(id)
            };
            expr_to_state(vid, stmts, shared, locals, &stmts[k].1, memo, keep, ins, track, fuel - 1)
        },
        Var::Shared(s) => {
            let id = match find_last(shared, s) {
                None => {
                    return None;
                },
                Some(i) => i,
            };
            if track && !contains_id(ins, id) {
                ins.push(id);
            }
            Some(unnamed(ExprOperation::Input(id)))
        },
    }
}

/// The DAG of an expression; see `e2s`.
fn expr_to_state(
    var_id: Option<usize>,
    stmts: &Vec<(Var, Expr)>,
    shared: &Vec<String>,
    locals: &Vec<String>,
    e: &Expr,
    memo: &mut Vec<Option<Rc<ExprNode>>>,
    keep: bool,
    ins: &mut Vec<usize>,
    track: bool,
    fuel: usize,
) -> (r: Option<Rc<ExprNode>>)
    ensures
        walked(
            e2s(ctx_of(stmts@, shared@, locals@), var_id, *e, walk_view(old(memo)@, keep, old(ins)@, track), fuel as nat),
            r,
            final(memo)@,
            keep,
            final(ins)@,
            track,
        ),
        !keep ==> final(memo)@ == old(memo)@,
        !track ==> final(ins)@ == old(ins)@,
        final(memo)@.len() == old(memo)@.len(),
    decreases fuel, 0int,
{
    if fuel == 0 {
        return None;
    }
    if keep {
        if let Some(id) = var_id {
            if id < memo.len() {
                if let Some(n) = &memo[id] {
                    return Some(n.clone());
                }
            }
        }
    }
    if let ExprType::Term(t) = &e.value {
        if let ExprTermType::Var(v) = &t.value {
            return var_to_state(var_id, stmts, shared, locals, v, memo, keep, ins, track, fuel - 1);
        }
    }
    let op = match op_to_state(stmts, shared, locals, e, memo, keep, ins, track, fuel - 1) {
        None => {
            return None;
        },
        Some(op) => op,
    };
    let node = Rc::new(ExprNode { id: var_id, op });
    if keep {
        if let Some(id) = var_id {
            if id < memo.len() {
                let ghost m0 = memo@;
                memo.set(id, Some(node.clone()));
                assert(memo_view(memo@) =~= memo_view(m0).update(id as int, Some(node_of(*node))));
            }
        }
    }
    Some(node)
}

/// The DAG of an operand; see `term_of`.
fn term_to_state(
    stmts: &Vec<(Var, Expr)>,
    shared: &Vec<String>,
    locals: &Vec<String>,
    t: &ExprTerm,
    memo: &mut Vec<Option<Rc<ExprNode>>>,
    keep: bool,
    ins: &mut Vec<usize>,
    track: bool,
    f: usize,
) -> (r: Option<Rc<ExprNode>>)
    ensures
        walked(
            term_of(ctx_of(stmts@, shared@, locals@), *t, walk_view(old(memo)@, keep, old(ins)@, track), f as nat),
            r,
            final(memo)@,
            keep,
            final(ins)@,
            track,
        ),
        !keep ==> final(memo)@ == old(memo)@,
        !track ==> final(ins)@ == old(ins)@,
        final(memo)@.len() == old(memo)@.len(),
    decreases f, 1int,
{
    match &t.value {
        ExprTermType::Var(v) => var_to_state(None, stmts, shared, locals, v, memo, keep, ins, track, f),
        ExprTermType::Const(c) => Some(unnamed(ExprOperation::Const(copy_bits(c)))),
    }
}


/// `r` and the final exec state are the outcome `o` of building an operation.
pub open spec fn op_walked(
    o: Option<(ExprOpV, Walk)>,
    r: Option<ExprOperation>,
    memo: Seq<Option<Rc<ExprNode>>>,
    keep: bool,
    ins: Seq<usize>,
    track: bool,
) -> bool {
    match o {
        None => r is None,
        Some((op, w)) => r matches Some(x) && op_view(x) == op && walk_view(memo, keep, ins, track) == w,
    }
}

/// The operation of an expression; see `op_of`.
#[verifier::rlimit(40)]
#[verifier::spinoff_prover]
fn op_to_state(
    stmts: &Vec<(Var, Expr)>,
    shared: &Vec<String>,
    locals: &Vec<String>,
    e: &Expr,
    memo: &mut Vec<Option<Rc<ExprNode>>>,
    keep: bool,
    ins: &mut Vec<usize>,
    track: bool,
    f: usize,
) -> (r: Option<ExprOperation>)
    ensures
        op_walked(
            op_of(ctx_of(stmts@, shared@, locals@), *e, walk_view(old(memo)@, keep, old(ins)@, track), f as nat),
            r,
            final(memo)@,
            keep,
            final(ins)@,
            track,
        ),
        !keep ==> final(memo)@ == old(memo)@,
        !track ==> final(ins)@ == old(ins)@,
        final(memo)@.len() == old(memo)@.len(),
    decreases f, 2int,
{
    match &e.value {
        ExprType::Term(t) => match &t.value {
            ExprTermType::Const(c) => Some(ExprOperation::Const(copy_bits(c))),
            ExprTermType::Var(_) => None,
        },
        ExprType::Not(t) => match &t.value {
            ExprTermType::Var(v) => match var_to_state(None, stmts, shared, locals, v, memo, keep, ins, track, f) {
                None => None,
                Some(n) => Some(ExprOperation::Not(n)),
            },
            ExprTermType::Const(c) => Some(ExprOperation::Const(flip_bits(c))),
        },
        ExprType::Slice(t, i1, i2) => match &t.value {
            ExprTermType::Var(v) => match var_to_state(None, stmts, shared, locals, v, memo, keep, ins, track, f) {
                None => None,
                Some(n) => Some(ExprOperation::Slice(n, *i1, *i2)),
            },
            ExprTermType::Const(c) => Some(ExprOperation::Const(slice_of_bits(c, *i1, *i2))),
        },
        ExprType::BiOp(op, t1, t2) => {
            let n1 = match term_to_state(stmts, shared, locals, t1, memo, keep, ins, track, f) {
                None => {
                    return None;
                },
                Some(n) => n,
            };
            let n2 = match term_to_state(stmts, shared, locals, t2, memo, keep, ins, track, f) {
                None => {
                    return None;
                },
                Some(n) => n,
            };
            Some(ExprOperation::BiOp(*op, n1, n2))
        },
        ExprType::Mux(t1, t2, t3) => {
            let n1 = match term_to_state(stmts, shared, locals, t1, memo, keep, ins, track, f) {
                None => {
                    return None;
                },
                Some(n) => n,
            };
            let n2 = match term_to_state(stmts, shared, locals, t2, memo, keep, ins, track, f) {
                None => {
                    return None;
                },
                Some(n) => n,
            };
            let n3 = match term_to_state(stmts, shared, locals, t3, memo, keep, ins, track, f) {
                None => {
                    return None;
                },
                Some(n) => n,
            };
            Some(ExprOperation::Mux(n1, n2, n3))
        },
        ExprType::Reg(t) => match &t.value {
            ExprTermType::Var(v) => if !track {
                Some(ExprOperation::Reg(t.size, None))
            } else {
                match var_to_state(None, stmts, shared, locals, v, memo, keep, ins, false, f) {
                    None => None,
                    Some(n) => Some(ExprOperation::Reg(t.size, Some(n))),
                }
            },
            ExprTermType::Const(c) => Some(ExprOperation::Reg(t.size, Some(unnamed(ExprOperation::Const(copy_bits(c)))))),
        },
        ExprType::Ram(r) => {
            let n1 = match term_to_state(stmts, shared, locals, &r.read_addr, memo, keep, ins, track, f) {
                None => {
                    return None;
                },
                Some(n) => n,
            };
            let n2 = match term_to_state(stmts, shared, locals, &r.write_enable, memo, keep, ins, track, f) {
                None => {
                    return None;
                },
                Some(n) => n,
            };
            let n3 = match term_to_state(stmts, shared, locals, &r.write_addr, memo, keep, ins, track, f) {
                None => {
                    return None;
                },
                Some(n) => n,
            };
            let n4 = match term_to_state(stmts, shared, locals, &r.write_data, memo, keep, ins, track, f) {
                None => {
                    return None;
                },
                Some(n) => n,
            };
            Some(ExprOperation::Ram(n1, n2, n3, n4))
        },
        ExprType::Rom(t) => match term_to_state(stmts, shared, locals, t, memo, keep, ins, track, f) {
            None => None,
            Some(n) => Some(ExprOperation::Rom(t.size, n)),
        },
        ExprType::Last(s) => match find_last(shared, s) {
            None => None,
            Some(i) => Some(ExprOperation::Last(i)),
        },
    }
}


/// A state of the automaton graph, with its DAGs taken by value.
pub struct ProgramStateV {
    pub shared_outputs: Seq<(usize, ExprNodeV)>,
    pub transition_outputs: Seq<(Option<usize>, ExprNodeV, bool)>,
    pub inputs: Seq<usize>,
    pub weak: bool,
    pub n_vars: nat,
}

/// A state of the automaton graph, taken by value.
pub open spec fn state_view(s: ProgramState) -> ProgramStateV {
    ProgramStateV {
        shared_outputs: s.shared_outputs@.map_values(|p: (usize, Rc<ExprNode>)| (p.0, node_of(*p.1))),
        transition_outputs: s.transition_outputs@.map_values(
            |p: (Option<usize>, Rc<ExprNode>, bool)| (p.0, node_of(*p.1), p.2),
        ),
        inputs: s.inputs@,
        weak: s.weak,
        n_vars: s.n_vars as nat,
    }
}

/// The walk depth allowed in a state with `n` local variables: enough when the local
/// definitions only loop through registers, as each local is then met at most twice on a
/// path (once outside a register, once inside).
pub open spec fn state_fuel(n: nat) -> nat {
    if n <= (usize::MAX - 8) / 4 {
        4 * n + 8
    } else {
        usize::MAX as nat
    }
}

/// The DAGs of the first `j` transitions, built in order with one table of kept DAGs, and
/// the table after them; `None` where a target state or a name is unknown.
pub open spec fn transitions_upto(
    c: Ctx,
    trs: Seq<(Var, Option<String>, bool)>,
    states: Seq<String>,
    j: int,
    memo: Seq<Option<ExprNodeV>>,
    fuel: nat,
) -> Option<(Seq<(Option<usize>, ExprNodeV, bool)>, Seq<Option<ExprNodeV>>)>
    decreases j,
{
    if j <= 0 || j > trs.len() {
        Some((Seq::empty(), memo))
    } else {
        match transitions_upto(c, trs, states, j - 1, memo, fuel) {
            None => None,
            Some((outs, m)) => {
                let t = trs[j - 1];
                let sid: Option<Option<usize>> = match t.1 {
                    None => Some(None),
                    Some(n) => match lookup(states, n@) {
                        None => None,
                        Some(i) => Some(Some(i as usize)),
                    },
                };
                match sid {
                    None => None,
                    Some(sid) => match v2s(c, None, t.0, (Some(m), None), fuel) {
                        None => None,
                        Some((node, w)) => Some((outs.push((sid, node, t.2)), w.0->Some_0)),
                    },
                }
            },
        }
    }
}

/// The DAGs of the shared variables written by the first `j` statements, in order, and the
/// shared variables read so far.
pub open spec fn shared_upto(c: Ctx, j: int, ins: Seq<usize>, fuel: nat) -> Option<
    (Seq<(usize, ExprNodeV)>, Seq<usize>),
>
    decreases j,
{
    if j <= 0 || j > c.stmts.len() {
        Some((Seq::empty(), ins))
    } else {
        match shared_upto(c, j - 1, ins, fuel) {
            None => None,
            Some((outs, l)) => match c.stmts[j - 1].0 {
                Var::Shared(s) => match lookup(c.shared, s@) {
                    None => None,
                    Some(vid) => match e2s(c, None, c.stmts[j - 1].1, (None, Some(l)), fuel) {
                        None => None,
                        Some((node, w)) => Some((outs.push((vid as usize, node)), w.1->Some_0)),
                    },
                },
                Var::Local(_) => Some((outs, l)),
            },
        }
    }
}

/// A state of the automaton graph built from a typed state, with `states` the numbering of
/// the states and `shared` that of the shared variables: the transitions first, keeping the
/// DAGs of local variables from one to the next, then the shared variables written, whose
/// reads (outside registers) are recorded as the state's inputs.
pub open spec fn make_state_spec(st: State, states: Seq<String>, shared: Seq<String>) -> Option<
    ProgramStateV,
> {
    let locals = local_names(st.statements@, st.statements@.len() as int);
    let c = Ctx { stmts: st.statements@, shared, locals };
    let fuel = state_fuel(locals.len());
    match transitions_upto(
        c,
        st.transitions@,
        states,
        st.transitions@.len() as int,
        Seq::new(locals.len(), |i: int| None::<ExprNodeV>),
        fuel,
    ) {
        None => None,
        Some((trs, _)) => match shared_upto(c, st.statements@.len() as int, Seq::empty(), fuel) {
            None => None,
            Some((outs, ins)) => Some(
                ProgramStateV {
                    shared_outputs: outs,
                    transition_outputs: trs,
                    inputs: ins,
                    weak: st.weak,
                    n_vars: distinct_count(locals, locals.len() as int),
                },
            ),
        },
    }
}

proof fn lemma_transitions_none(
    c: Ctx,
    trs: Seq<(Var, Option<String>, bool)>,
    states: Seq<String>,
    j: int,
    len: int,
    memo: Seq<Option<ExprNodeV>>,
    fuel: nat,
)
    requires
        0 < j <= len <= trs.len(),
        transitions_upto(c, trs, states, j, memo, fuel) is None,
    ensures
        transitions_upto(c, trs, states, len, memo, fuel) is None,
    decreases len,
{
    if len > j {
        lemma_transitions_none(c, trs, states, j, len - 1, memo, fuel);
    }
}

proof fn lemma_shared_none(c: Ctx, j: int, len: int, ins: Seq<usize>, fuel: nat)
    requires
        0 < j <= len <= c.stmts.len(),
        shared_upto(c, j, ins, fuel) is None,
    ensures
        shared_upto(c, len, ins, fuel) is None,
    decreases len,
{
    if len > j {
        lemma_shared_none(c, j, len - 1, ins, fuel);
    }
}

/// The local variables defined by the statements, in order.
fn local_names_of(stmts: &Vec<(Var, Expr)>) -> (r: Vec<String>)
    ensures
        r@ == local_names(stmts@, stmts@.len() as int),
{
    let mut r: Vec<String> = Vec::new();
    let mut j: usize = 0;
    while j < stmts.len()
        invariant
            j <= stmts@.len(),
            r@ == local_names(stmts@, j as int),
        decreases stmts@.len() - j,
    {
        if let Var::Local(s) = &stmts[j].0 {
            r.push(s.clone());
        }
        j = j + 1;
    }
    r
}

/// The number of different names.
fn count_distinct(names: &Vec<String>) -> (r: usize)
    ensures
        r == distinct_count(names@, names@.len() as int),
{
    let mut r: usize = 0;
    let mut j: usize = 0;
    while j < names.len()
        invariant
            j <= names@.len(),
            r == distinct_count(names@, j as int),
            r <= j,
        decreases names@.len() - j,
    {
        if find_last_in(names, &names[j], j).is_none() {
            r = r + 1;
        }
        j = j + 1;
    }
    r
}

/// Builds the state of the automaton graph; see `make_state_spec`.
fn make_state(state: &State, states: &Vec<String>, shared: &Vec<String>) -> (r: Option<ProgramState>)
    ensures
        match make_state_spec(*state, states@, shared@) {
            None => r is None,
            Some(sv) => r matches Some(ps) && state_view(ps) == sv,
        },
{
    let stmts = &state.statements;
    let locals = local_names_of(stmts);
    let nl = locals.len();
    let fuel: usize = if nl <= (usize::MAX - 8) / 4 {
        4 * nl + 8
    } else {
        usize::MAX
    };
    let ghost c = ctx_of(stmts@, shared@, locals@);
    assert(fuel as nat == state_fuel(nl as nat));
    let mut memo: Vec<Option<Rc<ExprNode>>> = Vec::new();
    let mut k: usize = 0;
    while k < nl
        invariant
            k <= nl,
            memo@.len() == k,
            forall|i: int| 0 <= i < k ==> memo@[i] is None,
        decreases nl - k,
    {
        memo.push(None);
        k = k + 1;
    }
    assert(memo_view(memo@) =~= Seq::new(nl as nat, |i: int| None::<ExprNodeV>));
    let mut no_ins: Vec<usize> = Vec::new();
    let trs = &state.transitions;
    let mut transition_outputs: Vec<(Option<usize>, Rc<ExprNode>, bool)> = Vec::new();
    let mut j: usize = 0;
    while j < trs.len()
        invariant
            j <= trs@.len(),
            c == ctx_of(stmts@, shared@, locals@),
            stmts == &state.statements,
            trs == &state.transitions,
            locals@ == local_names(stmts@, stmts@.len() as int),
            nl == locals@.len(),
            fuel as nat == state_fuel(nl as nat),
            memo@.len() == nl,
            transitions_upto(c, trs@, states@, j as int, Seq::new(nl as nat, |i: int| None::<ExprNodeV>), fuel as nat)
                == Some((transition_outputs@.map_values(|p: (Option<usize>, Rc<ExprNode>, bool)| (p.0, node_of(*p.1), p.2)), memo_view(memo@))),
        decreases trs@.len() - j,
    {
        let (var, name, reset) = &trs[j];
        let sid = match name {
            None => None,
            Some(n) => match find_last(states, n) {
                None => {
                    proof {
                        lemma_transitions_none(c, trs@, states@, j + 1, trs@.len() as int, Seq::new(nl as nat, |i: int| None::<ExprNodeV>), fuel as nat);
                    }
                    return None;
                },
                Some(i) => Some(i),
            },
        };
        let node = match var_to_state(None, stmts, shared, &locals, var, &mut memo, true, &mut no_ins, false, fuel) {
            None => {
                proof {
                    lemma_transitions_none(c, trs@, states@, j + 1, trs@.len() as int, Seq::new(nl as nat, |i: int| None::<ExprNodeV>), fuel as nat);
                }
                return None;
            },
            Some(n) => n,
        };
        let ghost before = transition_outputs@;
        transition_outputs.push((sid, node, *reset));
        proof {
            assert(transition_outputs@.map_values(|p: (Option<usize>, Rc<ExprNode>, bool)| (p.0, node_of(*p.1), p.2))
                =~= before.map_values(|p: (Option<usize>, Rc<ExprNode>, bool)| (p.0, node_of(*p.1), p.2)).push((sid, node_of(*node), *reset)));
        }
        j = j + 1;
    }
    let mut inputs: Vec<usize> = Vec::new();
    let mut unused: Vec<Option<Rc<ExprNode>>> = Vec::new();
    let mut shared_outputs: Vec<(usize, Rc<ExprNode>)> = Vec::new();
    let mut j: usize = 0;
    while j < stmts.len()
        invariant
            j <= stmts@.len(),
            c == ctx_of(stmts@, shared@, locals@),
            stmts == &state.statements,
            trs == &state.transitions,
            locals@ == local_names(stmts@, stmts@.len() as int),
            nl == locals@.len(),
            fuel as nat == state_fuel(nl as nat),
            transitions_upto(c, trs@, states@, trs@.len() as int, Seq::new(nl as nat, |i: int| None::<ExprNodeV>), fuel as nat) is Some,
            shared_upto(c, j as int, Seq::empty(), fuel as nat) == Some((shared_outputs@.map_values(|p: (usize, Rc<ExprNode>)| (p.0, node_of(*p.1))), inputs@)),
        decreases stmts@.len() - j,
    {
        if let Var::Shared(s) = &stmts[j].0 {
            let vid = match find_last(shared, s) {
                None => {
                    proof {
                        lemma_shared_none(c, j + 1, stmts@.len() as int, Seq::empty(), fuel as nat);
                    }
                    return None;
                },
                Some(i) => i,
            };
            let node = match expr_to_state(None, stmts, shared, &locals, &stmts[j].1, &mut unused, false, &mut inputs, true, fuel) {
                None => {
                    proof {
                        lemma_shared_none(c, j + 1, stmts@.len() as int, Seq::empty(), fuel as nat);
                    }
                    return None;
                },
                Some(n) => n,
            };
            let ghost before = shared_outputs@;
            shared_outputs.push((vid, node));
            proof {
                assert(shared_outputs@.map_values(|p: (usize, Rc<ExprNode>)| (p.0, node_of(*p.1)))
                    =~= before.map_values(|p: (usize, Rc<ExprNode>)| (p.0, node_of(*p.1))).push((vid, node_of(*node))));
            }
        }
        j = j + 1;
    }
    let n_vars = count_distinct(&locals);
    let r = ProgramState { shared_outputs, transition_outputs, inputs, weak: state.weak, n_vars };
    proof {
        assert(state_view(r).shared_outputs =~= shared_outputs@.map_values(|p: (usize, Rc<ExprNode>)| (p.0, node_of(*p.1))));
    }
    Some(r)
}


/// The automaton graph, with its DAGs and constants taken by value.
pub struct ProgramGraphV {
    pub init_states: Seq<usize>,
    pub states: Seq<ProgramStateV>,
    pub shared: Seq<Seq<bool>>,
    pub schedule: Seq<usize>,
    pub outputs: Seq<(Seq<char>, usize)>,
    pub inputs: Seq<usize>,
}

/// The automaton graph, taken by value.
pub open spec fn graph_view(g: ProgramGraph) -> ProgramGraphV {
    ProgramGraphV {
        init_states: g.init_states@,
        states: g.states@.map_values(|s: ProgramState| state_view(s)),
        shared: g.shared@.map_values(|v: Vec<bool>| v@),
        schedule: g.schedule@,
        outputs: g.outputs@.map_values(|p: (String, usize)| (p.0@, p.1)),
        inputs: g.inputs@,
    }
}

/// The names of the states, in order; a state's number is its position.
pub open spec fn state_names(prog: Program) -> Seq<String> {
    prog.states@.map_values(|p: (String, State)| p.0)
}

/// The names of the shared variables of the graph, in order: the inputs, one per state,
/// then the shared variables; a variable's number is its position.
pub open spec fn shared_names(prog: Program) -> Seq<String> {
    prog.inputs@.map_values(|a: Arg| a.value) + state_names(prog) + prog.shared@.map_values(
        |p: (String, Vec<bool>)| p.0,
    )
}

/// Whether `s` is one of `list`.
pub open spec fn named(list: Seq<String>, s: Seq<char>) -> bool {
    exists|i: int| 0 <= i < list.len() && #[trigger] list[i]@ == s
}

/// The initial values of the shared variables of the graph: zeros for an input, whether
/// the state is initial for a state, the given value for a shared variable.
pub open spec fn shared_init(prog: Program) -> Seq<Seq<bool>> {
    prog.inputs@.map_values(|a: Arg| zeros(a.size as nat)) + prog.states@.map_values(
        |p: (String, State)| seq![named(prog.init_states@, p.0@)],
    ) + prog.shared@.map_values(|p: (String, Vec<bool>)| p.1@)
}

/// The first `j` states of the graph.
pub open spec fn states_upto(prog: Program, j: int) -> Option<Seq<ProgramStateV>>
    decreases j,
{
    if j <= 0 || j > prog.states@.len() {
        Some(Seq::empty())
    } else {
        match states_upto(prog, j - 1) {
            None => None,
            Some(v) => match make_state_spec(prog.states@[j - 1].1, state_names(prog), shared_names(prog)) {
                None => None,
                Some(sv) => Some(v.push(sv)),
            },
        }
    }
}

/// The numbers of the first `j` of `list` in `names`; `None` where one is unknown.
pub open spec fn ids_upto(names: Seq<String>, list: Seq<String>, j: int) -> Option<Seq<usize>>
    decreases j,
{
    if j <= 0 || j > list.len() {
        Some(Seq::empty())
    } else {
        match ids_upto(names, list, j - 1) {
            None => None,
            Some(v) => match lookup(names, list[j - 1]@) {
                None => None,
                Some(i) => Some(v.push(i as usize)),
            },
        }
    }
}

/// The automaton graph of a typed program; `None` where a name is unknown or a state
/// cannot be built (see `make_state_spec`). The schedule is left empty.
pub open spec fn make_graph_spec(prog: Program) -> Option<ProgramGraphV> {
    let outs = prog.outputs@.map_values(|a: Arg| a.value);
    match (
        states_upto(prog, prog.states@.len() as int),
        ids_upto(state_names(prog), prog.init_states@, prog.init_states@.len() as int),
        ids_upto(shared_names(prog), outs, outs.len() as int),
    ) {
        (Some(states), Some(init), Some(ids)) => Some(
            ProgramGraphV {
                init_states: init,
                states,
                shared: shared_init(prog),
                schedule: Seq::empty(),
                outputs: Seq::new(ids.len(), |i: int| (outs[i]@, ids[i])),
                inputs: prog.inputs@.map_values(|a: Arg| a.size),
            },
        ),
        _ => None,
    }
}

proof fn lemma_states_none(prog: Program, j: int, len: int)
    requires
        0 < j <= len <= prog.states@.len(),
        states_upto(prog, j) is None,
    ensures
        states_upto(prog, len) is None,
    decreases len,
{
    if len > j {
        lemma_states_none(prog, j, len - 1);
    }
}

proof fn lemma_ids_len(names: Seq<String>, list: Seq<String>, j: int)
    requires
        0 <= j <= list.len(),
        ids_upto(names, list, j) is Some,
    ensures
        ids_upto(names, list, j)->Some_0.len() == j,
    decreases j,
{
    if j > 0 {
        lemma_ids_len(names, list, j - 1);
    }
}

proof fn lemma_ids_none(names: Seq<String>, list: Seq<String>, j: int, len: int)
    requires
        0 < j <= len <= list.len(),
        ids_upto(names, list, j) is None,
    ensures
        ids_upto(names, list, len) is None,
    decreases len,
{
    if len > j {
        lemma_ids_none(names, list, j, len - 1);
    }
}

/// The numbers of `list` in `names`; see `ids_upto`.
fn ids_of(names: &Vec<String>, list: &Vec<String>) -> (r: Option<Vec<usize>>)
    ensures
        match ids_upto(names@, list@, list@.len() as int) {
            None => r is None,
            Some(v) => r matches Some(x) && x@ == v,
        },
{
    let mut out: Vec<usize> = Vec::new();
    let mut j: usize = 0;
    while j < list.len()
        invariant
            j <= list@.len(),
            ids_upto(names@, list@, j as int) == Some(out@),
        decreases list@.len() - j,
    {
        match find_last(names, &list[j]) {
            None => {
                proof {
                    lemma_ids_none(names@, list@, j + 1, list@.len() as int);
                }
                return None;
            },
            Some(i) => out.push(i),
        }
        j = j + 1;
    }
    Some(out)
}

/// Builds the automaton graph of a typed program; see `make_graph_spec`.
pub fn make_graph(prog: &Program) -> (r: Option<ProgramGraph>)
    ensures
        match make_graph_spec(*prog) {
            None => r is None,
            Some(gv) => r matches Some(g) && graph_view(g) == gv,
        },
{
    let mut snames: Vec<String> = Vec::new();
    let mut j: usize = 0;
    while j < prog.states.len()
        invariant
            j <= prog.states@.len(),
            snames@ == state_names(*prog).subrange(0, j as int),
        decreases prog.states@.len() - j,
    {
        snames.push(prog.states[j].0.clone());
        j = j + 1;
        assert(snames@ =~= state_names(*prog).subrange(0, j as int));
    }
    assert(snames@ =~= state_names(*prog));
    let mut shnames: Vec<String> = Vec::new();
    let mut init: Vec<Vec<bool>> = Vec::new();
    let mut inputs: Vec<usize> = Vec::new();
    let ghost want = shared_init(*prog);
    let ghost wnames = shared_names(*prog);
    let ghost k1 = prog.inputs@.len() as int;
    let ghost k2 = k1 + prog.states@.len();
    let mut j: usize = 0;
    while j < prog.inputs.len()
        invariant
            j <= prog.inputs@.len(),
            want == shared_init(*prog),
            wnames == shared_names(*prog),
            k1 == prog.inputs@.len(),
            shnames@.len() == j,
            init@.len() == j,
            inputs@ == prog.inputs@.map_values(|a: Arg| a.size).subrange(0, j as int),
            forall|i: int| 0 <= i < j ==> (#[trigger] init@[i])@ == want[i],
            forall|i: int| 0 <= i < j ==> #[trigger] shnames@[i] == wnames[i],
        decreases prog.inputs@.len() - j,
    {
        shnames.push(prog.inputs[j].value.clone());
        init.push(zeros_vec(prog.inputs[j].size));
        inputs.push(prog.inputs[j].size);
        j = j + 1;
        assert(inputs@ =~= prog.inputs@.map_values(|a: Arg| a.size).subrange(0, j as int));
    }
    assert(inputs@ =~= prog.inputs@.map_values(|a: Arg| a.size));
    let mut j: usize = 0;
    while j < prog.states.len()
        invariant
            j <= prog.states@.len(),
            want == shared_init(*prog),
            wnames == shared_names(*prog),
            k1 == prog.inputs@.len(),
            k2 == k1 + prog.states@.len(),
            shnames@.len() == k1 + j,
            init@.len() == k1 + j,
            forall|i: int| 0 <= i < k1 + j ==> (#[trigger] init@[i])@ == want[i],
            forall|i: int| 0 <= i < k1 + j ==> #[trigger] shnames@[i] == wnames[i],
        decreases prog.states@.len() - j,
    {
        shnames.push(prog.states[j].0.clone());
        let b = strings_contain(&prog.init_states, prog.states[j].0.as_str());
        init.push(vec![b]);
        proof {
            assert(init@[k1 + j]@ =~= want[k1 + j]);
        }
        j = j + 1;
    }
    let mut j: usize = 0;
    while j < prog.shared.len()
        invariant
            j <= prog.shared@.len(),
            want == shared_init(*prog),
            wnames == shared_names(*prog),
            k2 == prog.inputs@.len() + prog.states@.len(),
            shnames@.len() == k2 + j,
            init@.len() == k2 + j,
            forall|i: int| 0 <= i < k2 + j ==> (#[trigger] init@[i])@ == want[i],
            forall|i: int| 0 <= i < k2 + j ==> #[trigger] shnames@[i] == wnames[i],
        decreases prog.shared@.len() - j,
    {
        shnames.push(prog.shared[j].0.clone());
        init.push(copy_bits(&prog.shared[j].1));
        j = j + 1;
    }
    assert(shnames@ =~= shared_names(*prog));
    assert(init@.map_values(|v: Vec<bool>| v@) =~= shared_init(*prog));
    let mut states: Vec<ProgramState> = Vec::new();
    let mut j: usize = 0;
    while j < prog.states.len()
        invariant
            j <= prog.states@.len(),
            snames@ == state_names(*prog),
            shnames@ == shared_names(*prog),
            states_upto(*prog, j as int) == Some(states@.map_values(|s: ProgramState| state_view(s))),
        decreases prog.states@.len() - j,
    {
        match make_state(&prog.states[j].1, &snames, &shnames) {
            None => {
                proof {
                    lemma_states_none(*prog, j + 1, prog.states@.len() as int);
                }
                return None;
            },
            Some(st) => {
                let ghost before = states@;
                states.push(st);
                assert(states@.map_values(|s: ProgramState| state_view(s)) =~= before.map_values(|s: ProgramState| state_view(s)).push(state_view(st)));
            },
        }
        j = j + 1;
    }
    let init_states = match ids_of(&snames, &prog.init_states) {
        None => {
            return None;
        },
        Some(v) => v,
    };
    let mut onames: Vec<String> = Vec::new();
    let mut j: usize = 0;
    while j < prog.outputs.len()
        invariant
            j <= prog.outputs@.len(),
            onames@ == prog.outputs@.map_values(|a: Arg| a.value).subrange(0, j as int),
        decreases prog.outputs@.len() - j,
    {
        onames.push(prog.outputs[j].value.clone());
        j = j + 1;
        assert(onames@ =~= prog.outputs@.map_values(|a: Arg| a.value).subrange(0, j as int));
    }
    assert(onames@ =~= prog.outputs@.map_values(|a: Arg| a.value));
    let ids = match ids_of(&shnames, &onames) {
        None => {
            return None;
        },
        Some(v) => v,
    };
    proof {
        lemma_ids_len(shnames@, onames@, onames@.len() as int);
    }
    let mut outputs: Vec<(String, usize)> = Vec::new();
    let mut j: usize = 0;
    while j < ids.len()
        invariant
            j <= ids@.len(),
            ids@.len() == onames@.len(),
            outputs@.len() == j,
            forall|i: int| 0 <= i < j ==> (#[trigger] outputs@[i]).0@ == onames@[i]@ && outputs@[i].1 == ids@[i],
        decreases ids@.len() - j,
    {
        outputs.push((onames[j].clone(), ids[j]));
        j = j + 1;
    }
    let g = ProgramGraph { init_states, states, shared: init, schedule: Vec::new(), outputs, inputs };
    proof {
        assert(graph_view(g).outputs =~= Seq::new(ids@.len(), |i: int| (onames@[i]@, ids@[i])));
        assert(graph_view(g).inputs =~= prog.inputs@.map_values(|a: Arg| a.size));
        assert(graph_view(g).schedule =~= Seq::<usize>::empty());
    }
    Some(g)
}

} // verus!
