//! Constant propagation and local rewrites on the flat dataflow graph.
//!
//! From each output, the nodes are walked once (operands first). A node whose value is known
//! becomes a constant; a few others are rewritten in place: `not (a and b)` becomes `a nand b`,
//! a slice of a slice becomes one slice, `x and 1…1`, `x or 0…0` and `x xor 0…0` become `x`,
//! and a multiplexer on a known selector becomes the chosen operand.
use vstd::prelude::*;

use crate::ast::graph::{BiOp, FlatProgramGraph, Node, RCell};
use crate::backends::netlist::{nodes_linked, operands};
use crate::interpreters::low_level_interpreter::{bits_eq, copy_bits};

verus! {

/// A node with its constant taken by value.
pub enum NodeV {
    Input(usize),
    Const(Seq<bool>),
    Not(RCell),
    Slice(RCell, usize, usize),
    BiOp(BiOp, RCell, RCell),
    Mux(RCell, RCell, RCell),
    Reg(usize, RCell),
    Ram(RCell, RCell, RCell, RCell),
    Rom(usize, RCell),
    TmpValueHolder(usize),
}

/// The value of a node.
pub open spec fn node_view(n: Node) -> NodeV {
    match n {
        Node::Input(i) => NodeV::Input(i),
        Node::Const(c) => NodeV::Const(c@),
        Node::Not(e) => NodeV::Not(e),
        Node::Slice(e, c1, c2) => NodeV::Slice(e, c1, c2),
        Node::BiOp(op, a, b) => NodeV::BiOp(op, a, b),
        Node::Mux(a, b, c) => NodeV::Mux(a, b, c),
        Node::Reg(s, e) => NodeV::Reg(s, e),
        Node::Ram(a, b, c, d) => NodeV::Ram(a, b, c, d),
        Node::Rom(s, e) => NodeV::Rom(s, e),
        Node::TmpValueHolder(i) => NodeV::TmpValueHolder(i),
    }
}

/// The values of the nodes of an arena.
pub open spec fn nodes_view(s: Seq<Node>) -> Seq<NodeV> {
    s.map_values(|n: Node| node_view(n))
}

/// The handles of the operands of a node value.
pub open spec fn operands_v(n: NodeV) -> Seq<RCell> {
    match n {
        NodeV::Not(e) => seq![e],
        NodeV::Slice(e, _, _) => seq![e],
        NodeV::BiOp(_, a, b) => seq![a, b],
        NodeV::Mux(a, b, c) => seq![a, b, c],
        NodeV::Reg(_, e) => seq![e],
        NodeV::Ram(a, b, c, d) => seq![a, b, c, d],
        NodeV::Rom(_, e) => seq![e],
        _ => Seq::empty(),
    }
}

/// What becomes of a node whose value is not known.
pub enum Rewrite {
    Keep,
    /// Takes the content of another node, as it is at the end of the walk.
    CopyOf(RCell),
    Become(NodeV),
}

/// No bit is set.
pub open spec fn none_set(v: Seq<bool>) -> bool {
    forall|i: int| 0 <= i < v.len() ==> !v[i]
}

/// Every bit is set.
pub open spec fn all_set(v: Seq<bool>) -> bool {
    forall|i: int| 0 <= i < v.len() ==> v[i]
}

/// `n` bits equal to `b`.
pub open spec fn filled(n: nat, b: bool) -> Seq<bool> {
    Seq::new(n, |i: int| b)
}

/// The bitwise operation `op` on the common prefix of two constants.
pub open spec fn zip_op(op: BiOp, a: Seq<bool>, b: Seq<bool>) -> Seq<bool> {
    let n = if a.len() <= b.len() {
        a.len()
    } else {
        b.len()
    };
    match op {
        BiOp::And => Seq::new(n, |i: int| a[i] && b[i]),
        BiOp::Or => Seq::new(n, |i: int| a[i] || b[i]),
        BiOp::Nand => Seq::new(n, |i: int| !(a[i] && b[i])),
        _ => Seq::new(n, |i: int| a[i] != b[i]),
    }
}

/// The bitwise operations on constants act bit by bit, on the common prefix, as the boolean
/// operations they name.
pub proof fn law_zip_ops(a: Seq<bool>, b: Seq<bool>)
    ensures
        forall|i: int| 0 <= i < a.len() && i < b.len() ==> {
            &&& (#[trigger] zip_op(BiOp::And, a, b)[i] <==> a[i] && b[i])
            &&& (zip_op(BiOp::Or, a, b)[i] <==> a[i] || b[i])
            &&& (zip_op(BiOp::Xor, a, b)[i] <==> (a[i] && !b[i]) || (!a[i] && b[i]))
            &&& (zip_op(BiOp::Nand, a, b)[i] <==> !a[i] || !b[i])
        },
        zip_op(BiOp::Xor, a, b).len() == if a.len() <= b.len() { a.len() } else { b.len() },
{
}

/// Folding keeps the value: an operation on two constants of one length is folded to the
/// very bus that the interpreter computes for it.
pub proof fn law_fold_as_interpreted(op: BiOp, a: Seq<bool>, b: Seq<bool>, e1: RCell, e2: RCell)
    requires
        a.len() == b.len(),
    ensures
        biop_result(op, Some(a), Some(b), e1, e2).0 == Some(crate::interpreters::low_level_interpreter::bus_op(op, a, b)),
{
    let v = crate::interpreters::low_level_interpreter::bus_op(op, a, b);
    if op != BiOp::Concat {
        assert(zip_op(op, a, b) =~= v);
    }
}

/// The value and rewrite of a binary operation whose operands `e1`, `e2` gave `r1`, `r2`.
pub open spec fn biop_result(
    op: BiOp,
    r1: Option<Seq<bool>>,
    r2: Option<Seq<bool>>,
    e1: RCell,
    e2: RCell,
) -> (Option<Seq<bool>>, Rewrite) {
    match op {
        BiOp::Concat => match (r1, r2) {
            (Some(a), Some(b)) => (Some(a + b), Rewrite::Keep),
            _ => (None, Rewrite::Keep),
        },
        _ => match (r1, r2) {
            (None, None) => (None, Rewrite::Keep),
            (Some(a), Some(b)) => (Some(zip_op(op, a, b)), Rewrite::Keep),
            _ => {
                let v = if r1 is Some {
                    r1->Some_0
                } else {
                    r2->Some_0
                };
                let other = if r1 is None {
                    e1
                } else {
                    e2
                };
                match op {
                    BiOp::And => if none_set(v) {
                        (Some(filled(v.len(), false)), Rewrite::Keep)
                    } else if all_set(v) {
                        (None, Rewrite::CopyOf(other))
                    } else {
                        (None, Rewrite::Keep)
                    },
                    BiOp::Or => if none_set(v) {
                        (None, Rewrite::CopyOf(other))
                    } else if all_set(v) {
                        (Some(filled(v.len(), true)), Rewrite::Keep)
                    } else {
                        (None, Rewrite::Keep)
                    },
                    BiOp::Xor => if none_set(v) {
                        (None, Rewrite::CopyOf(other))
                    } else {
                        (None, Rewrite::Keep)
                    },
                    _ => if none_set(v) {
                        (Some(filled(v.len(), true)), Rewrite::Keep)
                    } else {
                        (None, Rewrite::Keep)
                    },
                }
            },
        },
    }
}

/// Folding with one operand known keeps the value too: whatever bus `x` (of the known
/// operand's length) the other operand takes, a constant it folds to is what the interpreter
/// computes, and a copy of the other operand stands for a node whose value is that operand.
pub proof fn law_fold_one_known(op: BiOp, v: Seq<bool>, x: Seq<bool>, e1: RCell, e2: RCell, first_known: bool)
    requires
        op != BiOp::Concat,
        v.len() == x.len(),
    ensures
        ({
            let res = if first_known {
                biop_result(op, Some(v), None, e1, e2)
            } else {
                biop_result(op, None, Some(v), e1, e2)
            };
            let val = if first_known {
                crate::interpreters::low_level_interpreter::bus_op(op, v, x)
            } else {
                crate::interpreters::low_level_interpreter::bus_op(op, x, v)
            };
            &&& (res.0 matches Some(c) ==> c == val)
            &&& (res.1 matches Rewrite::CopyOf(_) ==> val == x)
        }),
{
    let val = if first_known {
        crate::interpreters::low_level_interpreter::bus_op(op, v, x)
    } else {
        crate::interpreters::low_level_interpreter::bus_op(op, x, v)
    };
    assert(val.len() == v.len());
    if none_set(v) {
        assert(filled(v.len(), false) =~= val || op != BiOp::And);
        assert(filled(v.len(), true) =~= val || op != BiOp::Nand);
        assert(x =~= val || op == BiOp::And || op == BiOp::Nand);
    }
    if all_set(v) {
        assert(filled(v.len(), true) =~= val || op != BiOp::Or);
        assert(x =~= val || op != BiOp::And);
    }
}

/// Walks node `id` with the nodes `mem` already walked: its value when it is known, the
/// nodes after the walk and the nodes walked. A node already walked gives no value. A node
/// whose value is known becomes that constant; otherwise its rewrite, if any, is applied.
pub open spec fn try_spec(nodes: Seq<NodeV>, id: int, mem: Seq<bool>, fuel: nat) -> (
    Option<Seq<bool>>,
    Seq<NodeV>,
    Seq<bool>,
)
    decreases fuel, 0int,
{
    if fuel == 0 || !(0 <= id < mem.len()) || nodes.len() != mem.len() {
        (None, nodes, mem)
    } else if mem[id] {
        (None, nodes, mem)
    } else {
        let (r, ch, n1, m1) = try_inner(nodes, id, mem.update(id, true), (fuel - 1) as nat);
        let n2 = match r {
            Some(v) => n1.update(id, NodeV::Const(v)),
            None => match ch {
                Rewrite::Keep => n1,
                Rewrite::CopyOf(e) => n1.update(id, n1[e.index()]),
                Rewrite::Become(x) => n1.update(id, x),
            },
        };
        (r, n2, m1)
    }
}

/// The value and rewrite of node `id` from those of its operands, walked in order.
/// A slice or a multiplexer whose known operand is too short to read gives nothing.
pub open spec fn try_inner(nodes: Seq<NodeV>, id: int, mem: Seq<bool>, f: nat) -> (
    Option<Seq<bool>>,
    Rewrite,
    Seq<NodeV>,
    Seq<bool>,
)
    decreases f, 1int,
{
    match nodes[id] {
        NodeV::Const(c) => (Some(c), Rewrite::Keep, nodes, mem),
        NodeV::Not(e) => {
            let (r, n1, m1) = try_spec(nodes, e.index(), mem, f);
            match r {
                Some(c) => (Some(Seq::new(c.len(), |i: int| !c[i])), Rewrite::Keep, n1, m1),
                None => (
                    None,
                    match n1[e.index()] {
                        NodeV::BiOp(BiOp::And, a, b) => Rewrite::Become(NodeV::BiOp(BiOp::Nand, a, b)),
                        _ => Rewrite::Keep,
                    },
                    n1,
                    m1,
                ),
            }
        },
        NodeV::Slice(e, c1, c2) => {
            let (r, n1, m1) = try_spec(nodes, e.index(), mem, f);
            match r {
                Some(c) => if c1 <= c2 <= c.len() {
                    (Some(c.subrange(c1 as int, c2 as int)), Rewrite::Keep, n1, m1)
                } else {
                    (None, Rewrite::Keep, n1, m1)
                },
                None => (
                    None,
                    match n1[e.index()] {
                        NodeV::Slice(ie, ic1, _) => if ic1 + c1 <= usize::MAX && ic1 + c2 <= usize::MAX {
                            Rewrite::Become(NodeV::Slice(ie, (ic1 + c1) as usize, (ic1 + c2) as usize))
                        } else {
                            Rewrite::Keep
                        },
                        _ => Rewrite::Keep,
                    },
                    n1,
                    m1,
                ),
            }
        },
        NodeV::BiOp(op, a, b) => {
            let (r1, n1, m1) = try_spec(nodes, a.index(), mem, f);
            let (r2, n2, m2) = try_spec(n1, b.index(), m1, f);
            let (r, ch) = biop_result(op, r1, r2, a, b);
            (r, ch, n2, m2)
        },
        NodeV::Mux(a, b, c) => {
            let (r1, n1, m1) = try_spec(nodes, a.index(), mem, f);
            let ch = match r1 {
                Some(v) => if v.len() > 0 {
                    Rewrite::CopyOf(
                        if v[0] {
                            b
                        } else {
                            c
                        },
                    )
                } else {
                    Rewrite::Keep
                },
                None => Rewrite::Keep,
            };
            let (r2, n2, m2) = try_spec(n1, b.index(), m1, f);
            let (r3, n3, m3) = try_spec(n2, c.index(), m2, f);
            let r = match (r2, r3) {
                (Some(x), Some(y)) => if x == y {
                    Some(x)
                } else {
                    None
                },
                _ => None,
            };
            (r, ch, n3, m3)
        },
        NodeV::Reg(_, e) => {
            let (r, n1, m1) = try_spec(nodes, e.index(), mem, f);
            let r2 = match r {
                Some(v) => if none_set(v) {
                    Some(v)
                } else {
                    None
                },
                None => None,
            };
            (r2, Rewrite::Keep, n1, m1)
        },
        _ => (None, Rewrite::Keep, nodes, mem),
    }
}

/// Folding the other nodes keeps their values as the interpreter computes them: a `not` of a
/// known bus flips each bit, a slice of a known bus takes its bits from `c1` to `c2`, a
/// multiplexer whose selector is known stands for the operand that the selector's first bit
/// chooses (the second when set), and a register is folded only to a bus of zeros, the value
/// it holds when its input is zero.
pub proof fn law_fold_other_nodes(nodes: Seq<NodeV>, id: int, mem: Seq<bool>, f: nat)
    requires
        0 <= id < nodes.len(),
    ensures
        ({
            let res = try_inner(nodes, id, mem, f);
            &&& (nodes[id] matches NodeV::Not(e) ==> (try_spec(nodes, e.index(), mem, f).0 matches Some(c)
                ==> (res.0 matches Some(w) && w.len() == c.len() && forall|i: int| 0 <= i < c.len() ==> #[trigger] w[i] == !c[i])))
            &&& (nodes[id] matches NodeV::Slice(e, c1, c2) ==> (try_spec(nodes, e.index(), mem, f).0 matches Some(c)
                ==> (c1 <= c2 <= c.len() ==> (res.0 matches Some(w) && w.len() == c2 - c1
                && forall|i: int| 0 <= i < w.len() ==> #[trigger] w[i] == c[c1 + i]))))
            &&& (nodes[id] matches NodeV::Mux(a, b, c) ==> (try_spec(nodes, a.index(), mem, f).0 matches Some(v)
                ==> (v.len() > 0 ==> (v[0] ==> res.1 == Rewrite::CopyOf(b)) && (!v[0] ==> res.1 == Rewrite::CopyOf(c)))))
            &&& (nodes[id] is Reg ==> (res.0 matches Some(w) ==> forall|i: int| 0 <= i < w.len() ==> !#[trigger] w[i]))
        }),
{
}

/// The nodes after walking the first `j` outputs, each from a fresh set of walked nodes.
pub open spec fn optimized(nodes: Seq<NodeV>, outs: Seq<(String, RCell)>, j: int) -> Seq<NodeV>
    decreases j,
{
    if j <= 0 || j > outs.len() {
        nodes
    } else {
        let before = optimized(nodes, outs, j - 1);
        try_spec(
            before,
            outs[j - 1].1.index(),
            Seq::new(nodes.len(), |i: int| false),
            if nodes.len() < usize::MAX {
                (nodes.len() + 1) as nat
            } else {
                nodes.len()
            },
        ).1
    }
}


/// What becomes of a node whose value is not known, as the walk computes it.
enum Change {
    Keep,
    CopyOf(RCell),
    Become(Node),
}

spec fn change_view(c: Change) -> Rewrite {
    match c {
        Change::Keep => Rewrite::Keep,
        Change::CopyOf(e) => Rewrite::CopyOf(e),
        Change::Become(n) => Rewrite::Become(node_view(n)),
    }
}

/// The value of an optional constant.
pub open spec fn opt_view(r: Option<Vec<bool>>) -> Option<Seq<bool>> {
    match r {
        Some(v) => Some(v@),
        None => None,
    }
}

proof fn lemma_operands_view(n: Node)
    ensures
        operands(n) == operands_v(node_view(n)),
{
}

/// Setting a node keeps the arena linked when the new node's handles point into it.
proof fn lemma_set_linked(s: Seq<Node>, i: int, x: Node)
    requires
        nodes_linked(s),
        0 <= i < s.len(),
        forall|j: int| 0 <= j < operands(x).len() ==> (#[trigger] operands(x)[j]).index() < s.len(),
    ensures
        nodes_linked(s.update(i, x)),
{
    assert forall|k: int, j: int|
        0 <= k < s.update(i, x).len() && 0 <= j < operands(s.update(i, x)[k]).len() implies (#[trigger] operands(
            s.update(i, x)[k],
        )[j]).index() < s.update(i, x).len() by {
        if k != i {
            assert(operands(s[k])[j] == operands(s.update(i, x)[k])[j]);
        }
    }
}

/// A copy of a node.
pub fn copy_node(n: &Node) -> (r: Node)
    ensures
        node_view(r) == node_view(*n),
        operands(r) == operands(*n),
{
    match n {
        Node::Input(i) => Node::Input(*i),
        Node::Const(c) => Node::Const(copy_bits(c)),
        Node::Not(e) => Node::Not(*e),
        Node::Slice(e, c1, c2) => Node::Slice(*e, *c1, *c2),
        Node::BiOp(op, a, b) => Node::BiOp(*op, *a, *b),
        Node::Mux(a, b, c) => Node::Mux(*a, *b, *c),
        Node::Reg(s, e) => Node::Reg(*s, *e),
        Node::Ram(a, b, c, d) => Node::Ram(*a, *b, *c, *d),
        Node::Rom(s, e) => Node::Rom(*s, *e),
        Node::TmpValueHolder(i) => Node::TmpValueHolder(*i),
    }
}

/// Whether no bit is set.
fn no_bit_set(v: &Vec<bool>) -> (r: bool)
    ensures
        r == none_set(v@),
{
    let mut i: usize = 0;
    while i < v.len()
        invariant
            i <= v@.len(),
            forall|k: int| 0 <= k < i ==> !v@[k],
        decreases v@.len() - i,
    {
        if v[i] {
            return false;
        }
        i = i + 1;
    }
    true
}

/// Whether every bit is set.
fn every_bit_set(v: &Vec<bool>) -> (r: bool)
    ensures
        r == all_set(v@),
{
    let mut i: usize = 0;
    while i < v.len()
        invariant
            i <= v@.len(),
            forall|k: int| 0 <= k < i ==> v@[k],
        decreases v@.len() - i,
    {
        if !v[i] {
            return false;
        }
        i = i + 1;
    }
    true
}

/// `n` bits equal to `b`.
pub fn filled_vec(n: usize, b: bool) -> (r: Vec<bool>)
    ensures
        r@ == filled(n as nat, b),
{
    let mut r: Vec<bool> = Vec::new();
    let mut i: usize = 0;
    while i < n
        invariant
            i <= n,
            r@ == filled(i as nat, b),
        decreases n - i,
    {
        r.push(b);
        i = i + 1;
        assert(r@ =~= filled(i as nat, b));
    }
    r
}

/// See `zip_op`.
fn zip_vec(op: BiOp, a: &Vec<bool>, b: &Vec<bool>) -> (r: Vec<bool>)
    ensures
        r@ == zip_op(op, a@, b@),
{
    let n = if a.len() <= b.len() {
        a.len()
    } else {
        b.len()
    };
    let mut r: Vec<bool> = Vec::new();
    let mut i: usize = 0;
    while i < n
        invariant
            i <= n,
            n <= a@.len(),
            n <= b@.len(),
            n == (if a@.len() <= b@.len() { a@.len() } else { b@.len() }),
            r@.len() == i,
            forall|k: int| 0 <= k < i ==> r@[k] == zip_op(op, a@, b@)[k],
        decreases n - i,
    {
        let x = match op {
            BiOp::And => a[i] && b[i],
            BiOp::Or => a[i] || b[i],
            BiOp::Nand => !(a[i] && b[i]),
            _ => a[i] != b[i],
        };
        r.push(x);
        i = i + 1;
    }
    assert(r@ =~= zip_op(op, a@, b@));
    r
}

/// See `biop_result`.
fn biop_exec(op: BiOp, r1: Option<Vec<bool>>, r2: Option<Vec<bool>>, e1: RCell, e2: RCell) -> (r: (
    Option<Vec<bool>>,
    Change,
))
    ensures
        opt_view(r.0) == biop_result(op, opt_view(r1), opt_view(r2), e1, e2).0,
        change_view(r.1) == biop_result(op, opt_view(r1), opt_view(r2), e1, e2).1,
        r.1 is Become ==> false,
{
    if op == BiOp::Concat {
        return match (r1, r2) {
            (Some(a), Some(b)) => {
                let mut a = a;
                let mut b = b;
                a.append(&mut b);
                (Some(a), Change::Keep)
            },
            _ => (None, Change::Keep),
        };
    }
    let first_known = r1.is_some();
    match (r1, r2) {
        (None, None) => (None, Change::Keep),
        (Some(a), Some(b)) => (Some(zip_vec(op, &a, &b)), Change::Keep),
        (x1, x2) => {
            let v = match (x1, x2) {
                (Some(a), _) => a,
                (_, Some(b)) => b,
                _ => Vec::new(),
            };
            let other = if !first_known {
                e1
            } else {
                e2
            };
            let none = no_bit_set(&v);
            match op {
                BiOp::And => if none {
                    (Some(filled_vec(v.len(), false)), Change::Keep)
                } else if every_bit_set(&v) {
                    (None, Change::CopyOf(other))
                } else {
                    (None, Change::Keep)
                },
                BiOp::Or => if none {
                    (None, Change::CopyOf(other))
                } else if every_bit_set(&v) {
                    (Some(filled_vec(v.len(), true)), Change::Keep)
                } else {
                    (None, Change::Keep)
                },
                BiOp::Xor => if none {
                    (None, Change::CopyOf(other))
                } else {
                    (None, Change::Keep)
                },
                _ => if none {
                    (Some(filled_vec(v.len(), true)), Change::Keep)
                } else {
                    (None, Change::Keep)
                },
            }
        },
    }
}


/// Walks node `id`; see `try_spec`.
fn try_compute(nodes: &mut Vec<Node>, id: usize, mem: &mut Vec<bool>, fuel: usize) -> (r: Option<
    Vec<bool>,
>)
    requires
        nodes_linked(old(nodes)@),
    ensures
        opt_view(r) == try_spec(nodes_view(old(nodes)@), id as int, old(mem)@, fuel as nat).0,
        nodes_view(final(nodes)@) == try_spec(nodes_view(old(nodes)@), id as int, old(mem)@, fuel as nat).1,
        final(mem)@ == try_spec(nodes_view(old(nodes)@), id as int, old(mem)@, fuel as nat).2,
        nodes_linked(final(nodes)@),
        final(nodes)@.len() == old(nodes)@.len(),
    decreases fuel, 0int,
{
    let idx = id as usize;
    if fuel == 0 || idx >= mem.len() || nodes.len() != mem.len() {
        return None;
    }
    if mem[idx] {
        return None;
    }
    mem.set(idx, true);
    let (r, ch) = try_node(nodes, id, mem, fuel - 1);
    let ghost n0 = nodes@;
    match &r {
        Some(v) => {
            let c = Node::Const(copy_bits(v));
            proof {
                lemma_set_linked(n0, idx as int, c);
            }
            nodes.set(idx, c);
            assert(nodes_view(nodes@) =~= nodes_view(n0).update(idx as int, NodeV::Const(v@)));
        },
        None => match ch {
            Change::Keep => {},
            Change::CopyOf(e) => {
                let c = copy_node(&nodes[e.id as usize]);
                proof {
                    assert forall|j: int| 0 <= j < operands(c).len() implies (#[trigger] operands(c)[j]).index() < n0.len() by {
                        assert(operands(n0[e.index()])[j] == operands(c)[j]);
                    }
                    lemma_set_linked(n0, idx as int, c);
                }
                nodes.set(idx, c);
                assert(nodes_view(nodes@) =~= nodes_view(n0).update(idx as int, nodes_view(n0)[e.index()]));
            },
            Change::Become(x) => {
                proof {
                    lemma_set_linked(n0, idx as int, x);
                }
                nodes.set(idx, x);
                assert(nodes_view(nodes@) =~= nodes_view(n0).update(idx as int, node_view(x)));
            },
        },
    }
    r
}

/// The value and rewrite of node `id`; see `try_inner`.
#[verifier::rlimit(60)]
#[verifier::spinoff_prover]
fn try_node(nodes: &mut Vec<Node>, id: usize, mem: &mut Vec<bool>, f: usize) -> (r: (
    Option<Vec<bool>>,
    Change,
))
    requires
        nodes_linked(old(nodes)@),
        (id as int) < old(nodes)@.len(),
        old(mem)@.len() == old(nodes)@.len(),
    ensures
        ({
            let s = try_inner(nodes_view(old(nodes)@), id as int, old(mem)@, f as nat);
            &&& opt_view(r.0) == s.0
            &&& change_view(r.1) == s.1
            &&& nodes_view(final(nodes)@) == s.2
            &&& final(mem)@ == s.3
        }),
        nodes_linked(final(nodes)@),
        final(nodes)@.len() == old(nodes)@.len(),
        r.1 matches Change::CopyOf(e) ==> e.index() < final(nodes)@.len(),
        r.1 matches Change::Become(x) ==> forall|j: int|
            0 <= j < operands(x).len() ==> (#[trigger] operands(x)[j]).index() < final(nodes)@.len(),
    decreases f, 1int,
{
    let idx = id as usize;
    let node = copy_node(&nodes[idx]);
    proof {
        lemma_operands_view(nodes@[idx as int]);
        assert(nodes_view(nodes@)[idx as int] == node_view(nodes@[idx as int]));
    }
    match node {
        Node::Const(c) => (Some(c), Change::Keep),
        Node::Not(e) => {
            assert(operands(nodes@[idx as int])[0] == e);
            let r = try_compute(nodes, e.id, mem, f);
            match r {
                Some(c) => {
                    let mut c = c;
                    let ghost c0 = c@;
                    let mut i: usize = 0;
                    while i < c.len()
                        invariant
                            c@.len() == c0.len(),
                            i <= c@.len(),
                            forall|k: int| 0 <= k < i ==> c@[k] == !c0[k],
                            forall|k: int| i <= k < c@.len() ==> c@[k] == c0[k],
                        decreases c@.len() - i,
                    {
                        let b = c[i];
                        c.set(i, !b);
                        i = i + 1;
                    }
                    assert(c@ =~= Seq::new(c0.len(), |k: int| !c0[k]));
                    (Some(c), Change::Keep)
                },
                None => {
                    proof {
                        lemma_operands_view(nodes@[e.index()]);
                        assert(nodes_view(nodes@)[e.index()] == node_view(nodes@[e.index()]));
                    }
                    match &nodes[e.id as usize] {
                        Node::BiOp(BiOp::And, a, b) => {
                            assert(operands(nodes@[e.index()])[0] == *a);
                            assert(operands(nodes@[e.index()])[1] == *b);
                            let x = Node::BiOp(BiOp::Nand, *a, *b);
                            assert(operands(x)[0] == *a);
                            assert(operands(x)[1] == *b);
                            (None, Change::Become(x))
                        },
                        _ => (None, Change::Keep),
                    }
                },
            }
        },
        Node::Slice(e, c1, c2) => {
            assert(operands(nodes@[idx as int])[0] == e);
            let r = try_compute(nodes, e.id, mem, f);
            match r {
                Some(c) => {
                    if c1 <= c2 && c2 <= c.len() {
                        let mut w: Vec<bool> = Vec::new();
                        let mut i: usize = c1;
                        while i < c2
                            invariant
                                c1 <= i <= c2,
                                c2 <= c@.len(),
                                w@ == c@.subrange(c1 as int, i as int),
                            decreases c2 - i,
                        {
                            w.push(c[i]);
                            i = i + 1;
                            assert(w@ =~= c@.subrange(c1 as int, i as int));
                        }
                        (Some(w), Change::Keep)
                    } else {
                        (None, Change::Keep)
                    }
                },
                None => {
                    proof {
                        lemma_operands_view(nodes@[e.index()]);
                        assert(nodes_view(nodes@)[e.index()] == node_view(nodes@[e.index()]));
                    }
                    match &nodes[e.id as usize] {
                        Node::Slice(ie, ic1, _) => {
                            assert(operands(nodes@[e.index()])[0] == *ie);
                            if *ic1 <= usize::MAX - c1 && *ic1 <= usize::MAX - c2 {
                                let x = Node::Slice(*ie, *ic1 + c1, *ic1 + c2);
                                assert(operands(x)[0] == *ie);
                                (None, Change::Become(x))
                            } else {
                                (None, Change::Keep)
                            }
                        },
                        _ => (None, Change::Keep),
                    }
                },
            }
        },
        Node::BiOp(op, a, b) => {
            assert(operands(nodes@[idx as int])[0] == a);
            assert(operands(nodes@[idx as int])[1] == b);
            let r1 = try_compute(nodes, a.id, mem, f);
            let r2 = try_compute(nodes, b.id, mem, f);
            biop_exec(op, r1, r2, a, b)
        },
        Node::Mux(a, b, c) => {
            assert(operands(nodes@[idx as int])[0] == a);
            assert(operands(nodes@[idx as int])[1] == b);
            assert(operands(nodes@[idx as int])[2] == c);
            let r1 = try_compute(nodes, a.id, mem, f);
            let ch = match &r1 {
                Some(v) => if v.len() > 0 {
                    Change::CopyOf(
                        if v[0] {
                            b
                        } else {
                            c
                        },
                    )
                } else {
                    Change::Keep
                },
                None => Change::Keep,
            };
            let r2 = try_compute(nodes, b.id, mem, f);
            let r3 = try_compute(nodes, c.id, mem, f);
            let r = match (r2, r3) {
                (Some(x), Some(y)) => if bits_eq(&x, &y) {
                    Some(x)
                } else {
                    None
                },
                _ => None,
            };
            (r, ch)
        },
        Node::Reg(_, e) => {
            assert(operands(nodes@[idx as int])[0] == e);
            let r = try_compute(nodes, e.id, mem, f);
            let r2 = match r {
                Some(v) => if no_bit_set(&v) {
                    Some(v)
                } else {
                    None
                },
                None => None,
            };
            (r2, Change::Keep)
        },
        _ => (None, Change::Keep),
    }
}

/// Propagates the constants of the graph from each output in turn; see `optimized`.
pub fn optimize(prog: &mut FlatProgramGraph)
    requires
        nodes_linked(old(prog).nodes@),
    ensures
        final(prog).outputs == old(prog).outputs,
        final(prog).inputs == old(prog).inputs,
        nodes_view(final(prog).nodes@) == optimized(
            nodes_view(old(prog).nodes@),
            old(prog).outputs@,
            old(prog).outputs@.len() as int,
        ),
        nodes_linked(final(prog).nodes@),
{
    let n = prog.nodes.len();
    let ghost n0 = nodes_view(prog.nodes@);
    let mut j: usize = 0;
    while j < prog.outputs.len()
        invariant
            j <= prog.outputs@.len(),
            n == prog.nodes@.len(),
            n0.len() == n,
            prog.outputs == old(prog).outputs,
            prog.inputs == old(prog).inputs,
            n0 == nodes_view(old(prog).nodes@),
            nodes_linked(prog.nodes@),
            nodes_view(prog.nodes@) == optimized(n0, prog.outputs@, j as int),
        decreases prog.outputs@.len() - j,
    {
        let id = prog.outputs[j].1.id;
        let mut mem: Vec<bool> = Vec::new();
        let mut k: usize = 0;
        while k < n
            invariant
                k <= n,
                mem@ == Seq::new(k as nat, |i: int| false),
            decreases n - k,
        {
            mem.push(false);
            k = k + 1;
            assert(mem@ =~= Seq::new(k as nat, |i: int| false));
        }
        let fuel = if n < usize::MAX {
            n + 1
        } else {
            n
        };
        try_compute(&mut prog.nodes, id, &mut mem, fuel);
        j = j + 1;
    }
}
} // verus!
