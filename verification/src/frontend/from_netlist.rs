//! Reading a netlist into the flat dataflow graph: each variable becomes the node of its
//! instruction, shared between its uses, an input becomes an input node, and a register
//! is tied to its argument once the whole graph is built (registers may form cycles).
use vstd::prelude::*;

use crate::ast::graph::{FlatProgramGraph, Node, RCell};
use crate::ast::BiOp;
use crate::backends::netlist::{nodes_linked, operands};
use crate::util::tables::{lemma_table_get_extend, lemma_table_get_push_new, table_get, table_lookup};

verus! {

/// An instruction of a netlist, its operands given by variable names.
#[derive(Debug)]
pub enum NetExpr {
    Const(Vec<bool>),
    Not(String),
    Reg(String),
    Var(String),
    BiOp(BiOp, String, String),
    Mux(String, String, String),
    Ram(String, String, String, String),
    Rom(String),
    Slice(String, usize, usize),
}

/// A parsed netlist: its inputs and outputs, the sizes of its variables, and the
/// instruction of each variable.
#[derive(Debug)]
pub struct Netlist {
    pub inputs: Vec<String>,
    pub outputs: Vec<String>,
    pub vars: Vec<(String, usize)>,
    pub instr: Vec<(String, NetExpr)>,
}

/// A graph under construction: its handles point into the arena, its input nodes are
/// inputs of the netlist, and each placeholder is waiting in `waiting`.
pub open spec fn building(nodes: Seq<Node>, n_inputs: nat, waiting: Seq<(String, RCell)>) -> bool {
    &&& nodes_linked(nodes)
    &&& forall|i: int| 0 <= i < nodes.len() ==> (#[trigger] nodes[i] matches Node::Input(k) ==> k < n_inputs)
    &&& forall|i: int| 0 <= i < waiting.len() ==> (#[trigger] waiting[i]).1.index() < nodes.len()
}

/// Every placeholder of `nodes` waits in `waiting`, at or after position `p`.
pub open spec fn placeholders_wait(nodes: Seq<Node>, waiting: Seq<(String, RCell)>, p: int) -> bool {
    forall|i: int| 0 <= i < nodes.len() && (#[trigger] nodes[i] is TmpValueHolder) ==> exists|j: int|
        p <= j < waiting.len() && #[trigger] waiting[j].1.index() == i
}

/// Every handle of the memo points into the arena.
pub open spec fn memo_linked(mem: Seq<(String, RCell)>, len: nat) -> bool {
    forall|i: int| 0 <= i < mem.len() ==> (#[trigger] mem[i]).1.index() < len
}

/// The first position of `s` among `names`, looking from `i` on.
pub open spec fn position_from(names: Seq<String>, s: Seq<char>, i: int) -> Option<int>
    decreases names.len() - i,
{
    if i < 0 || i >= names.len() {
        None
    } else if names[i]@ == s {
        Some(i)
    } else {
        position_from(names, s, i + 1)
    }
}

proof fn lemma_position_from(names: Seq<String>, s: Seq<char>, i: int)
    requires
        0 <= i,
    ensures
        position_from(names, s, i) matches Some(k) ==> i <= k < names.len(),
    decreases names.len() - i,
{
    if i < names.len() && names[i]@ != s {
        lemma_position_from(names, s, i + 1);
    }
}

/// The position of `s` among `names`: the first one.
fn position(names: &Vec<String>, s: &str) -> (r: Option<usize>)
    ensures
        match position_from(names@, s@, 0) {
            Some(k) => r == Some(k as usize) && 0 <= k < names@.len(),
            None => r is None,
        },
{
    proof {
        lemma_position_from(names@, s@, 0);
    }
    let mut i: usize = 0;
    while i < names.len()
        invariant
            i <= names@.len(),
            position_from(names@, s@, 0) == position_from(names@, s@, i as int),
        decreases names@.len() - i,
    {
        if crate::util::tables::string_eq_str(&names[i], s) {
            return Some(i);
        }
        i = i + 1;
    }
    None
}


/// The node `h` of the arena `nodes` is the one of the variable named `v` of the netlist, the
/// memo `m` giving the nodes of the other variables: an input node for an input, the node of
/// its instruction on the nodes of its operands otherwise, the node of its operand itself
/// for a plain copy. A register may still be a placeholder waiting, in `defer` from `p` on,
/// for the node of its argument.
pub open spec fn var_node_ok(
    nl: Netlist,
    nodes: Seq<Node>,
    m: Seq<(String, RCell)>,
    defer: Seq<(String, RCell)>,
    p: int,
    v: Seq<char>,
    h: RCell,
) -> bool {
    &&& h.index() < nodes.len()
    &&& match position_from(nl.inputs@, v, 0) {
        Some(k) => nodes[h.index()] == Node::Input(k as usize),
        None => match table_get(nl.instr@, v) {
            None => false,
            Some(e) => match e {
                NetExpr::Var(w) => table_get(m, w@) == Some(h),
                NetExpr::Const(c) => nodes[h.index()] matches Node::Const(d) && d@ == c@,
                NetExpr::Not(w) => nodes[h.index()] matches Node::Not(a) && table_get(m, w@) == Some(a),
                NetExpr::Reg(w) => (nodes[h.index()] matches Node::Reg(sz, a) && Some(sz) == table_get(nl.vars@, w@)
                    && table_get(m, w@) == Some(a)) || (nodes[h.index()] is TmpValueHolder && exists|j: int|
                    p <= j < defer.len() && #[trigger] defer[j].1 == h && defer[j].0@ == w@),
                NetExpr::Rom(w) => nodes[h.index()] matches Node::Rom(sz, a) && Some(sz) == table_get(nl.vars@, w@)
                    && table_get(m, w@) == Some(a),
                NetExpr::BiOp(op, x, y) => nodes[h.index()] matches Node::BiOp(op2, a, b) && op2 == op
                    && table_get(m, x@) == Some(a) && table_get(m, y@) == Some(b),
                NetExpr::Mux(x, y, z) => nodes[h.index()] matches Node::Mux(a, b, c) && table_get(m, x@) == Some(a)
                    && table_get(m, y@) == Some(b) && table_get(m, z@) == Some(c),
                NetExpr::Ram(x, y, z, w) => nodes[h.index()] matches Node::Ram(a, b, c, d) && table_get(m, x@) == Some(a)
                    && table_get(m, y@) == Some(b) && table_get(m, z@) == Some(c) && table_get(m, w@) == Some(d),
                NetExpr::Slice(w, c1, c2) => nodes[h.index()] matches Node::Slice(a, d1, d2) && d1 == c1 && d2 == c2
                    && table_get(m, w@) == Some(a),
            },
        },
    }
}

/// Every variable of the memo has its node; see `var_node_ok`.
pub open spec fn mem_ok(nl: Netlist, nodes: Seq<Node>, m: Seq<(String, RCell)>, defer: Seq<(String, RCell)>, p: int) -> bool {
    forall|v: Seq<char>| #[trigger] table_get(m, v) is Some ==> var_node_ok(nl, nodes, m, defer, p, v, table_get(m, v)->Some_0)
}

/// The registers waiting from `p` on are placeholders, each its own.
pub open spec fn defer_ok(nodes: Seq<Node>, defer: Seq<(String, RCell)>, p: int) -> bool {
    &&& forall|j: int| p <= j < defer.len() ==> (#[trigger] defer[j]).1.index() < nodes.len() && nodes[defer[j].1.index()] is TmpValueHolder
    &&& forall|j1: int, j2: int| 0 <= j1 < j2 < defer.len() ==> (#[trigger] defer[j1]).1 != (#[trigger] defer[j2]).1
}

/// The build only grows: the nodes, the memo and the waiting registers keep what they had.
pub open spec fn grows(
    n0: Seq<Node>,
    n1: Seq<Node>,
    m0: Seq<(String, RCell)>,
    m1: Seq<(String, RCell)>,
    d0: Seq<(String, RCell)>,
    d1: Seq<(String, RCell)>,
) -> bool {
    &&& n0.len() <= n1.len()
    &&& n1.subrange(0, n0.len() as int) == n0
    &&& m0.len() <= m1.len()
    &&& m1.subrange(0, m0.len() as int) == m0
    &&& d0.len() <= d1.len()
    &&& d1.subrange(0, d0.len() as int) == d0
}

/// The graph `g` is the one of the netlist `nl`, the memo `m` giving the node of each
/// variable: each output is the node of its variable, and each variable of the memo has
/// its node, registers included; see `var_node_ok`.
pub open spec fn netlist_graph(nl: Netlist, g: FlatProgramGraph, m: Seq<(String, RCell)>) -> bool {
    &&& forall|k: int| 0 <= k < g.outputs@.len() ==> table_get(m, nl.outputs@[k]@) == Some((#[trigger] g.outputs@[k]).1)
    &&& mem_ok(nl, g.nodes@, m, Seq::empty(), 0)
}

/// `w` is an operand of the instruction `e`.
pub open spec fn operand_of(e: NetExpr, w: Seq<char>) -> bool {
    match e {
        NetExpr::Const(_) => false,
        NetExpr::Not(x) => x@ == w,
        NetExpr::Reg(x) => x@ == w,
        NetExpr::Var(x) => x@ == w,
        NetExpr::Rom(x) => x@ == w,
        NetExpr::Slice(x, _, _) => x@ == w,
        NetExpr::BiOp(_, x, y) => x@ == w || y@ == w,
        NetExpr::Mux(x, y, z) => x@ == w || y@ == w || z@ == w,
        NetExpr::Ram(x, y, z, t) => x@ == w || y@ == w || z@ == w || t@ == w,
    }
}

/// A path of variables from an output, each next one an operand of the instruction of the
/// one before, none of which but the last is an input.
pub open spec fn path_ok(nl: Netlist, path: Seq<Seq<char>>) -> bool {
    &&& path.len() > 0
    &&& exists|k: int| 0 <= k < nl.outputs@.len() && #[trigger] nl.outputs@[k]@ == path[0]
    &&& forall|i: int| 0 <= i < path.len() - 1 ==> {
        &&& position_from(nl.inputs@, #[trigger] path[i], 0) is None
        &&& table_get(nl.instr@, path[i]) matches Some(e) && operand_of(e, path[i + 1])
    }
}

/// The variable `v` is needed to compute some output.
pub open spec fn reaches(nl: Netlist, v: Seq<char>) -> bool {
    exists|path: Seq<Seq<char>>| #[trigger] path_ok(nl, path) && path.last() == v
}

/// A chain of variables, none an input, each next one an operand of the instruction, other
/// than a register, of the one before.
pub open spec fn chain_ok(nl: Netlist, c: Seq<Seq<char>>) -> bool {
    &&& forall|i: int| 0 <= i < c.len() ==> position_from(nl.inputs@, #[trigger] c[i], 0) is None
    &&& forall|i: int| 0 <= i < c.len() - 1 ==> (table_get(nl.instr@, #[trigger] c[i]) matches Some(e)
        && !(e is Reg) && operand_of(e, c[i + 1]))
}

/// A chain of `d` dependencies from `v` through instructions other than registers.
pub open spec fn comb_chain(nl: Netlist, v: Seq<char>, d: nat) -> bool {
    exists|c: Seq<Seq<char>>| #[trigger] chain_ok(nl, c) && c.len() == d + 1 && c[0] == v
}

/// The depth of instructions the reading allows: one more than there are instructions (a
/// longer chain goes round a cycle that no register breaks).
pub open spec fn netlist_fuel(nl: Netlist) -> nat {
    if nl.instr@.len() == usize::MAX {
        nl.instr@.len()
    } else {
        nl.instr@.len() + 1
    }
}

/// A variable needed by an output, not an input, that cannot be built: it has no
/// instruction, it reads a ROM or a register whose argument has no size, or it starts a
/// chain of dependencies deeper than `netlist_fuel`.
pub open spec fn var_fault(nl: Netlist, v: Seq<char>) -> bool {
    &&& reaches(nl, v)
    &&& position_from(nl.inputs@, v, 0) is None
    &&& {
        ||| table_get(nl.instr@, v) is None
        ||| (table_get(nl.instr@, v) matches Some(NetExpr::Rom(w)) && table_get(nl.vars@, w@) is None)
        ||| (table_get(nl.instr@, v) matches Some(NetExpr::Reg(w)) && table_get(nl.vars@, w@) is None)
        ||| comb_chain(nl, v, netlist_fuel(nl))
    }
}

/// What keeps a netlist from being read: an input with no size, or a variable fault.
pub open spec fn netlist_fault(nl: Netlist) -> bool {
    ||| exists|k: int| 0 <= k < nl.inputs@.len() && #[trigger] table_get(nl.vars@, nl.inputs@[k]@) is None
    ||| exists|v: Seq<char>| #[trigger] var_fault(nl, v)
}

/// Each waiting register is the argument of the register of a variable needed by an output.
pub open spec fn defer_reached(nl: Netlist, defer: Seq<(String, RCell)>) -> bool {
    forall|j: int| 0 <= j < defer.len() ==> exists|v: Seq<char>| #[trigger] reaches(nl, v)
        && position_from(nl.inputs@, v, 0) is None
        && (table_get(nl.instr@, v) matches Some(NetExpr::Reg(w)) && w@ == (#[trigger] defer[j]).0@)
}

/// An operand of the instruction of a needed variable, not an input, is needed.
proof fn lemma_reach_operand(nl: Netlist, v: Seq<char>, e: NetExpr, w: Seq<char>)
    requires
        reaches(nl, v),
        position_from(nl.inputs@, v, 0) is None,
        table_get(nl.instr@, v) == Some(e),
        operand_of(e, w),
    ensures
        reaches(nl, w),
{
    let path = choose|path: Seq<Seq<char>>| #[trigger] path_ok(nl, path) && path.last() == v;
    let p2 = path.push(w);
    let k = choose|k: int| 0 <= k < nl.outputs@.len() && #[trigger] nl.outputs@[k]@ == path[0];
    assert(nl.outputs@[k]@ == p2[0]);
    assert forall|i: int| 0 <= i < p2.len() - 1 implies {
        &&& position_from(nl.inputs@, #[trigger] p2[i], 0) is None
        &&& table_get(nl.instr@, p2[i]) matches Some(e) && operand_of(e, p2[i + 1])
    } by {
        if i < path.len() - 1 {
            assert(p2[i] == path[i] && p2[i + 1] == path[i + 1]);
        } else {
            assert(p2[i] == v && p2[i + 1] == w);
        }
    }
    assert(path_ok(nl, p2));
}

/// A chain from an operand of `v`'s instruction, other than a register, is one step
/// shorter than a chain from `v`.
proof fn lemma_chain_step(nl: Netlist, v: Seq<char>, e: NetExpr, w: Seq<char>, d: nat)
    requires
        position_from(nl.inputs@, v, 0) is None,
        table_get(nl.instr@, v) == Some(e),
        !(e is Reg),
        operand_of(e, w),
        comb_chain(nl, w, d),
    ensures
        comb_chain(nl, v, d + 1),
{
    let c = choose|c: Seq<Seq<char>>| #[trigger] chain_ok(nl, c) && c.len() == d + 1 && c[0] == w;
    let c2 = seq![v] + c;
    assert forall|i: int| 0 <= i < c2.len() implies position_from(nl.inputs@, #[trigger] c2[i], 0) is None by {
        if i > 0 {
            assert(c2[i] == c[i - 1]);
        }
    }
    assert forall|i: int| 0 <= i < c2.len() - 1 implies (table_get(nl.instr@, #[trigger] c2[i]) matches Some(e)
        && !(e is Reg) && operand_of(e, c2[i + 1])) by {
        if i > 0 {
            assert(c2[i] == c[i - 1] && c2[i + 1] == c[i]);
        } else {
            assert(c2[1] == c[0]);
        }
    }
    assert(chain_ok(nl, c2));
}

/// A variable that is not an input starts a chain of no dependency.
proof fn lemma_chain_base(nl: Netlist, v: Seq<char>)
    requires
        position_from(nl.inputs@, v, 0) is None,
    ensures
        comb_chain(nl, v, 0),
{
    let c = seq![v];
    assert(c[0] == v);
    assert(chain_ok(nl, c));
}

/// The start of a chain is not an input.
proof fn lemma_chain_start(nl: Netlist, v: Seq<char>, d: nat)
    requires
        comb_chain(nl, v, d),
    ensures
        position_from(nl.inputs@, v, 0) is None,
{
    let c = choose|c: Seq<Seq<char>>| #[trigger] chain_ok(nl, c) && c.len() == d + 1 && c[0] == v;
    assert(position_from(nl.inputs@, c[0], 0) is None);
}

/// Each waiting register is the memoized node of a variable that has an instruction.
pub open spec fn defer_named(nl: Netlist, m: Seq<(String, RCell)>, d: Seq<(String, RCell)>) -> bool {
    forall|j: int| 0 <= j < d.len() ==> exists|v: Seq<char>| #[trigger] table_get(m, v) == Some((#[trigger] d[j]).1)
        && table_get(nl.instr@, v) is Some
}

/// No more numbers below `m` than below `n` can be told apart by a map into `[0, n)`.
proof fn lemma_injective_bound(f: spec_fn(int) -> int, m: int, n: int)
    requires
        0 <= m,
        0 <= n,
        forall|i: int| 0 <= i < m ==> 0 <= #[trigger] f(i) < n,
        forall|i: int, j: int| 0 <= i < m && 0 <= j < m && i != j ==> #[trigger] f(i) != #[trigger] f(j),
    ensures
        m <= n,
{
    let x = vstd::set_lib::set_int_range(0, m);
    let y = x.map(f);
    let z = vstd::set_lib::set_int_range(0, n);
    vstd::set_lib::lemma_int_range(0, m);
    vstd::set_lib::lemma_int_range(0, n);
    assert(vstd::relations::injective_on(f, x));
    vstd::set_lib::lemma_map_size(x, y, f);
    assert forall|a: int| y.contains(a) implies z.contains(a) by {
        let i = choose|i: int| x.contains(i) && f(i) == a;
    }
    vstd::set_lib::lemma_len_subset(y, z);
}

/// The name of the variable whose memoized node is `h` (one with an instruction).
spec fn holder_of(nl: Netlist, m: Seq<(String, RCell)>, h: RCell) -> Seq<char> {
    choose|v: Seq<char>| table_get(m, v) == Some(h) && table_get(nl.instr@, v) is Some
}

/// The position of an instruction of `v`.
spec fn instr_index(nl: Netlist, v: Seq<char>) -> int {
    choose|i: int| 0 <= i < nl.instr@.len() && nl.instr@[i].0@ == v
}

/// There are no more waiting registers than instructions.
proof fn lemma_defer_bound(nl: Netlist, m: Seq<(String, RCell)>, d: Seq<(String, RCell)>)
    requires
        defer_named(nl, m, d),
        forall|j1: int, j2: int| 0 <= j1 < j2 < d.len() ==> (#[trigger] d[j1]).1 != (#[trigger] d[j2]).1,
    ensures
        d.len() <= nl.instr@.len(),
{
    let f = |j: int| instr_index(nl, holder_of(nl, m, d[j].1));
    assert forall|j: int| 0 <= j < d.len() implies 0 <= #[trigger] f(j) < nl.instr@.len()
        && nl.instr@[f(j)].0@ == holder_of(nl, m, d[j].1)
        && table_get(m, holder_of(nl, m, d[j].1)) == Some(d[j].1) by {
        let v = choose|v: Seq<char>| #[trigger] table_get(m, v) == Some(d[j].1) && table_get(nl.instr@, v) is Some;
        let hv = holder_of(nl, m, d[j].1);
        crate::util::tables::lemma_table_get_from_index(nl.instr@, hv, 0);
    }
    assert forall|i: int, j: int| 0 <= i < d.len() && 0 <= j < d.len() && i != j implies #[trigger] f(i) != #[trigger] f(j) by {
        if f(i) == f(j) {
            if i < j {
                assert(d[i].1 != d[j].1);
            } else {
                assert(d[j].1 != d[i].1);
            }
        }
    }
    lemma_injective_bound(f, d.len() as int, nl.instr@.len() as int);
}

/// The waiting registers keep their variables as the memo grows.
proof fn lemma_defer_named_extend(nl: Netlist, m0: Seq<(String, RCell)>, m1: Seq<(String, RCell)>, d: Seq<(String, RCell)>)
    requires
        defer_named(nl, m0, d),
        m0.len() <= m1.len(),
        m1.subrange(0, m0.len() as int) == m0,
    ensures
        defer_named(nl, m1, d),
{
    assert forall|j: int| 0 <= j < d.len() implies exists|v: Seq<char>| #[trigger] table_get(m1, v) == Some((#[trigger] d[j]).1)
        && table_get(nl.instr@, v) is Some by {
        let v = choose|v: Seq<char>| #[trigger] table_get(m0, v) == Some(d[j].1) && table_get(nl.instr@, v) is Some;
        lemma_table_get_extend(m0, m1, v);
        assert(table_get(m1, v) == Some(d[j].1));
    }
}

/// An output is needed.
proof fn lemma_reach_output(nl: Netlist, k: int)
    requires
        0 <= k < nl.outputs@.len(),
    ensures
        reaches(nl, nl.outputs@[k]@),
{
    let path = seq![nl.outputs@[k]@];
    assert(nl.outputs@[k]@ == path[0]);
    assert(path_ok(nl, path));
}

proof fn lemma_grows_trans(
    n0: Seq<Node>, n1: Seq<Node>, n2: Seq<Node>,
    m0: Seq<(String, RCell)>, m1: Seq<(String, RCell)>, m2: Seq<(String, RCell)>,
    d0: Seq<(String, RCell)>, d1: Seq<(String, RCell)>, d2: Seq<(String, RCell)>,
)
    requires
        grows(n0, n1, m0, m1, d0, d1),
        grows(n1, n2, m1, m2, d1, d2),
    ensures
        grows(n0, n2, m0, m2, d0, d2),
{
    assert forall|i: int| 0 <= i < n0.len() implies n2[i] == n0[i] by {
        assert(n2.subrange(0, n1.len() as int)[i] == n2[i]);
        assert(n1.subrange(0, n0.len() as int)[i] == n1[i]);
    }
    assert(n2.subrange(0, n0.len() as int) =~= n0);
    assert forall|i: int| 0 <= i < m0.len() implies m2[i] == m0[i] by {
        assert(m2.subrange(0, m1.len() as int)[i] == m2[i]);
        assert(m1.subrange(0, m0.len() as int)[i] == m1[i]);
    }
    assert(m2.subrange(0, m0.len() as int) =~= m0);
    assert forall|i: int| 0 <= i < d0.len() implies d2[i] == d0[i] by {
        assert(d2.subrange(0, d1.len() as int)[i] == d2[i]);
        assert(d1.subrange(0, d0.len() as int)[i] == d1[i]);
    }
    assert(d2.subrange(0, d0.len() as int) =~= d0);
}

proof fn lemma_grows_refl(n0: Seq<Node>, m0: Seq<(String, RCell)>, d0: Seq<(String, RCell)>)
    ensures
        grows(n0, n0, m0, m0, d0, d0),
{
    assert(n0.subrange(0, n0.len() as int) =~= n0);
    assert(m0.subrange(0, m0.len() as int) =~= m0);
    assert(d0.subrange(0, d0.len() as int) =~= d0);
}

/// The variable `v` keeps its node as the build grows.
proof fn lemma_var_node_grows(
    nl: Netlist,
    n0: Seq<Node>, n1: Seq<Node>,
    m0: Seq<(String, RCell)>, m1: Seq<(String, RCell)>,
    d0: Seq<(String, RCell)>, d1: Seq<(String, RCell)>,
    p: int, v: Seq<char>, h: RCell,
)
    requires
        0 <= p,
        grows(n0, n1, m0, m1, d0, d1),
        var_node_ok(nl, n0, m0, d0, p, v, h),
    ensures
        var_node_ok(nl, n1, m1, d1, p, v, h),
{
    assert(n1.subrange(0, n0.len() as int)[h.index()] == n1[h.index()]);
    assert forall|w: Seq<char>| table_get(m0, w) is Some implies #[trigger] table_get(m1, w) == table_get(m0, w) by {
        lemma_table_get_extend(m0, m1, w);
    }
    match position_from(nl.inputs@, v, 0) {
        Some(k) => {},
        None => match table_get(nl.instr@, v) {
            None => {},
            Some(e) => match e {
                NetExpr::Var(w) => {},
                NetExpr::Const(c) => {},
                NetExpr::Not(w) => {},
                NetExpr::Reg(w) => {
                    if n0[h.index()] is TmpValueHolder && exists|j: int| p <= j < d0.len() && #[trigger] d0[j].1 == h && d0[j].0@ == w@ {
                        let j = choose|j: int| p <= j < d0.len() && #[trigger] d0[j].1 == h && d0[j].0@ == w@;
                        assert(d1.subrange(0, d0.len() as int)[j] == d1[j]);
                    }
                },
                NetExpr::Rom(w) => {},
                NetExpr::BiOp(op, x, y) => {},
                NetExpr::Mux(x, y, z) => {},
                NetExpr::Ram(x, y, z, w) => {},
                NetExpr::Slice(w, c1, c2) => {},
            },
        },
    }
}

/// The memo keeps its nodes as the build grows.
proof fn lemma_mem_grows(
    nl: Netlist,
    n0: Seq<Node>, n1: Seq<Node>,
    m0: Seq<(String, RCell)>, m1: Seq<(String, RCell)>,
    d0: Seq<(String, RCell)>, d1: Seq<(String, RCell)>,
    p: int,
)
    requires
        0 <= p,
        grows(n0, n1, m0, m1, d0, d1),
        mem_ok(nl, n0, m0, d0, p),
        forall|v: Seq<char>| #[trigger] table_get(m1, v) is Some ==> table_get(m0, v) is Some,
    ensures
        mem_ok(nl, n1, m1, d1, p),
{
    assert forall|v: Seq<char>| #[trigger] table_get(m1, v) is Some implies var_node_ok(nl, n1, m1, d1, p, v, table_get(m1, v)->Some_0) by {
        lemma_table_get_extend(m0, m1, v);
        lemma_var_node_grows(nl, n0, n1, m0, m1, d0, d1, p, v, table_get(m0, v)->Some_0);
    }
}

/// Adds a node whose operands are in the arena.
fn add_node(nodes: &mut Vec<Node>, n: Node, Ghost(waiting): Ghost<Seq<(String, RCell)>>, Ghost(p): Ghost<int>) -> (r: RCell)
    requires
        nodes_linked(old(nodes)@),
        forall|j: int| 0 <= j < operands(n).len() ==> (#[trigger] operands(n)[j]).index() < old(nodes)@.len(),
        placeholders_wait(old(nodes)@, waiting, p),
        !(n is TmpValueHolder),
    ensures
        final(nodes)@ == old(nodes)@.push(n),
        r.index() == old(nodes)@.len(),
        nodes_linked(final(nodes)@),
        placeholders_wait(final(nodes)@, waiting, p),
{
    let r = RCell::new(nodes, n);
    proof {
        assert forall|i: int| 0 <= i < nodes@.len() && (#[trigger] nodes@[i] is TmpValueHolder) implies exists|j: int|
            p <= j < waiting.len() && #[trigger] waiting[j].1.index() == i by {
            assert(nodes@[i] == old(nodes)@[i]);
        }
        assert forall|i: int, j: int| 0 <= i < nodes@.len() && 0 <= j < operands(nodes@[i]).len() implies (#[trigger] operands(nodes@[i])[j]).index() < nodes@.len() by {
            if i < old(nodes)@.len() {
                assert(nodes@[i] == old(nodes)@[i]);
            }
        }
    }
    r
}

/// Adding a node keeps the memo and the waiting registers right.
proof fn lemma_add_node(nl: Netlist, n0: Seq<Node>, n1: Seq<Node>, m: Seq<(String, RCell)>, d: Seq<(String, RCell)>, p: int, x: Node)
    requires
        0 <= p,
        n1 == n0.push(x),
        mem_ok(nl, n0, m, d, p),
        defer_ok(n0, d, p),
    ensures
        mem_ok(nl, n1, m, d, p),
        defer_ok(n1, d, p),
        grows(n0, n1, m, m, d, d),
{
    assert(n1.subrange(0, n0.len() as int) =~= n0);
    assert(m.subrange(0, m.len() as int) =~= m);
    assert(d.subrange(0, d.len() as int) =~= d);
    lemma_mem_grows(nl, n0, n1, m, m, d, d, p);
    assert forall|j: int| p <= j < d.len() implies (#[trigger] d[j]).1.index() < n1.len() && n1[d[j].1.index()] is TmpValueHolder by {
        assert(n1[d[j].1.index()] == n0[d[j].1.index()]);
    }
}

/// Recording the node `h` of a variable new to the memo keeps the memo right.
proof fn lemma_push_mem(nl: Netlist, n: Seq<Node>, m: Seq<(String, RCell)>, d: Seq<(String, RCell)>, p: int, var: String, h: RCell)
    requires
        0 <= p,
        mem_ok(nl, n, m, d, p),
        table_get(m, var@) is None,
        var_node_ok(nl, n, m, d, p, var@, h),
    ensures
        mem_ok(nl, n, m.push((var, h)), d, p),
        grows(n, n, m, m.push((var, h)), d, d),
        table_get(m.push((var, h)), var@) == Some(h),
{
    let m1 = m.push((var, h));
    assert(n.subrange(0, n.len() as int) =~= n);
    assert(m1.subrange(0, m.len() as int) =~= m);
    assert(d.subrange(0, d.len() as int) =~= d);
    lemma_table_get_push_new(m, var, h);
    assert forall|v: Seq<char>| #[trigger] table_get(m1, v) is Some implies var_node_ok(nl, n, m1, d, p, v, table_get(m1, v)->Some_0) by {
        if v == var@ {
            lemma_var_node_grows(nl, n, n, m, m1, d, d, p, var@, h);
        } else {
            crate::util::tables::lemma_table_get_other_push(m, var, h, v);
            lemma_var_node_grows(nl, n, n, m, m1, d, d, p, v, table_get(m, v)->Some_0);
        }
    }
}

/// The node of the operand `w` of an instruction being built from the build `(n0, m0, d0)`;
/// see `node_from_var`.
fn operand_node(
    w: &String,
    netlist: &Netlist,
    nodes: &mut Vec<Node>,
    mem: &mut Vec<(String, RCell)>,
    defer: &mut Vec<(String, RCell)>,
    fuel: usize,
    Ghost(p): Ghost<int>,
    Ghost(n0): Ghost<Seq<Node>>,
    Ghost(m0): Ghost<Seq<(String, RCell)>>,
    Ghost(d0): Ghost<Seq<(String, RCell)>>,
    Ghost(v): Ghost<Seq<char>>,
    Ghost(e): Ghost<NetExpr>,
) -> (r: Option<RCell>)
    requires
        reaches(*netlist, v),
        position_from(netlist.inputs@, v, 0) is None,
        table_get(netlist.instr@, v) == Some(e),
        !(e is Reg),
        operand_of(e, w@),
        fuel < usize::MAX,
        defer_reached(*netlist, old(defer)@),
        building(old(nodes)@, netlist.inputs@.len() as nat, old(defer)@),
        memo_linked(old(mem)@, old(nodes)@.len()),
        placeholders_wait(old(nodes)@, old(defer)@, p),
        0 <= p <= old(defer)@.len(),
        mem_ok(*netlist, old(nodes)@, old(mem)@, old(defer)@, p),
        defer_ok(old(nodes)@, old(defer)@, p),
        defer_named(*netlist, old(mem)@, old(defer)@),
        grows(n0, old(nodes)@, m0, old(mem)@, d0, old(defer)@),
    ensures
        building(final(nodes)@, netlist.inputs@.len() as nat, final(defer)@),
        memo_linked(final(mem)@, final(nodes)@.len()),
        placeholders_wait(final(nodes)@, final(defer)@, p),
        r matches Some(h) ==> h.index() < final(nodes)@.len(),
        grows(old(nodes)@, final(nodes)@, old(mem)@, final(mem)@, old(defer)@, final(defer)@),
        grows(n0, final(nodes)@, m0, final(mem)@, d0, final(defer)@),
        mem_ok(*netlist, final(nodes)@, final(mem)@, final(defer)@, p),
        defer_ok(final(nodes)@, final(defer)@, p),
        defer_named(*netlist, final(mem)@, final(defer)@),
        r matches Some(h) ==> table_get(final(mem)@, w@) == Some(h),
        defer_reached(*netlist, final(defer)@),
        r is None ==> netlist_fault(*netlist) || comb_chain(*netlist, v, (fuel + 1) as nat),
    decreases fuel, 1int,
{
    let ghost (n1, m1, d1) = (nodes@, mem@, defer@);
    proof {
        lemma_reach_operand(*netlist, v, e, w@);
    }
    let r = node_from_var(w, netlist, nodes, mem, defer, fuel, Ghost(p));
    proof {
        lemma_grows_trans(n0, n1, nodes@, m0, m1, mem@, d0, d1, defer@);
        if r is None && !netlist_fault(*netlist) {
            lemma_chain_step(*netlist, v, e, w@, fuel as nat);
        }
    }
    r
}

/// The node of the variable `var`: the memoized one, an input node, or a new node of its
/// instruction (a register waits, as a placeholder, for its argument). `None` for an unknown
/// variable, or when the instructions go deeper than `fuel` (a cycle that no register
/// breaks).
#[verifier::spinoff_prover]
#[verifier::rlimit(40)]
fn node_from_var(
    var: &String,
    netlist: &Netlist,
    nodes: &mut Vec<Node>,
    mem: &mut Vec<(String, RCell)>,
    defer: &mut Vec<(String, RCell)>,
    fuel: usize,
    Ghost(p): Ghost<int>,
) -> (r: Option<RCell>)
    requires
        reaches(*netlist, var@),
        defer_reached(*netlist, old(defer)@),
        building(old(nodes)@, netlist.inputs@.len() as nat, old(defer)@),
        memo_linked(old(mem)@, old(nodes)@.len()),
        placeholders_wait(old(nodes)@, old(defer)@, p),
        0 <= p <= old(defer)@.len(),
        mem_ok(*netlist, old(nodes)@, old(mem)@, old(defer)@, p),
        defer_ok(old(nodes)@, old(defer)@, p),
        defer_named(*netlist, old(mem)@, old(defer)@),
    ensures
        defer_reached(*netlist, final(defer)@),
        r is None ==> netlist_fault(*netlist) || comb_chain(*netlist, var@, fuel as nat),
        building(final(nodes)@, netlist.inputs@.len() as nat, final(defer)@),
        memo_linked(final(mem)@, final(nodes)@.len()),
        final(nodes)@.len() >= old(nodes)@.len(),
        forall|i: int| 0 <= i < old(nodes)@.len() ==> #[trigger] final(nodes)@[i] == old(nodes)@[i],
        final(defer)@.len() >= old(defer)@.len(),
        forall|i: int| 0 <= i < old(defer)@.len() ==> #[trigger] final(defer)@[i] == old(defer)@[i],
        placeholders_wait(final(nodes)@, final(defer)@, p),
        r matches Some(h) ==> h.index() < final(nodes)@.len(),
        grows(old(nodes)@, final(nodes)@, old(mem)@, final(mem)@, old(defer)@, final(defer)@),
        mem_ok(*netlist, final(nodes)@, final(mem)@, final(defer)@, p),
        defer_ok(final(nodes)@, final(defer)@, p),
        defer_named(*netlist, final(mem)@, final(defer)@),
        r matches Some(h) ==> table_get(final(mem)@, var@) == Some(h),
    decreases fuel, 0int,
{
    let ghost n0 = nodes@;
    let ghost m0 = mem@;
    let ghost d0 = defer@;
    let ghost nl = *netlist;
    proof {
        lemma_grows_refl(n0, m0, d0);
    }
    match table_lookup(mem, var.as_str()) {
        Some(h) => {
            proof {
                crate::util::tables::lemma_table_get_from_index(mem@, var@, 0);
            }
            return Some(*h);
        },
        None => {},
    }
    match position(&netlist.inputs, var.as_str()) {
        Some(i) => {
            let h = add_node(nodes, Node::Input(i), Ghost(defer@), Ghost(p));
            let vc = var.clone();
            proof {
                lemma_add_node(nl, n0, nodes@, m0, d0, p, Node::Input(i));
                assert(var_node_ok(nl, nodes@, m0, d0, p, var@, h));
                lemma_push_mem(nl, nodes@, m0, d0, p, vc, h);
                lemma_grows_trans(n0, nodes@, nodes@, m0, m0, m0.push((vc, h)), d0, d0, d0);
            }
            mem.push((vc, h));
            proof {
                assert(mem@.subrange(0, m0.len() as int) =~= m0);
                lemma_defer_named_extend(nl, m0, mem@, defer@);
            }
            return Some(h);
        },
        None => {},
    }
    if fuel == 0 {
        proof {
            lemma_chain_base(nl, var@);
        }
        return None;
    }
    let e = match table_lookup(&netlist.instr, var.as_str()) {
        Some(e) => e,
        None => {
            proof {
                assert(var_fault(nl, var@));
            }
            return None;
        },
    };
    let ghost mut reg_case = false;
    let h = match e {
        NetExpr::Var(w) => {
            match operand_node(w, netlist, nodes, mem, defer, fuel - 1, Ghost(p), Ghost(n0), Ghost(m0), Ghost(d0), Ghost(var@), Ghost(*e)) {
                Some(h) => h,
                None => {
                    return None;
                },
            }
        },
        NetExpr::Const(c) => {
            let x = Node::Const(crate::interpreters::low_level_interpreter::copy_bits(c));
            let ghost nb = nodes@;
            let h = add_node(nodes, x, Ghost(defer@), Ghost(p));
            proof {
                lemma_add_node(nl, nb, nodes@, mem@, defer@, p, x);
            }
            h
        },
        NetExpr::Not(w) => {
            let a = match operand_node(w, netlist, nodes, mem, defer, fuel - 1, Ghost(p), Ghost(n0), Ghost(m0), Ghost(d0), Ghost(var@), Ghost(*e)) {
                Some(a) => a,
                None => {
                    return None;
                },
            };
            let ghost nb = nodes@;
            let h = add_node(nodes, Node::Not(a), Ghost(defer@), Ghost(p));
            proof {
                lemma_add_node(nl, nb, nodes@, mem@, defer@, p, Node::Not(a));
                lemma_grows_trans(n0, nb, nodes@, m0, mem@, mem@, d0, defer@, defer@);
            }
            h
        },
        NetExpr::Reg(w) => {
            let ghost nb = nodes@;
            let h = RCell::new(nodes, Node::TmpValueHolder(defer.len()));
            let ghost db = defer@;
            defer.push((w.clone(), h));
            proof {
                reg_case = true;
                assert(defer@.drop_last() =~= db);
                assert(mem@ == m0);
                assert(defer@[defer@.len() - 1].1.index() == h.index());
                assert forall|i: int, j: int| 0 <= i < nodes@.len() && 0 <= j < operands(nodes@[i]).len() implies (#[trigger] operands(nodes@[i])[j]).index() < nodes@.len() by {
                    if i < nb.len() {
                        assert(nodes@[i] == nb[i]);
                    }
                }
                assert forall|i: int| 0 <= i < nodes@.len() && (#[trigger] nodes@[i] is TmpValueHolder) implies exists|j: int|
                    p <= j < defer@.len() && #[trigger] defer@[j].1.index() == i by {
                    if i < nb.len() {
                        assert(nodes@[i] == nb[i]);
                        assert(nb[i] is TmpValueHolder);
                        let j = choose|j: int| p <= j < db.len() && #[trigger] db[j].1.index() == i;
                        assert(defer@[j] == db[j]);
                        assert(defer@[j].1.index() == i);
                    } else {
                        assert(defer@[db.len() as int].1.index() == i);
                    }
                }
                assert forall|i: int| 0 <= i < nodes@.len() implies (#[trigger] nodes@[i] matches Node::Input(k) ==> k < netlist.inputs@.len()) by {
                    if i < nb.len() {
                        assert(nodes@[i] == nb[i]);
                    }
                }
                assert(nodes@.subrange(0, nb.len() as int) =~= nb);
                assert(defer@.subrange(0, db.len() as int) =~= db);
                assert(mem@.subrange(0, mem@.len() as int) =~= mem@);
                lemma_mem_grows(nl, nb, nodes@, mem@, mem@, db, defer@, p);
                assert forall|j: int| p <= j < defer@.len() implies (#[trigger] defer@[j]).1.index() < nodes@.len() && nodes@[defer@[j].1.index()] is TmpValueHolder by {
                    if j < db.len() {
                        assert(defer@[j] == db[j]);
                        assert(nodes@[db[j].1.index()] == nb[db[j].1.index()]);
                    }
                }
                assert forall|j1: int, j2: int| 0 <= j1 < j2 < defer@.len() implies (#[trigger] defer@[j1]).1 != (#[trigger] defer@[j2]).1 by {
                    if j2 < db.len() {
                        assert(defer@[j1] == db[j1]);
                        assert(defer@[j2] == db[j2]);
                    } else {
                        assert(defer@[j1] == db[j1]);
                    }
                }
                assert(defer@[db.len() as int].1 == h && defer@[db.len() as int].0@ == w@);
                assert forall|j: int| 0 <= j < defer@.len() implies exists|u: Seq<char>| #[trigger] reaches(nl, u)
                    && position_from(nl.inputs@, u, 0) is None
                    && (table_get(nl.instr@, u) matches Some(NetExpr::Reg(x)) && x@ == (#[trigger] defer@[j]).0@) by {
                    if j < db.len() {
                        assert(defer@[j] == db[j]);
                    } else {
                        assert(reaches(nl, var@));
                    }
                }
                lemma_grows_trans(n0, n0, nodes@, m0, m0, mem@, d0, d0, defer@);
            }
            h
        },
        NetExpr::Rom(w) => {
            let size = match table_lookup(&netlist.vars, w.as_str()) {
                Some(s) => *s,
                None => {
                    proof {
                        assert(var_fault(nl, var@));
                    }
                    return None;
                },
            };
            let a = match operand_node(w, netlist, nodes, mem, defer, fuel - 1, Ghost(p), Ghost(n0), Ghost(m0), Ghost(d0), Ghost(var@), Ghost(*e)) {
                Some(a) => a,
                None => {
                    return None;
                },
            };
            let ghost nb = nodes@;
            let h = add_node(nodes, Node::Rom(size, a), Ghost(defer@), Ghost(p));
            proof {
                lemma_add_node(nl, nb, nodes@, mem@, defer@, p, Node::Rom(size, a));
                lemma_grows_trans(n0, nb, nodes@, m0, mem@, mem@, d0, defer@, defer@);
            }
            h
        },
        NetExpr::BiOp(op, v1, v2) => {
            let a = match operand_node(v1, netlist, nodes, mem, defer, fuel - 1, Ghost(p), Ghost(n0), Ghost(m0), Ghost(d0), Ghost(var@), Ghost(*e)) {
                Some(a) => a,
                None => {
                    return None;
                },
            };
            let ghost (n1, m1, d1) = (nodes@, mem@, defer@);
            let b = match operand_node(v2, netlist, nodes, mem, defer, fuel - 1, Ghost(p), Ghost(n0), Ghost(m0), Ghost(d0), Ghost(var@), Ghost(*e)) {
                Some(b) => b,
                None => {
                    return None;
                },
            };
            let ghost nb = nodes@;
            let h = add_node(nodes, Node::BiOp(*op, a, b), Ghost(defer@), Ghost(p));
            proof {
                lemma_table_get_extend(m1, mem@, v1@);
                lemma_add_node(nl, nb, nodes@, mem@, defer@, p, Node::BiOp(*op, a, b));
                lemma_grows_trans(n0, n1, nb, m0, m1, mem@, d0, d1, defer@);
                lemma_grows_trans(n0, nb, nodes@, m0, mem@, mem@, d0, defer@, defer@);
            }
            h
        },
        NetExpr::Mux(v1, v2, v3) => {
            let a = match operand_node(v1, netlist, nodes, mem, defer, fuel - 1, Ghost(p), Ghost(n0), Ghost(m0), Ghost(d0), Ghost(var@), Ghost(*e)) {
                Some(a) => a,
                None => {
                    return None;
                },
            };
            let ghost (n1, m1, d1) = (nodes@, mem@, defer@);
            let b = match operand_node(v2, netlist, nodes, mem, defer, fuel - 1, Ghost(p), Ghost(n0), Ghost(m0), Ghost(d0), Ghost(var@), Ghost(*e)) {
                Some(b) => b,
                None => {
                    return None;
                },
            };
            let ghost (n2, m2, d2) = (nodes@, mem@, defer@);
            let c = match operand_node(v3, netlist, nodes, mem, defer, fuel - 1, Ghost(p), Ghost(n0), Ghost(m0), Ghost(d0), Ghost(var@), Ghost(*e)) {
                Some(c) => c,
                None => {
                    return None;
                },
            };
            let ghost nb = nodes@;
            let h = add_node(nodes, Node::Mux(a, b, c), Ghost(defer@), Ghost(p));
            proof {
                lemma_grows_trans(n1, n2, nb, m1, m2, mem@, d1, d2, defer@);
                lemma_table_get_extend(m1, mem@, v1@);
                lemma_table_get_extend(m2, mem@, v2@);
                lemma_add_node(nl, nb, nodes@, mem@, defer@, p, Node::Mux(a, b, c));
                lemma_grows_trans(n0, n1, nb, m0, m1, mem@, d0, d1, defer@);
                lemma_grows_trans(n0, nb, nodes@, m0, mem@, mem@, d0, defer@, defer@);
            }
            h
        },
        NetExpr::Ram(v1, v2, v3, v4) => {
            let a = match operand_node(v1, netlist, nodes, mem, defer, fuel - 1, Ghost(p), Ghost(n0), Ghost(m0), Ghost(d0), Ghost(var@), Ghost(*e)) {
                Some(a) => a,
                None => {
                    return None;
                },
            };
            let ghost (n1, m1, d1) = (nodes@, mem@, defer@);
            let b = match operand_node(v2, netlist, nodes, mem, defer, fuel - 1, Ghost(p), Ghost(n0), Ghost(m0), Ghost(d0), Ghost(var@), Ghost(*e)) {
                Some(b) => b,
                None => {
                    return None;
                },
            };
            let ghost (n2, m2, d2) = (nodes@, mem@, defer@);
            let c = match operand_node(v3, netlist, nodes, mem, defer, fuel - 1, Ghost(p), Ghost(n0), Ghost(m0), Ghost(d0), Ghost(var@), Ghost(*e)) {
                Some(c) => c,
                None => {
                    return None;
                },
            };
            let ghost (n3, m3, d3) = (nodes@, mem@, defer@);
            let d = match operand_node(v4, netlist, nodes, mem, defer, fuel - 1, Ghost(p), Ghost(n0), Ghost(m0), Ghost(d0), Ghost(var@), Ghost(*e)) {
                Some(d) => d,
                None => {
                    return None;
                },
            };
            let ghost nb = nodes@;
            let h = add_node(nodes, Node::Ram(a, b, c, d), Ghost(defer@), Ghost(p));
            proof {
                lemma_grows_trans(n2, n3, nb, m2, m3, mem@, d2, d3, defer@);
                lemma_grows_trans(n1, n2, nb, m1, m2, mem@, d1, d2, defer@);
                lemma_table_get_extend(m1, mem@, v1@);
                lemma_table_get_extend(m2, mem@, v2@);
                lemma_table_get_extend(m3, mem@, v3@);
                lemma_add_node(nl, nb, nodes@, mem@, defer@, p, Node::Ram(a, b, c, d));
                lemma_grows_trans(n0, n1, nb, m0, m1, mem@, d0, d1, defer@);
                lemma_grows_trans(n0, nb, nodes@, m0, mem@, mem@, d0, defer@, defer@);
            }
            h
        },
        NetExpr::Slice(w, c1, c2) => {
            let a = match operand_node(w, netlist, nodes, mem, defer, fuel - 1, Ghost(p), Ghost(n0), Ghost(m0), Ghost(d0), Ghost(var@), Ghost(*e)) {
                Some(a) => a,
                None => {
                    return None;
                },
            };
            let ghost nb = nodes@;
            let h = add_node(nodes, Node::Slice(a, *c1, *c2), Ghost(defer@), Ghost(p));
            proof {
                lemma_add_node(nl, nb, nodes@, mem@, defer@, p, Node::Slice(a, *c1, *c2));
                lemma_grows_trans(n0, nb, nodes@, m0, mem@, mem@, d0, defer@, defer@);
            }
            h
        },
    };
    proof {
        assert(var_node_ok(nl, nodes@, mem@, defer@, p, var@, h));
    }
    // the memo keeps the first node given to a variable
    match table_lookup(mem, var.as_str()) {
        Some(h2) => {
            proof {
                crate::util::tables::lemma_table_get_from_index(mem@, var@, 0);
            }
            return Some(*h2);
        },
        None => {},
    }
    let ghost mb = mem@;
    let vc = var.clone();
    proof {
        lemma_push_mem(nl, nodes@, mb, defer@, p, vc, h);
        lemma_grows_trans(n0, nodes@, nodes@, m0, mb, mb.push((vc, h)), d0, defer@, defer@);
    }
    mem.push((vc, h));
    proof {
        let d = defer@;
        assert(mem@.subrange(0, mb.len() as int) =~= mb);
        if reg_case {
            assert(defer_named(nl, mb, d.drop_last()));
            assert(d.last().1 == h);
            lemma_defer_named_extend(nl, mb, mem@, d.drop_last());
            assert forall|j: int| 0 <= j < d.len() implies exists|v: Seq<char>| #[trigger] table_get(mem@, v) == Some((#[trigger] d[j]).1)
                && table_get(nl.instr@, v) is Some by {
                if j < d.len() - 1 {
                    assert(d.drop_last()[j] == d[j]);
                    let v = choose|v: Seq<char>| #[trigger] table_get(mem@, v) == Some(d.drop_last()[j].1) && table_get(nl.instr@, v) is Some;
                    assert(table_get(mem@, v) == Some(d[j].1));
                } else {
                    assert(table_get(mem@, var@) == Some(d[j].1));
                }
            }
        } else {
            lemma_defer_named_extend(nl, mb, mem@, d);
        }
    }
    Some(h)
}

/// Tying the register waiting at `p` to the node `a` of its argument `w` keeps the memo right,
/// one register less waiting.
proof fn lemma_resolve(
    nl: Netlist,
    n1: Seq<Node>,
    n2: Seq<Node>,
    m: Seq<(String, RCell)>,
    d: Seq<(String, RCell)>,
    p: int,
    a: RCell,
    size: usize,
)
    requires
        0 <= p < d.len(),
        mem_ok(nl, n1, m, d, p),
        defer_ok(n1, d, p),
        table_get(m, d[p].0@) == Some(a),
        Some(size) == table_get(nl.vars@, d[p].0@),
        n2 == n1.update(d[p].1.index(), Node::Reg(size, a)),
    ensures
        mem_ok(nl, n2, m, d, p + 1),
        defer_ok(n2, d, p + 1),
{
    let h = d[p].1;
    assert forall|j: int| p + 1 <= j < d.len() implies (#[trigger] d[j]).1.index() < n2.len() && n2[d[j].1.index()] is TmpValueHolder by {
        assert(d[j].1 != h);
    }
    assert forall|v: Seq<char>| #[trigger] table_get(m, v) is Some implies var_node_ok(nl, n2, m, d, p + 1, v, table_get(m, v)->Some_0) by {
        let hv = table_get(m, v)->Some_0;
        assert(var_node_ok(nl, n1, m, d, p, v, hv));
        if hv.index() != h.index() {
            assert(n2[hv.index()] == n1[hv.index()]);
            match position_from(nl.inputs@, v, 0) {
                Some(k) => {},
                None => match table_get(nl.instr@, v) {
                    None => {},
                    Some(e) => match e {
                        NetExpr::Reg(w) => {
                            if n1[hv.index()] is TmpValueHolder && exists|j: int| p <= j < d.len() && #[trigger] d[j].1 == hv && d[j].0@ == w@ {
                                let j = choose|j: int| p <= j < d.len() && #[trigger] d[j].1 == hv && d[j].0@ == w@;
                                assert(j != p);
                            }
                        },
                        _ => {},
                    },
                },
            }
        } else {
            assert(hv == h);
            assert(n1[h.index()] is TmpValueHolder);
            match position_from(nl.inputs@, v, 0) {
                Some(k) => {},
                None => match table_get(nl.instr@, v) {
                    None => {},
                    Some(e) => match e {
                        NetExpr::Reg(w) => {
                            let j = choose|j: int| p <= j < d.len() && #[trigger] d[j].1 == hv && d[j].0@ == w@;
                            if j != p {
                                assert(d[j].1 != d[p].1);
                            }
                        },
                        _ => {},
                    },
                },
            }
        }
    }
}

/// With no register left waiting, the memo is right whatever the waiting list.
proof fn lemma_mem_done(nl: Netlist, n: Seq<Node>, m: Seq<(String, RCell)>, d: Seq<(String, RCell)>)
    requires
        mem_ok(nl, n, m, d, d.len() as int),
    ensures
        mem_ok(nl, n, m, Seq::empty(), 0),
{
    assert forall|v: Seq<char>| #[trigger] table_get(m, v) is Some implies var_node_ok(nl, n, m, Seq::empty(), 0, v, table_get(m, v)->Some_0) by {
        assert(var_node_ok(nl, n, m, d, d.len() as int, v, table_get(m, v)->Some_0));
    }
}

/// The dataflow graph of a netlist: the nodes of its outputs, with the registers tied to
/// their arguments afterwards, in the order they were met. `None` only for a netlist with a
/// fault (`netlist_fault`): an input with no size, or a variable needed by an output that
/// has no instruction, no size where one is needed, or lies on a cycle that no register
/// breaks.
pub fn from_netlist(netlist: &Netlist) -> (r: Option<FlatProgramGraph>)
    ensures
        r is None ==> netlist_fault(*netlist),
        r matches Some(g) ==> {
            &&& nodes_linked(g.nodes@)
            &&& forall|i: int| 0 <= i < g.nodes@.len() ==> !(#[trigger] g.nodes@[i] is TmpValueHolder)
            &&& forall|i: int| 0 <= i < g.nodes@.len() ==> (#[trigger] g.nodes@[i] matches Node::Input(k) ==> k < g.inputs@.len())
            &&& g.outputs@.len() == netlist.outputs@.len()
            &&& forall|k: int| 0 <= k < g.outputs@.len() ==> (#[trigger] g.outputs@[k]).0@ == netlist.outputs@[k]@
                && g.outputs@[k].1.index() < g.nodes@.len()
            &&& g.inputs@.len() == netlist.inputs@.len()
            &&& forall|k: int| 0 <= k < g.inputs@.len() ==> Some(#[trigger] g.inputs@[k]) == table_get(netlist.vars@, netlist.inputs@[k]@)
            &&& exists|m: Seq<(String, RCell)>| #[trigger] netlist_graph(*netlist, g, m)
        },
{
    let n = netlist.instr.len();
    let fuel: usize = if n == usize::MAX { n } else { n + 1 };
    let mut inputs: Vec<usize> = Vec::new();
    let mut i: usize = 0;
    while i < netlist.inputs.len()
        invariant
            i <= netlist.inputs@.len(),
            inputs@.len() == i,
            forall|k: int| 0 <= k < i ==> Some(#[trigger] inputs@[k]) == table_get(netlist.vars@, netlist.inputs@[k]@),
        decreases netlist.inputs@.len() - i,
    {
        match table_lookup(&netlist.vars, netlist.inputs[i].as_str()) {
            Some(s) => inputs.push(*s),
            None => {
                proof {
                    assert(table_get(netlist.vars@, netlist.inputs@[i as int]@) is None);
                }
                return None;
            },
        }
        i = i + 1;
    }
    let mut nodes: Vec<Node> = Vec::new();
    let mut mem: Vec<(String, RCell)> = Vec::new();
    let mut defer: Vec<(String, RCell)> = Vec::new();
    let mut outputs: Vec<(String, RCell)> = Vec::new();
    let mut k: usize = 0;
    while k < netlist.outputs.len()
        invariant
            k <= netlist.outputs@.len(),
            building(nodes@, netlist.inputs@.len() as nat, defer@),
            memo_linked(mem@, nodes@.len()),
            placeholders_wait(nodes@, defer@, 0),
            outputs@.len() == k,
            forall|q: int| 0 <= q < k ==> (#[trigger] outputs@[q]).0@ == netlist.outputs@[q]@ && outputs@[q].1.index() < nodes@.len(),
            mem_ok(*netlist, nodes@, mem@, defer@, 0),
            defer_ok(nodes@, defer@, 0),
            defer_named(*netlist, mem@, defer@),
            forall|q: int| 0 <= q < k ==> table_get(mem@, netlist.outputs@[q]@) == Some((#[trigger] outputs@[q]).1),
            defer_reached(*netlist, defer@),
            fuel == netlist_fuel(*netlist),
        decreases netlist.outputs@.len() - k,
    {
        let ghost ob = outputs@;
        let ghost mb = mem@;
        proof {
            lemma_reach_output(*netlist, k as int);
        }
        let h = match node_from_var(&netlist.outputs[k], netlist, &mut nodes, &mut mem, &mut defer, fuel, Ghost(0)) {
            Some(h) => h,
            None => {
                proof {
                    if !netlist_fault(*netlist) {
                        lemma_chain_start(*netlist, netlist.outputs@[k as int]@, fuel as nat);
                        assert(var_fault(*netlist, netlist.outputs@[k as int]@));
                    }
                }
                return None;
            },
        };
        outputs.push((netlist.outputs[k].clone(), h));
        proof {
            assert forall|q: int| 0 <= q < k + 1 implies table_get(mem@, netlist.outputs@[q]@) == Some((#[trigger] outputs@[q]).1) by {
                if q < k {
                    assert(outputs@[q] == ob[q]);
                    lemma_table_get_extend(mb, mem@, netlist.outputs@[q]@);
                }
            }
        }
        k = k + 1;
    }
    proof {
        lemma_defer_bound(*netlist, mem@, defer@);
    }
    let mut p: usize = 0;
    while p < defer.len()
        invariant
            p <= defer@.len(),
            building(nodes@, netlist.inputs@.len() as nat, defer@),
            memo_linked(mem@, nodes@.len()),
            placeholders_wait(nodes@, defer@, p as int),
            outputs@.len() == netlist.outputs@.len(),
            forall|q: int| 0 <= q < outputs@.len() ==> (#[trigger] outputs@[q]).0@ == netlist.outputs@[q]@ && outputs@[q].1.index() < nodes@.len(),
            mem_ok(*netlist, nodes@, mem@, defer@, p as int),
            defer_ok(nodes@, defer@, p as int),
            defer_named(*netlist, mem@, defer@),
            defer@.len() <= netlist.instr@.len(),
            forall|q: int| 0 <= q < outputs@.len() ==> table_get(mem@, netlist.outputs@[q]@) == Some((#[trigger] outputs@[q]).1),
            defer_reached(*netlist, defer@),
            fuel == netlist_fuel(*netlist),
        decreases netlist.instr@.len() - p,
    {
        let ghost mb = mem@;
        let w = defer[p].0.clone();
        let h = defer[p].1;
        let ghost u = choose|u: Seq<char>| #[trigger] reaches(*netlist, u)
            && position_from(netlist.inputs@, u, 0) is None
            && (table_get(netlist.instr@, u) matches Some(NetExpr::Reg(x)) && x@ == defer@[p as int].0@);
        proof {
            assert(defer@[p as int] == defer@[p as int]);
            lemma_reach_operand(*netlist, u, table_get(netlist.instr@, u)->Some_0, w@);
        }
        let a = match node_from_var(&w, netlist, &mut nodes, &mut mem, &mut defer, fuel, Ghost(p as int)) {
            Some(a) => a,
            None => {
                proof {
                    if !netlist_fault(*netlist) {
                        lemma_chain_start(*netlist, w@, fuel as nat);
                        assert(var_fault(*netlist, w@));
                    }
                }
                return None;
            },
        };
        let size = match table_lookup(&netlist.vars, w.as_str()) {
            Some(s) => *s,
            None => {
                proof {
                    assert(var_fault(*netlist, u));
                }
                return None;
            },
        };
        let ghost nb = nodes@;
        nodes.set(h.id, Node::Reg(size, a));
        proof {
            lemma_defer_bound(*netlist, mem@, defer@);
            assert(defer@.subrange(0, p as int + 1)[p as int] == defer@[p as int]);
            lemma_resolve(*netlist, nb, nodes@, mem@, defer@, p as int, a, size);
            assert forall|q: int| 0 <= q < outputs@.len() implies table_get(mem@, netlist.outputs@[q]@) == Some((#[trigger] outputs@[q]).1) by {
                assert(table_get(mb, netlist.outputs@[q]@) == Some(outputs@[q].1));
                lemma_table_get_extend(mb, mem@, netlist.outputs@[q]@);
            }
            assert forall|i: int, j: int| 0 <= i < nodes@.len() && 0 <= j < operands(nodes@[i]).len() implies (#[trigger] operands(nodes@[i])[j]).index() < nodes@.len() by {
                if i != h.index() {
                    assert(nodes@[i] == nb[i]);
                }
            }
            assert forall|i: int| 0 <= i < nodes@.len() implies (#[trigger] nodes@[i] matches Node::Input(k) ==> k < netlist.inputs@.len()) by {
                if i != h.index() {
                    assert(nodes@[i] == nb[i]);
                }
            }
            assert forall|i: int| 0 <= i < nodes@.len() && (#[trigger] nodes@[i] is TmpValueHolder) implies exists|j: int|
                p + 1 <= j < defer@.len() && #[trigger] defer@[j].1.index() == i by {
                assert(nodes@[i] == nb[i]);
                assert(nb[i] is TmpValueHolder);
                let j = choose|j: int| p <= j < defer@.len() && #[trigger] defer@[j].1.index() == i;
                assert(j != p);
            }
        }
        p = p + 1;
    }
    let g = FlatProgramGraph { outputs, inputs, nodes };
    proof {
        lemma_mem_done(*netlist, g.nodes@, mem@, defer@);
        assert(netlist_graph(*netlist, g, mem@));
        assert forall|i: int| 0 <= i < g.nodes@.len() implies !(#[trigger] g.nodes@[i] is TmpValueHolder) by {
            if g.nodes@[i] is TmpValueHolder {
                let j = choose|j: int| p <= j < defer@.len() && #[trigger] defer@[j].1.index() == i;
            }
        }
    }
    Some(g)
}

} // verus!
