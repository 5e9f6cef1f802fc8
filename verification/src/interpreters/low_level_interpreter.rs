//! An interpreter for the flat dataflow graph.
//!
//! Each step reads the values of the registers of the previous step, evaluates the outputs
//! (every node at most once per step), and records the next values of the registers and the
//! writes to the RAM. The inputs of each step are handed in by the caller.
use vstd::prelude::*;

use crate::ast::graph::{BiOp, FlatProgramGraph, Node, RCell};

verus! {

/// The result of a binary operation on two buses: bitwise for the logical operations
/// (on the length of the first operand), concatenation for `Concat`.
pub open spec fn bus_op(op: BiOp, a: Seq<bool>, b: Seq<bool>) -> Seq<bool> {
    match op {
        BiOp::And => Seq::new(a.len(), |i: int| a[i] && b[i]),
        BiOp::Or => Seq::new(a.len(), |i: int| a[i] || b[i]),
        BiOp::Xor => Seq::new(a.len(), |i: int| a[i] != b[i]),
        BiOp::Nand => Seq::new(a.len(), |i: int| !(a[i] && b[i])),
        BiOp::Concat => a + b,
    }
}

/// Each logical operation acts bit by bit, on the bits of the first operand, as the boolean
/// operation it names; `Concat` puts the bits of the second bus after those of the first.
pub proof fn law_bus_ops(a: Seq<bool>, b: Seq<bool>)
    ensures
        bus_op(BiOp::And, a, b).len() == a.len(),
        bus_op(BiOp::Or, a, b).len() == a.len(),
        bus_op(BiOp::Xor, a, b).len() == a.len(),
        bus_op(BiOp::Nand, a, b).len() == a.len(),
        forall|i: int| 0 <= i < a.len() ==> {
            &&& (#[trigger] bus_op(BiOp::And, a, b)[i] <==> a[i] && b[i])
            &&& (bus_op(BiOp::Or, a, b)[i] <==> a[i] || b[i])
            &&& (bus_op(BiOp::Xor, a, b)[i] <==> (a[i] && !b[i]) || (!a[i] && b[i]))
            &&& (bus_op(BiOp::Nand, a, b)[i] <==> !a[i] || !b[i])
        },
        bus_op(BiOp::Concat, a, b).len() == a.len() + b.len(),
        forall|i: int| 0 <= i < a.len() ==> #[trigger] bus_op(BiOp::Concat, a, b)[i] == a[i],
        forall|i: int| 0 <= i < b.len() ==> #[trigger] bus_op(BiOp::Concat, a, b)[a.len() + i] == b[i],
{
}

/// How the logical operations relate bit by bit: `Nand` is the negation of `And`, `Xor` is
/// set where `Or` is and `And` is not, and `Or` is set where `And` or `Xor` is.
pub proof fn law_bus_ops_relate(a: Seq<bool>, b: Seq<bool>, i: int)
    requires
        0 <= i < a.len(),
    ensures
        bus_op(BiOp::Nand, a, b)[i] == !bus_op(BiOp::And, a, b)[i],
        bus_op(BiOp::Xor, a, b)[i] == (bus_op(BiOp::Or, a, b)[i] && !bus_op(BiOp::And, a, b)[i]),
        bus_op(BiOp::Or, a, b)[i] == (bus_op(BiOp::And, a, b)[i] || bus_op(BiOp::Xor, a, b)[i]),
        !bus_op(BiOp::Or, a, b)[i] ==> !a[i] && !b[i],
        bus_op(BiOp::And, a, b)[i] ==> a[i] && b[i],
{
}

/// Whether `bus_op` is defined: the logical operations read the second operand at every
/// index of the first.
pub open spec fn bus_op_defined(op: BiOp, a: Seq<bool>, b: Seq<bool>) -> bool {
    op == BiOp::Concat || b.len() >= a.len()
}

/// Applies `op` to `v1` and `v2`, leaving the result in `v1`.
pub fn apply_op(op: BiOp, v1: &mut Vec<bool>, v2: Vec<bool>)
    requires
        bus_op_defined(op, old(v1)@, v2@),
    ensures
        final(v1)@ == bus_op(op, old(v1)@, v2@),
{
    let n = v1.len();
    let ghost a = v1@;
    match op {
        BiOp::Concat => {
            let mut v2 = v2;
            v1.append(&mut v2);
        },
        _ => {
            let mut i: usize = 0;
            while i < n
                invariant
                    n == a.len(),
                    v1@.len() == n,
                    i <= n,
                    v2@.len() >= n,
                    op != BiOp::Concat,
                    forall|j: int| i <= j < n ==> v1@[j] == a[j],
                    forall|j: int| 0 <= j < i ==> v1@[j] == #[trigger] bus_op(op, a, v2@)[j],
                decreases n - i,
            {
                let x = v1[i];
                let y = v2[i];
                let z = match op {
                    BiOp::And => x && y,
                    BiOp::Or => x || y,
                    BiOp::Xor => x ^ y,
                    _ => !(x && y),
                };
                v1.set(i, z);
                i = i + 1;
            }
            assert(v1@ =~= bus_op(op, a, v2@));
        },
    }
}

/// Whether two buses are equal.
pub fn bits_eq(a: &Vec<bool>, b: &Vec<bool>) -> (r: bool)
    ensures
        r == (a@ == b@),
{
    if a.len() != b.len() {
        return false;
    }
    let mut i: usize = 0;
    while i < a.len()
        invariant
            a@.len() == b@.len(),
            i <= a.len(),
            forall|j: int| 0 <= j < i ==> a@[j] == b@[j],
        decreases a.len() - i,
    {
        if a[i] != b[i] {
            return false;
        }
        i = i + 1;
    }
    assert(a@ =~= b@);
    true
}

/// A bus of `n` zeros.
pub open spec fn zeros(n: nat) -> Seq<bool> {
    Seq::new(n, |i: int| false)
}

/// A bus of `n` zeros.
pub fn zeros_vec(n: usize) -> (r: Vec<bool>)
    ensures
        r@ == zeros(n as nat),
{
    let mut v: Vec<bool> = Vec::new();
    let mut i: usize = 0;
    while i < n
        invariant
            i <= n,
            v@ == zeros(i as nat),
        decreases n - i,
    {
        v.push(false);
        i = i + 1;
        assert(v@ =~= zeros(i as nat));
    }
    v
}

/// The content of a RAM: addresses and the words written at them.
pub type Ram = Vec<(Vec<bool>, Vec<bool>)>;

/// The view of a RAM.
pub open spec fn ram_view(ram: Seq<(Vec<bool>, Vec<bool>)>) -> Seq<(Seq<bool>, Seq<bool>)> {
    ram.map_values(|p: (Vec<bool>, Vec<bool>)| (p.0@, p.1@))
}

/// The word at `addr` from index `i` on.
pub open spec fn ram_get_from(ram: Seq<(Seq<bool>, Seq<bool>)>, addr: Seq<bool>, i: int) -> Option<
    Seq<bool>,
>
    decreases ram.len() - i,
{
    if i < 0 || i >= ram.len() {
        None
    } else if ram[i].0 == addr {
        Some(ram[i].1)
    } else {
        ram_get_from(ram, addr, i + 1)
    }
}

/// The word written at `addr`, if any.
pub open spec fn ram_get(ram: Seq<(Seq<bool>, Seq<bool>)>, addr: Seq<bool>) -> Option<Seq<bool>> {
    ram_get_from(ram, addr, 0)
}

/// The index of the entry at `addr` from index `i` on, or the length.
pub open spec fn ram_index_from(ram: Seq<(Seq<bool>, Seq<bool>)>, addr: Seq<bool>, i: int) -> int
    decreases ram.len() - i,
{
    if i < 0 || i >= ram.len() {
        ram.len() as int
    } else if ram[i].0 == addr {
        i
    } else {
        ram_index_from(ram, addr, i + 1)
    }
}

/// The RAM after writing `word` at `addr`.
pub open spec fn ram_set(ram: Seq<(Seq<bool>, Seq<bool>)>, addr: Seq<bool>, word: Seq<bool>) -> Seq<
    (Seq<bool>, Seq<bool>),
> {
    let i = ram_index_from(ram, addr, 0);
    if i < ram.len() {
        ram.update(i, (addr, word))
    } else {
        ram.push((addr, word))
    }
}

proof fn lemma_ram_scan(ram: Seq<(Seq<bool>, Seq<bool>)>, addr: Seq<bool>, i: int)
    requires
        0 <= i <= ram.len(),
        forall|j: int| 0 <= j < i ==> ram[j].0 != addr,
    ensures
        ram_get(ram, addr) == ram_get_from(ram, addr, i),
        ram_index_from(ram, addr, 0) == ram_index_from(ram, addr, i),
    decreases i,
{
    if i > 0 {
        lemma_ram_scan(ram, addr, i - 1);
    }
}

/// The position of the entry at `addr`, if any.
fn ram_position(ram: &Ram, addr: &Vec<bool>) -> (r: usize)
    ensures
        r == ram_index_from(ram_view(ram@), addr@, 0),
        r < ram@.len() ==> ram_get(ram_view(ram@), addr@) == Some(ram@[r as int].1@),
        r >= ram@.len() ==> r == ram@.len() && ram_get(ram_view(ram@), addr@) is None,
{
    let ghost rv = ram_view(ram@);
    let mut i: usize = 0;
    while i < ram.len()
        invariant
            i <= ram@.len(),
            rv == ram_view(ram@),
            forall|j: int| 0 <= j < i ==> rv[j].0 != addr@,
        decreases ram.len() - i,
    {
        if bits_eq(&ram[i].0, addr) {
            proof {
                lemma_ram_scan(rv, addr@, i as int);
            }
            return i;
        }
        i = i + 1;
    }
    proof {
        lemma_ram_scan(rv, addr@, i as int);
    }
    i
}

/// The word written at `addr`, or `n` zeros.
fn ram_read(ram: &Ram, addr: &Vec<bool>, n: usize) -> (r: Vec<bool>)
    ensures
        r@ == match ram_get(ram_view(ram@), addr@) {
            Some(w) => w,
            None => zeros(n as nat),
        },
{
    let i = ram_position(ram, addr);
    if i < ram.len() {
        ram[i].1.clone()
    } else {
        zeros_vec(n)
    }
}

/// Writes `word` at `addr`.
fn ram_write(ram: &mut Ram, addr: Vec<bool>, word: Vec<bool>)
    ensures
        ram_view(final(ram)@) == ram_set(ram_view(old(ram)@), addr@, word@),
{
    let i = ram_position(ram, &addr);
    let ghost a = addr@;
    let ghost w = word@;
    if i < ram.len() {
        ram.set(i, (addr, word));
        assert(ram_view(ram@) =~= ram_view(old(ram)@).update(i as int, (a, w)));
    } else {
        ram.push((addr, word));
        assert(ram_view(ram@) =~= ram_view(old(ram)@).push((a, w)));
    }
}

/// The view of a table of optional buses.
pub open spec fn opt_bits_view(s: Seq<Option<Vec<bool>>>) -> Seq<Option<Seq<bool>>> {
    s.map_values(
        |o: Option<Vec<bool>>|
            match o {
                Some(v) => Some(v@),
                None => None,
            },
    )
}

/// The state an evaluation reads and writes: the values computed during this step, the
/// next values of the registers (by the node they read), and the RAM.
pub type EvalState = (Seq<Option<Seq<bool>>>, Seq<Option<Seq<bool>>>, Seq<(Seq<bool>, Seq<bool>)>);

/// The state with `v` recorded as the value of node `id`.
pub open spec fn remember(st: EvalState, id: int, v: Seq<bool>) -> EvalState {
    (st.0.update(id, Some(v)), st.1, st.2)
}

/// The value of node `id` in the graph `nodes`, with `regs` the values of the registers
/// (by the node they read) and `inputs` the values of the inputs, together with the new
/// state; `None` where the evaluation fails (a malformed node, a read out of range, a
/// placeholder, a ROM, or a cycle that does not go through a register, which `fuel` bounds).
/// A node already evaluated in this step keeps its value. A register gives its value of the
/// previous step (zeros at first) and records the value of its input for the next step.
/// A RAM reads its word before a write, which happens when the write enable's first bit is set.
pub open spec fn value_of(
    nodes: Seq<Node>,
    id: int,
    regs: Seq<Option<Seq<bool>>>,
    inputs: Seq<Seq<bool>>,
    st: EvalState,
    fuel: nat,
) -> Option<(Seq<bool>, EvalState)>
    decreases fuel, 0int,
{
    if fuel == 0 || !(0 <= id < nodes.len()) || st.0.len() != nodes.len() || st.1.len()
        != nodes.len() || regs.len() != nodes.len() {
        None
    } else if st.0[id] is Some {
        Some((st.0[id]->Some_0, st))
    } else {
        match nodes[id] {
            Node::Input(i) => if i < inputs.len() {
                Some((inputs[i as int], remember(st, id, inputs[i as int])))
            } else {
                None
            },
            Node::Const(c) => Some((c@, remember(st, id, c@))),
            Node::Not(n) => match value_of(nodes, n.index(), regs, inputs, st, (fuel - 1) as nat) {
                None => None,
                Some((v, s1)) => {
                    let r = Seq::new(v.len(), |i: int| !v[i]);
                    Some((r, remember(s1, id, r)))
                },
            },
            Node::Slice(n, c1, c2) => match value_of(
                nodes,
                n.index(),
                regs,
                inputs,
                st,
                (fuel - 1) as nat,
            ) {
                None => None,
                Some((v, s1)) => if c1 <= c2 <= v.len() {
                    let r = v.subrange(c1 as int, c2 as int);
                    Some((r, remember(s1, id, r)))
                } else {
                    None
                },
            },
            Node::BiOp(op, n1, n2) => match value_of(
                nodes,
                n1.index(),
                regs,
                inputs,
                st,
                (fuel - 1) as nat,
            ) {
                None => None,
                Some((v1, s1)) => match value_of(
                    nodes,
                    n2.index(),
                    regs,
                    inputs,
                    s1,
                    (fuel - 1) as nat,
                ) {
                    None => None,
                    Some((v2, s2)) => if bus_op_defined(op, v1, v2) {
                        let r = bus_op(op, v1, v2);
                        Some((r, remember(s2, id, r)))
                    } else {
                        None
                    },
                },
            },
            Node::Mux(n1, n2, n3) => match value_of(
                nodes,
                n1.index(),
                regs,
                inputs,
                st,
                (fuel - 1) as nat,
            ) {
                None => None,
                Some((v1, s1)) => match value_of(
                    nodes,
                    n2.index(),
                    regs,
                    inputs,
                    s1,
                    (fuel - 1) as nat,
                ) {
                    None => None,
                    Some((v2, s2)) => match value_of(
                        nodes,
                        n3.index(),
                        regs,
                        inputs,
                        s2,
                        (fuel - 1) as nat,
                    ) {
                        None => None,
                        Some((v3, s3)) => if v1.len() > 0 {
                            let r = if v1[0] {
                                v2
                            } else {
                                v3
                            };
                            Some((r, remember(s3, id, r)))
                        } else {
                            None
                        },
                    },
                },
            },
            Node::Reg(s, n) => if 0 <= n.index() < nodes.len() {
                let prev = match regs[n.index()] {
                    Some(v) => v,
                    None => zeros(s as nat),
                };
                match value_of(
                    nodes,
                    n.index(),
                    regs,
                    inputs,
                    remember(st, id, prev),
                    (fuel - 1) as nat,
                ) {
                    None => None,
                    Some((v, s1)) => Some(
                        (prev, (s1.0.update(id, Some(prev)), s1.1.update(n.index(), Some(v)), s1.2)),
                    ),
                }
            } else {
                None
            },
            Node::Ram(n1, n2, n3, n4) => value_of_ram(
                nodes,
                id,
                n1,
                n2,
                n3,
                n4,
                regs,
                inputs,
                st,
                (fuel - 1) as nat,
            ),
            _ => None,
        }
    }
}

/// The value of a RAM node: the four operands in order, then the read, then the write.
pub open spec fn value_of_ram(
    nodes: Seq<Node>,
    id: int,
    n1: RCell,
    n2: RCell,
    n3: RCell,
    n4: RCell,
    regs: Seq<Option<Seq<bool>>>,
    inputs: Seq<Seq<bool>>,
    st: EvalState,
    fuel: nat,
) -> Option<(Seq<bool>, EvalState)>
    decreases fuel, 1int,
{
    match value_of(nodes, n1.index(), regs, inputs, st, fuel) {
        None => None,
        Some((ra, s1)) => match value_of(nodes, n2.index(), regs, inputs, s1, fuel) {
            None => None,
            Some((we, s2)) => match value_of(nodes, n3.index(), regs, inputs, s2, fuel) {
                None => None,
                Some((wa, s3)) => match value_of(nodes, n4.index(), regs, inputs, s3, fuel) {
                    None => None,
                    Some((wd, s4)) => if we.len() > 0 {
                        let r = match ram_get(s4.2, ra) {
                            Some(w) => w,
                            None => zeros(wd.len()),
                        };
                        let ram = if we[0] {
                            ram_set(s4.2, wa, wd)
                        } else {
                            s4.2
                        };
                        Some((r, (s4.0.update(id, Some(r)), s4.1, ram)))
                    } else {
                        None
                    },
                },
            },
        },
    }
}


/// The interpreter evaluates a logical node bit by bit: when its operands evaluate to the
/// buses `v1` and `v2` (the second at least as long), the node's value has the length of
/// `v1` and its bit `i` is the boolean operation that the node names applied to `v1[i]` and
/// `v2[i]`.
pub proof fn law_logical_node_value(
    nodes: Seq<Node>,
    id: int,
    regs: Seq<Option<Seq<bool>>>,
    inputs: Seq<Seq<bool>>,
    st: EvalState,
    fuel: nat,
)
    requires
        fuel > 0,
        0 <= id < nodes.len(),
        st.0.len() == nodes.len(),
        st.1.len() == nodes.len(),
        regs.len() == nodes.len(),
        st.0[id] is None,
        nodes[id] is BiOp,
        !(nodes[id]->BiOp_0 is Concat),
    ensures
        ({
            let (op, n1, n2) = (nodes[id]->BiOp_0, nodes[id]->BiOp_1, nodes[id]->BiOp_2);
            value_of(nodes, n1.index(), regs, inputs, st, (fuel - 1) as nat) matches Some((v1, s1))
                ==> (value_of(nodes, n2.index(), regs, inputs, s1, (fuel - 1) as nat) matches Some((v2, s2))
                ==> (v2.len() >= v1.len() ==> (value_of(nodes, id, regs, inputs, st, fuel) matches Some((r, _)) && r.len() == v1.len()
                && forall|i: int| 0 <= i < v1.len() ==> (#[trigger] r[i] <==> match op {
                    BiOp::And => v1[i] && v2[i],
                    BiOp::Or => v1[i] || v2[i],
                    BiOp::Xor => v1[i] != v2[i],
                    _ => !(v1[i] && v2[i]),
                }))))
        }),
{
}

/// The interpreter's value of the other combinational nodes: a constant is itself, a `not`
/// flips each bit of its operand, a slice takes the bits of its operand from `c1` up to `c2`,
/// and a multiplexer gives its second operand when the first bit of its selector is set and
/// its third otherwise.
pub proof fn law_other_node_values(
    nodes: Seq<Node>,
    id: int,
    regs: Seq<Option<Seq<bool>>>,
    inputs: Seq<Seq<bool>>,
    st: EvalState,
    fuel: nat,
)
    requires
        fuel > 0,
        0 <= id < nodes.len(),
        st.0.len() == nodes.len(),
        st.1.len() == nodes.len(),
        regs.len() == nodes.len(),
        st.0[id] is None,
    ensures
        nodes[id] matches Node::Const(c) ==> (value_of(nodes, id, regs, inputs, st, fuel) matches Some((r, _)) && r == c@),
        nodes[id] matches Node::Not(n) ==> (value_of(nodes, n.index(), regs, inputs, st, (fuel - 1) as nat) matches Some((v, _))
            ==> (value_of(nodes, id, regs, inputs, st, fuel) matches Some((r, _)) && r.len() == v.len()
            && forall|i: int| 0 <= i < v.len() ==> #[trigger] r[i] == !v[i])),
        nodes[id] matches Node::Slice(n, c1, c2) ==> (value_of(nodes, n.index(), regs, inputs, st, (fuel - 1) as nat) matches Some((v, _))
            ==> (c1 <= c2 <= v.len() ==> (value_of(nodes, id, regs, inputs, st, fuel) matches Some((r, _)) && r.len() == c2 - c1
            && forall|i: int| 0 <= i < r.len() ==> #[trigger] r[i] == v[c1 + i]))),
        nodes[id] matches Node::Mux(n1, n2, n3) ==> (value_of(nodes, n1.index(), regs, inputs, st, (fuel - 1) as nat) matches Some((v1, s1))
            ==> (value_of(nodes, n2.index(), regs, inputs, s1, (fuel - 1) as nat) matches Some((v2, s2))
            ==> (value_of(nodes, n3.index(), regs, inputs, s2, (fuel - 1) as nat) matches Some((v3, _))
            ==> (v1.len() > 0 ==> (value_of(nodes, id, regs, inputs, st, fuel) matches Some((r, _))
            && (v1[0] ==> r == v2) && (!v1[0] ==> r == v3)))))),
{
}

/// A copy of a bus.
pub fn copy_bits(v: &Vec<bool>) -> (r: Vec<bool>)
    ensures
        r@ == v@,
{
    let r = v.clone();
    assert(r@ =~= v@);
    r
}

/// The view of the inputs of a step.
pub open spec fn buses_view(s: Seq<Vec<bool>>) -> Seq<Seq<bool>> {
    s.map_values(|v: Vec<bool>| v@)
}

/// The state seen by an evaluation.
pub open spec fn state_view(
    mem: Seq<Option<Vec<bool>>>,
    next_regs: Seq<Option<Vec<bool>>>,
    ram: Seq<(Vec<bool>, Vec<bool>)>,
) -> EvalState {
    (opt_bits_view(mem), opt_bits_view(next_regs), ram_view(ram))
}

/// `r` is the outcome `o` of an evaluation, with the final state.
pub open spec fn evaluated(
    o: Option<(Seq<bool>, EvalState)>,
    r: Option<Vec<bool>>,
    mem: Seq<Option<Vec<bool>>>,
    next_regs: Seq<Option<Vec<bool>>>,
    ram: Seq<(Vec<bool>, Vec<bool>)>,
) -> bool {
    match o {
        None => r is None,
        Some((v, st)) => r matches Some(x) && x@ == v && state_view(mem, next_regs, ram) == st,
    }
}

fn set_memo(mem: &mut Vec<Option<Vec<bool>>>, idx: usize, v: &Vec<bool>)
    requires
        idx < old(mem)@.len(),
    ensures
        opt_bits_view(final(mem)@) == opt_bits_view(old(mem)@).update(idx as int, Some(v@)),
        final(mem)@.len() == old(mem)@.len(),
{
    mem.set(idx, Some(copy_bits(v)));
    assert(opt_bits_view(mem@) =~= opt_bits_view(old(mem)@).update(idx as int, Some(v@)));
}

/// Evaluates node `id`; see `value_of`.
fn get_value(
    nodes: &Vec<Node>,
    id: usize,
    reg_map: &Vec<Option<Vec<bool>>>,
    next_reg_map: &mut Vec<Option<Vec<bool>>>,
    mem: &mut Vec<Option<Vec<bool>>>,
    inputs: &Vec<Vec<bool>>,
    ram: &mut Ram,
    fuel: usize,
) -> (r: Option<Vec<bool>>)
    ensures
        evaluated(
            value_of(
                nodes@,
                id as int,
                opt_bits_view(reg_map@),
                buses_view(inputs@),
                state_view(old(mem)@, old(next_reg_map)@, old(ram)@),
                fuel as nat,
            ),
            r,
            final(mem)@,
            final(next_reg_map)@,
            final(ram)@,
        ),
        final(mem)@.len() == old(mem)@.len(),
        final(next_reg_map)@.len() == old(next_reg_map)@.len(),
    decreases fuel, 0int,
{
    let n = nodes.len();
    if fuel == 0 || id as usize >= n || mem.len() != n || next_reg_map.len() != n
        || reg_map.len() != n {
        return None;
    }
    let idx = id as usize;
    let ghost rv = opt_bits_view(reg_map@);
    let ghost iv = buses_view(inputs@);
    match &mem[idx] {
        Some(v) => {
            return Some(copy_bits(v));
        },
        None => {},
    }
    match &nodes[idx] {
        Node::Input(i) => {
            if *i < inputs.len() {
                let v = copy_bits(&inputs[*i]);
                set_memo(mem, idx, &v);
                Some(v)
            } else {
                None
            }
        },
        Node::Const(c) => {
            let v = copy_bits(c);
            set_memo(mem, idx, &v);
            Some(v)
        },
        Node::Not(a) => {
            let mut v = get_value(nodes, a.id, reg_map, next_reg_map, mem, inputs, ram, fuel - 1)?;
            let ghost v0 = v@;
            let mut i: usize = 0;
            while i < v.len()
                invariant
                    v@.len() == v0.len(),
                    i <= v@.len(),
                    forall|j: int| 0 <= j < i ==> v@[j] == !v0[j],
                    forall|j: int| i <= j < v@.len() ==> v@[j] == v0[j],
                decreases v@.len() - i,
            {
                let b = v[i];
                v.set(i, !b);
                i = i + 1;
            }
            assert(v@ =~= Seq::new(v0.len(), |j: int| !v0[j]));
            set_memo(mem, idx, &v);
            Some(v)
        },
        Node::Slice(a, c1, c2) => {
            let v = get_value(nodes, a.id, reg_map, next_reg_map, mem, inputs, ram, fuel - 1)?;
            if *c1 <= *c2 && *c2 <= v.len() {
                let mut w: Vec<bool> = Vec::new();
                let mut i: usize = *c1;
                while i < *c2
                    invariant
                        *c1 <= i <= *c2,
                        *c2 <= v@.len(),
                        w@ == v@.subrange(*c1 as int, i as int),
                    decreases *c2 - i,
                {
                    w.push(v[i]);
                    i = i + 1;
                    assert(w@ =~= v@.subrange(*c1 as int, i as int));
                }
                set_memo(mem, idx, &w);
                Some(w)
            } else {
                None
            }
        },
        Node::BiOp(op, a, b) => {
            let mut v1 = get_value(nodes, a.id, reg_map, next_reg_map, mem, inputs, ram, fuel - 1)?;
            let v2 = get_value(nodes, b.id, reg_map, next_reg_map, mem, inputs, ram, fuel - 1)?;
            if *op == BiOp::Concat || v2.len() >= v1.len() {
                apply_op(*op, &mut v1, v2);
                set_memo(mem, idx, &v1);
                Some(v1)
            } else {
                None
            }
        },
        Node::Mux(a, b, c) => {
            let v1 = get_value(nodes, a.id, reg_map, next_reg_map, mem, inputs, ram, fuel - 1)?;
            let v2 = get_value(nodes, b.id, reg_map, next_reg_map, mem, inputs, ram, fuel - 1)?;
            let v3 = get_value(nodes, c.id, reg_map, next_reg_map, mem, inputs, ram, fuel - 1)?;
            if v1.len() > 0 {
                let r = if v1[0] {
                    v2
                } else {
                    v3
                };
                set_memo(mem, idx, &r);
                Some(r)
            } else {
                None
            }
        },
        Node::Reg(s, a) => {
            let nidx = a.id as usize;
            if nidx >= n {
                return None;
            }
            let prev = match &reg_map[nidx] {
                Some(v) => copy_bits(v),
                None => zeros_vec(*s),
            };
            set_memo(mem, idx, &prev);
            let v = get_value(nodes, a.id, reg_map, next_reg_map, mem, inputs, ram, fuel - 1)?;
            let ghost nv = opt_bits_view(next_reg_map@);
            let ghost vv = v@;
            next_reg_map.set(nidx, Some(v));
            assert(opt_bits_view(next_reg_map@) =~= nv.update(nidx as int, Some(vv)));
            set_memo(mem, idx, &prev);
            Some(prev)
        },
        Node::Ram(a, b, c, d) => get_value_ram(
            nodes,
            id,
            *a,
            *b,
            *c,
            *d,
            reg_map,
            next_reg_map,
            mem,
            inputs,
            ram,
            fuel - 1,
        ),
        _ => None,
    }
}


/// Evaluates a RAM node; see `value_of_ram`.
fn get_value_ram(
    nodes: &Vec<Node>,
    id: usize,
    a: RCell,
    b: RCell,
    c: RCell,
    d: RCell,
    reg_map: &Vec<Option<Vec<bool>>>,
    next_reg_map: &mut Vec<Option<Vec<bool>>>,
    mem: &mut Vec<Option<Vec<bool>>>,
    inputs: &Vec<Vec<bool>>,
    ram: &mut Ram,
    fuel: usize,
) -> (r: Option<Vec<bool>>)
    requires
        (id as int) < old(mem)@.len(),
    ensures
        evaluated(
            value_of_ram(
                nodes@,
                id as int,
                a,
                b,
                c,
                d,
                opt_bits_view(reg_map@),
                buses_view(inputs@),
                state_view(old(mem)@, old(next_reg_map)@, old(ram)@),
                fuel as nat,
            ),
            r,
            final(mem)@,
            final(next_reg_map)@,
            final(ram)@,
        ),
        final(mem)@.len() == old(mem)@.len(),
        final(next_reg_map)@.len() == old(next_reg_map)@.len(),
    decreases fuel, 1int,
{
    let ra = get_value(nodes, a.id, reg_map, next_reg_map, mem, inputs, ram, fuel)?;
    let we = get_value(nodes, b.id, reg_map, next_reg_map, mem, inputs, ram, fuel)?;
    let wa = get_value(nodes, c.id, reg_map, next_reg_map, mem, inputs, ram, fuel)?;
    let wd = get_value(nodes, d.id, reg_map, next_reg_map, mem, inputs, ram, fuel)?;
    if we.len() > 0 {
        let r = ram_read(ram, &ra, wd.len());
        if we[0] {
            ram_write(ram, wa, wd);
        }
        set_memo(mem, id as usize, &r);
        Some(r)
    } else {
        None
    }
}


/// The values of the outputs `outs[0..n]`, evaluated in order from the state `st`, with the
/// state after the last; `None` where one of them fails.
pub open spec fn outputs_upto(
    nodes: Seq<Node>,
    outs: Seq<(String, RCell)>,
    n: int,
    regs: Seq<Option<Seq<bool>>>,
    inputs: Seq<Seq<bool>>,
    st: EvalState,
    fuel: nat,
) -> Option<(Seq<Seq<bool>>, EvalState)>
    decreases n,
{
    if n <= 0 {
        Some((Seq::empty(), st))
    } else {
        match outputs_upto(nodes, outs, n - 1, regs, inputs, st, fuel) {
            None => None,
            Some((vs, s1)) => match value_of(nodes, outs[n - 1].1.index(), regs, inputs, s1, fuel) {
                None => None,
                Some((v, s2)) => Some((vs.push(v), s2)),
            },
        }
    }
}

/// Once an output fails, the later ones are not evaluated.
proof fn lemma_outputs_upto_none(
    nodes: Seq<Node>,
    outs: Seq<(String, RCell)>,
    i: int,
    n: int,
    regs: Seq<Option<Seq<bool>>>,
    inputs: Seq<Seq<bool>>,
    st: EvalState,
    fuel: nat,
)
    requires
        0 <= i <= n,
        outputs_upto(nodes, outs, i, regs, inputs, st, fuel) is None,
    ensures
        outputs_upto(nodes, outs, n, regs, inputs, st, fuel) is None,
    decreases n,
{
    if n > i {
        lemma_outputs_upto_none(nodes, outs, i, n - 1, regs, inputs, st, fuel);
    }
}

/// One step of the interpreter on `graph`: every output evaluated in order, with `regs` the
/// register values left by the previous step (which are also the next values of the registers
/// that this step does not reach), `ram` the RAM, and `inputs` the inputs of this step.
/// The result is the values of the outputs and the state after the step.
pub open spec fn step_spec(
    graph: FlatProgramGraph,
    regs: Seq<Option<Seq<bool>>>,
    ram: Seq<(Seq<bool>, Seq<bool>)>,
    inputs: Seq<Seq<bool>>,
) -> Option<(Seq<Seq<bool>>, EvalState)> {
    let n = graph.nodes@.len();
    outputs_upto(
        graph.nodes@,
        graph.outputs@,
        graph.outputs@.len() as int,
        regs,
        inputs,
        (Seq::new(n, |i: int| None::<Seq<bool>>), regs, ram),
        step_fuel(n),
    )
}

/// The depth of evaluation allowed in a step: one more than the number of nodes, enough for
/// every graph whose cycles go through registers.
pub open spec fn step_fuel(n: nat) -> nat {
    if n < usize::MAX {
        (n + 1) as nat
    } else {
        n
    }
}

/// The outputs of the steps run on `graph` from the registers `regs` and the RAM `ram`, one
/// step for each item of `ins` (the inputs of that step), up to the first step that fails.
pub open spec fn run_outputs(
    graph: FlatProgramGraph,
    regs: Seq<Option<Seq<bool>>>,
    ram: Seq<(Seq<bool>, Seq<bool>)>,
    ins: Seq<Seq<Seq<bool>>>,
) -> Seq<Seq<Seq<bool>>>
    decreases ins.len(),
{
    if ins.len() == 0 {
        Seq::empty()
    } else {
        match step_spec(graph, regs, ram, ins[0]) {
            None => Seq::empty(),
            Some((vals, st)) => seq![vals] + run_outputs(graph, st.1, st.2, ins.subrange(1, ins.len() as int)),
        }
    }
}

/// An interpreter running a graph step by step.
pub struct InterpreterIterator<'a> {
    graph: &'a FlatProgramGraph,
    reg_map: Vec<Option<Vec<bool>>>,
    next_reg_map: Vec<Option<Vec<bool>>>,
    ram: Ram,
    mem: Vec<Option<Vec<bool>>>,
}

/// A table of `n` empty entries.
fn empty_table(n: usize) -> (r: Vec<Option<Vec<bool>>>)
    ensures
        opt_bits_view(r@) == Seq::new(n as nat, |i: int| None::<Seq<bool>>),
        r@.len() == n,
{
    let mut r: Vec<Option<Vec<bool>>> = Vec::new();
    let mut i: usize = 0;
    while i < n
        invariant
            i <= n,
            r@.len() == i,
            forall|j: int| 0 <= j < i ==> r@[j] is None,
        decreases n - i,
    {
        r.push(None);
        i = i + 1;
    }
    assert(opt_bits_view(r@) =~= Seq::new(n as nat, |i: int| None::<Seq<bool>>));
    r
}

/// A copy of a table of optional buses.
fn copy_table(t: &Vec<Option<Vec<bool>>>) -> (r: Vec<Option<Vec<bool>>>)
    ensures
        opt_bits_view(r@) == opt_bits_view(t@),
        r@.len() == t@.len(),
{
    let mut r: Vec<Option<Vec<bool>>> = Vec::new();
    let mut i: usize = 0;
    while i < t.len()
        invariant
            i <= t@.len(),
            r@.len() == i,
            forall|j: int| 0 <= j < i ==> opt_bits_view(r@)[j] == opt_bits_view(t@)[j],
        decreases t@.len() - i,
    {
        match &t[i] {
            Some(v) => r.push(Some(copy_bits(v))),
            None => r.push(None),
        }
        i = i + 1;
    }
    assert(opt_bits_view(r@) =~= opt_bits_view(t@));
    r
}

impl<'a> InterpreterIterator<'a> {
    /// The graph being run.
    pub closed spec fn graph(&self) -> FlatProgramGraph {
        *self.graph
    }

    /// The register values left by the last step, by the node each register reads.
    pub closed spec fn registers(&self) -> Seq<Option<Seq<bool>>> {
        opt_bits_view(self.next_reg_map@)
    }

    /// The RAM, as a list of (address, word) pairs.
    pub closed spec fn memory(&self) -> Seq<(Seq<bool>, Seq<bool>)> {
        ram_view(self.ram@)
    }

    /// Runs one step with the given values of the inputs and returns the named values of the
    /// outputs; `None` where the evaluation fails (see `value_of`).
    pub fn next(&mut self, inputs: &Vec<Vec<bool>>) -> (r: Option<Vec<(String, Vec<bool>)>>)
        ensures
            final(self).graph() == old(self).graph(),
            match step_spec(old(self).graph(), old(self).registers(), old(self).memory(), buses_view(inputs@)) {
                None => r is None,
                Some((vals, st)) => (r matches Some(outs) && outs@.len() == old(self).graph().outputs@.len()
                    && (forall|i: int| 0 <= i < outs@.len() ==> {
                        &&& (#[trigger] outs@[i]).0@ == old(self).graph().outputs@[i].0@
                        &&& outs@[i].1@ == vals[i]
                    })
                    && final(self).registers() == st.1
                    && final(self).memory() == st.2),
            },
    {
        let graph = self.graph;
        let nodes = &graph.nodes;
        let n = nodes.len();
        self.reg_map = copy_table(&self.next_reg_map);
        self.mem = empty_table(n);
        let fuel: usize = if n < usize::MAX { n + 1 } else { n };
        let ghost regs = opt_bits_view(self.reg_map@);
        let ghost iv = buses_view(inputs@);
        let ghost st0 = state_view(self.mem@, self.next_reg_map@, self.ram@);
        assert(st0 == (Seq::new(n as nat, |i: int| None::<Seq<bool>>), old(self).registers(), old(self).memory()));
        assert(regs == old(self).registers());
        let mut res: Vec<(String, Vec<bool>)> = Vec::new();
        let mut ok = true;
        let mut i: usize = 0;
        while i < graph.outputs.len() && ok
            invariant
                self.graph == graph,
                nodes == &graph.nodes,
                i <= graph.outputs@.len(),
                opt_bits_view(self.reg_map@) == regs,
                self.reg_map@.len() == self.next_reg_map@.len(),
                fuel == step_fuel(nodes@.len()),
                iv == buses_view(inputs@),
                ok ==> res@.len() == i,
                ok ==> forall|j: int| 0 <= j < i ==> (#[trigger] res@[j]).0@ == graph.outputs@[j].0@,
                ok ==> (outputs_upto(nodes@, graph.outputs@, i as int, regs, iv, st0, fuel as nat)
                    matches Some((vs, s)) && vs.len() == i
                    && (forall|j: int| 0 <= j < i ==> res@[j].1@ == vs[j])
                    && s == state_view(self.mem@, self.next_reg_map@, self.ram@)),
                !ok ==> outputs_upto(nodes@, graph.outputs@, i as int, regs, iv, st0, fuel as nat) is None,
            decreases graph.outputs@.len() - i, (if ok { 1int } else { 0int }),
        {
            let (name, cell) = &graph.outputs[i];
            match get_value(nodes, cell.id, &self.reg_map, &mut self.next_reg_map, &mut self.mem, inputs, &mut self.ram, fuel) {
                Some(v) => {
                    res.push((name.clone(), v));
                    i = i + 1;
                },
                None => {
                    ok = false;
                    i = i + 1;
                },
            }
        }
        if ok {
            assert(i == graph.outputs@.len());
            Some(res)
        } else {
            proof {
                lemma_outputs_upto_none(nodes@, graph.outputs@, i as int, graph.outputs@.len() as int, regs, iv, st0, fuel as nat);
            }
            None
        }
    }
}

/// Interpreters do not affect one another: what an interpreter yields, step after step,
/// depends only on its own graph, registers and RAM and on the inputs it is given. So two
/// interpreters started on the same graph yield the same outputs for the same inputs, however
/// far the other one has been run.
pub proof fn law_interpreters_independent(it1: InterpreterIterator, it2: InterpreterIterator, ins: Seq<Seq<Seq<bool>>>)
    requires
        it1.graph() == it2.graph(),
        it1.registers() == it2.registers(),
        it1.memory() == it2.memory(),
    ensures
        run_outputs(it1.graph(), it1.registers(), it1.memory(), ins) == run_outputs(it2.graph(), it2.registers(), it2.memory(), ins),
{
}

/// Starts an interpreter on `graph`: every register holds zeros and the RAM is empty.
pub fn interprete<'a>(graph: &'a FlatProgramGraph) -> (r: InterpreterIterator<'a>)
    ensures
        r.graph() == *graph,
        r.registers() == Seq::new(graph.nodes@.len(), |i: int| None::<Seq<bool>>),
        r.memory() == Seq::<(Seq<bool>, Seq<bool>)>::empty(),
{
    let n = graph.nodes.len();
    let r = InterpreterIterator {
        graph,
        reg_map: empty_table(n),
        next_reg_map: empty_table(n),
        ram: Vec::new(),
        mem: empty_table(n),
    };
    assert(ram_view(r.ram@) =~= Seq::<(Seq<bool>, Seq<bool>)>::empty());
    r
}

} // verus!
