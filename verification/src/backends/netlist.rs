//! The netlist backend: prints a flat dataflow graph in the netlist format.
//!
//! The text has four parts: `INPUT` with the inputs `i_k`, `OUTPUT` with the outputs `o_name`,
//! `VAR` with one variable `v_id` (and its size when it is not one) for every node reached
//! from the outputs, separated by commas, and `IN` with one instruction per node reached
//! from the outputs, operands first, each output followed by its assignment. A node shared
//! by several outputs is declared and computed once.
use vstd::prelude::*;

use crate::ast::graph::{BiOp, FlatProgramGraph, Node, RCell};
use crate::util::text::{decimal, push_decimal};

verus! {

/// The handles of the operands of a node.
pub open spec fn operands(n: Node) -> Seq<RCell> {
    match n {
        Node::Not(e) => seq![e],
        Node::Slice(e, _, _) => seq![e],
        Node::BiOp(_, a, b) => seq![a, b],
        Node::Mux(a, b, c) => seq![a, b, c],
        Node::Reg(_, e) => seq![e],
        Node::Ram(a, b, c, d) => seq![a, b, c, d],
        Node::Rom(_, e) => seq![e],
        _ => Seq::empty(),
    }
}

/// Nodes whose handles all point into the arena.
pub open spec fn nodes_linked(nodes: Seq<Node>) -> bool {
    &&& forall|i: int, j: int|
        0 <= i < nodes.len() && 0 <= j < operands(nodes[i]).len() ==> (#[trigger] operands(
            nodes[i],
        )[j]).index() < nodes.len()
}

/// Nodes that can be printed: every handle points into the arena, every input exists,
/// every slice is in order, and no placeholder is left.
pub open spec fn nodes_ok(nodes: Seq<Node>, n_inputs: nat) -> bool {
    &&& nodes_linked(nodes)
    &&& forall|i: int| 0 <= i < nodes.len() ==> match #[trigger] nodes[i] {
        Node::Input(k) => k < n_inputs,
        Node::Slice(_, c1, c2) => c1 <= c2,
        Node::TmpValueHolder(_) => false,
        _ => true,
    }
}

/// A graph that can be printed: its nodes can, and its outputs point into the arena.
pub open spec fn printable(g: FlatProgramGraph) -> bool {
    &&& nodes_ok(g.nodes@, g.inputs@.len())
    &&& forall|i: int| 0 <= i < g.outputs@.len() ==> (#[trigger] g.outputs@[i]).1.index() < g.nodes@.len()
}

/// The declaration of the variable of node `id` with its size, after a comma unless it is
/// the first declaration.
pub open spec fn var_decl(id: nat, size: usize, first: bool) -> Seq<char> {
    (if !first {
        ", "@
    } else {
        Seq::empty()
    }) + "v_"@ + decimal(id) + (if size != 1 {
        " : "@ + decimal(size as nat)
    } else {
        Seq::empty()
    })
}

/// The width of a concatenation, `usize::MAX` if it would not fit.
pub open spec fn concat_width(a: usize, b: usize) -> usize {
    if a + b <= usize::MAX {
        (a + b) as usize
    } else {
        usize::MAX
    }
}

/// The declarations of the variables reached from node `id`, operands first, each node
/// once: its size (that of its input, its constant, its slice, its register or ROM, both
/// operands together for a concatenation, or that of its last operand otherwise), the
/// sizes known after the walk, the text, and whether no declaration is written yet. A
/// register's size is known before its operand is walked; any other node reached again
/// during its own walk counts as size zero.
pub open spec fn vars_of(
    nodes: Seq<Node>,
    inputs: Seq<usize>,
    id: int,
    first: bool,
    mem: Seq<Option<usize>>,
    fuel: nat,
) -> (usize, Seq<Option<usize>>, Seq<char>, bool)
    decreases fuel, 0int,
{
    if fuel == 0 || !(0 <= id < mem.len()) {
        (0, mem, Seq::empty(), first)
    } else if mem[id] is Some {
        (mem[id]->Some_0, mem, Seq::empty(), first)
    } else {
        let (size, m2, t, f2) = vars_inner(nodes, inputs, id, first, mem, (fuel - 1) as nat);
        (size, m2.update(id, Some(size)), t + var_decl(id as nat, size, f2), false)
    }
}

/// The size of node `id` and the declarations reached from its operands, with the node
/// marked as being walked.
#[verifier::opaque]
pub open spec fn vars_inner(
    nodes: Seq<Node>,
    inputs: Seq<usize>,
    id: int,
    first: bool,
    mem: Seq<Option<usize>>,
    f: nat,
) -> (usize, Seq<Option<usize>>, Seq<char>, bool)
    decreases f, 1int,
{
    let m1 = mem.update(id, Some(0usize));
    match nodes[id] {
        Node::Input(i) => (inputs[i as int], m1, Seq::empty(), first),
        Node::Const(c) => (c@.len() as usize, m1, Seq::empty(), first),
        Node::Not(e) => vars_of(nodes, inputs, e.index(), first, m1, f),
        Node::Slice(e, c1, c2) => {
            let (_, m, t, fe) = vars_of(nodes, inputs, e.index(), first, m1, f);
            ((c2 - c1) as usize, m, t, fe)
        },
        Node::BiOp(op, a, b) => {
            let (sa, ma, ta, fa) = vars_of(nodes, inputs, a.index(), first, m1, f);
            let (sb, mb, tb, fb) = vars_of(nodes, inputs, b.index(), fa, ma, f);
            (if op == BiOp::Concat { concat_width(sa, sb) } else { sb }, mb, ta + tb, fb)
        },
        Node::Mux(a, b, c) => {
            let (_, ma, ta, fa) = vars_of(nodes, inputs, a.index(), first, m1, f);
            let (_, mb, tb, fb) = vars_of(nodes, inputs, b.index(), fa, ma, f);
            let (sc, mc, tc, fc) = vars_of(nodes, inputs, c.index(), fb, mb, f);
            (sc, mc, ta + tb + tc, fc)
        },
        Node::Reg(s, e) => {
            let (_, m, t, fe) = vars_of(nodes, inputs, e.index(), first, mem.update(id, Some(s)), f);
            (s, m, t, fe)
        },
        Node::Ram(a, b, c, d) => {
            let (_, ma, ta, fa) = vars_of(nodes, inputs, a.index(), first, m1, f);
            let (_, mb, tb, fb) = vars_of(nodes, inputs, b.index(), fa, ma, f);
            let (_, mc, tc, fc) = vars_of(nodes, inputs, c.index(), fb, mb, f);
            let (sd, md, td, fd) = vars_of(nodes, inputs, d.index(), fc, mc, f);
            (sd, md, ta + tb + tc + td, fd)
        },
        Node::Rom(s, e) => {
            let (_, m, t, fe) = vars_of(nodes, inputs, e.index(), first, m1, f);
            (s, m, t, fe)
        },
        Node::TmpValueHolder(_) => (0usize, m1, Seq::empty(), first),
    }
}

/// The name of a node as an operand, followed by a space: `i_k` for the input `k`, `v_id`
/// otherwise.
pub open spec fn var_name(nodes: Seq<Node>, id: int) -> Seq<char> {
    match nodes[id] {
        Node::Input(i) => "i_"@ + decimal(i as nat) + " "@,
        _ => "v_"@ + decimal(id as nat) + " "@,
    }
}

/// The first `j` bits of a constant, `1` or `0`, separated by spaces.
pub open spec fn bits_text(v: Seq<bool>, j: int) -> Seq<char>
    decreases j,
{
    if j <= 0 || j > v.len() {
        Seq::empty()
    } else {
        (if j > 1 {
            bits_text(v, j - 1) + " "@
        } else {
            Seq::empty()
        }) + (if v[j - 1] {
            "1"@
        } else {
            "0"@
        })
    }
}

/// The keyword of a binary operation, followed by a space.
pub open spec fn op_text(op: BiOp) -> Seq<char> {
    match op {
        BiOp::And => "AND "@,
        BiOp::Or => "OR "@,
        BiOp::Xor => "XOR "@,
        BiOp::Nand => "NAND "@,
        BiOp::Concat => "CONCAT "@,
    }
}

/// What a keyword of the netlist language computes on one bit of each operand; `None` for a
/// word that names no two-operand logical operation.
pub open spec fn keyword_bit_op(kw: Seq<char>, x: bool, y: bool) -> Option<bool> {
    if kw == "AND "@ {
        Some(x && y)
    } else if kw == "OR "@ {
        Some(x || y)
    } else if kw == "XOR "@ {
        Some(x != y)
    } else if kw == "NAND "@ {
        Some(!(x && y))
    } else {
        None
    }
}

/// Each logical operation is written with the keyword of the netlist operation that computes,
/// bit by bit, the same bits as `bus_op` does for it.
pub proof fn law_op_keyword_bit_op(op: BiOp, a: Seq<bool>, b: Seq<bool>, i: int)
    requires
        op != BiOp::Concat,
        0 <= i < a.len(),
    ensures
        keyword_bit_op(op_text(op), a[i], b[i]) == Some(crate::interpreters::low_level_interpreter::bus_op(op, a, b)[i]),
{
    reveal_strlit("AND ");
    reveal_strlit("OR ");
    reveal_strlit("XOR ");
    reveal_strlit("NAND ");
    reveal_strlit("CONCAT ");
    lemma_keywords_first_letters();
}

/// The keywords of the operations begin with different letters.
proof fn lemma_keywords_first_letters()
    ensures
        op_text(BiOp::And)[0] == 'A',
        op_text(BiOp::Or)[0] == 'O',
        op_text(BiOp::Xor)[0] == 'X',
        op_text(BiOp::Nand)[0] == 'N',
        op_text(BiOp::Concat)[0] == 'C',
        "AND "@ != "OR "@,
        "AND "@ != "XOR "@,
        "AND "@ != "NAND "@,
        "OR "@ != "XOR "@,
        "OR "@ != "NAND "@,
        "XOR "@ != "NAND "@,
{
    reveal_strlit("AND ");
    reveal_strlit("OR ");
    reveal_strlit("XOR ");
    reveal_strlit("NAND ");
    reveal_strlit("CONCAT ");
    assert("AND "@[0] != "OR "@[0]);
    assert("AND "@[0] != "XOR "@[0]);
    assert("AND "@[0] != "NAND "@[0]);
    assert("OR "@[0] != "XOR "@[0]);
    assert("OR "@[0] != "NAND "@[0]);
    assert("XOR "@[0] != "NAND "@[0]);
}

/// Different operations are written with different keywords, so a netlist keeps which
/// operation each node applies.
pub proof fn law_op_keywords_distinct(o1: BiOp, o2: BiOp)
    ensures
        op_text(o1) == op_text(o2) ==> o1 == o2,
{
    reveal_strlit("AND ");
    reveal_strlit("OR ");
    reveal_strlit("XOR ");
    reveal_strlit("NAND ");
    reveal_strlit("CONCAT ");
    lemma_keywords_first_letters();
}

/// The instruction of a node, after `v_id = ` and before the end of line.
pub open spec fn instr_body(nodes: Seq<Node>, n: Node) -> Seq<char> {
    match n {
        Node::Const(v) => bits_text(v@, v@.len() as int),
        Node::Not(e) => "NOT "@ + var_name(nodes, e.index()),
        Node::Slice(e, c1, c2) => (if c2 - c1 != 1 {
            "SLICE "@ + decimal(c1 as nat) + " "@ + decimal(c2 as nat) + " "@
        } else {
            "SELECT "@ + decimal(c1 as nat) + " "@
        }) + var_name(nodes, e.index()),
        Node::BiOp(op, a, b) => op_text(op) + var_name(nodes, a.index()) + var_name(nodes, b.index()),
        Node::Mux(a, b, c) => "MUX "@ + var_name(nodes, a.index()) + var_name(nodes, b.index())
            + var_name(nodes, c.index()),
        Node::Reg(_, e) => "REG "@ + var_name(nodes, e.index()),
        Node::Ram(a, b, c, d) => "RAM "@ + var_name(nodes, a.index()) + var_name(nodes, b.index())
            + var_name(nodes, c.index()) + var_name(nodes, d.index()),
        Node::Rom(_, e) => "ROM "@ + var_name(nodes, e.index()),
        _ => Seq::empty(),
    }
}

/// The instruction of each node begins with the netlist keyword of its kind: `NOT`, `SLICE`
/// (or `SELECT` for one bit), the keyword of its operation, `MUX`, `REG`, `RAM`, `ROM`.
pub proof fn law_instr_keywords(nodes: Seq<Node>, n: Node)
    ensures
        n is Not ==> instr_body(nodes, n).subrange(0, 4) == "NOT "@,
        n is Mux ==> instr_body(nodes, n).subrange(0, 4) == "MUX "@,
        n is Reg ==> instr_body(nodes, n).subrange(0, 4) == "REG "@,
        n is Ram ==> instr_body(nodes, n).subrange(0, 4) == "RAM "@,
        n is Rom ==> instr_body(nodes, n).subrange(0, 4) == "ROM "@,
        n matches Node::Slice(_, c1, c2) ==> (c2 - c1 != 1 ==> instr_body(nodes, n).subrange(0, 6) == "SLICE "@),
        n matches Node::Slice(_, c1, c2) ==> (c2 - c1 == 1 ==> instr_body(nodes, n).subrange(0, 7) == "SELECT "@),
        n matches Node::BiOp(op, _, _) ==> instr_body(nodes, n).subrange(0, op_text(op).len() as int) == op_text(op),
{
    reveal_strlit("NOT ");
    reveal_strlit("MUX ");
    reveal_strlit("REG ");
    reveal_strlit("RAM ");
    reveal_strlit("ROM ");
    reveal_strlit("SLICE ");
    reveal_strlit("SELECT ");
    let b = instr_body(nodes, n);
    match n {
        Node::Not(e) => {
            assert(b.subrange(0, 4) =~= "NOT "@);
        },
        Node::Mux(x, y, z) => {
            assert(b.subrange(0, 4) =~= "MUX "@);
        },
        Node::Reg(_, e) => {
            assert(b.subrange(0, 4) =~= "REG "@);
        },
        Node::Ram(x, y, z, w) => {
            assert(b.subrange(0, 4) =~= "RAM "@);
        },
        Node::Rom(_, e) => {
            assert(b.subrange(0, 4) =~= "ROM "@);
        },
        Node::Slice(e, c1, c2) => {
            if c2 - c1 != 1 {
                assert(b.subrange(0, 6) =~= "SLICE "@);
            } else {
                assert(b.subrange(0, 7) =~= "SELECT "@);
            }
        },
        Node::BiOp(op, x, y) => {
            assert(b.subrange(0, op_text(op).len() as int) =~= op_text(op));
        },
        _ => {},
    }
}

/// The instructions of the nodes reached from node `id`, operands first, each node once,
/// with the nodes visited after the walk. An input gives an empty line.
pub open spec fn instrs_of(nodes: Seq<Node>, id: int, mem: Seq<bool>, fuel: nat) -> (
    Seq<bool>,
    Seq<char>,
)
    decreases fuel, 0int,
{
    if fuel == 0 || !(0 <= id < mem.len()) {
        (mem, Seq::empty())
    } else if mem[id] {
        (mem, Seq::empty())
    } else {
        let m1 = mem.update(id, true);
        let f = (fuel - 1) as nat;
        let ops = operands(nodes[id]);
        let (m2, t) = instrs_of_operands(nodes, ops, ops.len() as int, m1, f);
        let line = match nodes[id] {
            Node::Input(_) => Seq::empty(),
            n => "v_"@ + decimal(id as nat) + " = "@ + instr_body(nodes, n),
        };
        (m2, t + line + "\n"@)
    }
}

/// The instructions reached from the first `j` operands `ops`, in order.
pub open spec fn instrs_of_operands(
    nodes: Seq<Node>,
    ops: Seq<RCell>,
    j: int,
    mem: Seq<bool>,
    fuel: nat,
) -> (Seq<bool>, Seq<char>)
    decreases fuel, j,
{
    if j <= 0 || j > ops.len() {
        (mem, Seq::empty())
    } else {
        let (m1, t1) = instrs_of_operands(nodes, ops, j - 1, mem, fuel);
        let (m2, t2) = instrs_of(nodes, ops[j - 1].index(), m1, fuel);
        (m2, t1 + t2)
    }
}

/// `i_0, ..., i_{k-1}`.
pub open spec fn inputs_text(k: nat) -> Seq<char>
    decreases k,
{
    if k == 0 {
        Seq::empty()
    } else if k == 1 {
        "i_"@ + decimal(0)
    } else {
        inputs_text((k - 1) as nat) + ", "@ + "i_"@ + decimal((k - 1) as nat)
    }
}

/// `o_a, o_b, ...` for the first `j` outputs.
pub open spec fn outputs_text(outs: Seq<(String, RCell)>, j: int) -> Seq<char>
    decreases j,
{
    if j <= 0 || j > outs.len() {
        Seq::empty()
    } else if j == 1 {
        "o_"@ + outs[0].0@
    } else {
        outputs_text(outs, j - 1) + ", "@ + "o_"@ + outs[j - 1].0@
    }
}

/// The walk depth allowed: one more than the number of nodes, as each node is walked once.
pub open spec fn walk_fuel(g: FlatProgramGraph) -> nat {
    if g.nodes@.len() < usize::MAX {
        (g.nodes@.len() + 1) as nat
    } else {
        g.nodes@.len()
    }
}

/// The declarations of the variables of the first `j` outputs, the walk going on from one
/// output to the next: the sizes known, whether no declaration is written yet, the text.
pub open spec fn all_vars(g: FlatProgramGraph, j: int) -> (Seq<Option<usize>>, bool, Seq<char>)
    decreases j,
{
    if j <= 0 || j > g.outputs@.len() {
        (Seq::new(g.nodes@.len(), |i: int| None::<usize>), true, Seq::empty())
    } else {
        let (m, f, t) = all_vars(g, j - 1);
        let (_, m2, t2, f2) = vars_of(g.nodes@, g.inputs@, g.outputs@[j - 1].1.index(), f, m, walk_fuel(g));
        (m2, f2, t + t2)
    }
}

/// The instructions of the first `j` outputs, the walk going on from one output to the
/// next, each output followed by its assignment `o_name = operand`: the nodes visited and
/// the text.
pub open spec fn all_instrs(g: FlatProgramGraph, j: int) -> (Seq<bool>, Seq<char>)
    decreases j,
{
    if j <= 0 || j > g.outputs@.len() {
        (Seq::new(g.nodes@.len(), |i: int| false), Seq::empty())
    } else {
        let (m, t) = all_instrs(g, j - 1);
        let (m2, t2) = instrs_of(g.nodes@, g.outputs@[j - 1].1.index(), m, walk_fuel(g));
        (m2, t + t2 + "o_"@ + g.outputs@[j - 1].0@ + " = "@ + var_name(g.nodes@, g.outputs@[j - 1].1.index())
            + "\n"@)
    }
}

/// The netlist of a graph.
pub open spec fn netlist_text(g: FlatProgramGraph) -> Seq<char> {
    "INPUT "@ + inputs_text(g.inputs@.len()) + "\n"@ + "OUTPUT "@ + outputs_text(
        g.outputs@,
        g.outputs@.len() as int,
    ) + "\n"@ + "VAR "@ + all_vars(g, g.outputs@.len() as int).2 + "\nIN\n"@ + all_instrs(
        g,
        g.outputs@.len() as int,
    ).1
}


/// Appends `v_id` to `dest`.
fn push_var(dest: &mut String, id: usize)
    ensures
        final(dest)@ == old(dest)@ + "v_"@ + decimal(id as nat),
{
    dest.append("v_");
    push_decimal(dest, id);
}

/// Declares the variables reached from node `id`; see `vars_of`. Gives the size of the node
/// and whether no declaration is written yet.
#[verifier::rlimit(80)]
#[verifier::spinoff_prover]
fn write_vars(
    nodes: &Vec<Node>,
    inputs: &Vec<usize>,
    id: usize,
    first: bool,
    mem: &mut Vec<Option<usize>>,
    dest: &mut String,
    fuel: usize,
) -> (r: (usize, bool))
    requires
        nodes_ok(nodes@, inputs@.len()),
        old(mem)@.len() == nodes@.len(),
    ensures
        r.0 == vars_of(nodes@, inputs@, id as int, first, old(mem)@, fuel as nat).0,
        r.1 == vars_of(nodes@, inputs@, id as int, first, old(mem)@, fuel as nat).3,
        final(mem)@ == vars_of(nodes@, inputs@, id as int, first, old(mem)@, fuel as nat).1,
        final(dest)@ == old(dest)@ + vars_of(nodes@, inputs@, id as int, first, old(mem)@, fuel as nat).2,
        final(mem)@.len() == old(mem)@.len(),
    decreases fuel, 0int,
{
    let idx = id as usize;
    if fuel == 0 || idx >= mem.len() {
        assert(dest@ =~= old(dest)@ + Seq::<char>::empty());
        return (0, first);
    }
    match mem[idx] {
        Some(v) => {
            assert(dest@ =~= old(dest)@ + Seq::<char>::empty());
            return (v, first);
        },
        None => {},
    }
    let ghost m0 = mem@;
    let ghost inner = vars_inner(nodes@, inputs@, id as int, first, m0, (fuel - 1) as nat);
    proof {
        assert(vars_of(nodes@, inputs@, id as int, first, m0, fuel as nat) == (
            inner.0,
            inner.1.update(id as int, Some(inner.0)),
            inner.2 + var_decl(id as nat, inner.0, inner.3),
            false,
        ));
    }
    let (size, f2) = write_vars_inner(nodes, inputs, id, first, mem, dest, fuel - 1);
    let ghost d1 = dest@;
    if !f2 {
        dest.append(", ");
    }
    push_var(dest, idx);
    if size != 1 {
        dest.append(" : ");
        push_decimal(dest, size);
    }
    mem.set(idx, Some(size));
    proof {
        assert(dest@ =~= d1 + var_decl(idx as nat, size, f2));
    }
    (size, false)
}

/// See `vars_inner`.
#[verifier::rlimit(100)]
#[verifier::spinoff_prover]
fn write_vars_inner(
    nodes: &Vec<Node>,
    inputs: &Vec<usize>,
    id: usize,
    first: bool,
    mem: &mut Vec<Option<usize>>,
    dest: &mut String,
    f: usize,
) -> (r: (usize, bool))
    requires
        nodes_ok(nodes@, inputs@.len()),
        old(mem)@.len() == nodes@.len(),
        (id as int) < nodes@.len(),
    ensures
        r.0 == vars_inner(nodes@, inputs@, id as int, first, old(mem)@, f as nat).0,
        r.1 == vars_inner(nodes@, inputs@, id as int, first, old(mem)@, f as nat).3,
        final(mem)@ == vars_inner(nodes@, inputs@, id as int, first, old(mem)@, f as nat).1,
        final(dest)@ == old(dest)@ + vars_inner(nodes@, inputs@, id as int, first, old(mem)@, f as nat).2,
        final(mem)@.len() == old(mem)@.len(),
    decreases f, 1int,
{
    let idx = id as usize;
    let ghost d0 = dest@;
    proof {
        reveal(vars_inner);
        assert(nodes@[idx as int] == nodes@[idx as int]);
    }
    match &nodes[idx] {
        Node::Input(i) => {
            mem.set(idx, Some(0));
            assert(dest@ =~= d0 + Seq::<char>::empty());
            (inputs[*i], first)
        },
        Node::Const(c) => {
            mem.set(idx, Some(0));
            assert(dest@ =~= d0 + Seq::<char>::empty());
            (c.len(), first)
        },
        Node::Not(e) => {
            assert(operands(nodes@[idx as int])[0] == *e);
            mem.set(idx, Some(0));
            write_vars(nodes, inputs, e.id, first, mem, dest, f)
        },
        Node::Slice(e, c1, c2) => {
            assert(operands(nodes@[idx as int])[0] == *e);
            mem.set(idx, Some(0));
            let (_, fe) = write_vars(nodes, inputs, e.id, first, mem, dest, f);
            (*c2 - *c1, fe)
        },
        Node::BiOp(op, a, b) => {
            assert(operands(nodes@[idx as int])[0] == *a);
            assert(operands(nodes@[idx as int])[1] == *b);
            mem.set(idx, Some(0));
            let (sa, fa) = write_vars(nodes, inputs, a.id, first, mem, dest, f);
            let ghost da = dest@;
            let (sb, fb) = write_vars(nodes, inputs, b.id, fa, mem, dest, f);
            assert(dest@ =~= d0 + (da.subrange(d0.len() as int, da.len() as int) + dest@.subrange(da.len() as int, dest@.len() as int)));
            let w = match op {
                BiOp::Concat => if sb <= usize::MAX - sa {
                    sa + sb
                } else {
                    usize::MAX
                },
                _ => sb,
            };
            (w, fb)
        },
        Node::Mux(a, b, c) => {
            assert(operands(nodes@[idx as int])[0] == *a);
            assert(operands(nodes@[idx as int])[1] == *b);
            assert(operands(nodes@[idx as int])[2] == *c);
            mem.set(idx, Some(0));
            let (_, fa) = write_vars(nodes, inputs, a.id, first, mem, dest, f);
            let ghost da = dest@;
            let (_, fb) = write_vars(nodes, inputs, b.id, fa, mem, dest, f);
            let ghost db = dest@;
            let r = write_vars(nodes, inputs, c.id, fb, mem, dest, f);
            assert(dest@ =~= d0 + (da.subrange(d0.len() as int, da.len() as int) + db.subrange(da.len() as int, db.len() as int) + dest@.subrange(db.len() as int, dest@.len() as int)));
            r
        },
        Node::Reg(sz, e) => {
            assert(operands(nodes@[idx as int])[0] == *e);
            mem.set(idx, Some(*sz));
            let (_, fe) = write_vars(nodes, inputs, e.id, first, mem, dest, f);
            (*sz, fe)
        },
        Node::Ram(a, b, c, d) => {
            assert(operands(nodes@[idx as int])[0] == *a);
            assert(operands(nodes@[idx as int])[1] == *b);
            assert(operands(nodes@[idx as int])[2] == *c);
            assert(operands(nodes@[idx as int])[3] == *d);
            mem.set(idx, Some(0));
            let (_, fa) = write_vars(nodes, inputs, a.id, first, mem, dest, f);
            let ghost da = dest@;
            let (_, fb) = write_vars(nodes, inputs, b.id, fa, mem, dest, f);
            let ghost db = dest@;
            let (_, fc) = write_vars(nodes, inputs, c.id, fb, mem, dest, f);
            let ghost dc = dest@;
            let r = write_vars(nodes, inputs, d.id, fc, mem, dest, f);
            assert(dest@ =~= d0 + (da.subrange(d0.len() as int, da.len() as int) + db.subrange(da.len() as int, db.len() as int) + dc.subrange(db.len() as int, dc.len() as int) + dest@.subrange(dc.len() as int, dest@.len() as int)));
            r
        },
        Node::Rom(sz, e) => {
            assert(operands(nodes@[idx as int])[0] == *e);
            mem.set(idx, Some(0));
            let (_, fe) = write_vars(nodes, inputs, e.id, first, mem, dest, f);
            (*sz, fe)
        },
        Node::TmpValueHolder(_) => {
            mem.set(idx, Some(0));
            assert(dest@ =~= d0 + Seq::<char>::empty());
            (0, first)
        },
    }
}


/// Appends the name of node `id` as an operand; see `var_name`.
fn write_var_name(nodes: &Vec<Node>, id: usize, dest: &mut String)
    requires
        (id as int) < nodes@.len(),
    ensures
        final(dest)@ == old(dest)@ + var_name(nodes@, id as int),
{
    match &nodes[id as usize] {
        Node::Input(i) => {
            dest.append("i_");
            push_decimal(dest, *i);
            dest.append(" ");
        },
        _ => {
            push_var(dest, id as usize);
            dest.append(" ");
        },
    }
}

/// Appends the bits of a constant; see `bits_text`.
fn write_bits(v: &Vec<bool>, dest: &mut String)
    ensures
        final(dest)@ == old(dest)@ + bits_text(v@, v@.len() as int),
{
    let ghost d0 = dest@;
    let mut j: usize = 0;
    while j < v.len()
        invariant
            j <= v@.len(),
            dest@ == d0 + bits_text(v@, j as int),
        decreases v@.len() - j,
    {
        let ghost before = dest@;
        if j > 0 {
            dest.append(" ");
        }
        if v[j] {
            dest.append("1");
        } else {
            dest.append("0");
        }
        j = j + 1;
        proof {
            assert(dest@ =~= d0 + bits_text(v@, j as int));
        }
    }
}

/// Appends the keyword of a binary operation; see `op_text`.
fn write_op(op: BiOp, dest: &mut String)
    ensures
        final(dest)@ == old(dest)@ + op_text(op),
{
    match op {
        BiOp::And => dest.append("AND "),
        BiOp::Or => dest.append("OR "),
        BiOp::Xor => dest.append("XOR "),
        BiOp::Nand => dest.append("NAND "),
        BiOp::Concat => dest.append("CONCAT "),
    }
}

/// The handles of the operands of a node.
fn operands_vec(n: &Node) -> (r: Vec<RCell>)
    ensures
        r@ == operands(*n),
{
    let r = match n {
        Node::Not(e) => vec![*e],
        Node::Slice(e, _, _) => vec![*e],
        Node::BiOp(_, a, b) => vec![*a, *b],
        Node::Mux(a, b, c) => vec![*a, *b, *c],
        Node::Reg(_, e) => vec![*e],
        Node::Ram(a, b, c, d) => vec![*a, *b, *c, *d],
        Node::Rom(_, e) => vec![*e],
        _ => Vec::new(),
    };
    assert(r@ =~= operands(*n));
    r
}

/// Appends the instruction of node `idx`, after `v_idx = `; see `instr_body`.
#[verifier::rlimit(30)]
fn write_instr_body(nodes: &Vec<Node>, idx: usize, dest: &mut String)
    requires
        idx < nodes@.len(),
        forall|j: int| 0 <= j < operands(nodes@[idx as int]).len() ==> (#[trigger] operands(nodes@[idx as int])[j]).index() < nodes@.len(),
    ensures
        final(dest)@ == old(dest)@ + instr_body(nodes@, nodes@[idx as int]),
{
    let ghost d0 = dest@;
    match &nodes[idx] {
        Node::Const(v) => write_bits(v, dest),
        Node::Not(e) => {
            assert(operands(nodes@[idx as int])[0] == *e);
            dest.append("NOT ");
            write_var_name(nodes, e.id, dest);
        },
        Node::Slice(e, c1, c2) => {
            assert(operands(nodes@[idx as int])[0] == *e);
            let ghost d1 = dest@;
            if !(*c2 >= *c1 && *c2 - *c1 == 1) {
                dest.append("SLICE ");
                push_decimal(dest, *c1);
                dest.append(" ");
                push_decimal(dest, *c2);
                dest.append(" ");
            } else {
                dest.append("SELECT ");
                push_decimal(dest, *c1);
                dest.append(" ");
            }
            let ghost d2 = dest@;
            write_var_name(nodes, e.id, dest);
            assert(dest@ =~= d0 + (d2.subrange(d0.len() as int, d2.len() as int) + var_name(nodes@, e.index())));
        },
        Node::BiOp(op, a, b) => {
            assert(operands(nodes@[idx as int])[0] == *a);
            assert(operands(nodes@[idx as int])[1] == *b);
            write_op(*op, dest);
            write_var_name(nodes, a.id, dest);
            write_var_name(nodes, b.id, dest);
        },
        Node::Mux(a, b, c) => {
            assert(operands(nodes@[idx as int])[0] == *a);
            assert(operands(nodes@[idx as int])[1] == *b);
            assert(operands(nodes@[idx as int])[2] == *c);
            dest.append("MUX ");
            write_var_name(nodes, a.id, dest);
            write_var_name(nodes, b.id, dest);
            write_var_name(nodes, c.id, dest);
        },
        Node::Reg(_, e) => {
            assert(operands(nodes@[idx as int])[0] == *e);
            dest.append("REG ");
            write_var_name(nodes, e.id, dest);
        },
        Node::Ram(a, b, c, d) => {
            assert(operands(nodes@[idx as int])[0] == *a);
            assert(operands(nodes@[idx as int])[1] == *b);
            assert(operands(nodes@[idx as int])[2] == *c);
            assert(operands(nodes@[idx as int])[3] == *d);
            dest.append("RAM ");
            write_var_name(nodes, a.id, dest);
            write_var_name(nodes, b.id, dest);
            write_var_name(nodes, c.id, dest);
            write_var_name(nodes, d.id, dest);
        },
        Node::Rom(_, e) => {
            assert(operands(nodes@[idx as int])[0] == *e);
            dest.append("ROM ");
            write_var_name(nodes, e.id, dest);
        },
        _ => {
            assert(dest@ =~= d0 + Seq::<char>::empty());
        },
    }
}

/// Writes the instructions reached from node `id`; see `instrs_of`.
fn write_instr(nodes: &Vec<Node>, id: usize, mem: &mut Vec<bool>, dest: &mut String, fuel: usize)
    requires
        nodes_linked(nodes@),
        old(mem)@.len() == nodes@.len(),
    ensures
        final(mem)@ == instrs_of(nodes@, id as int, old(mem)@, fuel as nat).0,
        final(dest)@ == old(dest)@ + instrs_of(nodes@, id as int, old(mem)@, fuel as nat).1,
        final(mem)@.len() == old(mem)@.len(),
    decreases fuel, 0int,
{
    let idx = id as usize;
    if fuel == 0 || idx >= mem.len() {
        assert(dest@ =~= old(dest)@ + Seq::<char>::empty());
        return;
    }
    if mem[idx] {
        assert(dest@ =~= old(dest)@ + Seq::<char>::empty());
        return;
    }
    mem.set(idx, true);
    let ghost d0 = dest@;
    let ops = operands_vec(&nodes[idx]);
    write_instrs_operands(nodes, &ops, mem, dest, fuel - 1);
    let ghost d1 = dest@;
    if !matches!(nodes[idx], Node::Input(_)) {
        push_var(dest, idx);
        dest.append(" = ");
        write_instr_body(nodes, idx, dest);
    }
    let ghost d2 = dest@;
    dest.append("\n");
    proof {
        assert(d1 =~= d0 + d1.subrange(d0.len() as int, d1.len() as int));
        assert(dest@ =~= old(dest)@ + (d1.subrange(old(dest)@.len() as int, d1.len() as int) + d2.subrange(d1.len() as int, d2.len() as int) + "\n"@));
    }
}

/// Writes the instructions reached from the operands `ops`, in order.
fn write_instrs_operands(nodes: &Vec<Node>, ops: &Vec<RCell>, mem: &mut Vec<bool>, dest: &mut String, f: usize)
    requires
        nodes_linked(nodes@),
        old(mem)@.len() == nodes@.len(),
    ensures
        final(mem)@ == instrs_of_operands(nodes@, ops@, ops@.len() as int, old(mem)@, f as nat).0,
        final(dest)@ == old(dest)@ + instrs_of_operands(nodes@, ops@, ops@.len() as int, old(mem)@, f as nat).1,
        final(mem)@.len() == old(mem)@.len(),
    decreases f, 1int,
{
    let ghost d0 = dest@;
    let mut j: usize = 0;
    while j < ops.len()
        invariant
            j <= ops@.len(),
            nodes_linked(nodes@),
            mem@.len() == nodes@.len(),
            mem@ == instrs_of_operands(nodes@, ops@, j as int, old(mem)@, f as nat).0,
            dest@ == d0 + instrs_of_operands(nodes@, ops@, j as int, old(mem)@, f as nat).1,
        decreases ops@.len() - j,
    {
        let ghost dj = dest@;
        write_instr(nodes, ops[j].id, mem, dest, f);
        j = j + 1;
        proof {
            let prev = instrs_of_operands(nodes@, ops@, j - 1, old(mem)@, f as nat);
            assert(dest@ =~= d0 + (prev.1 + dest@.subrange(dj.len() as int, dest@.len() as int)));
        }
    }
}

/// A table of `n` unknown sizes.
fn none_sizes(n: usize) -> (r: Vec<Option<usize>>)
    ensures
        r@ == Seq::new(n as nat, |i: int| None::<usize>),
{
    let mut r: Vec<Option<usize>> = Vec::new();
    let mut i: usize = 0;
    while i < n
        invariant
            i <= n,
            r@ == Seq::new(i as nat, |k: int| None::<usize>),
        decreases n - i,
    {
        r.push(None);
        i = i + 1;
        assert(r@ =~= Seq::new(i as nat, |k: int| None::<usize>));
    }
    r
}

/// A table of `n` unvisited marks.
fn unvisited(n: usize) -> (r: Vec<bool>)
    ensures
        r@ == Seq::new(n as nat, |i: int| false),
{
    let mut r: Vec<bool> = Vec::new();
    let mut i: usize = 0;
    while i < n
        invariant
            i <= n,
            r@ == Seq::new(i as nat, |k: int| false),
        decreases n - i,
    {
        r.push(false);
        i = i + 1;
        assert(r@ =~= Seq::new(i as nat, |k: int| false));
    }
    r
}

/// The netlist of a graph; see `netlist_text`.
pub fn to_netlist(source: &FlatProgramGraph) -> (r: String)
    requires
        printable(*source),
    ensures
        r@ == netlist_text(*source),
{
    let nodes = &source.nodes;
    let inputs = &source.inputs;
    let outs = &source.outputs;
    let n = nodes.len();
    let fuel = if n < usize::MAX {
        n + 1
    } else {
        n
    };
    let mut dest = String::new();
    dest.append("INPUT ");
    let ghost p0 = dest@;
    let mut k: usize = 0;
    while k < inputs.len()
        invariant
            k <= inputs@.len(),
            dest@ == p0 + inputs_text(k as nat),
        decreases inputs@.len() - k,
    {
        if k > 0 {
            dest.append(", ");
        }
        dest.append("i_");
        push_decimal(&mut dest, k);
        k = k + 1;
        proof {
            assert(dest@ =~= p0 + inputs_text(k as nat));
        }
    }
    dest.append("\n");
    dest.append("OUTPUT ");
    let ghost p1 = dest@;
    let mut j: usize = 0;
    while j < outs.len()
        invariant
            j <= outs@.len(),
            dest@ == p1 + outputs_text(outs@, j as int),
        decreases outs@.len() - j,
    {
        if j > 0 {
            dest.append(", ");
        }
        dest.append("o_");
        dest.append(outs[j].0.as_str());
        j = j + 1;
        proof {
            assert(dest@ =~= p1 + outputs_text(outs@, j as int));
        }
    }
    dest.append("\n");
    dest.append("VAR ");
    let ghost p2 = dest@;
    let mut sizes = none_sizes(n);
    let mut first = true;
    let mut j: usize = 0;
    while j < outs.len()
        invariant
            j <= outs@.len(),
            n == nodes@.len(),
            fuel == walk_fuel(*source),
            printable(*source),
            nodes == &source.nodes,
            inputs == &source.inputs,
            outs == &source.outputs,
            sizes@.len() == n,
            (sizes@, first) == (all_vars(*source, j as int).0, all_vars(*source, j as int).1),
            dest@ == p2 + all_vars(*source, j as int).2,
        decreases outs@.len() - j,
    {
        let ghost dj = dest@;
        let (_, f2) = write_vars(nodes, inputs, outs[j].1.id, first, &mut sizes, &mut dest, fuel);
        first = f2;
        proof {
            assert(dest@ =~= p2 + all_vars(*source, j + 1).2);
        }
        j = j + 1;
    }
    dest.append("\nIN\n");
    let ghost p3 = dest@;
    let mut seen = unvisited(n);
    let mut j: usize = 0;
    while j < outs.len()
        invariant
            j <= outs@.len(),
            n == nodes@.len(),
            fuel == walk_fuel(*source),
            printable(*source),
            nodes == &source.nodes,
            inputs == &source.inputs,
            outs == &source.outputs,
            seen@.len() == n,
            seen@ == all_instrs(*source, j as int).0,
            dest@ == p3 + all_instrs(*source, j as int).1,
        decreases outs@.len() - j,
    {
        let ghost dj = dest@;
        write_instr(nodes, outs[j].1.id, &mut seen, &mut dest, fuel);
        dest.append("o_");
        dest.append(outs[j].0.as_str());
        dest.append(" = ");
        write_var_name(nodes, outs[j].1.id, &mut dest);
        dest.append("\n");
        proof {
            assert(dest@ =~= p3 + all_instrs(*source, j + 1).1);
        }
        j = j + 1;
    }
    dest
}

/// The operands of a node.
pub fn operand_cells(n: &Node) -> (r: Vec<RCell>)
    ensures
        r@ == operands(*n),
{
    let mut r: Vec<RCell> = Vec::new();
    match n {
        Node::Not(e) => {
            r.push(*e);
        },
        Node::Slice(e, _, _) => {
            r.push(*e);
        },
        Node::BiOp(_, a, b) => {
            r.push(*a);
            r.push(*b);
        },
        Node::Mux(a, b, c) => {
            r.push(*a);
            r.push(*b);
            r.push(*c);
        },
        Node::Reg(_, e) => {
            r.push(*e);
        },
        Node::Ram(a, b, c, d) => {
            r.push(*a);
            r.push(*b);
            r.push(*c);
            r.push(*d);
        },
        Node::Rom(_, e) => {
            r.push(*e);
        },
        _ => {},
    }
    proof {
        assert(r@ =~= operands(*n));
    }
    r
}

/// Whether every handle of the arena points into it; see `nodes_linked`.
pub fn nodes_linked_exec(nodes: &Vec<Node>) -> (r: bool)
    ensures
        r == nodes_linked(nodes@),
{
    let n = nodes.len();
    let mut i: usize = 0;
    while i < n
        invariant
            n == nodes@.len(),
            i <= n,
            forall|k: int, j: int| 0 <= k < i && 0 <= j < operands(nodes@[k]).len() ==> (#[trigger] operands(nodes@[k])[j]).index() < n,
        decreases n - i,
    {
        let ops = operand_cells(&nodes[i]);
        let mut j: usize = 0;
        while j < ops.len()
            invariant
                n == nodes@.len(),
                i < n,
                ops@ == operands(nodes@[i as int]),
                j <= ops@.len(),
                forall|jj: int| 0 <= jj < j ==> (#[trigger] ops@[jj]).index() < n,
            decreases ops@.len() - j,
        {
            if ops[j].id >= n {
                return false;
            }
            j = j + 1;
        }
        i = i + 1;
    }
    true
}

/// Whether a graph can be printed; see `printable`.
pub fn printable_exec(g: &FlatProgramGraph) -> (r: bool)
    ensures
        r == printable(*g),
{
    if !nodes_linked_exec(&g.nodes) {
        return false;
    }
    let n = g.nodes.len();
    let n_inputs = g.inputs.len();
    let mut i: usize = 0;
    while i < n
        invariant
            n == g.nodes@.len(),
            n_inputs == g.inputs@.len(),
            i <= n,
            forall|k: int| 0 <= k < i ==> match #[trigger] g.nodes@[k] {
                Node::Input(x) => x < n_inputs,
                Node::Slice(_, c1, c2) => c1 <= c2,
                Node::TmpValueHolder(_) => false,
                _ => true,
            },
        decreases n - i,
    {
        let ok = match &g.nodes[i] {
            Node::Input(x) => *x < n_inputs,
            Node::Slice(_, c1, c2) => *c1 <= *c2,
            Node::TmpValueHolder(_) => false,
            _ => true,
        };
        if !ok {
            return false;
        }
        i = i + 1;
    }
    let mut j: usize = 0;
    while j < g.outputs.len()
        invariant
            n == g.nodes@.len(),
            j <= g.outputs@.len(),
            forall|jj: int| 0 <= jj < j ==> (#[trigger] g.outputs@[jj]).1.index() < n,
        decreases g.outputs@.len() - j,
    {
        if g.outputs[j].1.id >= n {
            return false;
        }
        j = j + 1;
    }
    true
}
} // verus!
