//! From the automaton graph to one flat dataflow graph.
//!
//! Each state's DAGs are copied into the arena of nodes, once per distinct DAG node. A shared
//! variable written by several states becomes a multiplexer chain on the variables telling
//! which state runs; the variable of a state is the disjunction of the conditions of the
//! transitions to it, and becomes a register (initialised when the state is initial). A
//! `last x` becomes a register on `x`, reset to the initial value of `x` when its state is
//! entered by a resetting transition. Placeholders stand for variables not built yet and are
//! replaced at the end.
use vstd::prelude::*;
use std::rc::Rc;

use crate::ast::graph::{BiOp, FlatProgramGraph, Node, RCell};
use crate::ast::graph_automaton::{ExprNode, ExprOperation, ProgramGraph, ProgramState};
use crate::frontend::make_graph_automaton::{node_of, state_view, ExprNodeV, ExprOpV, ProgramStateV};
use crate::interpreters::low_level_interpreter::{bits_eq, copy_bits};
use crate::optimization::basic::{copy_node, node_view, nodes_view, NodeV};

verus! {

/// The nodes already built for the DAG nodes of a state, by value.
pub type Memo = Seq<(ExprNodeV, int)>;

/// The node built for `e`, looking from entry `j` on.
pub open spec fn memo_find(m: Memo, e: ExprNodeV, j: int) -> Option<int>
    decreases m.len() - j,
{
    if j < 0 || j >= m.len() {
        None
    } else if m[j].0 == e {
        Some(m[j].1)
    } else {
        memo_find(m, e, j + 1)
    }
}

/// The handle of the node at index `h`.
pub open spec fn cell(h: int) -> RCell {
    RCell { id: h as usize }
}

/// The node built for the DAG node `e` of a state, with the arena and the memo after: a
/// node already built is reused; otherwise its operands are built in order and a new node
/// is added after them. An input of the program stays an input; any other input, and a
/// register on itself, is a placeholder. `last x` is a register on a placeholder for `x`,
/// or, when the state has a reset condition, on `mux(reset, initial value of x, x)`.
pub open spec fn cn(
    a: Seq<NodeV>,
    m: Memo,
    e: ExprNodeV,
    reset: Option<NodeV>,
    sizes: Seq<Seq<bool>>,
    n_input: usize,
) -> (int, Seq<NodeV>, Memo)
    decreases e,
{
    match memo_find(m, e, 0) {
        Some(h) => (h, a, m),
        None => {
            let (h, a1, m1) = match e.op {
                ExprOpV::Input(i) => (
                    a.len() as int,
                    a.push(
                        if i < n_input {
                            NodeV::Input(i)
                        } else {
                            NodeV::TmpValueHolder(i)
                        },
                    ),
                    m,
                ),
                ExprOpV::Const(c) => (a.len() as int, a.push(NodeV::Const(c)), m),
                ExprOpV::Not(x) => {
                    let (hx, ax, mx) = cn(a, m, *x, reset, sizes, n_input);
                    (ax.len() as int, ax.push(NodeV::Not(cell(hx))), mx)
                },
                ExprOpV::Slice(x, i, j) => {
                    let (hx, ax, mx) = cn(a, m, *x, reset, sizes, n_input);
                    (ax.len() as int, ax.push(NodeV::Slice(cell(hx), i, j)), mx)
                },
                ExprOpV::BiOp(op, x, y) => {
                    let (hx, ax, mx) = cn(a, m, *x, reset, sizes, n_input);
                    let (hy, ay, my) = cn(ax, mx, *y, reset, sizes, n_input);
                    (ay.len() as int, ay.push(NodeV::BiOp(op, cell(hx), cell(hy))), my)
                },
                ExprOpV::Mux(x, y, z) => {
                    let (hx, ax, mx) = cn(a, m, *x, reset, sizes, n_input);
                    let (hy, ay, my) = cn(ax, mx, *y, reset, sizes, n_input);
                    let (hz, az, mz) = cn(ay, my, *z, reset, sizes, n_input);
                    (az.len() as int, az.push(NodeV::Mux(cell(hx), cell(hy), cell(hz))), mz)
                },
                ExprOpV::Reg(s, x) => {
                    let (hx, ax, mx) = match x {
                        Some(y) => cn(a, m, *y, reset, sizes, n_input),
                        None => (a.len() as int, a.push(NodeV::TmpValueHolder(usize::MAX)), m),
                    };
                    (ax.len() as int, ax.push(NodeV::Reg(s, cell(hx))), mx)
                },
                ExprOpV::Ram(x, y, z, w) => {
                    let (hx, ax, mx) = cn(a, m, *x, reset, sizes, n_input);
                    let (hy, ay, my) = cn(ax, mx, *y, reset, sizes, n_input);
                    let (hz, az, mz) = cn(ay, my, *z, reset, sizes, n_input);
                    let (hw, aw, mw) = cn(az, mz, *w, reset, sizes, n_input);
                    (
                        aw.len() as int,
                        aw.push(NodeV::Ram(cell(hx), cell(hy), cell(hz), cell(hw))),
                        mw,
                    )
                },
                ExprOpV::Rom(s, x) => {
                    let (hx, ax, mx) = cn(a, m, *x, reset, sizes, n_input);
                    (ax.len() as int, ax.push(NodeV::Rom(s, cell(hx))), mx)
                },
                ExprOpV::Last(i) => {
                    let sz = sizes[i as int];
                    let (hin, ain) = match reset {
                        Some(rn) => {
                            let l = a.len() as int;
                            (
                                l + 3,
                                a.push(rn).push(NodeV::Const(sz)).push(NodeV::TmpValueHolder(i)).push(
                                    NodeV::Mux(cell(l), cell(l + 1), cell(l + 2)),
                                ),
                            )
                        },
                        None => (a.len() as int, a.push(NodeV::TmpValueHolder(i))),
                    };
                    (ain.len() as int, ain.push(NodeV::Reg(sz.len() as usize, cell(hin))), m)
                },
            };
            (h, a1, m1.push((e, h)))
        },
    }
}

/// What the construction carries from step to step: the arena, the memo of each state,
/// the reset condition of each state, and the node of each shared variable built so far.
pub struct Build {
    pub nodes: Seq<NodeV>,
    pub memos: Seq<Memo>,
    pub resets: Seq<Option<NodeV>>,
    pub map: Seq<Option<int>>,
}

/// The build with the DAG node `e` of state `k` built (without reset condition when
/// `with_reset` is unset), and its node.
pub open spec fn build_node(b: Build, k: int, e: ExprNodeV, with_reset: bool, sizes: Seq<Seq<bool>>, n_input: usize) -> (int, Build) {
    let (h, a, m) = cn(
        b.nodes,
        b.memos[k],
        e,
        if with_reset {
            b.resets[k]
        } else {
            None
        },
        sizes,
        n_input,
    );
    (h, Build { nodes: a, memos: b.memos.update(k, m), ..b })
}

/// The reset conditions after the first `j` transitions of state `k`: the condition of a
/// resetting transition is `(state k runs) and (its condition)`, or-ed before the condition
/// already known for its target.
pub open spec fn resets_of_state(
    b: Build,
    st: ProgramStateV,
    k: int,
    j: int,
    sizes: Seq<Seq<bool>>,
    n_input: usize,
) -> Build
    decreases j,
{
    if j <= 0 || j > st.transition_outputs.len() {
        b
    } else {
        let b1 = resets_of_state(b, st, k, j - 1, sizes, n_input);
        let t = st.transition_outputs[j - 1];
        if t.0 is Some && t.2 {
            let next = t.0->Some_0 as int;
            let (h, b2) = build_node(b1, k, t.1, false, sizes, n_input);
            let l = b2.nodes.len() as int;
            let cond = NodeV::BiOp(BiOp::And, cell(l), cell(h));
            let a = b2.nodes.push(NodeV::TmpValueHolder((k + n_input) as usize));
            match b2.resets[next] {
                None => Build { nodes: a, resets: b2.resets.update(next, Some(cond)), ..b2 },
                Some(prev) => Build {
                    nodes: a.push(cond).push(prev),
                    resets: b2.resets.update(next, Some(NodeV::BiOp(BiOp::Or, cell(l + 1), cell(l + 2)))),
                    ..b2
                },
            }
        } else {
            b1
        }
    }
}

/// The reset conditions after the first `k` states.
pub open spec fn resets_upto(b: Build, states: Seq<ProgramStateV>, k: int, sizes: Seq<Seq<bool>>, n_input: usize) -> Build
    decreases k,
{
    if k <= 0 || k > states.len() {
        b
    } else {
        let b1 = resets_upto(b, states, k - 1, sizes, n_input);
        resets_of_state(b1, states[k - 1], k - 1, states[k - 1].transition_outputs.len() as int, sizes, n_input)
    }
}

/// The shared variables written by the first `j` outputs of state `k`: each becomes
/// `mux(state k runs, its expression, what it was before)`, its initial value when nothing
/// wrote it before.
pub open spec fn outputs_of_state(b: Build, st: ProgramStateV, k: int, j: int, sizes: Seq<Seq<bool>>, n_input: usize) -> Build
    decreases j,
{
    if j <= 0 || j > st.shared_outputs.len() {
        b
    } else {
        let b1 = outputs_of_state(b, st, k, j - 1, sizes, n_input);
        let (id, e) = st.shared_outputs[j - 1];
        let (h, b2) = build_node(b1, k, e, true, sizes, n_input);
        let l = b2.nodes.len() as int;
        let a = b2.nodes.push(NodeV::TmpValueHolder((k + n_input) as usize));
        match b2.map[id as int] {
            Some(prev) => Build {
                nodes: a.push(NodeV::Mux(cell(l), cell(h), cell(prev))),
                map: b2.map.update(id as int, Some(l + 1)),
                ..b2
            },
            None => Build {
                nodes: a.push(NodeV::Const(sizes[id as int])).push(NodeV::Mux(cell(l), cell(h), cell(l + 1))),
                map: b2.map.update(id as int, Some(l + 2)),
                ..b2
            },
        }
    }
}

/// The shared variables written by the states of the first `j` entries of the schedule.
pub open spec fn scheduled_upto(b: Build, states: Seq<ProgramStateV>, schedule: Seq<usize>, j: int, sizes: Seq<Seq<bool>>, n_input: usize) -> Build
    decreases j,
{
    if j <= 0 || j > schedule.len() {
        b
    } else {
        let b1 = scheduled_upto(b, states, schedule, j - 1, sizes, n_input);
        let k = schedule[j - 1] as int;
        outputs_of_state(b1, states[k], k, states[k].shared_outputs.len() as int, sizes, n_input)
    }
}

/// The variables of the states after the first `j` transitions of state `k`: a transition
/// to `next` adds `(state k runs) and (its condition)`, or-ed with what was known before.
pub open spec fn transitions_of_state(b: Build, st: ProgramStateV, k: int, j: int, sizes: Seq<Seq<bool>>, n_input: usize) -> Build
    decreases j,
{
    if j <= 0 || j > st.transition_outputs.len() {
        b
    } else {
        let b1 = transitions_of_state(b, st, k, j - 1, sizes, n_input);
        let t = st.transition_outputs[j - 1];
        if t.0 is Some {
            let key = t.0->Some_0 + n_input;
            let (h, b2) = build_node(b1, k, t.1, true, sizes, n_input);
            let l = b2.nodes.len() as int;
            let a = b2.nodes.push(NodeV::TmpValueHolder((k + n_input) as usize)).push(
                NodeV::BiOp(BiOp::And, cell(l), cell(h)),
            );
            match b2.map[key] {
                None => Build { nodes: a, map: b2.map.update(key, Some(l + 1)), ..b2 },
                Some(prev) => Build {
                    nodes: a.push(NodeV::BiOp(BiOp::Or, cell(l + 1), cell(prev))),
                    map: b2.map.update(key, Some(l + 2)),
                    ..b2
                },
            }
        } else {
            b1
        }
    }
}

/// Whether the condition built at `id` holds, `runs(s)` telling whether the state whose
/// variable is the shared variable `s` runs, and `leaf(id)` the value of any node that is
/// not a conjunction, a disjunction or a state's variable; looked at down to depth `fuel`.
pub open spec fn cond_holds(nodes: Seq<NodeV>, id: int, fuel: nat, runs: spec_fn(int) -> bool, leaf: spec_fn(int) -> bool) -> bool
    decreases fuel, 0int,
{
    if fuel == 0 || id < 0 || id >= nodes.len() {
        leaf(id)
    } else {
        node_cond(nodes, nodes[id], id, (fuel - 1) as nat, runs, leaf)
    }
}

/// Whether the condition `n` (the node at `id`) holds; see `cond_holds`.
pub open spec fn node_cond(nodes: Seq<NodeV>, n: NodeV, id: int, fuel: nat, runs: spec_fn(int) -> bool, leaf: spec_fn(int) -> bool) -> bool
    decreases fuel, 1int,
{
    match n {
        NodeV::TmpValueHolder(s) => runs(s as int),
        NodeV::BiOp(op, x, y) => match op {
            BiOp::And => cond_holds(nodes, x.id as int, fuel, runs, leaf) && cond_holds(nodes, y.id as int, fuel, runs, leaf),
            BiOp::Or => cond_holds(nodes, x.id as int, fuel, runs, leaf) || cond_holds(nodes, y.id as int, fuel, runs, leaf),
            _ => leaf(id),
        },
        _ => leaf(id),
    }
}

/// The value of the bus built at `id`, `runs(s)` telling whether the state whose variable is
/// the shared variable `s` runs (a one-bit bus), and `leaf(id)` the value of any node that is
/// not a constant, a multiplexer or a state's variable; looked at down to depth `fuel`. A
/// multiplexer gives its second operand when the first bit of its selector is set, else its
/// third.
pub open spec fn bus_of(nodes: Seq<NodeV>, id: int, fuel: nat, runs: spec_fn(int) -> bool, leaf: spec_fn(int) -> Seq<bool>) -> Seq<bool>
    decreases fuel,
{
    if fuel == 0 || id < 0 || id >= nodes.len() {
        leaf(id)
    } else {
        match nodes[id] {
            NodeV::TmpValueHolder(s) => seq![runs(s as int)],
            NodeV::Const(c) => c,
            NodeV::Mux(sel, a, b) => {
                let sv = bus_of(nodes, sel.id as int, (fuel - 1) as nat, runs, leaf);
                if sv.len() > 0 && sv[0] {
                    bus_of(nodes, a.id as int, (fuel - 1) as nat, runs, leaf)
                } else {
                    bus_of(nodes, b.id as int, (fuel - 1) as nat, runs, leaf)
                }
            },
            _ => leaf(id),
        }
    }
}

/// The transitions of a state leave as many state variables as there were.
proof fn lemma_transitions_map_len(b: Build, st: ProgramStateV, k: int, j: int, sizes: Seq<Seq<bool>>, n_input: usize)
    requires
        forall|jj: int| 0 <= jj < j && jj < st.transition_outputs.len() && (#[trigger] st.transition_outputs[jj]).0 is Some
            ==> st.transition_outputs[jj].0->Some_0 + n_input < b.map.len(),
    ensures
        transitions_of_state(b, st, k, j, sizes, n_input).map.len() == b.map.len(),
    decreases j,
{
    if 0 < j <= st.transition_outputs.len() {
        lemma_transitions_map_len(b, st, k, j - 1, sizes, n_input);
        let b1 = transitions_of_state(b, st, k, j - 1, sizes, n_input);
        let t = st.transition_outputs[j - 1];
        if t.0 is Some {
            let b2 = build_node(b1, k, t.1, true, sizes, n_input).1;
            assert(b2.map == b1.map);
            let key = t.0->Some_0 + n_input;
        }
    }
}

/// A transition from state `k` into a state makes that state's variable hold exactly when
/// it held before (from the other transitions into it met so far) or when state `k` runs
/// and the transition's condition holds; with no transition into it before, exactly when
/// the latter holds. The variables of the other states are left as they were.
pub proof fn law_transition_condition(
    b: Build,
    st: ProgramStateV,
    k: int,
    j: int,
    sizes: Seq<Seq<bool>>,
    n_input: usize,
    fuel: nat,
    runs: spec_fn(int) -> bool,
    leaf: spec_fn(int) -> bool,
)
    requires
        0 < j <= st.transition_outputs.len(),
        st.transition_outputs[j - 1].0 is Some,
        forall|jj: int| 0 <= jj < j && (#[trigger] st.transition_outputs[jj]).0 is Some
            ==> st.transition_outputs[jj].0->Some_0 + n_input < b.map.len(),
        0 <= k,
        k + n_input <= usize::MAX,
        transitions_of_state(b, st, k, j, sizes, n_input).nodes.len() <= usize::MAX,
        fuel >= 1,
    ensures
        ({
            let b1 = transitions_of_state(b, st, k, j - 1, sizes, n_input);
            let t = st.transition_outputs[j - 1];
            let key = t.0->Some_0 + n_input;
            let h = build_node(b1, k, t.1, true, sizes, n_input).0;
            let b2 = build_node(b1, k, t.1, true, sizes, n_input).1;
            let b3 = transitions_of_state(b, st, k, j, sizes, n_input);
            let fired = runs(k + n_input) && cond_holds(b3.nodes, cell(h).id as int, fuel, runs, leaf);
            &&& b3.map[key] is Some
            &&& match b2.map[key] {
                None => cond_holds(b3.nodes, b3.map[key]->Some_0, fuel + 1, runs, leaf) == fired,
                Some(prev) => cond_holds(b3.nodes, b3.map[key]->Some_0, fuel + 2, runs, leaf)
                    == (fired || cond_holds(b3.nodes, cell(prev).id as int, fuel + 1, runs, leaf)),
            }
            &&& forall|o: int| 0 <= o < b3.map.len() && o != key ==> b3.map[o] == b2.map[o]
        }),
{
    lemma_transitions_map_len(b, st, k, j - 1, sizes, n_input);
    let b1 = transitions_of_state(b, st, k, j - 1, sizes, n_input);
    let t = st.transition_outputs[j - 1];
    let key = t.0->Some_0 + n_input;
    let (h, b2) = build_node(b1, k, t.1, true, sizes, n_input);
    let l = b2.nodes.len() as int;
    let b3 = transitions_of_state(b, st, k, j, sizes, n_input);
    assert(b2.map == b1.map);
    assert(b3.nodes[l] == NodeV::TmpValueHolder((k + n_input) as usize));
    assert(b3.nodes[l + 1] == NodeV::BiOp(BiOp::And, cell(l), cell(h)));
    assert(cell(l).id as int == l);
    assert(cell(l + 1).id as int == l + 1);
    assert(cond_holds(b3.nodes, l, fuel, runs, leaf) == runs(k + n_input));
    assert(cond_holds(b3.nodes, l + 1, fuel + 1, runs, leaf) == (runs(k + n_input) && cond_holds(b3.nodes, cell(h).id as int, fuel, runs, leaf)));
    if let Some(prev) = b2.map[key] {
        assert(b3.nodes[l + 2] == NodeV::BiOp(BiOp::Or, cell(l + 1), cell(prev)));
        assert(b3.map[key] == Some(l + 2));
    } else {
        assert(b3.map[key] == Some(l + 1));
    }
}

/// The outputs of a state leave as many shared variables as there were.
proof fn lemma_outputs_map_len(b: Build, st: ProgramStateV, k: int, j: int, sizes: Seq<Seq<bool>>, n_input: usize)
    requires
        forall|jj: int| 0 <= jj < j && jj < st.shared_outputs.len() ==> (#[trigger] st.shared_outputs[jj]).0 < b.map.len(),
    ensures
        outputs_of_state(b, st, k, j, sizes, n_input).map.len() == b.map.len(),
    decreases j,
{
    if 0 < j <= st.shared_outputs.len() {
        lemma_outputs_map_len(b, st, k, j - 1, sizes, n_input);
        let b1 = outputs_of_state(b, st, k, j - 1, sizes, n_input);
        let b2 = build_node(b1, k, st.shared_outputs[j - 1].1, true, sizes, n_input).1;
        assert(b2.map == b1.map);
    }
}

/// A shared variable written by state `k` takes, after that write, the value of the written
/// expression when state `k` runs and otherwise the value it had before (its initial value
/// when no state wrote it before). The other shared variables are left as they were.
pub proof fn law_output_mux(
    b: Build,
    st: ProgramStateV,
    k: int,
    j: int,
    sizes: Seq<Seq<bool>>,
    n_input: usize,
    fuel: nat,
    runs: spec_fn(int) -> bool,
    leaf: spec_fn(int) -> Seq<bool>,
)
    requires
        0 < j <= st.shared_outputs.len(),
        forall|jj: int| 0 <= jj < j ==> (#[trigger] st.shared_outputs[jj]).0 < b.map.len(),
        0 <= k,
        k + n_input <= usize::MAX,
        outputs_of_state(b, st, k, j, sizes, n_input).nodes.len() <= usize::MAX,
        fuel >= 1,
    ensures
        ({
            let b1 = outputs_of_state(b, st, k, j - 1, sizes, n_input);
            let (v, e) = st.shared_outputs[j - 1];
            let h = build_node(b1, k, e, true, sizes, n_input).0;
            let b2 = build_node(b1, k, e, true, sizes, n_input).1;
            let b3 = outputs_of_state(b, st, k, j, sizes, n_input);
            let written = bus_of(b3.nodes, cell(h).id as int, fuel, runs, leaf);
            &&& b3.map[v as int] is Some
            &&& match b2.map[v as int] {
                None => bus_of(b3.nodes, b3.map[v as int]->Some_0, fuel + 1, runs, leaf)
                    == if runs(k + n_input) { written } else { sizes[v as int] },
                Some(prev) => bus_of(b3.nodes, b3.map[v as int]->Some_0, fuel + 1, runs, leaf)
                    == if runs(k + n_input) { written } else { bus_of(b3.nodes, cell(prev).id as int, fuel, runs, leaf) },
            }
            &&& forall|o: int| 0 <= o < b3.map.len() && o != v ==> b3.map[o] == b2.map[o]
        }),
{
    lemma_outputs_map_len(b, st, k, j - 1, sizes, n_input);
    let b1 = outputs_of_state(b, st, k, j - 1, sizes, n_input);
    let (v, e) = st.shared_outputs[j - 1];
    let (h, b2) = build_node(b1, k, e, true, sizes, n_input);
    let l = b2.nodes.len() as int;
    let b3 = outputs_of_state(b, st, k, j, sizes, n_input);
    assert(b2.map == b1.map);
    assert(b3.nodes[l] == NodeV::TmpValueHolder((k + n_input) as usize));
    assert(cell(l).id as int == l);
    assert(bus_of(b3.nodes, l, fuel, runs, leaf) == seq![runs(k + n_input)]);
    if let Some(prev) = b2.map[v as int] {
        assert(b3.nodes[l + 1] == NodeV::Mux(cell(l), cell(h), cell(prev)));
        assert(b3.map[v as int] == Some(l + 1));
    } else {
        assert(cell(l + 1).id as int == l + 1);
        assert(b3.nodes[l + 1] == NodeV::Const(sizes[v as int]));
        assert(b3.nodes[l + 2] == NodeV::Mux(cell(l), cell(h), cell(l + 1)));
        assert(b3.map[v as int] == Some(l + 2));
        assert(bus_of(b3.nodes, l + 1, fuel, runs, leaf) == sizes[v as int]);
    }
}

/// A resetting transition from state `k` makes the reset condition of its target hold
/// exactly when state `k` runs and the transition's condition holds, or, when the target had
/// a reset condition already, when that one holds (its node is kept among the nodes).
pub proof fn law_reset_condition(
    b: Build,
    st: ProgramStateV,
    k: int,
    j: int,
    sizes: Seq<Seq<bool>>,
    n_input: usize,
    fuel: nat,
    runs: spec_fn(int) -> bool,
    leaf: spec_fn(int) -> bool,
)
    requires
        0 < j <= st.transition_outputs.len(),
        st.transition_outputs[j - 1].0 is Some,
        st.transition_outputs[j - 1].2,
        0 <= k,
        k + n_input <= usize::MAX,
        resets_of_state(b, st, k, j, sizes, n_input).nodes.len() <= usize::MAX,
        fuel >= 1,
    ensures
        ({
            let b1 = resets_of_state(b, st, k, j - 1, sizes, n_input);
            let t = st.transition_outputs[j - 1];
            let next = t.0->Some_0 as int;
            let h = build_node(b1, k, t.1, false, sizes, n_input).0;
            let b2 = build_node(b1, k, t.1, false, sizes, n_input).1;
            let l = b2.nodes.len() as int;
            let b3 = resets_of_state(b, st, k, j, sizes, n_input);
            let fired = runs(k + n_input) && cond_holds(b3.nodes, cell(h).id as int, fuel, runs, leaf);
            next < b2.resets.len() ==> {
                &&& b3.resets[next] is Some
                &&& match b2.resets[next] {
                    None => node_cond(b3.nodes, b3.resets[next]->Some_0, -1, fuel, runs, leaf) == fired,
                    Some(prev) => b3.nodes[l + 2] == prev && node_cond(b3.nodes, b3.resets[next]->Some_0, -1, fuel + 1, runs, leaf)
                        == (fired || cond_holds(b3.nodes, l + 2, fuel + 1, runs, leaf)),
                }
            }
        }),
{
    let b1 = resets_of_state(b, st, k, j - 1, sizes, n_input);
    let t = st.transition_outputs[j - 1];
    let next = t.0->Some_0 as int;
    let (h, b2) = build_node(b1, k, t.1, false, sizes, n_input);
    let l = b2.nodes.len() as int;
    let b3 = resets_of_state(b, st, k, j, sizes, n_input);
    assert(b3.nodes[l] == NodeV::TmpValueHolder((k + n_input) as usize));
    assert(cell(l).id as int == l);
    assert(cond_holds(b3.nodes, l, fuel, runs, leaf) == runs(k + n_input));
    if next < b2.resets.len() {
        let cond = NodeV::BiOp(BiOp::And, cell(l), cell(h));
        match b2.resets[next] {
            None => {
                assert(b3.resets[next] == Some(cond));
                assert(node_cond(b3.nodes, cond, -1, fuel, runs, leaf) == (runs(k + n_input) && cond_holds(b3.nodes, cell(h).id as int, fuel, runs, leaf)));
            },
            Some(prev) => {
                assert(cell(l + 1).id as int == l + 1);
                assert(cell(l + 2).id as int == l + 2);
                assert(b3.nodes[l + 1] == cond);
                assert(b3.nodes[l + 2] == prev);
                assert(b3.resets[next] == Some(NodeV::BiOp(BiOp::Or, cell(l + 1), cell(l + 2))));
                assert(cond_holds(b3.nodes, l + 1, fuel + 1, runs, leaf) == node_cond(b3.nodes, cond, l + 1, fuel, runs, leaf));
            },
        }
    }
}

/// The variables of the states after the transitions of the first `k` states.
pub open spec fn transitions_upto(b: Build, states: Seq<ProgramStateV>, k: int, sizes: Seq<Seq<bool>>, n_input: usize) -> Build
    decreases k,
{
    if k <= 0 || k > states.len() {
        b
    } else {
        let b1 = transitions_upto(b, states, k - 1, sizes, n_input);
        transitions_of_state(b1, states[k - 1], k - 1, states[k - 1].transition_outputs.len() as int, sizes, n_input)
    }
}

/// Some bit is set.
pub open spec fn some_set(v: Seq<bool>) -> bool {
    exists|i: int| 0 <= i < v.len() && v[i]
}

/// The variables of the first `j` of the first `n_node` shared variables (the inputs and the
/// states) made registers, the ones initially set also multiplexed with their initial value
/// on the first cycle (`init`, a register on `1`, is unset only then).
pub open spec fn init_upto(b: Build, j: int, init: int, sizes: Seq<Seq<bool>>) -> Build
    decreases j,
{
    if j <= 0 || j > b.map.len() {
        b
    } else {
        let b1 = init_upto(b, j - 1, init, sizes);
        match b1.map[j - 1] {
            None => b1,
            Some(n) => {
                let l = b1.nodes.len() as int;
                if some_set(sizes[j - 1]) {
                    Build {
                        nodes: b1.nodes.push(NodeV::Reg(1, cell(n))).push(NodeV::Const(sizes[j - 1])).push(
                            NodeV::Mux(cell(init), cell(l), cell(l + 1)),
                        ),
                        map: b1.map.update(j - 1, Some(l + 2)),
                        ..b1
                    }
                } else {
                    Build { nodes: b1.nodes.push(NodeV::Reg(1, cell(n))), map: b1.map.update(j - 1, Some(l)), ..b1 }
                }
            },
        }
    }
}

/// The arena with the placeholders among its first `j` nodes replaced, in order: the
/// placeholder of a shared variable takes the content of the variable's node, or its initial
/// value when it has none. Other placeholders stay.
pub open spec fn replaced_upto(nodes: Seq<NodeV>, j: int, map: Seq<Option<int>>, sizes: Seq<Seq<bool>>) -> Seq<NodeV>
    decreases j,
{
    if j <= 0 || j > nodes.len() {
        nodes
    } else {
        let a = replaced_upto(nodes, j - 1, map, sizes);
        match a[j - 1] {
            NodeV::TmpValueHolder(i) => if i < sizes.len() && i < map.len() {
                match map[i as int] {
                    Some(h) => if 0 <= h < a.len() {
                        a.update(j - 1, a[h])
                    } else {
                        a
                    },
                    None => a.update(j - 1, NodeV::Const(sizes[i as int])),
                }
            } else {
                a
            },
            _ => a,
        }
    }
}

/// The node added for an output on the shared slot `i` that no node holds: the input itself
/// for one of the `n_input` program inputs, else a constant node with its initial value.
pub open spec fn slot_node(i: int, n_input: usize, sizes: Seq<Seq<bool>>) -> NodeV {
    if i < n_input {
        NodeV::Input(i as usize)
    } else {
        NodeV::Const(sizes[i])
    }
}

/// The outputs of the flat graph after the first `j`, with the arena: each takes the node of
/// its variable (which is then gone), or else the node of its slot (`slot_node`: the input
/// for a program input, its initial value otherwise); that node is added in both cases.
pub open spec fn outputs_upto(nodes: Seq<NodeV>, map: Seq<Option<int>>, outs: Seq<(String, usize)>, j: int, sizes: Seq<Seq<bool>>, n_input: usize) -> (Seq<(Seq<char>, int)>, Seq<NodeV>, Seq<Option<int>>)
    decreases j,
{
    if j <= 0 || j > outs.len() {
        (Seq::empty(), nodes, map)
    } else {
        let (o, a, m) = outputs_upto(nodes, map, outs, j - 1, sizes, n_input);
        let i = outs[j - 1].1 as int;
        match m[i] {
            Some(h) => (o.push((outs[j - 1].0@, h)), a.push(slot_node(i, n_input, sizes)), m.update(i, None)),
            None => (o.push((outs[j - 1].0@, a.len() as int)), a.push(slot_node(i, n_input, sizes)), m),
        }
    }
}

/// The flat graph of an automaton graph: its outputs (name and node) and its arena.
pub open spec fn flatten_spec(g: ProgramGraph) -> (Seq<(Seq<char>, int)>, Seq<NodeV>) {
    let states = g.states@.map_values(|s: ProgramState| state_view(s));
    let sizes = g.shared@.map_values(|v: Vec<bool>| v@);
    let n_input = g.inputs@.len() as usize;
    let b0 = Build {
        nodes: Seq::empty(),
        memos: Seq::new(states.len(), |i: int| Seq::<(ExprNodeV, int)>::empty()),
        resets: Seq::new(states.len(), |i: int| None::<NodeV>),
        map: Seq::new(sizes.len(), |i: int| None::<int>),
    };
    let b1 = resets_upto(b0, states, states.len() as int, sizes, n_input);
    let l = b1.nodes.len() as int;
    let b2 = Build { nodes: b1.nodes.push(NodeV::Const(seq![true])).push(NodeV::Reg(1, cell(l))), ..b1 };
    let b3 = scheduled_upto(b2, states, g.schedule@, g.schedule@.len() as int, sizes, n_input);
    let b4 = transitions_upto(b3, states, states.len() as int, sizes, n_input);
    let n_node = g.inputs@.len() + states.len();
    let b5 = init_upto(b4, if n_node <= b4.map.len() { n_node as int } else { b4.map.len() as int }, l + 1, sizes);
    let a = replaced_upto(b5.nodes, b5.nodes.len() as int, b5.map, sizes);
    let (o, a2, _) = outputs_upto(a, b5.map, g.outputs@, g.outputs@.len() as int, sizes, n_input);
    (o, a2)
}


/// Every `last` of `e` reads a shared variable among the first `n`.
pub open spec fn lasts_ok(e: ExprNodeV, n: nat) -> bool
    decreases e,
{
    match e.op {
        ExprOpV::Not(x) => lasts_ok(*x, n),
        ExprOpV::Slice(x, _, _) => lasts_ok(*x, n),
        ExprOpV::BiOp(_, x, y) => lasts_ok(*x, n) && lasts_ok(*y, n),
        ExprOpV::Mux(x, y, z) => lasts_ok(*x, n) && lasts_ok(*y, n) && lasts_ok(*z, n),
        ExprOpV::Reg(_, x) => match x {
            Some(y) => lasts_ok(*y, n),
            None => true,
        },
        ExprOpV::Ram(x, y, z, w) => lasts_ok(*x, n) && lasts_ok(*y, n) && lasts_ok(*z, n) && lasts_ok(*w, n),
        ExprOpV::Rom(_, x) => lasts_ok(*x, n),
        ExprOpV::Last(i) => i < n,
        _ => true,
    }
}

/// The memo of a state, by value.
pub open spec fn memo_view(m: Seq<(Rc<ExprNode>, usize)>) -> Memo {
    m.map_values(|p: (Rc<ExprNode>, usize)| (node_of(*p.0), p.1 as int))
}

/// An optional node, by value.
pub open spec fn opt_node_view(r: Option<Node>) -> Option<NodeV> {
    match r {
        Some(n) => Some(node_view(n)),
        None => None,
    }
}

/// Constants, by value.
pub open spec fn sizes_view(s: Seq<Vec<bool>>) -> Seq<Seq<bool>> {
    s.map_values(|v: Vec<bool>| v@)
}

/// Whether two DAG nodes are the same, operands compared as trees.
fn nodes_equal(a: &ExprNode, b: &ExprNode) -> (r: bool)
    ensures
        r == (node_of(*a) == node_of(*b)),
    decreases a,
{
    if a.id != b.id {
        return false;
    }
    match (&a.op, &b.op) {
        (ExprOperation::Input(i), ExprOperation::Input(j)) => *i == *j,
        (ExprOperation::Const(c), ExprOperation::Const(d)) => bits_eq(c, d),
        (ExprOperation::Not(x), ExprOperation::Not(y)) => nodes_equal(x, y),
        (ExprOperation::Slice(x, i, j), ExprOperation::Slice(y, k, l)) => *i == *k && *j == *l && nodes_equal(x, y),
        (ExprOperation::BiOp(o, x1, x2), ExprOperation::BiOp(p, y1, y2)) => *o == *p && nodes_equal(x1, y1) && nodes_equal(x2, y2),
        (ExprOperation::Mux(x1, x2, x3), ExprOperation::Mux(y1, y2, y3)) => nodes_equal(x1, y1) && nodes_equal(x2, y2) && nodes_equal(x3, y3),
        (ExprOperation::Reg(s, x), ExprOperation::Reg(t, y)) => *s == *t && match (x, y) {
            (Some(x1), Some(y1)) => nodes_equal(x1, y1),
            (None, None) => true,
            _ => false,
        },
        (ExprOperation::Ram(x1, x2, x3, x4), ExprOperation::Ram(y1, y2, y3, y4)) => nodes_equal(x1, y1) && nodes_equal(x2, y2) && nodes_equal(x3, y3) && nodes_equal(x4, y4),
        (ExprOperation::Rom(s, x), ExprOperation::Rom(t, y)) => *s == *t && nodes_equal(x, y),
        (ExprOperation::Last(i), ExprOperation::Last(j)) => *i == *j,
        _ => false,
    }
}

/// The node already built for `e`; see `memo_find`.
fn memo_lookup(memo: &Vec<(Rc<ExprNode>, usize)>, e: &ExprNode) -> (r: Option<usize>)
    ensures
        match memo_find(memo_view(memo@), node_of(*e), 0) {
            Some(h) => r matches Some(x) && x as int == h,
            None => r is None,
        },
{
    let mut j: usize = 0;
    while j < memo.len()
        invariant
            j <= memo@.len(),
            memo_find(memo_view(memo@), node_of(*e), 0) == memo_find(memo_view(memo@), node_of(*e), j as int),
        decreases memo@.len() - j,
    {
        if nodes_equal(&memo[j].0, e) {
            return Some(memo[j].1);
        }
        j = j + 1;
    }
    None
}

/// Adds `n` at the end of the arena and returns its index.
fn push_node(nodes: &mut Vec<Node>, n: Node) -> (r: usize)
    ensures
        r == old(nodes)@.len(),
        final(nodes)@.len() == old(nodes)@.len() + 1,
        nodes_view(final(nodes)@) == nodes_view(old(nodes)@).push(node_view(n)),
{
    let ghost n0 = nodes@;
    let r = RCell::new(nodes, n);
    assert(nodes_view(nodes@) =~= nodes_view(n0).push(node_view(n)));
    r.id
}


/// The node built for the DAG node `e` of a state; see `cn`.
#[verifier::rlimit(40)]
#[verifier::spinoff_prover]
fn compute_node(
    e: &Rc<ExprNode>,
    nodes: &mut Vec<Node>,
    memo: &mut Vec<(Rc<ExprNode>, usize)>,
    reset: &Option<Node>,
    sizes: &Vec<Vec<bool>>,
    n_input: usize,
) -> (r: usize)
    requires
        lasts_ok(node_of(**e), sizes@.len()),
    ensures
        ({
            let s = cn(
                nodes_view(old(nodes)@),
                memo_view(old(memo)@),
                node_of(**e),
                opt_node_view(*reset),
                sizes_view(sizes@),
                n_input,
            );
            &&& r as int == s.0
            &&& nodes_view(final(nodes)@) == s.1
            &&& memo_view(final(memo)@) == s.2
        }),
    decreases e,
{
    match memo_lookup(memo, e) {
        Some(h) => {
            return h;
        },
        None => {},
    }
    let h = match &e.op {
        ExprOperation::Input(i) => push_node(
            nodes,
            if *i < n_input {
                Node::Input(*i)
            } else {
                Node::TmpValueHolder(*i)
            },
        ),
        ExprOperation::Const(c) => push_node(nodes, Node::Const(copy_bits(c))),
        ExprOperation::Not(x) => {
            let hx = compute_node(x, nodes, memo, reset, sizes, n_input);
            push_node(nodes, Node::Not(RCell { id: hx }))
        },
        ExprOperation::Slice(x, i, j) => {
            let hx = compute_node(x, nodes, memo, reset, sizes, n_input);
            push_node(nodes, Node::Slice(RCell { id: hx }, *i, *j))
        },
        ExprOperation::BiOp(op, x, y) => {
            let hx = compute_node(x, nodes, memo, reset, sizes, n_input);
            let hy = compute_node(y, nodes, memo, reset, sizes, n_input);
            push_node(nodes, Node::BiOp(*op, RCell { id: hx }, RCell { id: hy }))
        },
        ExprOperation::Mux(x, y, z) => {
            let hx = compute_node(x, nodes, memo, reset, sizes, n_input);
            let hy = compute_node(y, nodes, memo, reset, sizes, n_input);
            let hz = compute_node(z, nodes, memo, reset, sizes, n_input);
            push_node(nodes, Node::Mux(RCell { id: hx }, RCell { id: hy }, RCell { id: hz }))
        },
        ExprOperation::Reg(s, x) => {
            let hx = match x {
                Some(y) => compute_node(y, nodes, memo, reset, sizes, n_input),
                None => push_node(nodes, Node::TmpValueHolder(usize::MAX)),
            };
            push_node(nodes, Node::Reg(*s, RCell { id: hx }))
        },
        ExprOperation::Ram(x, y, z, w) => {
            let hx = compute_node(x, nodes, memo, reset, sizes, n_input);
            let hy = compute_node(y, nodes, memo, reset, sizes, n_input);
            let hz = compute_node(z, nodes, memo, reset, sizes, n_input);
            let hw = compute_node(w, nodes, memo, reset, sizes, n_input);
            push_node(nodes, Node::Ram(RCell { id: hx }, RCell { id: hy }, RCell { id: hz }, RCell { id: hw }))
        },
        ExprOperation::Rom(s, x) => {
            let hx = compute_node(x, nodes, memo, reset, sizes, n_input);
            push_node(nodes, Node::Rom(*s, RCell { id: hx }))
        },
        ExprOperation::Last(i) => {
            let sz = &sizes[*i];
            let hin = match reset {
                Some(rn) => {
                    let l = push_node(nodes, copy_node(rn));
                    let c = push_node(nodes, Node::Const(copy_bits(sz)));
                    let t = push_node(nodes, Node::TmpValueHolder(*i));
                    push_node(nodes, Node::Mux(RCell { id: l }, RCell { id: c }, RCell { id: t }))
                },
                None => push_node(nodes, Node::TmpValueHolder(*i)),
            };
            push_node(nodes, Node::Reg(sz.len(), RCell { id: hin }))
        },
    };
    let ghost m0 = memo@;
    memo.push((e.clone(), h));
    assert(memo_view(memo@) =~= memo_view(m0).push((node_of(**e), h as int)));
    h
}


/// The states of an automaton graph, by value.
pub open spec fn states_of(g: ProgramGraph) -> Seq<ProgramStateV> {
    g.states@.map_values(|s: ProgramState| state_view(s))
}

/// An automaton graph that can be flattened: its shared variables, states and ids are all
/// in range, and numbering the states after the inputs does not overflow.
pub open spec fn flat_ready(g: ProgramGraph) -> bool {
    let states = states_of(g);
    let n = g.shared@.len();
    let n_input = g.inputs@.len();
    &&& n_input + states.len() < usize::MAX
    &&& forall|k: int, j: int|
        0 <= k < states.len() && 0 <= j < states[k].shared_outputs.len() ==> (#[trigger] states[k].shared_outputs[j]).0 < n
            && lasts_ok(states[k].shared_outputs[j].1, n)
    &&& forall|k: int, j: int|
        0 <= k < states.len() && 0 <= j < states[k].transition_outputs.len() ==> lasts_ok(
            (#[trigger] states[k].transition_outputs[j]).1,
            n,
        ) && (states[k].transition_outputs[j].0 matches Some(x) ==> x < states.len() && x + n_input < n)
    &&& forall|j: int| 0 <= j < g.schedule@.len() ==> (#[trigger] g.schedule@[j]) < states.len()
    &&& forall|j: int| 0 <= j < g.outputs@.len() ==> (#[trigger] g.outputs@[j]).1 < n
}

/// The build that the exec state stands for.
pub open spec fn build_of(
    nodes: Seq<Node>,
    memos: Seq<Vec<(Rc<ExprNode>, usize)>>,
    resets: Seq<Option<Node>>,
    map: Seq<Option<usize>>,
) -> Build {
    Build {
        nodes: nodes_view(nodes),
        memos: memos.map_values(|m: Vec<(Rc<ExprNode>, usize)>| memo_view(m@)),
        resets: resets.map_values(|r: Option<Node>| opt_node_view(r)),
        map: map.map_values(
            |o: Option<usize>|
                match o {
                    Some(x) => Some(x as int),
                    None => None,
                },
        ),
    }
}

/// Builds the DAG node `e` of state `k`; see `build_node`.
fn build_in_state(
    k: usize,
    e: &Rc<ExprNode>,
    with_reset: bool,
    nodes: &mut Vec<Node>,
    memos: &mut Vec<Vec<(Rc<ExprNode>, usize)>>,
    resets: &Vec<Option<Node>>,
    map: &Vec<Option<usize>>,
    sizes: &Vec<Vec<bool>>,
    n_input: usize,
) -> (r: usize)
    requires
        k < old(memos)@.len(),
        k < resets@.len(),
        lasts_ok(node_of(**e), sizes@.len()),
    ensures
        ({
            let s = build_node(build_of(old(nodes)@, old(memos)@, resets@, map@), k as int, node_of(**e), with_reset, sizes_view(sizes@), n_input);
            &&& r as int == s.0
            &&& build_of(final(nodes)@, final(memos)@, resets@, map@) == s.1
        }),
        final(memos)@.len() == old(memos)@.len(),
{
    let ghost ms = memos@;
    let none: Option<Node> = None;
    let reset = if with_reset {
        &resets[k]
    } else {
        &none
    };
    let mut m: Vec<(Rc<ExprNode>, usize)> = Vec::new();
    std::mem::swap(&mut m, &mut memos[k]);
    assert(m@ == ms[k as int]@);
    let h = compute_node(e, nodes, &mut m, reset, sizes, n_input);
    let ghost mv = m@;
    memos.set(k, m);
    proof {
        let b0 = build_of(old(nodes)@, ms, resets@, map@);
        assert(memos@.map_values(|m: Vec<(Rc<ExprNode>, usize)>| memo_view(m@)) =~= b0.memos.update(k as int, memo_view(mv)));
    }
    h
}


/// A copy of an optional node.
fn copy_opt_node(r: &Option<Node>) -> (c: Option<Node>)
    ensures
        opt_node_view(c) == opt_node_view(*r),
{
    match r {
        Some(n) => Some(copy_node(n)),
        None => None,
    }
}

/// The reset conditions of the states; see `resets_upto`.
fn compute_reset_conditions(
    g: &ProgramGraph,
    nodes: &mut Vec<Node>,
    memos: &mut Vec<Vec<(Rc<ExprNode>, usize)>>,
    resets: &mut Vec<Option<Node>>,
    map: &Vec<Option<usize>>,
    sizes: &Vec<Vec<bool>>,
    n_input: usize,
)
    requires
        flat_ready(*g),
        sizes@ == g.shared@,
        n_input == g.inputs@.len(),
        old(memos)@.len() == g.states@.len(),
        old(resets)@.len() == g.states@.len(),
    ensures
        build_of(final(nodes)@, final(memos)@, final(resets)@, map@) == resets_upto(
            build_of(old(nodes)@, old(memos)@, old(resets)@, map@),
            states_of(*g),
            g.states@.len() as int,
            sizes_view(sizes@),
            n_input,
        ),
        final(memos)@.len() == old(memos)@.len(),
        final(resets)@.len() == old(resets)@.len(),
{
    let ghost b0 = build_of(nodes@, memos@, resets@, map@);
    let ghost states = states_of(*g);
    let ghost sz = sizes_view(sizes@);
    let mut k: usize = 0;
    while k < g.states.len()
        invariant
            k <= g.states@.len(),
            flat_ready(*g),
            states == states_of(*g),
            sz == sizes_view(sizes@),
            sizes@ == g.shared@,
            n_input == g.inputs@.len(),
            memos@.len() == g.states@.len(),
            resets@.len() == g.states@.len(),
            build_of(nodes@, memos@, resets@, map@) == resets_upto(b0, states, k as int, sz, n_input),
        decreases g.states@.len() - k,
    {
        let trs = &g.states[k].transition_outputs;
        let ghost bk = build_of(nodes@, memos@, resets@, map@);
        let ghost st = states[k as int];
        assert(st.transition_outputs.len() == trs@.len());
        let mut j: usize = 0;
        while j < trs.len()
            invariant
                j <= trs@.len(),
                k < g.states@.len(),
                flat_ready(*g),
                states == states_of(*g),
                st == states[k as int],
                trs == &g.states@[k as int].transition_outputs,
                st.transition_outputs.len() == trs@.len(),
                sz == sizes_view(sizes@),
                sizes@ == g.shared@,
                n_input == g.inputs@.len(),
                memos@.len() == g.states@.len(),
                resets@.len() == g.states@.len(),
                build_of(nodes@, memos@, resets@, map@) == resets_of_state(bk, st, k as int, j as int, sz, n_input),
            decreases trs@.len() - j,
        {
            let (next, e, reset) = &trs[j];
            proof {
                assert(st.transition_outputs[j as int] == (*next, node_of(**e), *reset));
                assert(lasts_ok(st.transition_outputs[j as int].1, sizes@.len()));
            }
            if next.is_some() && *reset {
                let nx = next.unwrap();
                let ghost b1 = build_of(nodes@, memos@, resets@, map@);
                let h = build_in_state(k, e, false, nodes, memos, resets, map, sizes, n_input);
                let ghost b2 = build_of(nodes@, memos@, resets@, map@);
                let l = push_node(nodes, Node::TmpValueHolder(k + n_input));
                let cond = Node::BiOp(BiOp::And, RCell { id: l }, RCell { id: h });
                let prev = copy_opt_node(&resets[nx]);
                proof {
                    assert(b2.resets[nx as int] == opt_node_view(prev));
                    assert(node_view(cond) == NodeV::BiOp(BiOp::And, cell(l as int), cell(h as int)));
                }
                match prev {
                    None => {
                        let ghost r0 = resets@;
                        resets.set(nx, Some(cond));
                        assert(resets@.map_values(|r: Option<Node>| opt_node_view(r)) =~= r0.map_values(|r: Option<Node>| opt_node_view(r)).update(nx as int, Some(node_view(cond))));
                        assert(build_of(nodes@, memos@, resets@, map@) == Build {
                            nodes: b2.nodes.push(NodeV::TmpValueHolder((k + n_input) as usize)),
                            resets: b2.resets.update(nx as int, Some(node_view(cond))),
                            ..b2
                        });
                    },
                    Some(p) => {
                        let l1 = push_node(nodes, cond);
                        let l2 = push_node(nodes, p);
                        let ghost r0 = resets@;
                        let or = Node::BiOp(BiOp::Or, RCell { id: l1 }, RCell { id: l2 });
                        resets.set(nx, Some(or));
                        assert(resets@.map_values(|r: Option<Node>| opt_node_view(r)) =~= r0.map_values(|r: Option<Node>| opt_node_view(r)).update(nx as int, Some(node_view(or))));
                        assert(nodes_view(nodes@) == b2.nodes.push(NodeV::TmpValueHolder((k + n_input) as usize)).push(node_view(cond)).push(node_view(p)));
                        assert(node_view(or) == NodeV::BiOp(BiOp::Or, cell(l as int + 1), cell(l as int + 2)));
                        assert(build_of(nodes@, memos@, resets@, map@) == Build {
                            nodes: b2.nodes.push(NodeV::TmpValueHolder((k + n_input) as usize)).push(node_view(cond)).push(node_view(p)),
                            resets: b2.resets.update(nx as int, Some(NodeV::BiOp(BiOp::Or, cell(l as int + 1), cell(l as int + 2)))),
                            ..b2
                        });
                    },
                }
            }
            j = j + 1;
        }
        k = k + 1;
    }
}


/// Sets the node of a shared variable.
fn set_var(map: &mut Vec<Option<usize>>, i: usize, h: usize)
    requires
        i < old(map)@.len(),
    ensures
        final(map)@.len() == old(map)@.len(),
        build_of(Seq::empty(), Seq::empty(), Seq::empty(), final(map)@).map == build_of(Seq::empty(), Seq::empty(), Seq::empty(), old(map)@).map.update(i as int, Some(h as int)),
{
    let ghost m0 = map@;
    map.set(i, Some(h));
    assert(build_of(Seq::empty(), Seq::empty(), Seq::empty(), map@).map =~= build_of(Seq::empty(), Seq::empty(), Seq::empty(), m0).map.update(i as int, Some(h as int)));
}

/// The shared variables written by the scheduled states; see `scheduled_upto`.
fn compute_scheduled(
    g: &ProgramGraph,
    nodes: &mut Vec<Node>,
    memos: &mut Vec<Vec<(Rc<ExprNode>, usize)>>,
    resets: &Vec<Option<Node>>,
    map: &mut Vec<Option<usize>>,
    sizes: &Vec<Vec<bool>>,
    n_input: usize,
)
    requires
        flat_ready(*g),
        sizes@ == g.shared@,
        n_input == g.inputs@.len(),
        old(memos)@.len() == g.states@.len(),
        resets@.len() == g.states@.len(),
        old(map)@.len() == g.shared@.len(),
    ensures
        build_of(final(nodes)@, final(memos)@, resets@, final(map)@) == scheduled_upto(
            build_of(old(nodes)@, old(memos)@, resets@, old(map)@),
            states_of(*g),
            g.schedule@,
            g.schedule@.len() as int,
            sizes_view(sizes@),
            n_input,
        ),
        final(memos)@.len() == old(memos)@.len(),
        final(map)@.len() == old(map)@.len(),
{
    let ghost b0 = build_of(nodes@, memos@, resets@, map@);
    let ghost states = states_of(*g);
    let ghost sz = sizes_view(sizes@);
    let mut q: usize = 0;
    while q < g.schedule.len()
        invariant
            q <= g.schedule@.len(),
            flat_ready(*g),
            states == states_of(*g),
            sz == sizes_view(sizes@),
            sizes@ == g.shared@,
            n_input == g.inputs@.len(),
            memos@.len() == g.states@.len(),
            resets@.len() == g.states@.len(),
            map@.len() == g.shared@.len(),
            build_of(nodes@, memos@, resets@, map@) == scheduled_upto(b0, states, g.schedule@, q as int, sz, n_input),
        decreases g.schedule@.len() - q,
    {
        let k = g.schedule[q];
        assert(k < g.states@.len());
        let outs = &g.states[k].shared_outputs;
        let ghost bk = build_of(nodes@, memos@, resets@, map@);
        let ghost st = states[k as int];
        assert(st.shared_outputs.len() == outs@.len());
        let mut j: usize = 0;
        while j < outs.len()
            invariant
                j <= outs@.len(),
                k < g.states@.len(),
                flat_ready(*g),
                states == states_of(*g),
                st == states[k as int],
                outs == &g.states@[k as int].shared_outputs,
                st.shared_outputs.len() == outs@.len(),
                sz == sizes_view(sizes@),
                sizes@ == g.shared@,
                n_input == g.inputs@.len(),
                memos@.len() == g.states@.len(),
                resets@.len() == g.states@.len(),
                map@.len() == g.shared@.len(),
                build_of(nodes@, memos@, resets@, map@) == outputs_of_state(bk, st, k as int, j as int, sz, n_input),
            decreases outs@.len() - j,
        {
            let (id, e) = &outs[j];
            proof {
                assert(st.shared_outputs[j as int] == (*id, node_of(**e)));
                assert(*id < g.shared@.len());
            }
            let h = build_in_state(k, e, true, nodes, memos, resets, map, sizes, n_input);
            let ghost b2 = build_of(nodes@, memos@, resets@, map@);
            let l = push_node(nodes, Node::TmpValueHolder(k + n_input));
            match map[*id] {
                Some(prev) => {
                    let mx = push_node(nodes, Node::Mux(RCell { id: l }, RCell { id: h }, RCell { id: prev }));
                    set_var(map, *id, mx);
                    assert(build_of(nodes@, memos@, resets@, map@) == Build {
                        nodes: b2.nodes.push(NodeV::TmpValueHolder((k + n_input) as usize)).push(NodeV::Mux(cell(l as int), cell(h as int), cell(prev as int))),
                        map: b2.map.update(*id as int, Some(l as int + 1)),
                        ..b2
                    });
                },
                None => {
                    let c = push_node(nodes, Node::Const(copy_bits(&sizes[*id])));
                    let mx = push_node(nodes, Node::Mux(RCell { id: l }, RCell { id: h }, RCell { id: c }));
                    set_var(map, *id, mx);
                    assert(build_of(nodes@, memos@, resets@, map@) == Build {
                        nodes: b2.nodes.push(NodeV::TmpValueHolder((k + n_input) as usize)).push(NodeV::Const(sz[*id as int])).push(NodeV::Mux(cell(l as int), cell(h as int), cell(l as int + 1))),
                        map: b2.map.update(*id as int, Some(l as int + 2)),
                        ..b2
                    });
                },
            }
            j = j + 1;
        }
        q = q + 1;
    }
}

/// The variables of the states; see `transitions_upto`.
fn compute_transitions(
    g: &ProgramGraph,
    nodes: &mut Vec<Node>,
    memos: &mut Vec<Vec<(Rc<ExprNode>, usize)>>,
    resets: &Vec<Option<Node>>,
    map: &mut Vec<Option<usize>>,
    sizes: &Vec<Vec<bool>>,
    n_input: usize,
)
    requires
        flat_ready(*g),
        sizes@ == g.shared@,
        n_input == g.inputs@.len(),
        old(memos)@.len() == g.states@.len(),
        resets@.len() == g.states@.len(),
        old(map)@.len() == g.shared@.len(),
    ensures
        build_of(final(nodes)@, final(memos)@, resets@, final(map)@) == transitions_upto(
            build_of(old(nodes)@, old(memos)@, resets@, old(map)@),
            states_of(*g),
            g.states@.len() as int,
            sizes_view(sizes@),
            n_input,
        ),
        final(memos)@.len() == old(memos)@.len(),
        final(map)@.len() == old(map)@.len(),
{
    let ghost b0 = build_of(nodes@, memos@, resets@, map@);
    let ghost states = states_of(*g);
    let ghost sz = sizes_view(sizes@);
    let mut k: usize = 0;
    while k < g.states.len()
        invariant
            k <= g.states@.len(),
            flat_ready(*g),
            states == states_of(*g),
            sz == sizes_view(sizes@),
            sizes@ == g.shared@,
            n_input == g.inputs@.len(),
            memos@.len() == g.states@.len(),
            resets@.len() == g.states@.len(),
            map@.len() == g.shared@.len(),
            build_of(nodes@, memos@, resets@, map@) == transitions_upto(b0, states, k as int, sz, n_input),
        decreases g.states@.len() - k,
    {
        let trs = &g.states[k].transition_outputs;
        let ghost bk = build_of(nodes@, memos@, resets@, map@);
        let ghost st = states[k as int];
        assert(st.transition_outputs.len() == trs@.len());
        let mut j: usize = 0;
        while j < trs.len()
            invariant
                j <= trs@.len(),
                k < g.states@.len(),
                flat_ready(*g),
                states == states_of(*g),
                st == states[k as int],
                trs == &g.states@[k as int].transition_outputs,
                st.transition_outputs.len() == trs@.len(),
                sz == sizes_view(sizes@),
                sizes@ == g.shared@,
                n_input == g.inputs@.len(),
                memos@.len() == g.states@.len(),
                resets@.len() == g.states@.len(),
                map@.len() == g.shared@.len(),
                build_of(nodes@, memos@, resets@, map@) == transitions_of_state(bk, st, k as int, j as int, sz, n_input),
            decreases trs@.len() - j,
        {
            let (next, e, _) = &trs[j];
            proof {
                assert(st.transition_outputs[j as int].0 == *next);
                assert(st.transition_outputs[j as int].1 == node_of(**e));
                assert(lasts_ok(st.transition_outputs[j as int].1, sizes@.len()));
            }
            if let Some(nx) = next {
                let key = *nx + n_input;
                let h = build_in_state(k, e, true, nodes, memos, resets, map, sizes, n_input);
                let ghost b2 = build_of(nodes@, memos@, resets@, map@);
                let l = push_node(nodes, Node::TmpValueHolder(k + n_input));
                let c = push_node(nodes, Node::BiOp(BiOp::And, RCell { id: l }, RCell { id: h }));
                match map[key] {
                    None => {
                        set_var(map, key, c);
                        assert(build_of(nodes@, memos@, resets@, map@) == Build {
                            nodes: b2.nodes.push(NodeV::TmpValueHolder((k + n_input) as usize)).push(NodeV::BiOp(BiOp::And, cell(l as int), cell(h as int))),
                            map: b2.map.update(key as int, Some(l as int + 1)),
                            ..b2
                        });
                    },
                    Some(prev) => {
                        let o = push_node(nodes, Node::BiOp(BiOp::Or, RCell { id: c }, RCell { id: prev }));
                        set_var(map, key, o);
                        assert(build_of(nodes@, memos@, resets@, map@) == Build {
                            nodes: b2.nodes.push(NodeV::TmpValueHolder((k + n_input) as usize)).push(NodeV::BiOp(BiOp::And, cell(l as int), cell(h as int))).push(NodeV::BiOp(BiOp::Or, cell(l as int + 1), cell(prev as int))),
                            map: b2.map.update(key as int, Some(l as int + 2)),
                            ..b2
                        });
                    },
                }
            }
            j = j + 1;
        }
        k = k + 1;
    }
}


/// Whether some bit is set.
fn any_bit_set(v: &Vec<bool>) -> (r: bool)
    ensures
        r == some_set(v@),
{
    let mut i: usize = 0;
    while i < v.len()
        invariant
            i <= v@.len(),
            forall|k: int| 0 <= k < i ==> !v@[k],
        decreases v@.len() - i,
    {
        if v[i] {
            return true;
        }
        i = i + 1;
    }
    false
}

/// The variables of the inputs and states made registers; see `init_upto`.
fn add_init_values(
    nodes: &mut Vec<Node>,
    memos: &Vec<Vec<(Rc<ExprNode>, usize)>>,
    resets: &Vec<Option<Node>>,
    map: &mut Vec<Option<usize>>,
    sizes: &Vec<Vec<bool>>,
    n_node: usize,
    init: usize,
)
    requires
        old(map)@.len() == sizes@.len(),
    ensures
        build_of(final(nodes)@, memos@, resets@, final(map)@) == init_upto(
            build_of(old(nodes)@, memos@, resets@, old(map)@),
            if n_node <= old(map)@.len() { n_node as int } else { old(map)@.len() as int },
            init as int,
            sizes_view(sizes@),
        ),
        final(map)@.len() == old(map)@.len(),
{
    let ghost b0 = build_of(nodes@, memos@, resets@, map@);
    let ghost sz = sizes_view(sizes@);
    let bound = if n_node <= map.len() {
        n_node
    } else {
        map.len()
    };
    let mut i: usize = 0;
    while i < bound
        invariant
            i <= bound <= map@.len(),
            map@.len() == sizes@.len(),
            b0.map.len() == map@.len(),
            sz == sizes_view(sizes@),
            build_of(nodes@, memos@, resets@, map@) == init_upto(b0, i as int, init as int, sz),
        decreases bound - i,
    {
        let ghost b1 = build_of(nodes@, memos@, resets@, map@);
        match map[i] {
            None => {},
            Some(n) => {
                if any_bit_set(&sizes[i]) {
                    let r = push_node(nodes, Node::Reg(1, RCell { id: n }));
                    let c = push_node(nodes, Node::Const(copy_bits(&sizes[i])));
                    let mx = push_node(nodes, Node::Mux(RCell { id: init }, RCell { id: r }, RCell { id: c }));
                    set_var(map, i, mx);
                    assert(build_of(nodes@, memos@, resets@, map@) == Build {
                        nodes: b1.nodes.push(NodeV::Reg(1, cell(n as int))).push(NodeV::Const(sz[i as int])).push(NodeV::Mux(cell(init as int), cell(r as int), cell(r as int + 1))),
                        map: b1.map.update(i as int, Some(r as int + 2)),
                        ..b1
                    });
                } else {
                    let r = push_node(nodes, Node::Reg(1, RCell { id: n }));
                    set_var(map, i, r);
                    assert(build_of(nodes@, memos@, resets@, map@) == Build {
                        nodes: b1.nodes.push(NodeV::Reg(1, cell(n as int))),
                        map: b1.map.update(i as int, Some(r as int)),
                        ..b1
                    });
                }
            },
        }
        i = i + 1;
    }
}

/// The placeholders of the arena replaced; see `replaced_upto`.
fn remove_tmp_values(nodes: &mut Vec<Node>, map: &Vec<Option<usize>>, sizes: &Vec<Vec<bool>>)
    ensures
        nodes_view(final(nodes)@) == replaced_upto(
            nodes_view(old(nodes)@),
            old(nodes)@.len() as int,
            build_of(Seq::empty(), Seq::empty(), Seq::empty(), map@).map,
            sizes_view(sizes@),
        ),
        final(nodes)@.len() == old(nodes)@.len(),
{
    let ghost n0 = nodes_view(nodes@);
    let ghost mv = build_of(Seq::empty(), Seq::empty(), Seq::empty(), map@).map;
    let ghost sz = sizes_view(sizes@);
    let len = nodes.len();
    let mut j: usize = 0;
    while j < len
        invariant
            j <= len,
            len == nodes@.len(),
            n0.len() == len,
            mv == build_of(Seq::empty(), Seq::empty(), Seq::empty(), map@).map,
            sz == sizes_view(sizes@),
            nodes_view(nodes@) == replaced_upto(n0, j as int, mv, sz),
        decreases len - j,
    {
        let ghost a = nodes_view(nodes@);
        if let Node::TmpValueHolder(i) = nodes[j] {
            if i < sizes.len() && i < map.len() {
                match map[i] {
                    Some(h) => {
                        if h < nodes.len() {
                            let c = copy_node(&nodes[h]);
                            nodes.set(j, c);
                            assert(nodes_view(nodes@) =~= a.update(j as int, a[h as int]));
                        }
                    },
                    None => {
                        let c = Node::Const(copy_bits(&sizes[i]));
                        nodes.set(j, c);
                        assert(nodes_view(nodes@) =~= a.update(j as int, NodeV::Const(sz[i as int])));
                    },
                }
            }
        }
        j = j + 1;
    }
}


/// Flattens an automaton graph into one dataflow graph; see `flatten_spec`.
pub fn flatten_automata(prog: &ProgramGraph) -> (r: FlatProgramGraph)
    requires
        flat_ready(*prog),
    ensures
        nodes_view(r.nodes@) == flatten_spec(*prog).1,
        r.outputs@.len() == flatten_spec(*prog).0.len(),
        forall|i: int|
            0 <= i < r.outputs@.len() ==> (#[trigger] r.outputs@[i]).0@ == flatten_spec(*prog).0[i].0
                && r.outputs@[i].1.index() == flatten_spec(*prog).0[i].1,
        r.inputs@ == prog.inputs@,
{
    let n_input = prog.inputs.len();
    let ns = prog.states.len();
    let sizes = &prog.shared;
    let ghost states = states_of(*prog);
    let ghost sz = sizes_view(sizes@);
    let mut nodes: Vec<Node> = Vec::new();
    let mut memos: Vec<Vec<(Rc<ExprNode>, usize)>> = Vec::new();
    let mut resets: Vec<Option<Node>> = Vec::new();
    let mut k: usize = 0;
    while k < ns
        invariant
            k <= ns,
            memos@.len() == k,
            resets@.len() == k,
            forall|i: int| 0 <= i < k ==> (#[trigger] memos@[i])@.len() == 0,
            forall|i: int| 0 <= i < k ==> (#[trigger] resets@[i]) is None,
        decreases ns - k,
    {
        memos.push(Vec::new());
        resets.push(None);
        k = k + 1;
    }
    let mut map: Vec<Option<usize>> = Vec::new();
    let mut k: usize = 0;
    while k < sizes.len()
        invariant
            k <= sizes@.len(),
            map@.len() == k,
            forall|i: int| 0 <= i < k ==> (#[trigger] map@[i]) is None,
        decreases sizes@.len() - k,
    {
        map.push(None);
        k = k + 1;
    }
    let ghost b0 = Build {
        nodes: Seq::empty(),
        memos: Seq::new(states.len(), |i: int| Seq::<(ExprNodeV, int)>::empty()),
        resets: Seq::new(states.len(), |i: int| None::<NodeV>),
        map: Seq::new(sz.len(), |i: int| None::<int>),
    };
    proof {
        let b = build_of(nodes@, memos@, resets@, map@);
        assert(b.nodes =~= b0.nodes);
        assert forall|i: int| 0 <= i < b.memos.len() implies b.memos[i] == b0.memos[i] by {
            assert(b.memos[i] =~= b0.memos[i]);
        }
        assert(b.memos =~= b0.memos);
        assert(b.resets =~= b0.resets);
        assert(b.map =~= b0.map);
    }
    compute_reset_conditions(prog, &mut nodes, &mut memos, &mut resets, &map, sizes, n_input);
    let ghost b1 = build_of(nodes@, memos@, resets@, map@);
    let mut one: Vec<bool> = Vec::new();
    one.push(true);
    assert(one@ =~= seq![true]);
    let l = push_node(&mut nodes, Node::Const(one));
    let init = push_node(&mut nodes, Node::Reg(1, RCell { id: l }));
    proof {
        assert(nodes_view(nodes@) == b1.nodes.push(NodeV::Const(seq![true])).push(NodeV::Reg(1, cell(l as int))));
    }
    compute_scheduled(prog, &mut nodes, &mut memos, &resets, &mut map, sizes, n_input);
    compute_transitions(prog, &mut nodes, &mut memos, &resets, &mut map, sizes, n_input);
    add_init_values(&mut nodes, &memos, &resets, &mut map, sizes, n_input + ns, init);
    let ghost b5 = build_of(nodes@, memos@, resets@, map@);
    remove_tmp_values(&mut nodes, &map, sizes);
    let ghost a6 = nodes_view(nodes@);
    let mut outputs: Vec<(String, RCell)> = Vec::new();
    let mut j: usize = 0;
    while j < prog.outputs.len()
        invariant
            j <= prog.outputs@.len(),
            flat_ready(*prog),
            n_input == prog.inputs@.len(),
            sizes@ == prog.shared@,
            sz == sizes_view(sizes@),
            map@.len() == sizes@.len(),
            ({
                let t = outputs_upto(a6, b5.map, prog.outputs@, j as int, sz, n_input);
                &&& nodes_view(nodes@) == t.1
                &&& build_of(Seq::empty(), Seq::empty(), Seq::empty(), map@).map == t.2
                &&& outputs@.len() == t.0.len()
                &&& forall|i: int| 0 <= i < outputs@.len() ==> (#[trigger] outputs@[i]).0@ == t.0[i].0 && outputs@[i].1.index() == t.0[i].1
            }),
        decreases prog.outputs@.len() - j,
    {
        let i = prog.outputs[j].1;
        assert(i < prog.shared@.len());
        let c = if i < n_input {
            push_node(&mut nodes, Node::Input(i))
        } else {
            push_node(&mut nodes, Node::Const(copy_bits(&sizes[i])))
        };
        let h = match map[i] {
            Some(h) => {
                let ghost m0 = map@;
                map.set(i, None);
                assert(build_of(Seq::empty(), Seq::empty(), Seq::empty(), map@).map =~= build_of(Seq::empty(), Seq::empty(), Seq::empty(), m0).map.update(i as int, None));
                h
            },
            None => c,
        };
        outputs.push((prog.outputs[j].0.clone(), RCell { id: h }));
        j = j + 1;
    }
    let mut inputs: Vec<usize> = Vec::new();
    let mut k: usize = 0;
    while k < prog.inputs.len()
        invariant
            k <= prog.inputs@.len(),
            inputs@ == prog.inputs@.subrange(0, k as int),
        decreases prog.inputs@.len() - k,
    {
        inputs.push(prog.inputs[k]);
        k = k + 1;
        assert(inputs@ =~= prog.inputs@.subrange(0, k as int));
    }
    assert(inputs@ =~= prog.inputs@);
    FlatProgramGraph { outputs, inputs, nodes }
}


/// Whether every `last` of an expression DAG reads a shared variable below `n`; see `lasts_ok`.
fn lasts_ok_exec(e: &ExprNode, n: usize) -> (r: bool)
    ensures
        r == lasts_ok(node_of(*e), n as nat),
    decreases *e,
{
    match &e.op {
        ExprOperation::Not(x) => lasts_ok_exec(x, n),
        ExprOperation::Slice(x, _, _) => lasts_ok_exec(x, n),
        ExprOperation::BiOp(_, x, y) => lasts_ok_exec(x, n) && lasts_ok_exec(y, n),
        ExprOperation::Mux(x, y, z) => lasts_ok_exec(x, n) && lasts_ok_exec(y, n) && lasts_ok_exec(z, n),
        ExprOperation::Reg(_, x) => match x {
            Some(y) => lasts_ok_exec(y, n),
            None => true,
        },
        ExprOperation::Ram(x, y, z, w) => lasts_ok_exec(x, n) && lasts_ok_exec(y, n) && lasts_ok_exec(z, n)
            && lasts_ok_exec(w, n),
        ExprOperation::Rom(_, x) => lasts_ok_exec(x, n),
        ExprOperation::Last(i) => *i < n,
        _ => true,
    }
}

/// Whether an automaton graph can be flattened; see `flat_ready`. Graphs built by
/// `make_graph` from a typed program are meant to be.
pub fn flat_ready_exec(g: &ProgramGraph) -> (r: bool)
    ensures
        r == flat_ready(*g),
{
    let n = g.shared.len();
    let n_input = g.inputs.len();
    let ns = g.states.len();
    if n_input >= usize::MAX - ns {
        return false;
    }
    let ghost states = states_of(*g);
    let mut k: usize = 0;
    while k < ns
        invariant
            ns == g.states@.len(),
            n == g.shared@.len(),
            n_input == g.inputs@.len(),
            states == states_of(*g),
            k <= ns,
            forall|kk: int, j: int|
                0 <= kk < k && 0 <= j < states[kk].shared_outputs.len() ==> (#[trigger] states[kk].shared_outputs[j]).0 < n
                    && lasts_ok(states[kk].shared_outputs[j].1, n as nat),
            forall|kk: int, j: int|
                0 <= kk < k && 0 <= j < states[kk].transition_outputs.len() ==> lasts_ok(
                    (#[trigger] states[kk].transition_outputs[j]).1,
                    n as nat,
                ) && (states[kk].transition_outputs[j].0 matches Some(x) ==> x < states.len() && x + n_input < n),
        decreases ns - k,
    {
        let st = &g.states[k];
        proof {
            assert(states[k as int] == state_view(*st));
        }
        let mut j: usize = 0;
        while j < st.shared_outputs.len()
            invariant
                st == g.states@[k as int],
                states[k as int] == state_view(*st),
                states == states_of(*g),
                k < ns,
                ns == g.states@.len(),
                n == g.shared@.len(),
                j <= st.shared_outputs@.len(),
                forall|jj: int| 0 <= jj < j ==> (#[trigger] states[k as int].shared_outputs[jj]).0 < n
                    && lasts_ok(states[k as int].shared_outputs[jj].1, n as nat),
            decreases st.shared_outputs@.len() - j,
        {
            proof {
                assert(states[k as int].shared_outputs[j as int] == (st.shared_outputs@[j as int].0, node_of(*st.shared_outputs@[j as int].1)));
            }
            if st.shared_outputs[j].0 >= n || !lasts_ok_exec(&st.shared_outputs[j].1, n) {
                proof {
                    assert(!(states[k as int].shared_outputs[j as int].0 < n
                        && lasts_ok(states[k as int].shared_outputs[j as int].1, n as nat)));
                }
                return false;
            }
            j = j + 1;
        }
        let mut j: usize = 0;
        while j < st.transition_outputs.len()
            invariant
                st == g.states@[k as int],
                states[k as int] == state_view(*st),
                states == states_of(*g),
                k < ns,
                ns == g.states@.len(),
                n == g.shared@.len(),
                n_input == g.inputs@.len(),
                j <= st.transition_outputs@.len(),
                forall|jj: int| 0 <= jj < j ==> lasts_ok((#[trigger] states[k as int].transition_outputs[jj]).1, n as nat)
                    && (states[k as int].transition_outputs[jj].0 matches Some(x) ==> x < states.len() && x + n_input < n),
            decreases st.transition_outputs@.len() - j,
        {
            proof {
                assert(states[k as int].transition_outputs[j as int] == (
                    st.transition_outputs@[j as int].0,
                    node_of(*st.transition_outputs@[j as int].1),
                    st.transition_outputs@[j as int].2,
                ));
            }
            if !lasts_ok_exec(&st.transition_outputs[j].1, n) {
                return false;
            }
            match st.transition_outputs[j].0 {
                Some(x) => {
                    if x >= ns || x >= n || n_input >= n - x {
                        return false;
                    }
                },
                None => {},
            }
            j = j + 1;
        }
        k = k + 1;
    }
    let mut j: usize = 0;
    while j < g.schedule.len()
        invariant
            ns == g.states@.len(),
            j <= g.schedule@.len(),
            forall|jj: int| 0 <= jj < j ==> (#[trigger] g.schedule@[jj]) < ns,
        decreases g.schedule@.len() - j,
    {
        if g.schedule[j] >= ns {
            return false;
        }
        j = j + 1;
    }
    let mut j: usize = 0;
    while j < g.outputs.len()
        invariant
            n == g.shared@.len(),
            j <= g.outputs@.len(),
            forall|jj: int| 0 <= jj < j ==> (#[trigger] g.outputs@[jj]).1 < n,
        decreases g.outputs@.len() - j,
    {
        if g.outputs[j].1 >= n {
            return false;
        }
        j = j + 1;
    }
    true
}
} // verus!
