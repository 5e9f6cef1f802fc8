//! The drawing of a flat dataflow graph: one labelled node per output and per node reached
//! from the outputs, and one edge from each node to each of its operands. The drawing is
//! built by a walk from the outputs, operands first seen are drawn right after the edge
//! that leads to them; writing it out in the dot language is left to the caller.
use vstd::prelude::*;

use crate::ast::graph::{BiOp, FlatProgramGraph, Node, RCell};
use crate::backends::netlist::{nodes_linked, operands};
use crate::util::text::{decimal, push_decimal, push_string};

verus! {

/// A graph to draw: the label of each node, and the edges, from a node to a node, each
/// with its label.
#[derive(Debug)]
pub struct VizGraph {
    pub nodes: Vec<String>,
    pub edges: Vec<(usize, usize, String)>,
}

/// What a node of the drawing stands for: an output of the program, by its index, or a
/// node of the arena, by its handle's index.
#[derive(Debug, Clone, Copy, PartialEq, Eq, Structural)]
pub enum VizSource {
    Output(usize),
    Node(usize),
}

/// The bits of a constant, most significant first as they are stored, as `0` and `1`.
pub open spec fn bits_text(c: Seq<bool>) -> Seq<char> {
    c.map_values(|b: bool| if b { '1' } else { '0' })
}

/// The name of a binary operation.
pub open spec fn biop_name(op: BiOp) -> Seq<char> {
    match op {
        BiOp::And => "And"@,
        BiOp::Or => "Or"@,
        BiOp::Xor => "Xor"@,
        BiOp::Nand => "Nand"@,
        BiOp::Concat => "Concat"@,
    }
}

/// The label of a node of the arena.
pub open spec fn node_label(n: Node) -> Seq<char> {
    match n {
        Node::Input(i) => "Input : "@ + decimal(i as nat),
        Node::Const(c) => bits_text(c@),
        Node::Not(_) => "Not"@,
        Node::Slice(_, c1, c2) => "Slice "@ + decimal(c1 as nat) + " "@ + decimal(c2 as nat),
        Node::BiOp(op, _, _) => biop_name(op),
        Node::Mux(..) => "Mux"@,
        Node::Reg(..) => "Reg"@,
        Node::Ram(..) => "Ram"@,
        Node::Rom(..) => "Rom"@,
        Node::TmpValueHolder(_) => Seq::empty(),
    }
}

/// The label of the edge from a node to its operand number `p`: the condition, the value
/// if true and the value if false of a multiplexer; nothing for the others.
pub open spec fn edge_label(n: Node, p: int) -> Seq<char> {
    if n is Mux {
        if p == 0 {
            "c"@
        } else if p == 1 {
            "v"@
        } else {
            "f"@
        }
    } else {
        Seq::empty()
    }
}

/// The label of the node of an output.
pub open spec fn output_label(name: Seq<char>) -> Seq<char> {
    "Output "@ + name
}

/// The drawing node `k` is the one of the arena node `c`.
pub open spec fn drawn_as(src: Seq<VizSource>, k: int, c: RCell) -> bool {
    0 <= k < src.len() && src[k] == VizSource::Node(c.id)
}

/// An edge from drawing node `a` to drawing node `b` labelled `l` is one the drawing
/// should have: from an output to the node of its value, or from a node to one of its
/// operands, labelled as `edge_label` says.
pub open spec fn edge_expected(
    g: Seq<Node>,
    outs: Seq<(String, RCell)>,
    src: Seq<VizSource>,
    a: int,
    b: int,
    l: Seq<char>,
) -> bool {
    match src[a] {
        VizSource::Output(j) => drawn_as(src, b, outs[j as int].1) && l == Seq::<char>::empty(),
        VizSource::Node(h) => exists|p: int|
            0 <= p < operands(g[h as int]).len() && drawn_as(src, b, (#[trigger] operands(g[h as int])[p]))
                && l == edge_label(g[h as int], p),
    }
}

/// Some edge goes from drawing node `k` to the drawing node of the arena node `c`, with the
/// label `l`.
pub open spec fn has_edge(src: Seq<VizSource>, edges: Seq<(usize, usize, String)>, k: int, c: RCell, l: Seq<char>) -> bool {
    exists|i: int| 0 <= i < edges.len() && (#[trigger] edges[i]).0 == k && drawn_as(src, edges[i].1 as int, c) && edges[i].2@ == l
}

/// The drawing node `k` has all its edges: to the node of its output's value, or to the
/// node of each of its operands, in `edges`.
pub open spec fn complete(
    g: Seq<Node>,
    outs: Seq<(String, RCell)>,
    src: Seq<VizSource>,
    edges: Seq<(usize, usize, String)>,
    k: int,
) -> bool {
    match src[k] {
        VizSource::Output(j) => has_edge(src, edges, k, outs[j as int].1, Seq::empty()),
        VizSource::Node(h) => forall|p: int|
            0 <= p < operands(g[h as int]).len() ==> #[trigger] has_edge(src, edges, k, operands(g[h as int])[p], edge_label(g[h as int], p)),
    }
}

/// Some node of the drawing stands for output `j`.
pub open spec fn output_drawn(src: Seq<VizSource>, j: int) -> bool {
    exists|k: int| 0 <= k < src.len() && #[trigger] src[k] == VizSource::Output(j as usize)
}

/// The drawing `v` of the arena `g` with outputs `outs`, its nodes standing for `src`:
/// each output is drawn once, each arena node at most once, with their labels; every edge
/// is one the drawing should have, and each drawn node has all its edges; each drawn arena
/// node is reached by an edge from a node drawn before it.
pub open spec fn viz_rel(g: Seq<Node>, outs: Seq<(String, RCell)>, v: VizGraph, src: Seq<VizSource>) -> bool {
    let n = v.nodes@.len();
    &&& src.len() == n
    &&& forall|j: int| 0 <= j < outs.len() ==> #[trigger] output_drawn(src, j)
    &&& forall|k: int| 0 <= k < n ==> match #[trigger] src[k] {
        VizSource::Output(j) => j < outs.len() && v.nodes@[k]@ == output_label(outs[j as int].0@),
        VizSource::Node(h) => h < g.len() && v.nodes@[k]@ == node_label(g[h as int]),
    }
    &&& forall|k1: int, k2: int| 0 <= k1 < n && 0 <= k2 < n && #[trigger] src[k1] == #[trigger] src[k2] ==> k1 == k2
    &&& forall|i: int| 0 <= i < v.edges@.len() ==> (#[trigger] v.edges@[i]).0 < n && v.edges@[i].1 < n
        && edge_expected(g, outs, src, v.edges@[i].0 as int, v.edges@[i].1 as int, v.edges@[i].2@)
    &&& forall|k: int| 0 <= k < n ==> complete(g, outs, src, v.edges@, k)
    &&& forall|k: int| 0 <= k < n && (#[trigger] src[k]) is Node ==> exists|i: int|
        0 <= i < v.edges@.len() && (#[trigger] v.edges@[i]).1 == k && v.edges@[i].0 < k
}

/// The number of arena nodes not drawn yet.
pub open spec fn count_none(s: Seq<Option<usize>>) -> nat
    decreases s.len(),
{
    if s.len() == 0 {
        0
    } else {
        count_none(s.drop_last()) + if s.last() is None { 1nat } else { 0nat }
    }
}

proof fn lemma_count_none_set(s: Seq<Option<usize>>, i: int, x: usize)
    requires
        0 <= i < s.len(),
        s[i] is None,
    ensures
        count_none(s.update(i, Some(x))) + 1 == count_none(s),
    decreases s.len(),
{
    let t = s.update(i, Some(x));
    if i < s.len() - 1 {
        assert(t.drop_last() =~= s.drop_last().update(i, Some(x)));
        lemma_count_none_set(s.drop_last(), i, x);
    } else {
        assert(t.drop_last() =~= s.drop_last());
    }
}

/// The drawing being built: its nodes, its edges, the drawing node of each arena node
/// drawn so far, and what each drawing node stands for.
struct VizBuilder {
    nodes: Vec<String>,
    edges: Vec<(usize, usize, String)>,
    memo: Vec<Option<usize>>,
    src: Ghost<Seq<VizSource>>,
}

/// The builder is consistent with the arena `g`; every edge but the one at `skip` is one the
/// drawing should have, and each drawn arena node is reached from a node drawn before it.
spec fn builder_ok(b: VizBuilder, g: Seq<Node>, outs: Seq<(String, RCell)>, skip: int) -> bool {
    let n = b.nodes@.len();
    let src = b.src@;
    &&& b.memo@.len() == g.len()
    &&& src.len() == n
    &&& forall|h: int| 0 <= h < g.len() && (#[trigger] b.memo@[h]) is Some ==> b.memo@[h]->Some_0 < n
        && src[b.memo@[h]->Some_0 as int] == VizSource::Node(h as usize)
    &&& forall|k: int| 0 <= k < n ==> match #[trigger] src[k] {
        VizSource::Output(j) => j < outs.len() && b.nodes@[k]@ == output_label(outs[j as int].0@),
        VizSource::Node(h) => h < g.len() && b.memo@[h as int] == Some(k as usize) && b.nodes@[k]@ == node_label(g[h as int]),
    }
    &&& forall|i: int| 0 <= i < b.edges@.len() && i != skip ==> (#[trigger] b.edges@[i]).0 < n && b.edges@[i].1 < n
        && edge_expected(g, outs, src, b.edges@[i].0 as int, b.edges@[i].1 as int, b.edges@[i].2@)
    &&& forall|k: int| 0 <= k < n && (#[trigger] src[k]) is Node ==> exists|i: int|
        0 <= i < b.edges@.len() && (#[trigger] b.edges@[i]).1 == k && b.edges@[i].0 < k
}

/// What a walk keeps of the builder it started from: the drawing only grows, the arena
/// nodes already drawn keep their drawing nodes, and fewer are left to draw.
spec fn builder_grows(b0: VizBuilder, b1: VizBuilder) -> bool {
    &&& b0.nodes@.len() <= b1.nodes@.len()
    &&& b1.nodes@.subrange(0, b0.nodes@.len() as int) == b0.nodes@
    &&& b0.src@.len() <= b1.src@.len()
    &&& b1.src@.subrange(0, b0.src@.len() as int) == b0.src@
    &&& b0.edges@.len() <= b1.edges@.len()
    &&& b1.edges@.subrange(0, b0.edges@.len() as int) == b0.edges@
    &&& b1.memo@.len() == b0.memo@.len()
    &&& forall|h: int| 0 <= h < b0.memo@.len() && (#[trigger] b0.memo@[h]) is Some ==> b1.memo@[h] == b0.memo@[h]
    &&& count_none(b1.memo@) <= count_none(b0.memo@)
}

/// The arena can be drawn: every handle points into it and no placeholder is left.
pub open spec fn drawable(g: Seq<Node>) -> bool {
    &&& nodes_linked(g)
    &&& forall|i: int| 0 <= i < g.len() ==> !(#[trigger] g[i] is TmpValueHolder)
}

/// The label of a node of the arena.
fn node_text(n: &Node) -> (r: String)
    ensures
        r@ == node_label(*n),
{
    match n {
        Node::Input(i) => {
            let mut s = String::from_str("Input : ");
            push_decimal(&mut s, *i);
            s
        },
        Node::Const(c) => {
            let mut s = String::new();
            let mut i: usize = 0;
            while i < c.len()
                invariant
                    i <= c@.len(),
                    s@ == bits_text(c@.subrange(0, i as int)),
                decreases c@.len() - i,
            {
                if c[i] {
                    s.append("1");
                } else {
                    s.append("0");
                }
                proof {
                    reveal_strlit("1");
                    reveal_strlit("0");
                    assert(bits_text(c@.subrange(0, i as int + 1)) =~= bits_text(c@.subrange(0, i as int)).push(
                        if c@[i as int] { '1' } else { '0' },
                    ));
                }
                i = i + 1;
            }
            proof {
                assert(c@.subrange(0, c@.len() as int) =~= c@);
            }
            s
        },
        Node::Not(_) => String::from_str("Not"),
        Node::Slice(_, c1, c2) => {
            let mut s = String::from_str("Slice ");
            push_decimal(&mut s, *c1);
            s.append(" ");
            push_decimal(&mut s, *c2);
            s
        },
        Node::BiOp(op, _, _) => match op {
            BiOp::And => String::from_str("And"),
            BiOp::Or => String::from_str("Or"),
            BiOp::Xor => String::from_str("Xor"),
            BiOp::Nand => String::from_str("Nand"),
            BiOp::Concat => String::from_str("Concat"),
        },
        Node::Mux(..) => String::from_str("Mux"),
        Node::Reg(..) => String::from_str("Reg"),
        Node::Ram(..) => String::from_str("Ram"),
        Node::Rom(..) => String::from_str("Rom"),
        Node::TmpValueHolder(_) => String::new(),
    }
}


/// The last edge, from drawing node `e.0` to the next drawing node `n`, is one that leads to
/// the arena node `h` once `h` is drawn there.
spec fn pending_ok(g: Seq<Node>, outs: Seq<(String, RCell)>, src: Seq<VizSource>, e: (usize, usize, String), n: int, h: usize) -> bool {
    &&& e.1 == n
    &&& e.0 < n
    &&& match src[e.0 as int] {
        VizSource::Output(j) => outs[j as int].1.id == h && e.2@ == Seq::<char>::empty(),
        VizSource::Node(hp) => exists|p: int|
            0 <= p < operands(g[hp as int]).len() && (#[trigger] operands(g[hp as int])[p]).id == h
                && e.2@ == edge_label(g[hp as int], p),
    }
}

proof fn lemma_expected_grows(
    g: Seq<Node>,
    outs: Seq<(String, RCell)>,
    src0: Seq<VizSource>,
    src1: Seq<VizSource>,
    a: int,
    b: int,
    l: Seq<char>,
)
    requires
        src0.len() <= src1.len(),
        src1.subrange(0, src0.len() as int) == src0,
        0 <= a < src0.len(),
        0 <= b < src0.len(),
        edge_expected(g, outs, src0, a, b, l),
    ensures
        edge_expected(g, outs, src1, a, b, l),
{
    assert(src1[a] == src0[a]);
    assert(src1[b] == src0[b]);
    match src0[a] {
        VizSource::Output(j) => {},
        VizSource::Node(h) => {
            let p = choose|p: int|
                0 <= p < operands(g[h as int]).len() && drawn_as(src0, b, (#[trigger] operands(g[h as int])[p]))
                    && l == edge_label(g[h as int], p);
            assert(drawn_as(src1, b, operands(g[h as int])[p]));
        },
    }
}

proof fn lemma_complete_grows(
    g: Seq<Node>,
    outs: Seq<(String, RCell)>,
    src0: Seq<VizSource>,
    src1: Seq<VizSource>,
    e0: Seq<(usize, usize, String)>,
    e1: Seq<(usize, usize, String)>,
    k: int,
)
    requires
        src0.len() <= src1.len(),
        src1.subrange(0, src0.len() as int) == src0,
        e0.len() <= e1.len(),
        e1.subrange(0, e0.len() as int) == e0,
        0 <= k < src0.len(),
        forall|i: int| 0 <= i < e0.len() ==> (#[trigger] e0[i]).1 < src0.len(),
        complete(g, outs, src0, e0, k),
    ensures
        complete(g, outs, src1, e1, k),
{
    assert(src1[k] == src0[k]);
    assert forall|c: RCell, l: Seq<char>| #[trigger] has_edge(src0, e0, k, c, l) implies has_edge(src1, e1, k, c, l) by {
        let i = choose|i: int| 0 <= i < e0.len() && (#[trigger] e0[i]).0 == k && drawn_as(src0, e0[i].1 as int, c) && e0[i].2@ == l;
        assert(e1.subrange(0, e0.len() as int)[i] == e1[i]);
        assert(src1.subrange(0, src0.len() as int)[e0[i].1 as int] == src1[e0[i].1 as int]);
    }
    match src0[k] {
        VizSource::Output(j) => {},
        VizSource::Node(h) => {
            assert forall|p: int| 0 <= p < operands(g[h as int]).len() implies #[trigger] has_edge(
                src1,
                e1,
                k,
                operands(g[h as int])[p],
                edge_label(g[h as int], p),
            ) by {
                assert(has_edge(src0, e0, k, operands(g[h as int])[p], edge_label(g[h as int], p)));
            }
        },
    }
}

/// Edge `i` goes from drawing node `n`, which stands for the arena node `h`, to the node of its
/// operand number `q`, with the label of that operand.
spec fn edge_to(g: Seq<Node>, src: Seq<VizSource>, edges: Seq<(usize, usize, String)>, i: int, n: int, h: int, q: int) -> bool {
    &&& 0 <= i < edges.len()
    &&& edges[i].0 == n
    &&& drawn_as(src, edges[i].1 as int, operands(g[h])[q])
    &&& edges[i].2@ == edge_label(g[h], q)
}

proof fn lemma_grows_trans(b0: VizBuilder, b1: VizBuilder, b2: VizBuilder)
    requires
        builder_grows(b0, b1),
        builder_grows(b1, b2),
    ensures
        builder_grows(b0, b2),
{
    assert(b2.nodes@.subrange(0, b0.nodes@.len() as int) =~= b0.nodes@) by {
        assert forall|i: int| 0 <= i < b0.nodes@.len() implies b2.nodes@[i] == b0.nodes@[i] by {
            assert(b2.nodes@.subrange(0, b1.nodes@.len() as int)[i] == b2.nodes@[i]);
            assert(b1.nodes@.subrange(0, b0.nodes@.len() as int)[i] == b1.nodes@[i]);
        }
    }
    assert(b2.src@.subrange(0, b0.src@.len() as int) =~= b0.src@) by {
        assert forall|i: int| 0 <= i < b0.src@.len() implies b2.src@[i] == b0.src@[i] by {
            assert(b2.src@.subrange(0, b1.src@.len() as int)[i] == b2.src@[i]);
            assert(b1.src@.subrange(0, b0.src@.len() as int)[i] == b1.src@[i]);
        }
    }
    assert(b2.edges@.subrange(0, b0.edges@.len() as int) =~= b0.edges@) by {
        assert forall|i: int| 0 <= i < b0.edges@.len() implies b2.edges@[i] == b0.edges@[i] by {
            assert(b2.edges@.subrange(0, b1.edges@.len() as int)[i] == b2.edges@[i]);
            assert(b1.edges@.subrange(0, b0.edges@.len() as int)[i] == b1.edges@[i]);
        }
    }
}

proof fn lemma_grows_refl(b: VizBuilder)
    ensures
        builder_grows(b, b),
{
    assert(b.nodes@.subrange(0, b.nodes@.len() as int) =~= b.nodes@);
    assert(b.src@.subrange(0, b.src@.len() as int) =~= b.src@);
    assert(b.edges@.subrange(0, b.edges@.len() as int) =~= b.edges@);
}

proof fn lemma_edge_to_grows(g: Seq<Node>, b0: VizBuilder, b1: VizBuilder, i: int, n: int, h: int, q: int)
    requires
        builder_grows(b0, b1),
        edge_to(g, b0.src@, b0.edges@, i, n, h, q),
        b0.edges@[i].1 < b0.src@.len(),
    ensures
        edge_to(g, b1.src@, b1.edges@, i, n, h, q),
{
    assert(b1.edges@.subrange(0, b0.edges@.len() as int)[i] == b1.edges@[i]);
    let t = b0.edges@[i].1 as int;
    assert(b1.src@.subrange(0, b0.src@.len() as int)[t] == b1.src@[t]);
}

/// Drawing the arena node `h` at the next drawing node keeps the builder consistent, the
/// edge that leads to it included.
proof fn lemma_draw_start(b0: VizBuilder, b1: VizBuilder, g: Seq<Node>, outs: Seq<(String, RCell)>, h: usize)
    requires
        h < g.len(),
        b0.edges@.len() > 0,
        builder_ok(b0, g, outs, b0.edges@.len() - 1),
        b0.memo@[h as int] is None,
        pending_ok(g, outs, b0.src@, b0.edges@.last(), b0.nodes@.len() as int, h),
        b1.memo@ == b0.memo@.update(h as int, Some(b0.nodes@.len() as usize)),
        b1.nodes@.len() == b0.nodes@.len() + 1,
        b1.nodes@.subrange(0, b0.nodes@.len() as int) == b0.nodes@,
        b1.nodes@.last()@ == node_label(g[h as int]),
        b1.src@ == b0.src@.push(VizSource::Node(h)),
        b1.edges@ == b0.edges@,
    ensures
        builder_ok(b1, g, outs, -1),
        builder_grows(b0, b1),
        count_none(b1.memo@) + 1 == count_none(b0.memo@),
{
    let n = b0.nodes@.len() as int;
    let src = b1.src@;
    lemma_count_none_set(b0.memo@, h as int, n as usize);
    assert(src.subrange(0, n) =~= b0.src@);
    assert forall|i: int| 0 <= i < b1.edges@.len() implies (#[trigger] b1.edges@[i]).0 < b1.nodes@.len()
        && b1.edges@[i].1 < b1.nodes@.len()
        && edge_expected(g, outs, src, b1.edges@[i].0 as int, b1.edges@[i].1 as int, b1.edges@[i].2@) by {
        if i == b1.edges@.len() - 1 {
            let e = b1.edges@[i];
            assert(src[e.0 as int] == b0.src@[e.0 as int]);
            match src[e.0 as int] {
                VizSource::Output(j) => {},
                VizSource::Node(hp) => {
                    let p = choose|p: int|
                        0 <= p < operands(g[hp as int]).len() && (#[trigger] operands(g[hp as int])[p]).id == h
                            && e.2@ == edge_label(g[hp as int], p);
                    assert(drawn_as(src, e.1 as int, operands(g[hp as int])[p]));
                },
            }
        } else {
            lemma_expected_grows(g, outs, b0.src@, src, b1.edges@[i].0 as int, b1.edges@[i].1 as int, b1.edges@[i].2@);
        }
    }
    assert forall|k: int| 0 <= k < b1.nodes@.len() && (#[trigger] src[k]) is Node implies exists|i: int|
        0 <= i < b1.edges@.len() && (#[trigger] b1.edges@[i]).1 == k && b1.edges@[i].0 < k by {
        if k == n {
            assert(b1.edges@[b1.edges@.len() - 1].1 == k);
        } else {
            assert(src[k] == b0.src@[k]);
        }
    }
    assert forall|hh: int| 0 <= hh < g.len() && (#[trigger] b1.memo@[hh]) is Some implies b1.memo@[hh]->Some_0 < b1.nodes@.len()
        && src[b1.memo@[hh]->Some_0 as int] == VizSource::Node(hh as usize) by {
        if hh != h as int {
            assert(b0.memo@[hh] == b1.memo@[hh]);
        }
    }
    assert forall|k: int| 0 <= k < b1.nodes@.len() implies match #[trigger] src[k] {
        VizSource::Output(j) => j < outs.len() && b1.nodes@[k]@ == output_label(outs[j as int].0@),
        VizSource::Node(hh) => hh < g.len() && b1.memo@[hh as int] == Some(k as usize) && b1.nodes@[k]@ == node_label(g[hh as int]),
    } by {
        if k < n {
            assert(src[k] == b0.src@[k]);
            assert(b1.nodes@.subrange(0, n)[k] == b1.nodes@[k]);
            match src[k] {
                VizSource::Node(hh) => {
                    assert(hh != h);
                },
                VizSource::Output(_) => {},
            }
        }
    }
    assert forall|hh: int| 0 <= hh < b0.memo@.len() && (#[trigger] b0.memo@[hh]) is Some implies b1.memo@[hh] == b0.memo@[hh] by {
        assert(hh != h as int);
    }
    assert(b1.edges@.subrange(0, b0.edges@.len() as int) =~= b0.edges@);
}

/// The label of the edge from a node to its operand number `p`.
fn edge_text(n: &Node, p: usize) -> (r: String)
    ensures
        r@ == edge_label(*n, p as int),
{
    match n {
        Node::Mux(..) => {
            if p == 0 {
                String::from_str("c")
            } else if p == 1 {
                String::from_str("v")
            } else {
                String::from_str("f")
            }
        },
        _ => String::new(),
    }
}

impl VizBuilder {
    /// Draws the arena node `h`, not drawn yet, at the next drawing node, then its operands
    /// in order, each first seen drawn right after the edge that leads to it. The last edge
    /// is the one that leads to `h`.
    fn draw_node(&mut self, g: &Vec<Node>, Ghost(outs): Ghost<Seq<(String, RCell)>>, h: usize)
        requires
            drawable(g@),
            h < g@.len(),
            old(self).edges@.len() > 0,
            builder_ok(*old(self), g@, outs, old(self).edges@.len() - 1),
            old(self).memo@[h as int] is None,
            pending_ok(g@, outs, old(self).src@, old(self).edges@.last(), old(self).nodes@.len() as int, h),
        ensures
            builder_ok(*final(self), g@, outs, -1),
            builder_grows(*old(self), *final(self)),
            count_none(final(self).memo@) < count_none(old(self).memo@),
            final(self).memo@[h as int] == Some(old(self).nodes@.len() as usize),
            forall|k: int| old(self).nodes@.len() <= k < final(self).nodes@.len() ==> complete(g@, outs, final(self).src@, final(self).edges@, k),
            forall|k: int| old(self).nodes@.len() <= k < final(self).nodes@.len() ==> (#[trigger] final(self).src@[k]) is Node,
        decreases count_none(old(self).memo@), 0int,
    {
        let ghost b0 = *self;
        let n = self.nodes.len();
        self.memo.set(h, Some(n));
        let label = node_text(&g[h]);
        self.nodes.push(label);
        proof {
            self.src@ = self.src@.push(VizSource::Node(h));
            assert(self.nodes@.subrange(0, n as int) =~= b0.nodes@);
            lemma_draw_start(b0, *self, g@, outs, h);
        }
        let ghost b1 = *self;
        proof {
            lemma_grows_refl(b1);
        }
        let ops = crate::backends::netlist::operand_cells(&g[h]);
        let ghost mut ids: Seq<int> = Seq::empty();
        let mut q: usize = 0;
        while q < ops.len()
            invariant
                drawable(g@),
                h < g@.len(),
                ops@ == operands(g@[h as int]),
                b0 == *old(self),
                n == b0.nodes@.len(),
                b1.nodes@.len() == n + 1,
                b1.src@[n as int] == VizSource::Node(h),
                self.src@[n as int] == VizSource::Node(h),
                count_none(b1.memo@) + 1 == count_none(b0.memo@),
                builder_ok(*self, g@, outs, -1),
                builder_grows(b1, *self),
                q <= ops@.len(),
                ids.len() == q,
                forall|r: int| 0 <= r < q ==> edge_to(g@, self.src@, self.edges@, #[trigger] ids[r], n as int, h as int, r),
                forall|kk: int| n + 1 <= kk < self.nodes@.len() ==> complete(g@, outs, self.src@, self.edges@, kk),
                forall|kk: int| n <= kk < self.nodes@.len() ==> (#[trigger] self.src@[kk]) is Node,
            decreases ops@.len() - q,
        {
            let ghost bq = *self;
            let text = edge_text(&g[h], q);
            proof {
                ids = ids.push(self.edges@.len() as int);
                assert(operands(g@[h as int])[q as int].index() < g@.len());
                assert(b1.src@[n as int] == VizSource::Node(h));
            }
            self.visit(g, Ghost(outs), n, ops[q], text, Ghost(h), Ghost(q as int));
            proof {
                lemma_grows_trans(b1, bq, *self);
                assert(self.src@.subrange(0, bq.src@.len() as int)[n as int] == self.src@[n as int]);
                assert forall|r: int| 0 <= r < q + 1 implies edge_to(g@, self.src@, self.edges@, #[trigger] ids[r], n as int, h as int, r) by {
                    if r < q {
                        lemma_edge_to_grows(g@, bq, *self, ids[r], n as int, h as int, r);
                    }
                }
                assert forall|kk: int| n + 1 <= kk < self.nodes@.len() implies complete(g@, outs, self.src@, self.edges@, kk) by {
                    if kk < bq.nodes@.len() {
                        lemma_complete_grows(g@, outs, bq.src@, self.src@, bq.edges@, self.edges@, kk);
                    }
                }
                assert forall|kk: int| n <= kk < self.nodes@.len() implies (#[trigger] self.src@[kk]) is Node by {
                    if kk < bq.nodes@.len() {
                        assert(self.src@.subrange(0, bq.src@.len() as int)[kk] == self.src@[kk]);
                    }
                }
            }
            q = q + 1;
        }
        proof {
            lemma_grows_trans(b0, b1, *self);
            assert(complete(g@, outs, self.src@, self.edges@, n as int)) by {
                assert forall|p: int| 0 <= p < operands(g@[h as int]).len() implies #[trigger] has_edge(
                    self.src@,
                    self.edges@,
                    n as int,
                    operands(g@[h as int])[p],
                    edge_label(g@[h as int], p),
                ) by {
                    assert(edge_to(g@, self.src@, self.edges@, ids[p], n as int, h as int, p));
                    assert(self.edges@[ids[p]].0 == n);
                }
            }
        }
    }

    /// Adds the edge from drawing node `k`, which stands for the arena node `h`, to the node
    /// of its operand number `p`, drawing the operand first if it is not drawn yet.
    fn visit(
        &mut self,
        g: &Vec<Node>,
        Ghost(outs): Ghost<Seq<(String, RCell)>>,
        k: usize,
        c: RCell,
        label: String,
        Ghost(h): Ghost<usize>,
        Ghost(p): Ghost<int>,
    )
        requires
            drawable(g@),
            builder_ok(*old(self), g@, outs, -1),
            k < old(self).nodes@.len(),
            h < g@.len(),
            old(self).src@[k as int] == VizSource::Node(h),
            0 <= p < operands(g@[h as int]).len(),
            operands(g@[h as int])[p] == c,
            label@ == edge_label(g@[h as int], p),
        ensures
            builder_ok(*final(self), g@, outs, -1),
            builder_grows(*old(self), *final(self)),
            edge_to(g@, final(self).src@, final(self).edges@, old(self).edges@.len() as int, k as int, h as int, p),
            forall|kk: int| old(self).nodes@.len() <= kk < final(self).nodes@.len() ==> complete(g@, outs, final(self).src@, final(self).edges@, kk),
            forall|kk: int| old(self).nodes@.len() <= kk < final(self).nodes@.len() ==> (#[trigger] final(self).src@[kk]) is Node,
        decreases count_none(old(self).memo@), 1int,
    {
        let ghost b0 = *self;
        proof {
            assert(operands(g@[h as int])[p].index() < g@.len());
        }
        match self.memo[c.id] {
            Some(t) => {
                self.edges.push((k, t, label));
                proof {
                    assert(self.src@[t as int] == VizSource::Node(c.id));
                    assert(drawn_as(self.src@, t as int, operands(g@[h as int])[p]));
                    assert(self.edges@.subrange(0, b0.edges@.len() as int) =~= b0.edges@);
                    assert(self.nodes@.subrange(0, b0.nodes@.len() as int) =~= b0.nodes@);
                    assert(self.src@.subrange(0, b0.src@.len() as int) =~= b0.src@);
                    assert forall|k2: int| 0 <= k2 < self.nodes@.len() && (#[trigger] self.src@[k2]) is Node implies exists|i: int|
                        0 <= i < self.edges@.len() && (#[trigger] self.edges@[i]).1 == k2 && self.edges@[i].0 < k2 by {
                        let i = choose|i: int| 0 <= i < b0.edges@.len() && (#[trigger] b0.edges@[i]).1 == k2 && b0.edges@[i].0 < k2;
                        assert(self.edges@[i] == b0.edges@[i]);
                    }
                }
            },
            None => {
                let n = self.nodes.len();
                self.edges.push((k, n, label));
                proof {
                    assert(self.edges@.subrange(0, b0.edges@.len() as int) =~= b0.edges@);
                    assert(operands(g@[h as int])[p].id == c.id);
                    assert forall|k2: int| 0 <= k2 < self.nodes@.len() && (#[trigger] self.src@[k2]) is Node implies exists|i: int|
                        0 <= i < self.edges@.len() && (#[trigger] self.edges@[i]).1 == k2 && self.edges@[i].0 < k2 by {
                        let i = choose|i: int| 0 <= i < b0.edges@.len() && (#[trigger] b0.edges@[i]).1 == k2 && b0.edges@[i].0 < k2;
                        assert(self.edges@[i] == b0.edges@[i]);
                    }
                }
                let ghost b1 = *self;
                self.draw_node(g, Ghost(outs), c.id);
                proof {
                    let i = b1.edges@.len() - 1;
                    assert(self.edges@.subrange(0, b1.edges@.len() as int)[i] == self.edges@[i]);
                    assert(self.edges@[i] == b1.edges@[i]);
                    assert(self.src@[n as int] == VizSource::Node(c.id));
                    assert(self.edges@.subrange(0, b0.edges@.len() as int) =~= b0.edges@) by {
                        assert forall|j: int| 0 <= j < b0.edges@.len() implies self.edges@[j] == b0.edges@[j] by {
                            assert(self.edges@.subrange(0, b1.edges@.len() as int)[j] == self.edges@[j]);
                        }
                    }
                    assert(self.nodes@.subrange(0, b0.nodes@.len() as int) =~= b0.nodes@);
                    assert(self.src@.subrange(0, b0.src@.len() as int) =~= b0.src@);
                }
            },
        }
    }
}

/// Adding the node of output `j` keeps the builder consistent.
proof fn lemma_output_start(b0: VizBuilder, b1: VizBuilder, g: Seq<Node>, outs: Seq<(String, RCell)>, j: usize)
    requires
        builder_ok(b0, g, outs, -1),
        j < outs.len(),
        b1.memo@ == b0.memo@,
        b1.nodes@ == b0.nodes@.push(b1.nodes@.last()),
        b1.nodes@.last()@ == output_label(outs[j as int].0@),
        b1.src@ == b0.src@.push(VizSource::Output(j)),
        b1.edges@ == b0.edges@,
    ensures
        builder_ok(b1, g, outs, -1),
        builder_grows(b0, b1),
{
    let k = b0.nodes@.len() as int;
    assert(b1.nodes@.subrange(0, k) =~= b0.nodes@);
    assert(b1.src@.subrange(0, k) =~= b0.src@);
    assert forall|kk: int| 0 <= kk < b1.nodes@.len() implies match #[trigger] b1.src@[kk] {
        VizSource::Output(jj) => jj < outs.len() && b1.nodes@[kk]@ == output_label(outs[jj as int].0@),
        VizSource::Node(hh) => hh < g.len() && b1.memo@[hh as int] == Some(kk as usize) && b1.nodes@[kk]@ == node_label(g[hh as int]),
    } by {
        if kk < k {
            assert(b1.src@[kk] == b0.src@[kk]);
            assert(b1.nodes@[kk] == b0.nodes@[kk]);
        }
    }
    assert forall|i: int| 0 <= i < b1.edges@.len() implies (#[trigger] b1.edges@[i]).0 < b1.nodes@.len()
        && b1.edges@[i].1 < b1.nodes@.len()
        && edge_expected(g, outs, b1.src@, b1.edges@[i].0 as int, b1.edges@[i].1 as int, b1.edges@[i].2@) by {
        lemma_expected_grows(g, outs, b0.src@, b1.src@, b1.edges@[i].0 as int, b1.edges@[i].1 as int, b1.edges@[i].2@);
    }
    assert forall|kk: int| 0 <= kk < b1.nodes@.len() && (#[trigger] b1.src@[kk]) is Node implies exists|i: int|
        0 <= i < b1.edges@.len() && (#[trigger] b1.edges@[i]).1 == kk && b1.edges@[i].0 < kk by {
        assert(b1.src@[kk] == b0.src@[kk]);
    }
    assert(b1.edges@.subrange(0, b1.edges@.len() as int) =~= b1.edges@);
}

/// Adding an edge keeps the builder consistent but for that edge.
proof fn lemma_push_edge(b1: VizBuilder, b2: VizBuilder, g: Seq<Node>, outs: Seq<(String, RCell)>)
    requires
        builder_ok(b1, g, outs, -1),
        b2.memo@ == b1.memo@,
        b2.nodes@ == b1.nodes@,
        b2.src@ == b1.src@,
        b2.edges@ == b1.edges@.push(b2.edges@.last()),
    ensures
        builder_ok(b2, g, outs, b1.edges@.len() as int),
        builder_grows(b1, b2),
{
    assert(b2.edges@.subrange(0, b1.edges@.len() as int) =~= b1.edges@);
    assert(b2.nodes@.subrange(0, b1.nodes@.len() as int) =~= b1.nodes@);
    assert(b2.src@.subrange(0, b1.src@.len() as int) =~= b1.src@);
    assert forall|kk: int| 0 <= kk < b2.nodes@.len() && (#[trigger] b2.src@[kk]) is Node implies exists|i: int|
        0 <= i < b2.edges@.len() && (#[trigger] b2.edges@[i]).1 == kk && b2.edges@[i].0 < kk by {
        let i = choose|i: int| 0 <= i < b1.edges@.len() && (#[trigger] b1.edges@[i]).1 == kk && b1.edges@[i].0 < kk;
        assert(b2.edges@[i] == b1.edges@[i]);
    }
}

impl VizBuilder {
    /// Draws the output number `j`, named `name`, whose value is the arena node `e`: its
    /// node, then the edge to the node of `e`, drawing `e` first if it is not drawn yet.
    fn draw_output(&mut self, g: &Vec<Node>, Ghost(outs): Ghost<Seq<(String, RCell)>>, j: usize, name: &String, e: RCell)
        requires
            drawable(g@),
            builder_ok(*old(self), g@, outs, -1),
            j < outs.len(),
            outs[j as int].0@ == name@,
            outs[j as int].1 == e,
            e.index() < g@.len(),
        ensures
            builder_ok(*final(self), g@, outs, -1),
            builder_grows(*old(self), *final(self)),
            final(self).nodes@.len() > old(self).nodes@.len(),
            final(self).src@[old(self).nodes@.len() as int] == VizSource::Output(j),
            forall|k: int| old(self).nodes@.len() < k < final(self).nodes@.len() ==> (#[trigger] final(self).src@[k]) is Node,
            forall|k: int| old(self).nodes@.len() <= k < final(self).nodes@.len() ==> complete(g@, outs, final(self).src@, final(self).edges@, k),
    {
        let ghost b0 = *self;
        let k = self.nodes.len();
        let mut label = String::from_str("Output ");
        push_string(&mut label, name);
        self.nodes.push(label);
        proof {
            self.src@ = self.src@.push(VizSource::Output(j));
            lemma_output_start(b0, *self, g@, outs, j);
        }
        let ghost b1 = *self;
        match self.memo[e.id] {
            Some(t) => {
                self.edges.push((k, t, String::new()));
                proof {
                    lemma_push_edge(b1, *self, g@, outs);
                    assert(self.src@[t as int] == VizSource::Node(e.id));
                    assert(edge_expected(g@, outs, self.src@, k as int, t as int, Seq::empty()));
                    assert(has_edge(self.src@, self.edges@, k as int, outs[j as int].1, Seq::empty())) by {
                        assert(self.edges@[self.edges@.len() - 1].0 == k);
                    }
                    lemma_grows_trans(b0, b1, *self);
                    assert(complete(g@, outs, self.src@, self.edges@, k as int));
                }
            },
            None => {
                let n1 = self.nodes.len();
                self.edges.push((k, n1, String::new()));
                proof {
                    lemma_push_edge(b1, *self, g@, outs);
                }
                let ghost b2 = *self;
                self.draw_node(g, Ghost(outs), e.id);
                proof {
                    let i = b2.edges@.len() - 1;
                    assert(self.edges@.subrange(0, b2.edges@.len() as int)[i] == self.edges@[i]);
                    assert(self.src@.subrange(0, b2.src@.len() as int)[k as int] == self.src@[k as int]);
                    assert(has_edge(self.src@, self.edges@, k as int, outs[j as int].1, Seq::empty())) by {
                        assert(self.edges@[i].0 == k);
                    }
                    lemma_grows_trans(b0, b1, b2);
                    lemma_grows_trans(b0, b2, *self);
                    assert(complete(g@, outs, self.src@, self.edges@, k as int));
                }
            },
        }
    }
}

/// The drawing of the first `j` outputs is consistent.
spec fn outputs_ok(b: VizBuilder, g: Seq<Node>, outs: Seq<(String, RCell)>, j: int) -> bool {
    &&& builder_ok(b, g, outs, -1)
    &&& forall|jj: int| 0 <= jj < j ==> #[trigger] output_drawn(b.src@, jj)
    &&& forall|k: int| 0 <= k < b.nodes@.len() && (#[trigger] b.src@[k]) is Output ==> b.src@[k]->Output_0 < j
    &&& forall|k: int| 0 <= k < b.nodes@.len() ==> complete(g, outs, b.src@, b.edges@, k)
    &&& forall|k1: int, k2: int| 0 <= k1 < b.nodes@.len() && 0 <= k2 < b.nodes@.len() && (#[trigger] b.src@[k1]) is Output
        && b.src@[k1] == #[trigger] b.src@[k2] ==> k1 == k2
}

proof fn lemma_output_step(b0: VizBuilder, b: VizBuilder, g: Seq<Node>, outs: Seq<(String, RCell)>, j: usize)
    requires
        outputs_ok(b0, g, outs, j as int),
        builder_ok(b, g, outs, -1),
        builder_grows(b0, b),
        b.nodes@.len() > b0.nodes@.len(),
        b.src@[b0.nodes@.len() as int] == VizSource::Output(j),
        forall|k: int| b0.nodes@.len() < k < b.nodes@.len() ==> (#[trigger] b.src@[k]) is Node,
        forall|k: int| b0.nodes@.len() <= k < b.nodes@.len() ==> complete(g, outs, b.src@, b.edges@, k),
    ensures
        outputs_ok(b, g, outs, j + 1),
{
    let k = b0.nodes@.len() as int;
    assert forall|kk: int| 0 <= kk < k implies b.src@[kk] == b0.src@[kk] by {
        assert(b.src@.subrange(0, b0.src@.len() as int)[kk] == b.src@[kk]);
    }
    assert forall|kk: int| 0 <= kk < b.nodes@.len() implies complete(g, outs, b.src@, b.edges@, kk) by {
        if kk < k {
            lemma_complete_grows(g, outs, b0.src@, b.src@, b0.edges@, b.edges@, kk);
        }
    }
    assert forall|jj: int| 0 <= jj < j + 1 implies #[trigger] output_drawn(b.src@, jj) by {
        if jj < j {
            assert(output_drawn(b0.src@, jj));
            let kk = choose|kk: int| 0 <= kk < b0.src@.len() && #[trigger] b0.src@[kk] == VizSource::Output(jj as usize);
            assert(b.src@[kk] == b0.src@[kk]);
        } else {
            assert(b.src@[k] == VizSource::Output(j));
        }
    }
    assert forall|kk: int| 0 <= kk < b.nodes@.len() && (#[trigger] b.src@[kk]) is Output implies b.src@[kk]->Output_0 < j + 1 by {
        if kk < k {
            assert(b.src@[kk] == b0.src@[kk]);
        }
    }
    assert forall|k1: int, k2: int| 0 <= k1 < b.nodes@.len() && 0 <= k2 < b.nodes@.len() && (#[trigger] b.src@[k1]) is Output
        && b.src@[k1] == #[trigger] b.src@[k2] implies k1 == k2 by {
        if k1 < k {
            assert(b.src@[k1] == b0.src@[k1]);
        }
        if k2 < k {
            assert(b.src@[k2] == b0.src@[k2]);
        }
    }
}

/// Draws a flat dataflow graph: for each output in order, a node labelled with its name and
/// an edge to the node of its value, drawing that node and what it reaches first if they are
/// not drawn yet. Nodes are drawn in the order of the walk, each right after the edge that
/// first leads to it, and never twice.
pub fn render_graph(g: &FlatProgramGraph) -> (r: VizGraph)
    requires
        drawable(g.nodes@),
        forall|j: int| 0 <= j < g.outputs@.len() ==> (#[trigger] g.outputs@[j]).1.index() < g.nodes@.len(),
    ensures
        exists|src: Seq<VizSource>| #[trigger] viz_rel(g.nodes@, g.outputs@, r, src),
{
    let ghost gs = g.nodes@;
    let ghost outs = g.outputs@;
    let mut memo: Vec<Option<usize>> = Vec::new();
    let mut h: usize = 0;
    while h < g.nodes.len()
        invariant
            h <= g.nodes@.len(),
            memo@.len() == h,
            forall|i: int| 0 <= i < h ==> (#[trigger] memo@[i]) is None,
        decreases g.nodes@.len() - h,
    {
        memo.push(None);
        h = h + 1;
    }
    let mut b = VizBuilder { nodes: Vec::new(), edges: Vec::new(), memo, src: Ghost(Seq::empty()) };
    let mut j: usize = 0;
    while j < g.outputs.len()
        invariant
            gs == g.nodes@,
            outs == g.outputs@,
            drawable(gs),
            forall|jj: int| 0 <= jj < outs.len() ==> (#[trigger] outs[jj]).1.index() < gs.len(),
            j <= outs.len(),
            outputs_ok(b, gs, outs, j as int),
        decreases outs.len() - j,
    {
        let ghost b0 = b;
        b.draw_output(&g.nodes, Ghost(outs), j, &g.outputs[j].0, g.outputs[j].1);
        proof {
            lemma_output_step(b0, b, gs, outs, j);
        }
        j = j + 1;
    }
    let r = VizGraph { nodes: b.nodes, edges: b.edges };
    proof {
        let src = b.src@;
        assert forall|k1: int, k2: int| 0 <= k1 < src.len() && 0 <= k2 < src.len() && #[trigger] src[k1] == #[trigger] src[k2] implies k1 == k2 by {
            match src[k1] {
                VizSource::Node(hh) => {
                    assert(b.memo@[hh as int] == Some(k1 as usize));
                    assert(b.memo@[hh as int] == Some(k2 as usize));
                },
                VizSource::Output(jj) => {},
            }
        }
        assert(j == outs.len());
        assert(forall|jj: int| 0 <= jj < outs.len() ==> #[trigger] output_drawn(src, jj));
        assert(forall|k: int| 0 <= k < r.nodes@.len() ==> complete(gs, outs, src, r.edges@, k));
        assert forall|k: int| 0 <= k < r.nodes@.len() && (#[trigger] src[k]) is Node implies exists|i: int|
            0 <= i < r.edges@.len() && (#[trigger] r.edges@[i]).1 == k && r.edges@[i].0 < k by {
            let i = choose|i: int| 0 <= i < b.edges@.len() && (#[trigger] b.edges@[i]).1 == k && b.edges@[i].0 < k;
            assert(r.edges@[i] == b.edges@[i]);
        }
        assert(viz_rel(gs, outs, r, src));
    }
    r
}


/// Whether a graph can be drawn: its arena can (see `drawable`) and its outputs point into it.
pub fn drawable_exec(g: &FlatProgramGraph) -> (r: bool)
    ensures
        r == (drawable(g.nodes@) && forall|j: int| 0 <= j < g.outputs@.len() ==> (#[trigger] g.outputs@[j]).1.index() < g.nodes@.len()),
{
    if !crate::backends::netlist::nodes_linked_exec(&g.nodes) {
        return false;
    }
    let n = g.nodes.len();
    let mut i: usize = 0;
    while i < n
        invariant
            n == g.nodes@.len(),
            i <= n,
            forall|k: int| 0 <= k < i ==> !(#[trigger] g.nodes@[k] is TmpValueHolder),
        decreases n - i,
    {
        if matches!(g.nodes[i], Node::TmpValueHolder(_)) {
            return false;
        }
        i = i + 1;
    }
    let mut j: usize = 0;
    while j < g.outputs.len()
        invariant
            n == g.nodes@.len(),
            j <= g.outputs@.len(),
            forall|jj: int| 0 <= jj < j ==> (#[trigger] g.outputs@[jj]).1.index() < n,
        decreases g.outputs@.len() - j,
    {
        if g.outputs[j].1.id >= n {
            return false;
        }
        j = j + 1;
    }
    true
}
} // verus!
