//! The flat dataflow graph: one node per operation, shared nodes, and cycles through registers.
//! Nodes live in an arena; an `RCell` is the handle of a node in it.
use vstd::prelude::*;

pub use crate::ast::BiOp;
use crate::util::text::{decimal, push_decimal, push_string};
use crate::util::viz::biop_name;

verus! {

/// The handle of a cell of an arena; its id is its index.
#[derive(Debug, Clone, Copy, PartialEq, Eq, Structural, Hash)]
pub struct RCell {
    pub id: usize,
}

impl RCell {
    /// Puts `value` in a new cell at the end of `arena` and returns its handle.
    pub fn new<T>(arena: &mut Vec<T>, value: T) -> (r: RCell)
        ensures
            r.id == old(arena).len(),
            final(arena)@ == old(arena)@.push(value),
    {
        let id = arena.len();
        arena.push(value);
        RCell { id }
    }

    /// The id of the cell.
    pub fn id(&self) -> (r: usize)
        ensures
            r == self.id,
    {
        self.id
    }

    /// The index of the cell in its arena.
    pub open spec fn index(self) -> int {
        self.id as int
    }
}

/// A node of the dataflow graph: an operation and the handles of its operands.
#[derive(Debug, Clone, PartialEq, Eq)]
pub enum Node {
    /// An input of the whole program.
    Input(usize),
    Const(Vec<bool>),
    Not(RCell),
    Slice(RCell, usize, usize),
    BiOp(BiOp, RCell, RCell),
    Mux(RCell, RCell, RCell),
    /// size, input.
    Reg(usize, RCell),
    Ram(RCell, RCell, RCell, RCell),
    /// word size, address.
    Rom(usize, RCell),
    /// A placeholder used while the graph is built; none is left in a finished graph.
    TmpValueHolder(usize),
}

/// The whole program as a dataflow graph: the arena of nodes, the named outputs and the input sizes.
#[derive(Debug, Clone)]
pub struct FlatProgramGraph {
    pub outputs: Vec<(String, RCell)>,
    pub inputs: Vec<usize>,
    pub nodes: Vec<Node>,
}


/// The text of a bit in a printed constant.
pub open spec fn bit_word(b: bool) -> Seq<char> {
    if b {
        "true"@
    } else {
        "false"@
    }
}

/// The bits of a constant separated by commas.
pub open spec fn bits_items(v: Seq<bool>) -> Seq<char>
    decreases v.len(),
{
    if v.len() == 0 {
        Seq::empty()
    } else if v.len() == 1 {
        bit_word(v[0])
    } else {
        bits_items(v.drop_last()) + ", "@ + bit_word(v.last())
    }
}

/// A constant as it is printed: its bits in brackets.
pub open spec fn bits_debug(v: Seq<bool>) -> Seq<char> {
    "["@ + bits_items(v) + "]"@
}

/// The text of the node of handle `h`, printed within `d` nested nodes; see `print_text`.
pub open spec fn print_at(nodes: Seq<Node>, h: RCell, in_reg: bool, indent: Seq<char>, d: nat) -> Option<Seq<char>>
    decreases d, 1int,
{
    if h.index() < nodes.len() {
        print_text(nodes, nodes[h.index()], in_reg, indent, d)
    } else {
        None
    }
}

/// The text of a node of the arena `nodes` with its operands, one level of nesting more
/// indented after each line break, when it takes at most `d` nested nodes. A register met
/// inside a register prints as a loop, so that a cycle through a register ends; `in_reg`
/// tells whether the node is inside one.
pub open spec fn print_text(nodes: Seq<Node>, n: Node, in_reg: bool, indent: Seq<char>, d: nat) -> Option<Seq<char>>
    decreases d, 0int,
{
    if d == 0 {
        None
    } else {
        let sub = indent + " "@;
        let e = (d - 1) as nat;
        match n {
            Node::Input(i) => Some("Input "@ + decimal(i as nat)),
            Node::Const(v) => Some("Const "@ + bits_debug(v@)),
            Node::Not(a) => match print_at(nodes, a, in_reg, sub, e) {
                Some(t) => Some("Not "@ + t),
                None => None,
            },
            Node::Slice(a, c1, c2) => match print_at(nodes, a, in_reg, sub, e) {
                Some(t) => Some("Slice "@ + decimal(c1 as nat) + " "@ + decimal(c2 as nat) + " "@ + t),
                None => None,
            },
            Node::BiOp(op, a, b) => match (print_at(nodes, a, in_reg, sub, e), print_at(nodes, b, in_reg, sub, e)) {
                (Some(ta), Some(tb)) => Some(biop_name(op) + " "@ + ta + " \n"@ + indent + tb),
                _ => None,
            },
            Node::Mux(a, b, c) => match (
                print_at(nodes, a, in_reg, sub, e),
                print_at(nodes, b, in_reg, sub, e),
                print_at(nodes, c, in_reg, sub, e),
            ) {
                (Some(ta), Some(tb), Some(tc)) => Some("Mux "@ + ta + " \n"@ + indent + tb + " \n"@ + indent + tc),
                _ => None,
            },
            Node::Reg(_, a) => if in_reg {
                Some("Reg loop"@)
            } else {
                match print_at(nodes, a, true, sub, e) {
                    Some(t) => Some("Reg "@ + t),
                    None => None,
                }
            },
            Node::Ram(a, b, c, w) => match (
                print_at(nodes, a, in_reg, sub, e),
                print_at(nodes, b, in_reg, sub, e),
                print_at(nodes, c, in_reg, sub, e),
                print_at(nodes, w, in_reg, sub, e),
            ) {
                (Some(ta), Some(tb), Some(tc), Some(tw)) => Some(
                    "Ram \n"@ + indent + ta + " \n"@ + indent + tb + " \n"@ + indent + tc + " \n"@ + indent + tw,
                ),
                _ => None,
            },
            Node::Rom(_, a) => match print_at(nodes, a, in_reg, sub, e) {
                Some(t) => Some("Rom "@ + t),
                None => None,
            },
            Node::TmpValueHolder(i) => Some("Temp value "@ + decimal(i as nat)),
        }
    }
}

/// Appends the printed bits of a constant.
fn push_bits(s: &mut String, v: &Vec<bool>)
    ensures
        final(s)@ == old(s)@ + bits_debug(v@),
{
    s.append("[");
    let ghost s0 = old(s)@ + "["@;
    let mut i: usize = 0;
    while i < v.len()
        invariant
            i <= v@.len(),
            s@ == s0 + bits_items(v@.subrange(0, i as int)),
        decreases v@.len() - i,
    {
        proof {
            assert(v@.subrange(0, i as int + 1).drop_last() =~= v@.subrange(0, i as int));
            reveal_strlit("true");
            reveal_strlit("false");
        }
        if i > 0 {
            s.append(", ");
        }
        if v[i] {
            s.append("true");
        } else {
            s.append("false");
        }
        proof {
            assert(v@.subrange(0, i as int + 1).last() == v@[i as int]);
        }
        i = i + 1;
    }
    s.append("]");
    proof {
        assert(v@.subrange(0, v@.len() as int) =~= v@);
    }
}

/// The text of the node of handle `h`; see `print_at`.
fn print_handle(nodes: &Vec<Node>, h: RCell, in_reg: bool, indent: &String, depth: usize) -> (r: Option<String>)
    ensures
        match print_at(nodes@, h, in_reg, indent@, depth as nat) {
            Some(t) => r matches Some(x) && x@ == t,
            None => r is None,
        },
    decreases depth, 1int,
{
    if h.id < nodes.len() {
        print_node(nodes, &nodes[h.id], in_reg, indent, depth)
    } else {
        None
    }
}

/// Appends `b` after `a`.
fn joined_text(a: &str, b: &String) -> (r: String)
    ensures
        r@ == a@ + b@,
{
    let mut s = String::from_str(a);
    push_string(&mut s, b);
    s
}

/// Prints a node of the arena `nodes` with its operands, one level of nesting more indented
/// after each line break; `None` when that takes more than `depth` nested nodes (as a cycle
/// that no register breaks does, whatever the depth). See `print_text`.
pub fn print_node(nodes: &Vec<Node>, node: &Node, in_reg: bool, indent: &String, depth: usize) -> (r: Option<String>)
    ensures
        match print_text(nodes@, *node, in_reg, indent@, depth as nat) {
            Some(t) => r matches Some(x) && x@ == t,
            None => r is None,
        },
    decreases depth, 0int,
{
    if depth == 0 {
        return None;
    }
    let mut sub = indent.clone();
    sub.append(" ");
    let e = depth - 1;
    match node {
        Node::Input(i) => {
            let mut s = String::from_str("Input ");
            push_decimal(&mut s, *i);
            Some(s)
        },
        Node::Const(v) => {
            let mut s = String::from_str("Const ");
            push_bits(&mut s, v);
            Some(s)
        },
        Node::Not(a) => match print_handle(nodes, *a, in_reg, &sub, e) {
            Some(t) => Some(joined_text("Not ", &t)),
            None => None,
        },
        Node::Slice(a, c1, c2) => match print_handle(nodes, *a, in_reg, &sub, e) {
            Some(t) => {
                let mut s = String::from_str("Slice ");
                push_decimal(&mut s, *c1);
                s.append(" ");
                push_decimal(&mut s, *c2);
                s.append(" ");
                push_string(&mut s, &t);
                Some(s)
            },
            None => None,
        },
        Node::BiOp(op, a, b) => {
            let ta = print_handle(nodes, *a, in_reg, &sub, e);
            let tb = print_handle(nodes, *b, in_reg, &sub, e);
            match (ta, tb) {
                (Some(ta), Some(tb)) => {
                    let mut s = match op {
                        BiOp::And => String::from_str("And"),
                        BiOp::Or => String::from_str("Or"),
                        BiOp::Xor => String::from_str("Xor"),
                        BiOp::Nand => String::from_str("Nand"),
                        BiOp::Concat => String::from_str("Concat"),
                    };
                    s.append(" ");
                    push_string(&mut s, &ta);
                    s.append(" \n");
                    push_string(&mut s, indent);
                    push_string(&mut s, &tb);
                    Some(s)
                },
                _ => None,
            }
        },
        Node::Mux(a, b, c) => {
            let ta = print_handle(nodes, *a, in_reg, &sub, e);
            let tb = print_handle(nodes, *b, in_reg, &sub, e);
            let tc = print_handle(nodes, *c, in_reg, &sub, e);
            match (ta, tb, tc) {
                (Some(ta), Some(tb), Some(tc)) => {
                    let mut s = String::from_str("Mux ");
                    push_string(&mut s, &ta);
                    s.append(" \n");
                    push_string(&mut s, indent);
                    push_string(&mut s, &tb);
                    s.append(" \n");
                    push_string(&mut s, indent);
                    push_string(&mut s, &tc);
                    Some(s)
                },
                _ => None,
            }
        },
        Node::Reg(_, a) => {
            if in_reg {
                Some(String::from_str("Reg loop"))
            } else {
                match print_handle(nodes, *a, true, &sub, e) {
                    Some(t) => Some(joined_text("Reg ", &t)),
                    None => None,
                }
            }
        },
        Node::Ram(a, b, c, w) => {
            let ta = print_handle(nodes, *a, in_reg, &sub, e);
            let tb = print_handle(nodes, *b, in_reg, &sub, e);
            let tc = print_handle(nodes, *c, in_reg, &sub, e);
            let tw = print_handle(nodes, *w, in_reg, &sub, e);
            match (ta, tb, tc, tw) {
                (Some(ta), Some(tb), Some(tc), Some(tw)) => {
                    let mut s = String::from_str("Ram \n");
                    push_string(&mut s, indent);
                    push_string(&mut s, &ta);
                    s.append(" \n");
                    push_string(&mut s, indent);
                    push_string(&mut s, &tb);
                    s.append(" \n");
                    push_string(&mut s, indent);
                    push_string(&mut s, &tc);
                    s.append(" \n");
                    push_string(&mut s, indent);
                    push_string(&mut s, &tw);
                    Some(s)
                },
                _ => None,
            }
        },
        Node::Rom(_, a) => match print_handle(nodes, *a, in_reg, &sub, e) {
            Some(t) => Some(joined_text("Rom ", &t)),
            None => None,
        },
        Node::TmpValueHolder(i) => {
            let mut s = String::from_str("Temp value ");
            push_decimal(&mut s, *i);
            Some(s)
        },
    }
}
} // verus!
