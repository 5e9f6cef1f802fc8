//! Collapsing of hierarchical automata.
//!
//! A call of an external automaton in a state of `main` is replaced by the automaton
//! itself: new shared variables hold its inputs and outputs, every shared variable and
//! state of the called automaton is renamed apart, and its states are copied into `main`,
//! each with a pause state in which it waits while the calling state is not running.
//! This repeats until no call is left.
use vstd::prelude::*;

use crate::ast::parse_ast::{
    Automaton, BiOp, Const, ConstExpr, Expr, ExtAutomaton, FnAssign, FnCall, IfStruct, Loc, Pos,
    Program, RamStruct, RomStruct, State, Statement, TrCond, Transition, VarAssign, copy_const,
    copy_loc_const,
};
use crate::util::tables::{table_get, table_get_from, table_has, table_lookup, table_contains, table_set, table_insert};
use crate::util::text::{decimal, push_decimal, push_string};

verus! {

/// What a call of an automaton has the wrong number of.
#[derive(Debug, Clone, Copy, PartialEq, Eq, Structural)]
pub enum WrongNumberType {
    Args,
    ReturnVars,
}

impl WrongNumberType {
    /// The words for it in an error message.
    pub fn text(&self) -> (r: String)
        ensures
            r@ == (match *self {
                WrongNumberType::Args => "arguments"@,
                WrongNumberType::ReturnVars => "return variables"@,
            }),
    {
        match self {
            WrongNumberType::Args => String::from_str("arguments"),
            WrongNumberType::ReturnVars => String::from_str("return variables"),
        }
    }
}

/// The errors of the collapsing of automata.
#[derive(Debug)]
pub enum CollapseAutomataError {
    CyclicAutomatonCall(String),
    UnknownAutomaton(Pos, String),
    NoMainAutomaton,
    UnknownVar(Pos, String),
    /// What, where, how many expected, how many given.
    WrongNumber(WrongNumberType, Pos, usize, usize),
    /// An automaton that has states but no initial state, or a state with a default
    /// transition left, cannot be inlined.
    NotInlinable(Pos, String),
}

/// The name of a variable or state `name` of the automaton `ns` inlined with number `counter`.
pub open spec fn rename_text(counter: u32, name: Seq<char>, ns: Seq<char>) -> Seq<char> {
    "inline_mod$"@ + name + "$"@ + ns + "$"@ + decimal(counter as nat) + "$"@
}

/// The name of the pause state of the state `name` of the automaton `ns` inlined with
/// number `counter`.
pub open spec fn pause_text(counter: u32, name: Seq<char>, ns: Seq<char>) -> Seq<char> {
    "inline_mod_pause$"@ + name + "$"@ + ns + "$"@ + decimal(counter as nat) + "$"@
}

/// The name of the shared variable that holds an input of a call of the automaton `name`.
pub open spec fn input_text(name: Seq<char>, counter: u32) -> Seq<char> {
    name + "#mod_input#"@ + decimal(counter as nat)
}

/// The name of `name` of the automaton `namespace` inlined with number `counter`.
pub fn get_rename(counter: u32, name: &str, namespace: &str) -> (r: String)
    ensures
        r@ == rename_text(counter, name@, namespace@),
{
    let mut s = String::from_str("inline_mod$");
    s.append(name);
    s.append("$");
    s.append(namespace);
    s.append("$");
    push_decimal(&mut s, counter as usize);
    s.append("$");
    s
}

/// The name of the pause state of `name` of the automaton `namespace` inlined with number
/// `counter`.
pub fn get_pause_name(counter: u32, name: &str, namespace: &str) -> (r: String)
    ensures
        r@ == pause_text(counter, name@, namespace@),
{
    let mut s = String::from_str("inline_mod_pause$");
    s.append(name);
    s.append("$");
    s.append(namespace);
    s.append("$");
    push_decimal(&mut s, counter as usize);
    s.append("$");
    s
}

/// Takes a new name for an input of a call of `name`; the counter goes on (wrapping).
pub fn get_input_name(name: &String, counter: &mut u32) -> (r: String)
    ensures
        r@ == input_text(name@, *old(counter)),
        *final(counter) == old(counter).wrapping_add(1),
{
    let mut s = name.clone();
    s.append("#mod_input#");
    push_decimal(&mut s, *counter as usize);
    *counter = counter.wrapping_add(1);
    s
}

/// How the variables of an inlined automaton are renamed: by `map` when it names them,
/// else apart with the automaton's name `ns` and the number `counter`; or not at all when
/// `keep` is set.
pub struct Renaming {
    pub keep: bool,
    pub map: Seq<(String, String)>,
    pub counter: u32,
    pub ns: Seq<char>,
}

impl Renaming {
    /// The new name of `v`.
    pub open spec fn name(self, v: Seq<char>) -> Seq<char> {
        if self.keep {
            v
        } else {
            match table_get(self.map, v) {
                Some(x) => x@,
                None => rename_text(self.counter, v, self.ns),
            }
        }
    }
}

/// The renaming that keeps every name: `b` is then a copy of `a`.
pub open spec fn kept() -> Renaming {
    Renaming { keep: true, map: Seq::empty(), counter: 0, ns: ""@ }
}

/// `b` is the constant expression `a`.
pub open spec fn same_const_expr(a: ConstExpr, b: ConstExpr) -> bool {
    match (a, b) {
        (ConstExpr::Known(x), ConstExpr::Known(y)) => x@ == y@,
        (ConstExpr::Unknown(x, c), ConstExpr::Unknown(y, d)) => x == y && c == d,
        _ => false,
    }
}

/// `b` is `a` with its variables renamed by `rn`.
pub open spec fn ren_expr(a: Expr, b: Expr, rn: Renaming) -> bool
    decreases a,
{
    match (a, b) {
        (Expr::Var(v), Expr::Var(w)) => w.loc == v.loc && w.value@ == rn.name(v.value@),
        (Expr::Last(v), Expr::Last(w)) => w.loc == v.loc && w.value@ == rn.name(v.value@),
        (Expr::Const(c), Expr::Const(d)) => same_const_expr(c, d),
        (Expr::Not(e), Expr::Not(f)) => ren_expr(*e, *f, rn),
        (Expr::Slice(e, c1, c2), Expr::Slice(f, d1, d2)) => f.loc == e.loc && ren_expr(e.value, f.value, rn) && d1 == c1 && d2 == c2,
        (Expr::BiOp(op, e1, e2), Expr::BiOp(op2, f1, f2)) => {
            &&& op2 == op
            &&& f1.loc == e1.loc && ren_expr(e1.value, f1.value, rn)
            &&& f2.loc == e2.loc && ren_expr(e2.value, f2.value, rn)
        },
        (Expr::Mux(e1, e2, e3), Expr::Mux(f1, f2, f3)) => {
            &&& f1.loc == e1.loc && ren_expr(e1.value, f1.value, rn)
            &&& f2.loc == e2.loc && ren_expr(e2.value, f2.value, rn)
            &&& f3.loc == e3.loc && ren_expr(e3.value, f3.value, rn)
        },
        (Expr::Reg(c, e), Expr::Reg(d, f)) => d == c && f.loc == e.loc && ren_expr(e.value, f.value, rn),
        (Expr::Ram(r), Expr::Ram(q)) => {
            &&& q.read_addr.loc == r.read_addr.loc && ren_expr(r.read_addr.value, q.read_addr.value, rn)
            &&& q.write_enable.loc == r.write_enable.loc && ren_expr(r.write_enable.value, q.write_enable.value, rn)
            &&& q.write_addr.loc == r.write_addr.loc && ren_expr(r.write_addr.value, q.write_addr.value, rn)
            &&& q.write_data.loc == r.write_data.loc && ren_expr(r.write_data.value, q.write_data.value, rn)
        },
        (Expr::Rom(r), Expr::Rom(q)) => q.word_size == r.word_size && q.read_addr.loc == r.read_addr.loc
            && ren_expr(r.read_addr.value, q.read_addr.value, rn),
        (Expr::FnCall(f), Expr::FnCall(g)) => {
            &&& g.name == f.name
            &&& g.static_args.loc == f.static_args.loc && g.static_args.value@ == f.static_args.value@
            &&& g.args.loc == f.args.loc
            &&& g.args.value@.len() == f.args.value@.len()
            &&& forall|i: int| 0 <= i < f.args.value@.len() ==> (#[trigger] g.args.value@[i]).loc == f.args.value@[i].loc
                && ren_expr(f.args.value@[i].value, g.args.value@[i].value, rn)
        },
        _ => false,
    }
}

/// `b` is the variable `a` renamed by `rn`.
pub open spec fn ren_var(a: Loc<String>, b: Loc<String>, rn: Renaming) -> bool {
    b.loc == a.loc && b.value@ == rn.name(a.value@)
}

/// `b` is the statement `a` with its variables renamed by `rn`.
pub open spec fn ren_stmt(a: Statement, b: Statement, rn: Renaming) -> bool
    decreases a,
{
    match (a, b) {
        (Statement::Assign(v), Statement::Assign(w)) => {
            &&& w@.len() == v@.len()
            &&& forall|i: int| 0 <= i < v@.len() ==> ren_var((#[trigger] v@[i]).var, w@[i].var, rn)
                && w@[i].expr.loc == v@[i].expr.loc && ren_expr(v@[i].expr.value, w@[i].expr.value, rn)
        },
        (Statement::If(i), Statement::If(j)) => {
            &&& j.condition == i.condition
            &&& j.if_block@.len() == i.if_block@.len()
            &&& j.else_block@.len() == i.else_block@.len()
            &&& forall|k: int| 0 <= k < i.if_block@.len() ==> ren_stmt(#[trigger] i.if_block@[k], j.if_block@[k], rn)
            &&& forall|k: int| 0 <= k < i.else_block@.len() ==> ren_stmt(#[trigger] i.else_block@[k], j.else_block@[k], rn)
        },
        (Statement::FnAssign(fa), Statement::FnAssign(fb)) => {
            &&& fb.vars@.len() == fa.vars@.len()
            &&& forall|i: int| 0 <= i < fa.vars@.len() ==> ren_var(#[trigger] fa.vars@[i], fb.vars@[i], rn)
            &&& ren_expr(Expr::FnCall(fa.f), Expr::FnCall(fb.f), rn)
        },
        (Statement::ExtAutomaton(e), Statement::ExtAutomaton(f)) => {
            &&& f.name == e.name
            &&& f.inputs.loc == e.inputs.loc
            &&& f.inputs.value@.len() == e.inputs.value@.len()
            &&& forall|i: int| 0 <= i < e.inputs.value@.len() ==> (#[trigger] f.inputs.value@[i]).loc == e.inputs.value@[i].loc
                && ren_expr(e.inputs.value@[i].value, f.inputs.value@[i].value, rn)
            &&& f.outputs.loc == e.outputs.loc
            &&& f.outputs.value@.len() == e.outputs.value@.len()
            &&& forall|i: int| 0 <= i < e.outputs.value@.len() ==> ren_var(#[trigger] e.outputs.value@[i], f.outputs.value@[i], rn)
        },
        _ => false,
    }
}

/// The renaming with `map`, `counter` and `ns`.
pub open spec fn renaming(map: Seq<(String, String)>, counter: u32, ns: Seq<char>) -> Renaming {
    Renaming { keep: false, map, counter, ns }
}

/// The renaming with `keep`, `map`, `counter` and `ns`.
pub open spec fn rn_of(keep: bool, map: Seq<(String, String)>, counter: u32, ns: Seq<char>) -> Renaming {
    Renaming { keep, map, counter, ns }
}

/// Renames a variable; see `Renaming::name`.
fn rename_var(v: &Loc<String>, map: &Vec<(String, String)>, counter: u32, ns: &str, keep: bool) -> (r: Loc<String>)
    ensures
        ren_var(*v, r, rn_of(keep, map@, counter, ns@)),
{
    if keep {
        return copy_name(v);
    }
    match table_lookup(map, v.value.as_str()) {
        Some(x) => Loc { loc: v.loc, value: x.clone() },
        None => Loc { loc: v.loc, value: get_rename(counter, v.value.as_str(), ns) },
    }
}

/// A copy of a constant expression.
pub fn copy_const_expr(c: &ConstExpr) -> (r: ConstExpr)
    ensures
        same_const_expr(*c, r),
{
    match c {
        ConstExpr::Known(v) => ConstExpr::Known(crate::interpreters::low_level_interpreter::copy_bits(v)),
        ConstExpr::Unknown(b, k) => ConstExpr::Unknown(*b, copy_loc_const(k)),
    }
}

/// A copy of an optional constant.
pub fn copy_opt_const(c: &Option<Const>) -> (r: Option<Const>)
    ensures
        r == *c,
{
    match c {
        Some(k) => Some(copy_const(k)),
        None => None,
    }
}

/// A copy of a list of constants.
pub fn copy_consts(v: &Vec<Const>) -> (r: Vec<Const>)
    ensures
        r@ == v@,
{
    let mut r: Vec<Const> = Vec::new();
    let mut i: usize = 0;
    while i < v.len()
        invariant
            i <= v@.len(),
            r@ == v@.subrange(0, i as int),
        decreases v@.len() - i,
    {
        r.push(copy_const(&v[i]));
        proof {
            assert(r@ =~= v@.subrange(0, i as int + 1));
        }
        i = i + 1;
    }
    proof {
        assert(r@ =~= v@);
    }
    r
}

/// A copy of a located name.
pub fn copy_name(v: &Loc<String>) -> (r: Loc<String>)
    ensures
        r == *v,
{
    Loc { loc: v.loc, value: v.value.clone() }
}


/// Renames the variables of a located expression.
fn replace_var_in_loc(e: &Loc<Expr>, map: &Vec<(String, String)>, counter: u32, ns: &str, keep: bool) -> (r: Box<Loc<Expr>>)
    ensures
        r.loc == e.loc,
        ren_expr(e.value, r.value, rn_of(keep, map@, counter, ns@)),
    decreases e.value, 3int,
{
    Box::new(Loc { loc: e.loc, value: rewrite_expr(&e.value, map, counter, ns, keep) })
}

/// Renames the variables of a list of located expressions.
fn replace_var_in_list(args: &Vec<Loc<Expr>>, map: &Vec<(String, String)>, counter: u32, ns: &str, keep: bool, Ghost(parent): Ghost<Expr>) -> (r: Vec<Loc<Expr>>)
    requires
        forall|i: int| 0 <= i < args@.len() ==> decreases_to!(parent => (#[trigger] args@[i]).value),
    ensures
        r@.len() == args@.len(),
        forall|i: int| 0 <= i < args@.len() ==> (#[trigger] r@[i]).loc == args@[i].loc
            && ren_expr(args@[i].value, r@[i].value, rn_of(keep, map@, counter, ns@)),
    decreases parent, 0int,
{
    let mut r: Vec<Loc<Expr>> = Vec::new();
    let mut i: usize = 0;
    while i < args.len()
        invariant
            i <= args@.len(),
            forall|k: int| 0 <= k < args@.len() ==> decreases_to!(parent => (#[trigger] args@[k]).value),
            r@.len() == i,
            forall|k: int| 0 <= k < i ==> (#[trigger] r@[k]).loc == args@[k].loc
                && ren_expr(args@[k].value, r@[k].value, rn_of(keep, map@, counter, ns@)),
        decreases args@.len() - i,
    {
        assert(decreases_to!(parent => args@[i as int].value));
        let e = rewrite_expr(&args[i].value, map, counter, ns, keep);
        r.push(Loc { loc: args[i].loc, value: e });
        i = i + 1;
    }
    r
}

/// Renames the variables of a list of located expressions of a statement.
fn replace_var_in_args(args: &Vec<Loc<Expr>>, map: &Vec<(String, String)>, counter: u32, ns: &str, keep: bool) -> (r: Vec<Loc<Expr>>)
    ensures
        r@.len() == args@.len(),
        forall|i: int| 0 <= i < args@.len() ==> (#[trigger] r@[i]).loc == args@[i].loc
            && ren_expr(args@[i].value, r@[i].value, rn_of(keep, map@, counter, ns@)),
{
    let mut r: Vec<Loc<Expr>> = Vec::new();
    let mut i: usize = 0;
    while i < args.len()
        invariant
            i <= args@.len(),
            r@.len() == i,
            forall|k: int| 0 <= k < i ==> (#[trigger] r@[k]).loc == args@[k].loc
                && ren_expr(args@[k].value, r@[k].value, rn_of(keep, map@, counter, ns@)),
        decreases args@.len() - i,
    {
        let e = rewrite_expr(&args[i].value, map, counter, ns, keep);
        r.push(Loc { loc: args[i].loc, value: e });
        i = i + 1;
    }
    r
}

/// Renames the variables of an expression: those of `map` by it, the others apart with
/// `counter` and `ns`; see `ren_expr`.
fn rewrite_expr(expr: &Expr, map: &Vec<(String, String)>, counter: u32, ns: &str, keep: bool) -> (r: Expr)
    ensures
        ren_expr(*expr, r, rn_of(keep, map@, counter, ns@)),
    decreases *expr, 2int,
{
    match expr {
        Expr::Var(v) => Expr::Var(rename_var(v, map, counter, ns, keep)),
        Expr::Last(v) => Expr::Last(rename_var(v, map, counter, ns, keep)),
        Expr::Const(c) => Expr::Const(copy_const_expr(c)),
        Expr::Not(e) => Expr::Not(Box::new(rewrite_expr(e, map, counter, ns, keep))),
        Expr::Slice(e, c1, c2) => Expr::Slice(replace_var_in_loc(e, map, counter, ns, keep), copy_opt_const(c1), copy_opt_const(c2)),
        Expr::BiOp(op, e1, e2) => Expr::BiOp(*op, replace_var_in_loc(e1, map, counter, ns, keep), replace_var_in_loc(e2, map, counter, ns, keep)),
        Expr::Mux(e1, e2, e3) => Expr::Mux(
            replace_var_in_loc(e1, map, counter, ns, keep),
            replace_var_in_loc(e2, map, counter, ns, keep),
            replace_var_in_loc(e3, map, counter, ns, keep),
        ),
        Expr::Reg(c, e) => Expr::Reg(copy_loc_const(c), replace_var_in_loc(e, map, counter, ns, keep)),
        Expr::Ram(r) => Expr::Ram(RamStruct {
            read_addr: replace_var_in_loc(&r.read_addr, map, counter, ns, keep),
            write_enable: replace_var_in_loc(&r.write_enable, map, counter, ns, keep),
            write_addr: replace_var_in_loc(&r.write_addr, map, counter, ns, keep),
            write_data: replace_var_in_loc(&r.write_data, map, counter, ns, keep),
        }),
        Expr::Rom(r) => Expr::Rom(RomStruct {
            word_size: copy_const(&r.word_size),
            read_addr: replace_var_in_loc(&r.read_addr, map, counter, ns, keep),
        }),
        Expr::FnCall(f) => {
            let args = replace_var_in_list(&f.args.value, map, counter, ns, keep, Ghost(*expr));
            Expr::FnCall(FnCall {
                name: copy_name(&f.name),
                args: Loc { loc: f.args.loc, value: args },
                static_args: Loc { loc: f.static_args.loc, value: copy_consts(&f.static_args.value) },
            })
        },
    }
}

/// Renames the variables of a list of statements.
fn replace_var_in_block(b: &Vec<Statement>, map: &Vec<(String, String)>, counter: u32, ns: &str, keep: bool, Ghost(parent): Ghost<Statement>) -> (r: Vec<Statement>)
    requires
        forall|i: int| 0 <= i < b@.len() ==> decreases_to!(parent => #[trigger] b@[i]),
    ensures
        r@.len() == b@.len(),
        forall|i: int| 0 <= i < b@.len() ==> ren_stmt(#[trigger] b@[i], r@[i], rn_of(keep, map@, counter, ns@)),
    decreases parent, 0int,
{
    let mut r: Vec<Statement> = Vec::new();
    let mut i: usize = 0;
    while i < b.len()
        invariant
            i <= b@.len(),
            forall|k: int| 0 <= k < b@.len() ==> decreases_to!(parent => #[trigger] b@[k]),
            r@.len() == i,
            forall|k: int| 0 <= k < i ==> ren_stmt(#[trigger] b@[k], r@[k], rn_of(keep, map@, counter, ns@)),
        decreases b@.len() - i,
    {
        assert(decreases_to!(parent => b@[i as int]));
        let s = rewrite_statement(&b[i], map, counter, ns, keep);
        r.push(s);
        i = i + 1;
    }
    r
}

/// Renames the variables of a list of located names.
fn rename_vars(v: &Vec<Loc<String>>, map: &Vec<(String, String)>, counter: u32, ns: &str, keep: bool) -> (r: Vec<Loc<String>>)
    ensures
        r@.len() == v@.len(),
        forall|i: int| 0 <= i < v@.len() ==> ren_var(#[trigger] v@[i], r@[i], rn_of(keep, map@, counter, ns@)),
{
    let mut r: Vec<Loc<String>> = Vec::new();
    let mut i: usize = 0;
    while i < v.len()
        invariant
            i <= v@.len(),
            r@.len() == i,
            forall|k: int| 0 <= k < i ==> ren_var(#[trigger] v@[k], r@[k], rn_of(keep, map@, counter, ns@)),
        decreases v@.len() - i,
    {
        r.push(rename_var(&v[i], map, counter, ns, keep));
        i = i + 1;
    }
    r
}

/// Renames the variables of a statement, its assigned variables included; see `ren_stmt`.
fn rewrite_statement(statement: &Statement, map: &Vec<(String, String)>, counter: u32, ns: &str, keep: bool) -> (r: Statement)
    ensures
        ren_stmt(*statement, r, rn_of(keep, map@, counter, ns@)),
    decreases *statement, 1int,
{
    match statement {
        Statement::Assign(v) => {
            let mut w: Vec<VarAssign> = Vec::new();
            let mut i: usize = 0;
            while i < v.len()
                invariant
                    i <= v@.len(),
                    w@.len() == i,
                    forall|k: int| 0 <= k < i ==> ren_var((#[trigger] v@[k]).var, w@[k].var, rn_of(keep, map@, counter, ns@))
                        && w@[k].expr.loc == v@[k].expr.loc && ren_expr(v@[k].expr.value, w@[k].expr.value, rn_of(keep, map@, counter, ns@)),
                decreases v@.len() - i,
            {
                let a = &v[i];
                let var = rename_var(&a.var, map, counter, ns, keep);
                let e = rewrite_expr(&a.expr.value, map, counter, ns, keep);
                w.push(VarAssign { var, expr: Loc { loc: a.expr.loc, value: e } });
                i = i + 1;
            }
            Statement::Assign(w)
        },
        Statement::If(i) => {
            let if_block = replace_var_in_block(&i.if_block, map, counter, ns, keep, Ghost(*statement));
            let else_block = replace_var_in_block(&i.else_block, map, counter, ns, keep, Ghost(*statement));
            Statement::If(IfStruct { condition: copy_const(&i.condition), if_block, else_block })
        },
        Statement::FnAssign(fa) => {
            let vars = rename_vars(&fa.vars, map, counter, ns, keep);
            let args = replace_var_in_args(&fa.f.args.value, map, counter, ns, keep);
            Statement::FnAssign(FnAssign {
                vars,
                f: FnCall {
                    name: copy_name(&fa.f.name),
                    args: Loc { loc: fa.f.args.loc, value: args },
                    static_args: Loc { loc: fa.f.static_args.loc, value: copy_consts(&fa.f.static_args.value) },
                },
            })
        },
        Statement::ExtAutomaton(e) => {
            let inputs = replace_var_in_args(&e.inputs.value, map, counter, ns, keep);
            let outputs = rename_vars(&e.outputs.value, map, counter, ns, keep);
            Statement::ExtAutomaton(ExtAutomaton {
                inputs: Loc { loc: e.inputs.loc, value: inputs },
                outputs: Loc { loc: e.outputs.loc, value: outputs },
                name: copy_name(&e.name),
            })
        },
    }
}


/// Renames the variables of an expression: those of `map` by it, the others apart with
/// `counter` and `ns`; see `ren_expr`.
pub fn replace_var_in_expr(expr: &Expr, map: &Vec<(String, String)>, counter: u32, ns: &str) -> (r: Expr)
    ensures
        ren_expr(*expr, r, renaming(map@, counter, ns@)),
{
    rewrite_expr(expr, map, counter, ns, false)
}

/// Renames the variables of a statement, its assigned variables included; see `ren_stmt`.
pub fn replace_var_in_statement(statement: &Statement, map: &Vec<(String, String)>, counter: u32, ns: &str) -> (r: Statement)
    ensures
        ren_stmt(*statement, r, renaming(map@, counter, ns@)),
{
    rewrite_statement(statement, map, counter, ns, false)
}

/// A copy of an expression.
pub fn copy_expr(expr: &Expr) -> (r: Expr)
    ensures
        ren_expr(*expr, r, kept()),
{
    let m: Vec<(String, String)> = Vec::new();
    rewrite_expr(expr, &m, 0, "", true)
}

/// A copy of a statement.
pub fn copy_statement(statement: &Statement) -> (r: Statement)
    ensures
        ren_stmt(*statement, r, kept()),
{
    let m: Vec<(String, String)> = Vec::new();
    rewrite_statement(statement, &m, 0, "", true)
}


/// A copy of a copy is a copy.
pub proof fn lemma_copy_trans(a: Expr, b: Expr, c: Expr)
    requires
        ren_expr(a, b, kept()),
        ren_expr(b, c, kept()),
    ensures
        ren_expr(a, c, kept()),
    decreases a,
{
    match (a, b, c) {
        (Expr::Not(x), Expr::Not(y), Expr::Not(z)) => lemma_copy_trans(*x, *y, *z),
        (Expr::Slice(x, _, _), Expr::Slice(y, _, _), Expr::Slice(z, _, _)) => lemma_copy_trans(x.value, y.value, z.value),
        (Expr::BiOp(_, x1, x2), Expr::BiOp(_, y1, y2), Expr::BiOp(_, z1, z2)) => {
            lemma_copy_trans(x1.value, y1.value, z1.value);
            lemma_copy_trans(x2.value, y2.value, z2.value);
        },
        (Expr::Mux(x1, x2, x3), Expr::Mux(y1, y2, y3), Expr::Mux(z1, z2, z3)) => {
            lemma_copy_trans(x1.value, y1.value, z1.value);
            lemma_copy_trans(x2.value, y2.value, z2.value);
            lemma_copy_trans(x3.value, y3.value, z3.value);
        },
        (Expr::Reg(_, x), Expr::Reg(_, y), Expr::Reg(_, z)) => lemma_copy_trans(x.value, y.value, z.value),
        (Expr::Ram(x), Expr::Ram(y), Expr::Ram(z)) => {
            lemma_copy_trans(x.read_addr.value, y.read_addr.value, z.read_addr.value);
            lemma_copy_trans(x.write_enable.value, y.write_enable.value, z.write_enable.value);
            lemma_copy_trans(x.write_addr.value, y.write_addr.value, z.write_addr.value);
            lemma_copy_trans(x.write_data.value, y.write_data.value, z.write_data.value);
        },
        (Expr::Rom(x), Expr::Rom(y), Expr::Rom(z)) => lemma_copy_trans(x.read_addr.value, y.read_addr.value, z.read_addr.value),
        (Expr::FnCall(x), Expr::FnCall(y), Expr::FnCall(z)) => {
            assert forall|i: int| 0 <= i < x.args.value@.len() implies (#[trigger] z.args.value@[i]).loc == x.args.value@[i].loc
                && ren_expr(x.args.value@[i].value, z.args.value@[i].value, kept()) by {
                assert(decreases_to!(a => x.args.value@[i].value));
                lemma_copy_trans(x.args.value@[i].value, y.args.value@[i].value, z.args.value@[i].value);
            }
        },
        _ => {},
    }
}

/// The expression of a transition's condition (given by an expression).
pub open spec fn cond_expr(t: Transition) -> Expr {
    match t.condition.value {
        TrCond::Expr(e) => e,
        TrCond::Default => arbitrary(),
    }
}

/// Every condition is given by an expression.
pub open spec fn all_explicit(ts: Seq<Transition>) -> bool {
    forall|i: int| 0 <= i < ts.len() ==> (#[trigger] ts[i]).condition.value is Expr
}

/// The condition for leaving the state: it runs (its name as a variable) and, one by one,
/// the condition of each transition, the last one outermost.
pub open spec fn exit_spec(s: State, j: int) -> Loc<Expr>
    decreases j,
{
    if j <= 0 || j > s.transitions@.len() {
        Loc { loc: s.name.loc, value: Expr::Var(s.name) }
    } else {
        let t = s.transitions@[j - 1];
        Loc {
            loc: t.condition.loc,
            value: Expr::BiOp(
                BiOp::And,
                Box::new(Loc { loc: t.condition.loc, value: cond_expr(t) }),
                Box::new(exit_spec(s, j - 1)),
            ),
        }
    }
}

/// The exit condition of a state; see `exit_spec`.
pub fn get_exit_condition(state: &State) -> (r: Loc<Expr>)
    requires
        all_explicit(state.transitions@),
    ensures
        r.loc == exit_spec(*state, state.transitions@.len() as int).loc,
        ren_expr(exit_spec(*state, state.transitions@.len() as int).value, r.value, kept()),
{
    let mut e = Loc { loc: state.name.loc, value: Expr::Var(copy_name(&state.name)) };
    let mut i: usize = 0;
    while i < state.transitions.len()
        invariant
            i <= state.transitions@.len(),
            all_explicit(state.transitions@),
            e.loc == exit_spec(*state, i as int).loc,
            ren_expr(exit_spec(*state, i as int).value, e.value, kept()),
        decreases state.transitions@.len() - i,
    {
        let t = &state.transitions[i];
        assert(t.condition.value is Expr);
        let c = match &t.condition.value {
            TrCond::Expr(x) => copy_expr(x),
            TrCond::Default => Expr::Var(copy_name(&state.name)),
        };
        e = Loc {
            loc: t.condition.loc,
            value: Expr::BiOp(BiOp::And, Box::new(Loc { loc: t.condition.loc, value: c }), Box::new(e)),
        };
        i = i + 1;
    }
    e
}

/// Whether a transition is a default one.
pub open spec fn is_default(t: Transition) -> bool {
    t.condition.value is Default
}

/// The default transition a state gets when it has none: it stays in the state.
pub open spec fn self_default(s: State) -> Transition {
    Transition {
        condition: Loc { loc: s.name.loc, value: TrCond::Default },
        state: Loc { loc: s.name.loc, value: Some(s.name.value) },
        reset: false,
    }
}

/// The transitions of `s`, with a default one added when it has none.
pub open spec fn with_default(s: State) -> Seq<Transition> {
    if exists|i: int| 0 <= i < s.transitions@.len() && is_default(#[trigger] s.transitions@[i]) {
        s.transitions@
    } else {
        s.transitions@.push(self_default(s))
    }
}

/// The disjunction of the conditions of the first `j` transitions given by expressions,
/// the last one outermost, at the position of the first one.
pub open spec fn disj_upto(ts: Seq<Transition>, j: int) -> Option<Loc<Expr>>
    decreases j,
{
    if j <= 0 || j > ts.len() {
        None
    } else {
        let t = ts[j - 1];
        match t.condition.value {
            TrCond::Default => disj_upto(ts, j - 1),
            TrCond::Expr(e) => match disj_upto(ts, j - 1) {
                None => Some(Loc { loc: t.condition.loc, value: e }),
                Some(p) => Some(Loc {
                    loc: p.loc,
                    value: Expr::BiOp(BiOp::Or, Box::new(Loc { loc: t.condition.loc, value: e }), Box::new(p)),
                }),
            },
        }
    }
}

/// `c` is the condition of the default transitions: true when no other transition fires,
/// the negation of the disjunction of the other conditions, or of `false` when there is
/// none (at the state's position `loc`).
pub open spec fn default_cond(ts: Seq<Transition>, loc: Pos, c: Loc<Expr>) -> bool {
    match disj_upto(ts, ts.len() as int) {
        Some(a) => c.loc == a.loc && (c.value matches Expr::Not(x) && ren_expr(a.value, *x, kept())),
        None => c.loc == loc && (c.value matches Expr::Not(x) && (*x matches Expr::Const(ConstExpr::Known(v)) && v@ == seq![false])),
    }
}

/// `t` is the state `s` with its default transitions made explicit.
pub open spec fn explicit_rel(s: State, t: State) -> bool {
    let ts = with_default(s);
    &&& t.name == s.name
    &&& t.statements == s.statements
    &&& t.weak == s.weak
    &&& t.transitions@.len() == ts.len()
    &&& forall|i: int| 0 <= i < ts.len() ==> if is_default(#[trigger] ts[i]) {
        &&& t.transitions@[i].state == ts[i].state
        &&& t.transitions@[i].reset == ts[i].reset
        &&& t.transitions@[i].condition.value matches TrCond::Expr(e)
        &&& default_cond(ts, s.name.loc, Loc { loc: t.transitions@[i].condition.loc, value: e })
    } else {
        t.transitions@[i] == ts[i]
    }
}


/// A copy of an optional name.
fn copy_opt_name(o: &Option<String>) -> (r: Option<String>)
    ensures
        r == *o,
{
    match o {
        Some(x) => Some(x.clone()),
        None => None,
    }
}

/// The one-bit constant `false`.
fn false_bit() -> (r: Vec<bool>)
    ensures
        r@ == seq![false],
{
    let mut v: Vec<bool> = Vec::new();
    v.push(false);
    v
}

/// Makes the default transitions of a state explicit; see `explicit_rel`.
fn explicit_state(state: &mut State)
    ensures
        explicit_rel(*old(state), *final(state)),
{
    let ghost s0 = *state;
    let mut found = false;
    let mut i: usize = 0;
    while i < state.transitions.len()
        invariant
            i <= state.transitions@.len(),
            *state == s0,
            found <==> exists|k: int| 0 <= k < i && is_default(#[trigger] state.transitions@[k]),
        decreases state.transitions@.len() - i,
    {
        if state.transitions[i].condition.value.is_default() {
            found = true;
        }
        i = i + 1;
    }
    if !found {
        let t = Transition {
            condition: Loc { loc: state.name.loc, value: TrCond::Default },
            state: Loc { loc: state.name.loc, value: Some(state.name.value.clone()) },
            reset: false,
        };
        state.transitions.push(t);
    }
    let ghost ts = state.transitions@;
    assert(ts == with_default(s0));
    let mut acc: Option<Loc<Expr>> = None;
    let mut i: usize = 0;
    while i < state.transitions.len()
        invariant
            i <= state.transitions@.len(),
            state.transitions@ == ts,
            match disj_upto(ts, i as int) {
                None => acc is None,
                Some(a) => acc matches Some(x) && x.loc == a.loc && ren_expr(a.value, x.value, kept()),
            },
        decreases state.transitions@.len() - i,
    {
        let t = &state.transitions[i];
        match &t.condition.value {
            TrCond::Expr(e) => {
                let c = copy_expr(e);
                acc = match acc {
                    None => Some(Loc { loc: t.condition.loc, value: c }),
                    Some(p) => Some(Loc {
                        loc: p.loc,
                        value: Expr::BiOp(BiOp::Or, Box::new(Loc { loc: t.condition.loc, value: c }), Box::new(p)),
                    }),
                };
            },
            TrCond::Default => {},
        }
        i = i + 1;
    }
    let dc = match acc {
        Some(a) => Loc { loc: a.loc, value: Expr::Not(Box::new(a.value)) },
        None => Loc { loc: state.name.loc, value: Expr::Not(Box::new(Expr::Const(ConstExpr::Known(false_bit())))) },
    };
    assert(default_cond(ts, s0.name.loc, dc));
    let mut i: usize = 0;
    while i < state.transitions.len()
        invariant
            i <= state.transitions@.len(),
            state.transitions@.len() == ts.len(),
            state.name == s0.name,
            state.statements == s0.statements,
            state.weak == s0.weak,
            default_cond(ts, s0.name.loc, dc),
            forall|k: int| i <= k < ts.len() ==> state.transitions@[k] == ts[k],
            forall|k: int| 0 <= k < i ==> if is_default(#[trigger] ts[k]) {
                &&& state.transitions@[k].state == ts[k].state
                &&& state.transitions@[k].reset == ts[k].reset
                &&& state.transitions@[k].condition.value matches TrCond::Expr(e)
                &&& default_cond(ts, s0.name.loc, Loc { loc: state.transitions@[k].condition.loc, value: e })
            } else {
                state.transitions@[k] == ts[k]
            },
        decreases state.transitions@.len() - i,
    {
        if state.transitions[i].condition.value.is_default() {
            let c = copy_expr(&dc.value);
            let ghost dv: Expr = dc.value;
            let ghost cv: Expr = c;
            proof {
                assert(ren_expr(dv, cv, kept()));
                assert(dv is Not);
                assert(cv is Not);
                match (dv, cv) {
                    (Expr::Not(x), Expr::Not(y)) => {
                        assert(ren_expr(*x, *y, kept()));
                        match disj_upto(ts, ts.len() as int) {
                            Some(a) => {
                                lemma_copy_trans(a.value, *x, *y);
                            },
                            None => {},
                        }
                    },
                    _ => {},
                }
            }
            let t = Transition {
                condition: Loc { loc: dc.loc, value: TrCond::Expr(c) },
                state: Loc { loc: state.transitions[i].state.loc, value: copy_opt_name(&state.transitions[i].state.value) },
                reset: state.transitions[i].reset,
            };
            let ghost tl = t.condition.loc;
            state.transitions.set(i, t);
            assert(default_cond(ts, s0.name.loc, Loc { loc: tl, value: cv }));
            assert(is_default(ts[i as int]));
        }
        i = i + 1;
    }
}


/// `b` is the automaton `a` with each of its states rewritten as `f` says, all else kept.
pub open spec fn states_mapped(a: Automaton, b: Automaton, f: spec_fn(State, State) -> bool) -> bool {
    &&& b.name == a.name
    &&& b.inputs == a.inputs
    &&& b.outputs == a.outputs
    &&& b.shared == a.shared
    &&& b.init_states == a.init_states
    &&& b.states@.len() == a.states@.len()
    &&& forall|k: int| 0 <= k < a.states@.len() ==> (#[trigger] b.states@[k]).0 == a.states@[k].0 && f(a.states@[k].1, b.states@[k].1)
}

/// `q` is the program `p` with each of its automata rewritten as `g` says, all else kept.
pub open spec fn automata_mapped(p: Program, q: Program, g: spec_fn(Automaton, Automaton) -> bool) -> bool {
    &&& q.imports == p.imports
    &&& q.functions == p.functions
    &&& q.global_consts == p.global_consts
    &&& q.automata@.len() == p.automata@.len()
    &&& forall|k: int| 0 <= k < p.automata@.len() ==> (#[trigger] q.automata@[k]).0 == p.automata@[k].0 && g(p.automata@[k].1, q.automata@[k].1)
}

/// Makes the default transitions of every state of an automaton explicit.
fn explicit_automaton(a: &mut Automaton)
    ensures
        states_mapped(*old(a), *final(a), |s: State, t: State| explicit_rel(s, t)),
{
    let ghost a0 = *a;
    let mut states: Vec<(String, State)> = Vec::new();
    std::mem::swap(&mut states, &mut a.states);
    let mut i: usize = 0;
    while i < states.len()
        invariant
            i <= states@.len(),
            states@.len() == a0.states@.len(),
            forall|k: int| i <= k < states@.len() ==> states@[k] == a0.states@[k],
            forall|k: int| 0 <= k < i ==> (#[trigger] states@[k]).0 == a0.states@[k].0 && explicit_rel(a0.states@[k].1, states@[k].1),
        decreases states@.len() - i,
    {
        explicit_state(&mut states[i].1);
        i = i + 1;
    }
    a.states = states;
}


/// Makes the default transitions explicit, in every state of every automaton: a state
/// without one gets one to itself, and the condition of a default transition becomes the
/// negation of the disjunction of the state's other conditions (it fires when none does); see `explicit_rel`.
pub fn make_transitions_explicit(prog: &mut Program)
    ensures
        automata_mapped(*old(prog), *final(prog), |a: Automaton, b: Automaton| states_mapped(a, b, |s: State, t: State| explicit_rel(s, t))),
{
    let ghost p0 = *prog;
    let mut automata: Vec<(String, Automaton)> = Vec::new();
    std::mem::swap(&mut automata, &mut prog.automata);
    let mut i: usize = 0;
    while i < automata.len()
        invariant
            i <= automata@.len(),
            automata@.len() == p0.automata@.len(),
            forall|k: int| i <= k < automata@.len() ==> automata@[k] == p0.automata@[k],
            forall|k: int| 0 <= k < i ==> (#[trigger] automata@[k]).0 == p0.automata@[k].0
                && states_mapped(p0.automata@[k].1, automata@[k].1, |s: State, t: State| explicit_rel(s, t)),
        decreases automata@.len() - i,
    {
        explicit_automaton(&mut automata[i].1);
        i = i + 1;
    }
    prog.automata = automata;
}


/// The name of the shared variable that holds the condition of the transition `i` of the
/// state `state` of the automaton `module`, in round `iter`.
pub open spec fn tr_var_text(iter: u32, i: nat, state: Seq<char>, module: Seq<char>) -> Seq<char> {
    "s_r"@ + decimal(iter as nat) + "$t"@ + decimal(i) + "$"@ + state + "$"@ + module
}

/// The names an automaton already has for shared values: its shared variables, its states
/// and its inputs.
pub open spec fn names_of(a: Automaton) -> Seq<String> {
    a.shared@.map_values(|x: VarAssign| x.var.value) + a.states@.map_values(|x: (String, State)| x.0) + a.inputs@.map_values(
        |x: crate::ast::parse_ast::Arg| x.name,
    )
}

/// Whether the automaton already has a shared value named `v`.
pub open spec fn known_var(a: Automaton, v: Seq<char>) -> bool {
    exists|i: int| 0 <= i < names_of(a).len() && #[trigger] names_of(a)[i]@ == v
}

/// Whether a transition's condition needs a shared variable of its own: it is an
/// expression, other than a shared value of the automaton.
pub open spec fn needs_var(t: Transition, a: Automaton) -> bool {
    &&& t.condition.value is Expr
    &&& !(cond_expr(t) matches Expr::Var(v) && known_var(a, v.value@))
}

/// For the first `j` transitions of a state, those that need a shared variable: its
/// position, its name and the condition it will hold.
pub open spec fn trs_added(ts: Seq<Transition>, a: Automaton, iter: u32, key: Seq<char>, module: Seq<char>, j: int) -> Seq<(Pos, Seq<char>, Expr)>
    decreases j,
{
    if j <= 0 || j > ts.len() {
        Seq::empty()
    } else {
        let prev = trs_added(ts, a, iter, key, module, j - 1);
        let t = ts[j - 1];
        if needs_var(t, a) {
            prev.push((t.condition.loc, tr_var_text(iter, (j - 1) as nat, key, module), cond_expr(t)))
        } else {
            prev
        }
    }
}

/// `w` assigns the conditions of `added` to their variables.
pub open spec fn assigns_added(w: Seq<VarAssign>, added: Seq<(Pos, Seq<char>, Expr)>) -> bool {
    &&& w.len() == added.len()
    &&& forall|k: int| 0 <= k < added.len() ==> {
        &&& (#[trigger] w[k]).var.loc == added[k].0
        &&& w[k].var.value@ == added[k].1
        &&& w[k].expr.loc == added[k].0
        &&& w[k].expr.value == added[k].2
    }
}

/// `w` declares the variables of `added`, each a single `false` bit at first.
pub open spec fn decls_added(w: Seq<VarAssign>, added: Seq<(Pos, Seq<char>, Expr)>) -> bool {
    &&& w.len() == added.len()
    &&& forall|k: int| 0 <= k < added.len() ==> {
        &&& (#[trigger] w[k]).var.loc == added[k].0
        &&& w[k].var.value@ == added[k].1
        &&& w[k].expr.loc == added[k].0
        &&& (w[k].expr.value matches Expr::Const(ConstExpr::Known(v)) && v@ == seq![false])
    }
}

/// `t` is the state `s` (named `key` in the automaton `a` named `module`) whose conditions
/// that need it are replaced by a new shared variable, assigned in a last statement.
pub open spec fn shared_state_rel(a: Automaton, iter: u32, key: Seq<char>, module: Seq<char>, s: State, t: State) -> bool {
    let ts = s.transitions@;
    &&& t.name == s.name
    &&& t.weak == s.weak
    &&& t.transitions@.len() == ts.len()
    &&& forall|i: int| 0 <= i < ts.len() ==> if needs_var(#[trigger] ts[i], a) {
        &&& t.transitions@[i].state == ts[i].state
        &&& t.transitions@[i].reset == ts[i].reset
        &&& t.transitions@[i].condition.loc == ts[i].condition.loc
        &&& (t.transitions@[i].condition.value matches TrCond::Expr(Expr::Var(v))
            && v.loc == ts[i].condition.loc && v.value@ == tr_var_text(iter, i as nat, key, module))
    } else {
        t.transitions@[i] == ts[i]
    }
    &&& t.statements@.len() == s.statements@.len() + 1
    &&& forall|k: int| 0 <= k < s.statements@.len() ==> #[trigger] t.statements@[k] == s.statements@[k]
    &&& (t.statements@.last() matches Statement::Assign(w) && assigns_added(w@, trs_added(ts, a, iter, key, module, ts.len() as int)))
}

/// The variables added for the first `j` states of the automaton `a` named `module`.
pub open spec fn states_added(a: Automaton, iter: u32, module: Seq<char>, j: int) -> Seq<(Pos, Seq<char>, Expr)>
    decreases j,
{
    if j <= 0 || j > a.states@.len() {
        Seq::empty()
    } else {
        let (key, s) = a.states@[j - 1];
        states_added(a, iter, module, j - 1) + trs_added(s.transitions@, a, iter, key@, module, s.transitions@.len() as int)
    }
}

/// `b` is the automaton `a` (named `module`) with shared variables for its transitions.
pub open spec fn shared_auto_rel(iter: u32, module: Seq<char>, a: Automaton, b: Automaton) -> bool {
    &&& b.name == a.name
    &&& b.inputs == a.inputs
    &&& b.outputs == a.outputs
    &&& b.init_states == a.init_states
    &&& b.states@.len() == a.states@.len()
    &&& forall|k: int| 0 <= k < a.states@.len() ==> (#[trigger] b.states@[k]).0 == a.states@[k].0
        && shared_state_rel(a, iter, a.states@[k].0@, module, a.states@[k].1, b.states@[k].1)
    &&& b.shared@.len() >= a.shared@.len()
    &&& b.shared@.subrange(0, a.shared@.len() as int) == a.shared@
    &&& decls_added(b.shared@.subrange(a.shared@.len() as int, b.shared@.len() as int), states_added(a, iter, module, a.states@.len() as int))
}

/// The names of the shared values of an automaton; see `names_of`.
fn known_names(a: &Automaton) -> (r: Vec<String>)
    ensures
        r@ == names_of(*a),
{
    let mut r: Vec<String> = Vec::new();
    let mut i: usize = 0;
    while i < a.shared.len()
        invariant
            i <= a.shared@.len(),
            r@ == a.shared@.map_values(|x: VarAssign| x.var.value).subrange(0, i as int),
        decreases a.shared@.len() - i,
    {
        r.push(a.shared[i].var.value.clone());
        proof {
            assert(r@ =~= a.shared@.map_values(|x: VarAssign| x.var.value).subrange(0, i as int + 1));
        }
        i = i + 1;
    }
    let ghost r1 = r@;
    let mut i: usize = 0;
    while i < a.states.len()
        invariant
            i <= a.states@.len(),
            r1 == a.shared@.map_values(|x: VarAssign| x.var.value),
            r@ == r1 + a.states@.map_values(|x: (String, State)| x.0).subrange(0, i as int),
        decreases a.states@.len() - i,
    {
        r.push(a.states[i].0.clone());
        proof {
            assert(r@ =~= r1 + a.states@.map_values(|x: (String, State)| x.0).subrange(0, i as int + 1));
        }
        i = i + 1;
    }
    let ghost r2 = r@;
    let mut i: usize = 0;
    while i < a.inputs.len()
        invariant
            i <= a.inputs@.len(),
            r2 == a.shared@.map_values(|x: VarAssign| x.var.value) + a.states@.map_values(|x: (String, State)| x.0),
            r@ == r2 + a.inputs@.map_values(|x: crate::ast::parse_ast::Arg| x.name).subrange(0, i as int),
        decreases a.inputs@.len() - i,
    {
        r.push(a.inputs[i].name.clone());
        proof {
            assert(r@ =~= r2 + a.inputs@.map_values(|x: crate::ast::parse_ast::Arg| x.name).subrange(0, i as int + 1));
        }
        i = i + 1;
    }
    proof {
        assert(r@ =~= names_of(*a));
    }
    r
}

/// The name of the shared variable of a transition condition; see `tr_var_text`.
fn tr_var_name(iter: u32, i: usize, key: &String, module: &String) -> (r: String)
    ensures
        r@ == tr_var_text(iter, i as nat, key@, module@),
{
    let mut s = String::from_str("s_r");
    push_decimal(&mut s, iter as usize);
    s.append("$t");
    push_decimal(&mut s, i);
    s.append("$");
    s.append(key.as_str());
    s.append("$");
    s.append(module.as_str());
    s
}

/// Gives the conditions of a state that need it a shared variable; see `shared_state_rel`.
fn shared_state(
    state: &mut State,
    Ghost(a): Ghost<Automaton>,
    names: &Vec<String>,
    iter: u32,
    key: &String,
    module: &String,
    shared: &mut Vec<VarAssign>,
)
    requires
        names@ == names_of(a),
    ensures
        shared_state_rel(a, iter, key@, module@, *old(state), *final(state)),
        final(shared)@.len() >= old(shared)@.len(),
        final(shared)@.subrange(0, old(shared)@.len() as int) == old(shared)@,
        decls_added(
            final(shared)@.subrange(old(shared)@.len() as int, final(shared)@.len() as int),
            trs_added(old(state).transitions@, a, iter, key@, module@, old(state).transitions@.len() as int),
        ),
{
    let ghost s0 = *state;
    let ghost sh0 = shared@;
    let ghost ts = s0.transitions@;
    let mut stmt: Vec<VarAssign> = Vec::new();
    let mut i: usize = 0;
    while i < state.transitions.len()
        invariant
            i <= state.transitions@.len(),
            names@ == names_of(a),
            state.transitions@.len() == ts.len(),
            state.name == s0.name,
            state.weak == s0.weak,
            state.statements == s0.statements,
            forall|k: int| i <= k < ts.len() ==> state.transitions@[k] == ts[k],
            forall|k: int| 0 <= k < i ==> if needs_var(#[trigger] ts[k], a) {
                &&& state.transitions@[k].state == ts[k].state
                &&& state.transitions@[k].reset == ts[k].reset
                &&& state.transitions@[k].condition.loc == ts[k].condition.loc
                &&& (state.transitions@[k].condition.value matches TrCond::Expr(Expr::Var(v))
                    && v.loc == ts[k].condition.loc && v.value@ == tr_var_text(iter, k as nat, key@, module@))
            } else {
                state.transitions@[k] == ts[k]
            },
            assigns_added(stmt@, trs_added(ts, a, iter, key@, module@, i as int)),
            shared@.len() >= sh0.len(),
            shared@.subrange(0, sh0.len() as int) == sh0,
            decls_added(shared@.subrange(sh0.len() as int, shared@.len() as int), trs_added(ts, a, iter, key@, module@, i as int)),
        decreases state.transitions@.len() - i,
    {
        let loc = state.transitions[i].condition.loc;
        let needs = match &state.transitions[i].condition.value {
            TrCond::Expr(Expr::Var(v)) => !crate::util::tables::strings_contain(names, v.value.as_str()),
            TrCond::Expr(_) => true,
            TrCond::Default => false,
        };
        assert(needs == needs_var(ts[i as int], a));
        if needs {
            let name = tr_var_name(iter, i, key, module);
            let ghost shb = shared@;
            shared.push(VarAssign {
                var: Loc { loc, value: name.clone() },
                expr: Loc { loc, value: Expr::Const(ConstExpr::Known(false_bit())) },
            });
            proof {
                assert(shared@.subrange(0, sh0.len() as int) =~= sh0);
                assert(shared@.subrange(sh0.len() as int, shared@.len() as int) =~= shb.subrange(sh0.len() as int, shb.len() as int).push(shared@.last()));
            }
            let mut c = TrCond::Expr(Expr::Var(Loc { loc, value: name.clone() }));
            std::mem::swap(&mut c, &mut state.transitions[i].condition.value);
            let e = match c {
                TrCond::Expr(e) => e,
                TrCond::Default => Expr::Var(Loc { loc, value: name.clone() }),
            };
            let ghost stb = stmt@;
            stmt.push(VarAssign { var: Loc { loc, value: name }, expr: Loc { loc, value: e } });
            proof {
                assert(stmt@ =~= stb.push(stmt@.last()));
            }
        }
        i = i + 1;
    }
    state.statements.push(Statement::Assign(stmt));
}


proof fn lemma_decls_concat(x: Seq<VarAssign>, y: Seq<VarAssign>, p: Seq<(Pos, Seq<char>, Expr)>, q: Seq<(Pos, Seq<char>, Expr)>)
    requires
        decls_added(x, p),
        decls_added(y, q),
    ensures
        decls_added(x + y, p + q),
{
    assert forall|k: int| 0 <= k < (p + q).len() implies {
        &&& (#[trigger] (x + y)[k]).var.loc == (p + q)[k].0
        &&& (x + y)[k].var.value@ == (p + q)[k].1
        &&& (x + y)[k].expr.loc == (p + q)[k].0
        &&& ((x + y)[k].expr.value matches Expr::Const(ConstExpr::Known(v)) && v@ == seq![false])
    } by {
        if k < p.len() {
            assert((x + y)[k] == x[k]);
        } else {
            assert((x + y)[k] == y[k - x.len()]);
        }
    }
}

/// Gives the conditions of the states of an automaton that need it a shared variable;
/// see `shared_auto_rel`.
fn shared_automaton(a: &mut Automaton, module: &String, iter: u32)
    ensures
        shared_auto_rel(iter, module@, *old(a), *final(a)),
{
    let ghost a0 = *a;
    let ghost n0 = a.shared@.len() as int;
    let names = known_names(a);
    let mut states: Vec<(String, State)> = Vec::new();
    std::mem::swap(&mut states, &mut a.states);
    proof {
        assert(a.shared@.subrange(n0, a.shared@.len() as int) =~= Seq::<VarAssign>::empty());
    }
    let mut i: usize = 0;
    while i < states.len()
        invariant
            i <= states@.len(),
            names@ == names_of(a0),
            states@.len() == a0.states@.len(),
            a.name == a0.name,
            a.inputs == a0.inputs,
            a.outputs == a0.outputs,
            a.init_states == a0.init_states,
            forall|k: int| i <= k < states@.len() ==> states@[k] == a0.states@[k],
            forall|k: int| 0 <= k < i ==> (#[trigger] states@[k]).0 == a0.states@[k].0
                && shared_state_rel(a0, iter, a0.states@[k].0@, module@, a0.states@[k].1, states@[k].1),
            a.shared@.len() >= n0,
            n0 == a0.shared@.len(),
            a.shared@.subrange(0, n0) == a0.shared@,
            decls_added(a.shared@.subrange(n0, a.shared@.len() as int), states_added(a0, iter, module@, i as int)),
        decreases states@.len() - i,
    {
        let key = states[i].0.clone();
        let ghost shb = a.shared@;
        shared_state(&mut states[i].1, Ghost(a0), &names, iter, &key, module, &mut a.shared);
        proof {
            let m = shb.len() as int;
            assert(shb.len() >= n0);
            assert(a.shared@.len() >= m);
            assert(a.shared@.subrange(0, m) == shb);
            assert(states@[i as int].0 == a0.states@[i as int].0);
            assert(shared_state_rel(a0, iter, key@, module@, a0.states@[i as int].1, states@[i as int].1));
            assert(a0.shared@.len() == n0);
            assert(key@ == a0.states@[i as int].0@);
            assert forall|k: int| 0 <= k < n0 implies #[trigger] a.shared@[k] == a0.shared@[k] by {
                assert(a.shared@.subrange(0, m)[k] == shb[k]);
                assert(shb.subrange(0, n0)[k] == shb[k]);
            }
            assert(a.shared@.subrange(0, n0) =~= a0.shared@);
            assert forall|k: int| 0 <= k < i + 1 implies (#[trigger] states@[k]).0 == a0.states@[k].0
                && shared_state_rel(a0, iter, a0.states@[k].0@, module@, a0.states@[k].1, states@[k].1) by {
                if k == i {
                    assert(shared_state_rel(a0, iter, key@, module@, a0.states@[i as int].1, states@[i as int].1));
                }
            }
            assert(a.shared@.subrange(n0, a.shared@.len() as int) =~= shb.subrange(n0, m) + a.shared@.subrange(m, a.shared@.len() as int));
            lemma_decls_concat(
                shb.subrange(n0, m),
                a.shared@.subrange(m, a.shared@.len() as int),
                states_added(a0, iter, module@, i as int),
                trs_added(a0.states@[i as int].1.transitions@, a0, iter, key@, module@, a0.states@[i as int].1.transitions@.len() as int),
            );
        }
        i = i + 1;
    }
    a.states = states;
}

/// Gives every transition condition that is not already a shared value a shared variable
/// of its own, named after the round `iter`, the transition, its state and its automaton:
/// the variable is declared (a `false` bit at first), assigned the condition in a new last
/// statement of the state, and becomes the condition; see `shared_auto_rel`.
pub fn make_transitions_shared(prog: &mut Program, iter: u32)
    ensures
        final(prog).imports == old(prog).imports,
        final(prog).functions == old(prog).functions,
        final(prog).global_consts == old(prog).global_consts,
        final(prog).automata@.len() == old(prog).automata@.len(),
        forall|k: int| 0 <= k < old(prog).automata@.len() ==> (#[trigger] final(prog).automata@[k]).0 == old(prog).automata@[k].0
            && shared_auto_rel(iter, old(prog).automata@[k].0@, old(prog).automata@[k].1, final(prog).automata@[k].1),
{
    let ghost p0 = *prog;
    let mut automata: Vec<(String, Automaton)> = Vec::new();
    std::mem::swap(&mut automata, &mut prog.automata);
    let mut i: usize = 0;
    while i < automata.len()
        invariant
            i <= automata@.len(),
            automata@.len() == p0.automata@.len(),
            forall|k: int| i <= k < automata@.len() ==> automata@[k] == p0.automata@[k],
            forall|k: int| 0 <= k < i ==> (#[trigger] automata@[k]).0 == p0.automata@[k].0
                && shared_auto_rel(iter, p0.automata@[k].0@, p0.automata@[k].1, automata@[k].1),
        decreases automata@.len() - i,
    {
        let module = automata[i].0.clone();
        shared_automaton(&mut automata[i].1, &module, iter);
        i = i + 1;
    }
    prog.automata = automata;
}


/// `b` is the transition condition `a` with its variables renamed by `rn`.
pub open spec fn ren_cond(a: TrCond, b: TrCond, rn: Renaming) -> bool {
    match (a, b) {
        (TrCond::Default, TrCond::Default) => true,
        (TrCond::Expr(x), TrCond::Expr(y)) => ren_expr(x, y, rn),
        _ => false,
    }
}

/// `u` is a copy of the transition `t`.
pub open spec fn trans_copy(t: Transition, u: Transition) -> bool {
    &&& u.condition.loc == t.condition.loc
    &&& ren_cond(t.condition.value, u.condition.value, kept())
    &&& u.state == t.state
    &&& u.reset == t.reset
}

/// `u` is the optional state name `t` renamed by `f`.
pub open spec fn target_rel(t: Option<String>, u: Option<String>, f: spec_fn(Seq<char>) -> Seq<char>) -> bool {
    match t {
        None => u is None,
        Some(n) => u matches Some(m) && m@ == f(n@),
    }
}

/// `u` is the transition `t` of an inlined state, taken while the calling state goes on
/// (`pause` unset: to the renamed target, when the exit condition does not hold) or when
/// it leaves (`pause` set: to the target's pause state, when the exit condition holds).
pub open spec fn inlined_trans_rel(t: Transition, u: Transition, rn: Renaming, exit: Loc<Expr>, pause: bool) -> bool {
    &&& u.condition.loc == t.condition.loc
    &&& (u.condition.value matches TrCond::Expr(Expr::BiOp(op, x, y)) && {
        &&& op == BiOp::And
        &&& x.loc == t.condition.loc
        &&& ren_expr(cond_expr(t), x.value, rn)
        &&& y.loc == exit.loc
        &&& if pause {
            ren_expr(exit.value, y.value, kept())
        } else {
            y.value matches Expr::Not(z) && ren_expr(exit.value, *z, kept())
        }
    })
    &&& u.state.loc == t.state.loc
    &&& target_rel(t.state.value, u.state.value, |n: Seq<char>| if pause {
        pause_text(rn.counter, n, rn.ns)
    } else {
        rename_text(rn.counter, n, rn.ns)
    })
    &&& u.reset == t.reset
}

/// The disjunction of the conditions of the first `j` reset transitions (at least one),
/// the last one outermost, at `pos`.
pub open spec fn reset_cond_spec(ts: Seq<Transition>, pos: Pos, j: int) -> Loc<Expr>
    decreases j,
{
    if j <= 1 {
        Loc { loc: ts[0].condition.loc, value: cond_expr(ts[0]) }
    } else {
        let prev = reset_cond_spec(ts, pos, j - 1);
        Loc {
            loc: pos,
            value: Expr::BiOp(
                BiOp::Or,
                Box::new(Loc { loc: prev.loc, value: prev.value }),
                Box::new(Loc { loc: ts[j - 1].condition.loc, value: cond_expr(ts[j - 1]) }),
            ),
        }
    }
}

/// `st` and `ps` are the state `s` of the automaton `rn.ns` inlined as number `rn.counter`:
/// `st` runs it, renamed, each transition doubled for the calling state going on or leaving
/// (`exit`); `ps` is its pause state, left by a reset transition, by `resume` to `st`, or
/// staying paused when neither holds.
pub open spec fn make_state_rel(
    rn: Renaming,
    resume: Loc<TrCond>,
    resets: Seq<Transition>,
    exit: Loc<Expr>,
    s: State,
    st: State,
    ps: State,
) -> bool {
    let pos = s.name.loc;
    let ts = s.transitions@;
    &&& st.name.loc == pos
    &&& st.name.value@ == rename_text(rn.counter, s.name.value@, rn.ns)
    &&& st.weak == s.weak
    &&& st.statements@.len() == s.statements@.len()
    &&& forall|k: int| 0 <= k < s.statements@.len() ==> ren_stmt(#[trigger] s.statements@[k], st.statements@[k], rn)
    &&& st.transitions@.len() == 2 * ts.len()
    &&& forall|k: int| 0 <= k < ts.len() ==> inlined_trans_rel(#[trigger] ts[k], st.transitions@[2 * k], rn, exit, false)
        && inlined_trans_rel(ts[k], st.transitions@[2 * k + 1], rn, exit, true)
    &&& ps.name.loc == pos
    &&& ps.name.value@ == pause_text(rn.counter, s.name.value@, rn.ns)
    &&& ps.weak
    &&& ps.statements@.len() == 0
    &&& ps.transitions@.len() == resets.len() + 2
    &&& forall|k: int| 0 <= k < resets.len() ==> trans_copy(#[trigger] resets[k], ps.transitions@[k])
    &&& ({
        let r = ps.transitions@[resets.len() as int];
        &&& r.condition.loc == resume.loc
        &&& ren_cond(resume.value, r.condition.value, kept())
        &&& r.state.loc == pos
        &&& (r.state.value matches Some(m) && m@ == st.name.value@)
        &&& !r.reset
    })
    &&& ({
        let w = ps.transitions@[resets.len() + 1int];
        let rc = reset_cond_spec(resets, pos, resets.len() as int);
        &&& w.condition.loc == pos
        &&& (w.condition.value matches TrCond::Expr(Expr::Not(b)) && (*b matches Expr::BiOp(op, x, y) && {
            &&& op == BiOp::Or
            &&& x.loc == resume.loc
            &&& ren_cond(resume.value, TrCond::Expr(x.value), kept())
            &&& y.loc == rc.loc
            &&& ren_expr(rc.value, y.value, kept())
        }))
        &&& w.state.loc == pos
        &&& (w.state.value matches Some(m) && m@ == ps.name.value@)
        &&& !w.reset
    })
}

/// A copy of a transition.
fn copy_transition(t: &Transition) -> (r: Transition)
    ensures
        trans_copy(*t, r),
{
    let c = match &t.condition.value {
        TrCond::Default => TrCond::Default,
        TrCond::Expr(e) => TrCond::Expr(copy_expr(e)),
    };
    Transition {
        condition: Loc { loc: t.condition.loc, value: c },
        state: Loc { loc: t.state.loc, value: copy_opt_name(&t.state.value) },
        reset: t.reset,
    }
}

/// The expression of a condition given by one (a copy of it).
fn cond_copy(c: &TrCond) -> (r: Expr)
    requires
        *c is Expr,
    ensures
        ren_cond(*c, TrCond::Expr(r), kept()),
{
    match c {
        TrCond::Expr(e) => copy_expr(e),
        TrCond::Default => {
            proof {
                assert(false);
            }
            Expr::Not(Box::new(Expr::Const(ConstExpr::Known(false_bit()))))
        },
    }
}

/// Transforms a state into the state running it and its pause state, for inlining; see
/// `make_state_rel`.
pub fn make_state(
    counter: u32,
    namespace: &str,
    resume_condition: &Loc<TrCond>,
    reset_transitions: &Vec<Transition>,
    exit_condition: &Loc<Expr>,
    shared_rename_map: &Vec<(String, String)>,
    state: &State,
) -> (r: (State, State))
    requires
        reset_transitions@.len() > 0,
        all_explicit(reset_transitions@),
        resume_condition.value is Expr,
        all_explicit(state.transitions@),
    ensures
        make_state_rel(
            renaming(shared_rename_map@, counter, namespace@),
            *resume_condition,
            reset_transitions@,
            *exit_condition,
            *state,
            r.0,
            r.1,
        ),
{
    let ghost rn = renaming(shared_rename_map@, counter, namespace@);
    let pos = state.name.loc;
    let new_name = get_rename(counter, state.name.value.as_str(), namespace);
    let pause_name = get_pause_name(counter, state.name.value.as_str(), namespace);
    let mut statements: Vec<Statement> = Vec::new();
    let mut i: usize = 0;
    while i < state.statements.len()
        invariant
            i <= state.statements@.len(),
            rn == renaming(shared_rename_map@, counter, namespace@),
            statements@.len() == i,
            forall|k: int| 0 <= k < i ==> ren_stmt(#[trigger] state.statements@[k], statements@[k], rn),
        decreases state.statements@.len() - i,
    {
        statements.push(replace_var_in_statement(&state.statements[i], shared_rename_map, counter, namespace));
        i = i + 1;
    }
    let ts = &state.transitions;
    let mut transitions: Vec<Transition> = Vec::new();
    let mut i: usize = 0;
    while i < ts.len()
        invariant
            i <= ts@.len(),
            ts@ == state.transitions@,
            all_explicit(ts@),
            rn == renaming(shared_rename_map@, counter, namespace@),
            transitions@.len() == 2 * i,
            forall|k: int| 0 <= k < i ==> inlined_trans_rel(#[trigger] ts@[k], transitions@[2 * k], rn, *exit_condition, false)
                && inlined_trans_rel(ts@[k], transitions@[2 * k + 1], rn, *exit_condition, true),
        decreases ts@.len() - i,
    {
        let t = &ts[i];
        assert(t.condition.value is Expr);
        let c = match &t.condition.value {
            TrCond::Expr(e) => e,
            TrCond::Default => {
                proof {
                    assert(false);
                }
                &exit_condition.value
            },
        };
        let e1 = replace_var_in_expr(c, shared_rename_map, counter, namespace);
        let e2 = replace_var_in_expr(c, shared_rename_map, counter, namespace);
        let stay = Transition {
            condition: Loc {
                loc: t.condition.loc,
                value: TrCond::Expr(Expr::BiOp(
                    BiOp::And,
                    Box::new(Loc { loc: t.condition.loc, value: e1 }),
                    Box::new(Loc { loc: exit_condition.loc, value: Expr::Not(Box::new(copy_expr(&exit_condition.value))) }),
                )),
            },
            state: Loc {
                loc: t.state.loc,
                value: match &t.state.value {
                    Some(n) => Some(get_rename(counter, n.as_str(), namespace)),
                    None => None,
                },
            },
            reset: t.reset,
        };
        let pause = Transition {
            condition: Loc {
                loc: t.condition.loc,
                value: TrCond::Expr(Expr::BiOp(
                    BiOp::And,
                    Box::new(Loc { loc: t.condition.loc, value: e2 }),
                    Box::new(Loc { loc: exit_condition.loc, value: copy_expr(&exit_condition.value) }),
                )),
            },
            state: Loc {
                loc: t.state.loc,
                value: match &t.state.value {
                    Some(n) => Some(get_pause_name(counter, n.as_str(), namespace)),
                    None => None,
                },
            },
            reset: t.reset,
        };
        transitions.push(stay);
        transitions.push(pause);
        i = i + 1;
    }
    let mut pause_transitions: Vec<Transition> = Vec::new();
    let mut rc: Loc<Expr> = Loc { loc: reset_transitions[0].condition.loc, value: cond_copy(&reset_transitions[0].condition.value) };
    let mut i: usize = 0;
    while i < reset_transitions.len()
        invariant
            i <= reset_transitions@.len(),
            reset_transitions@.len() > 0,
            all_explicit(reset_transitions@),
            pause_transitions@.len() == i,
            forall|k: int| 0 <= k < i ==> trans_copy(#[trigger] reset_transitions@[k], pause_transitions@[k]),
            i >= 1 ==> rc.loc == reset_cond_spec(reset_transitions@, pos, i as int).loc
                && ren_expr(reset_cond_spec(reset_transitions@, pos, i as int).value, rc.value, kept()),
            i == 0 ==> rc.loc == reset_cond_spec(reset_transitions@, pos, 1).loc
                && ren_expr(reset_cond_spec(reset_transitions@, pos, 1).value, rc.value, kept()),
        decreases reset_transitions@.len() - i,
    {
        let t = &reset_transitions[i];
        pause_transitions.push(copy_transition(t));
        if i > 0 {
            let c = cond_copy(&t.condition.value);
            rc = Loc {
                loc: pos,
                value: Expr::BiOp(BiOp::Or, Box::new(rc), Box::new(Loc { loc: t.condition.loc, value: c })),
            };
        }
        i = i + 1;
    }
    let resume_copy = Loc { loc: resume_condition.loc, value: cond_copy(&resume_condition.value) };
    pause_transitions.push(Transition {
        condition: Loc { loc: resume_condition.loc, value: TrCond::Expr(cond_copy(&resume_condition.value)) },
        state: Loc { loc: pos, value: Some(new_name.clone()) },
        reset: false,
    });
    pause_transitions.push(Transition {
        condition: Loc {
            loc: pos,
            value: TrCond::Expr(Expr::Not(Box::new(Expr::BiOp(BiOp::Or, Box::new(resume_copy), Box::new(rc))))),
        },
        state: Loc { loc: pos, value: Some(pause_name.clone()) },
        reset: false,
    });
    let pause_state = State {
        name: Loc { loc: pos, value: pause_name },
        statements: Vec::new(),
        weak: true,
        transitions: pause_transitions,
    };
    let stay_state = State { name: Loc { loc: pos, value: new_name }, statements, weak: state.weak, transitions };
    (stay_state, pause_state)
}


/// The renaming entries of an automaton inlined as number `c`, in the order they are set, a
/// later one for a name overriding an earlier one: its inputs to the variables holding the
/// call's inputs, then its outputs and its shared variables apart.
pub open spec fn inline_entries(a: Automaton, inputs: Seq<String>, c: u32) -> Seq<(Seq<char>, Seq<char>)> {
    let n = if a.inputs@.len() <= inputs.len() {
        a.inputs@.len()
    } else {
        inputs.len()
    };
    Seq::new(n, |k: int| (a.inputs@[k].name@, inputs[k]@)) + Seq::new(
        a.outputs@.len(),
        |k: int| (a.outputs@[k].name@, rename_text(c, a.outputs@[k].name@, a.name@)),
    ) + Seq::new(a.shared@.len(), |k: int| (a.shared@[k].var.value@, rename_text(c, a.shared@[k].var.value@, a.name@)))
}

/// The value of the last entry for `v`.
pub open spec fn last_entry(es: Seq<(Seq<char>, Seq<char>)>, v: Seq<char>) -> Option<Seq<char>>
    decreases es.len(),
{
    if es.len() == 0 {
        None
    } else if es.last().0 == v {
        Some(es.last().1)
    } else {
        last_entry(es.drop_last(), v)
    }
}

/// The new name of `v` in the automaton `a` inlined as number `c`: by its last entry, else
/// apart.
pub open spec fn inline_name(a: Automaton, inputs: Seq<String>, c: u32, v: Seq<char>) -> Seq<char> {
    match last_entry(inline_entries(a, inputs, c), v) {
        Some(x) => x,
        None => rename_text(c, v, a.name@),
    }
}

/// The table `m` looks names up as the entries `es` do.
pub open spec fn table_models(m: Seq<(String, String)>, es: Seq<(Seq<char>, Seq<char>)>) -> bool {
    forall|v: Seq<char>| #![trigger table_get(m, v)] #![trigger last_entry(es, v)] match last_entry(es, v) {
        Some(x) => table_get(m, v) matches Some(y) && y@ == x,
        None => table_get(m, v) is None,
    }
}

/// The reset transitions of an inlined automaton: to each of its initial states, renamed,
/// when `reset_cond` holds.
pub open spec fn reset_trs_rel(resets: Seq<Transition>, a: Automaton, reset_cond: Loc<Expr>, c: u32) -> bool {
    &&& resets.len() == a.init_states@.len()
    &&& forall|k: int| 0 <= k < resets.len() ==> {
        &&& (#[trigger] resets[k]).condition.loc == reset_cond.loc
        &&& (resets[k].condition.value matches TrCond::Expr(e) && ren_expr(reset_cond.value, e, kept()))
        &&& resets[k].state.loc == a.init_states@[k].loc
        &&& (resets[k].state.value matches Some(m) && m@ == rename_text(c, a.init_states@[k].value@, a.name@))
        &&& resets[k].reset
    }
}

/// The shared variables of an inlined automaton: its outputs (of their declared size, all
/// `false`), then its shared variables, renamed apart.
pub open spec fn inline_shared_rel(sh: Seq<VarAssign>, a: Automaton, c: u32) -> bool {
    let no = a.outputs@.len();
    &&& sh.len() == no + a.shared@.len()
    &&& forall|k: int| 0 <= k < no ==> {
        &&& (#[trigger] sh[k]).var.loc == a.outputs@[k].size.loc
        &&& sh[k].var.value@ == rename_text(c, a.outputs@[k].name@, a.name@)
        &&& sh[k].expr.loc == a.outputs@[k].size.loc
        &&& sh[k].expr.value == Expr::Const(ConstExpr::Unknown(false, a.outputs@[k].size))
    }
    &&& forall|k: int| 0 <= k < a.shared@.len() ==> {
        &&& (#[trigger] sh[no + k]).var.loc == a.shared@[k].var.loc
        &&& sh[no + k].var.value@ == rename_text(c, a.shared@[k].var.value@, a.name@)
        &&& sh[no + k].expr.loc == a.shared@[k].expr.loc
        &&& ren_expr(a.shared@[k].expr.value, sh[no + k].expr.value, kept())
    }
}

/// An automaton that can be inlined: its transitions are explicit, and it has an initial
/// state if it has states.
pub open spec fn inlinable(a: Automaton) -> bool {
    &&& forall|k: int| 0 <= k < a.states@.len() ==> all_explicit((#[trigger] a.states@[k]).1.transitions@)
    &&& a.states@.len() > 0 ==> a.init_states@.len() > 0
}

/// The result of inlining `a` as number `c`: its states, each with its pause state, renamed
/// by `rn` (which renames as `inline_name`), its initial states (the states themselves
/// when the calling state is initial, else their pause states), its shared variables, and
/// the variables of its outputs.
pub open spec fn make_automaton_rel(
    resume: Loc<TrCond>,
    reset_cond: Loc<Expr>,
    exit: Loc<Expr>,
    inputs: Seq<String>,
    a: Automaton,
    is_init: bool,
    c: u32,
    rn: Renaming,
    resets: Seq<Transition>,
    r: (Vec<State>, Vec<Loc<String>>, Vec<VarAssign>, Vec<String>),
) -> bool {
    let (states, inits, shared, outs) = r;
    &&& rn.counter == c
    &&& rn.ns == a.name@
    &&& !rn.keep
    &&& forall|v: Seq<char>| #[trigger] rn.name(v) == inline_name(a, inputs, c, v)
    &&& reset_trs_rel(resets, a, reset_cond, c)
    &&& states@.len() == 2 * a.states@.len()
    &&& forall|k: int| 0 <= k < a.states@.len() ==> make_state_rel(rn, resume, resets, exit, #[trigger] a.states@[k].1, states@[2 * k], states@[2 * k + 1])
    &&& inits@.len() == a.init_states@.len()
    &&& forall|k: int| 0 <= k < a.init_states@.len() ==> (#[trigger] inits@[k]).loc == a.init_states@[k].loc
        && inits@[k].value@ == (if is_init {
            rename_text(c, a.init_states@[k].value@, a.name@)
        } else {
            pause_text(c, a.init_states@[k].value@, a.name@)
        })
    &&& inline_shared_rel(shared@, a, c)
    &&& outs@.len() == a.outputs@.len()
    &&& forall|k: int| 0 <= k < a.outputs@.len() ==> (#[trigger] outs@[k])@ == inline_name(a, inputs, c, a.outputs@[k].name@)
}

pub proof fn lemma_models_push(m: Seq<(String, String)>, es: Seq<(Seq<char>, Seq<char>)>, name: String, v: String)
    requires
        table_models(m, es),
    ensures
        table_models(table_set(m, name, v), es.push((name@, v@))),
{
    let es2 = es.push((name@, v@));
    assert(es2.drop_last() =~= es);
    assert forall|k: Seq<char>| #![trigger table_get(table_set(m, name, v), k)] #![trigger last_entry(es2, k)] match last_entry(es2, k) {
        Some(x) => table_get(table_set(m, name, v), k) matches Some(y) && y@ == x,
        None => table_get(table_set(m, name, v), k) is None,
    } by {
        crate::util::tables::lemma_table_set_get(m, name, v, k);
        assert(last_entry(es2, k) == (if es2.last().0 == k { Some(es2.last().1) } else { last_entry(es, k) }));
        if k != name@ {
            assert(last_entry(es, k) == last_entry(es, k));
        }
    }
}

proof fn lemma_last_entry_some(es: Seq<(Seq<char>, Seq<char>)>, i: int)
    requires
        0 <= i < es.len(),
    ensures
        last_entry(es, es[i].0) is Some,
    decreases es.len(),
{
    if es.last().0 != es[i].0 {
        assert(es.drop_last()[i] == es[i]);
        lemma_last_entry_some(es.drop_last(), i);
    }
}

/// Inlines an automaton, as number `*counter` (the counter goes on, wrapping): renames its
/// shared variables and states apart, its inputs to `inputs`, and makes each state a state
/// and a pause state; see `make_automaton_rel`.
pub fn make_automaton(
    resume_condition: &Loc<TrCond>,
    reset_condition: &Loc<Expr>,
    exit_condition: Loc<Expr>,
    inputs: Vec<String>,
    automaton: &Automaton,
    is_init: bool,
    counter: &mut u32,
) -> (r: Result<(Vec<State>, Vec<Loc<String>>, Vec<VarAssign>, Vec<String>), CollapseAutomataError>)
    requires
        inlinable(*automaton),
        resume_condition.value is Expr,
    ensures
        *final(counter) == old(counter).wrapping_add(1),
        r is Ok,
        exists|rn: Renaming, resets: Seq<Transition>| #[trigger] make_automaton_rel(
            *resume_condition,
            *reset_condition,
            exit_condition,
            inputs@,
            *automaton,
            is_init,
            *old(counter),
            rn,
            resets,
            r->Ok_0,
        ),
{
    let c = *counter;
    *counter = counter.wrapping_add(1);
    let ns = automaton.name.as_str();
    let ghost es = inline_entries(*automaton, inputs@, c);
    let ghost a = *automaton;
    let mut map: Vec<(String, String)> = Vec::new();
    let mut shared: Vec<VarAssign> = Vec::new();
    let mut states: Vec<State> = Vec::new();
    let ni = if automaton.inputs.len() <= inputs.len() { automaton.inputs.len() } else { inputs.len() };
    let no = automaton.outputs.len();
    let ghost e1 = Seq::new(ni as nat, |k: int| (a.inputs@[k].name@, inputs@[k]@));
    let ghost e2 = Seq::new(no as nat, |k: int| (a.outputs@[k].name@, rename_text(c, a.outputs@[k].name@, a.name@)));
    let ghost e3 = Seq::new(a.shared@.len(), |k: int| (a.shared@[k].var.value@, rename_text(c, a.shared@[k].var.value@, a.name@)));
    assert(es =~= e1 + e2 + e3);
    proof {
        assert(table_models(map@, Seq::<(Seq<char>, Seq<char>)>::empty()));
    }
    let mut i: usize = 0;
    while i < ni
        invariant
            i <= ni,
            ni <= automaton.inputs@.len(),
            ni <= inputs@.len(),
            e1 == Seq::new(ni as nat, |k: int| (a.inputs@[k].name@, inputs@[k]@)),
            a == *automaton,
            table_models(map@, e1.subrange(0, i as int)),
        decreases ni - i,
    {
        proof {
            lemma_models_push(map@, e1.subrange(0, i as int), automaton.inputs[i as int].name, inputs[i as int]);
            assert(e1.subrange(0, i as int).push((automaton.inputs@[i as int].name@, inputs@[i as int]@)) =~= e1.subrange(0, i as int + 1));
        }
        table_insert(&mut map, automaton.inputs[i].name.clone(), inputs[i].clone());
        i = i + 1;
    }
    assert(e1.subrange(0, ni as int) =~= e1);
    let mut i: usize = 0;
    while i < no
        invariant
            i <= no,
            no == automaton.outputs@.len(),
            ns@ == a.name@,
            e2 == Seq::new(no as nat, |k: int| (a.outputs@[k].name@, rename_text(c, a.outputs@[k].name@, a.name@))),
            a == *automaton,
            table_models(map@, e1 + e2.subrange(0, i as int)),
            shared@.len() == i,
            forall|k: int| 0 <= k < i ==> {
                &&& (#[trigger] shared@[k]).var.loc == a.outputs@[k].size.loc
                &&& shared@[k].var.value@ == rename_text(c, a.outputs@[k].name@, a.name@)
                &&& shared@[k].expr.loc == a.outputs@[k].size.loc
                &&& shared@[k].expr.value == Expr::Const(ConstExpr::Unknown(false, a.outputs@[k].size))
            },
        decreases no - i,
    {
        let arg = &automaton.outputs[i];
        let name = get_rename(c, arg.name.as_str(), ns);
        shared.push(VarAssign {
            var: Loc { loc: arg.size.loc, value: name.clone() },
            expr: Loc { loc: arg.size.loc, value: Expr::Const(ConstExpr::Unknown(false, copy_loc_const(&arg.size))) },
        });
        proof {
            lemma_models_push(map@, e1 + e2.subrange(0, i as int), arg.name, name);
            assert((e1 + e2.subrange(0, i as int)).push((arg.name@, name@)) =~= e1 + e2.subrange(0, i as int + 1));
        }
        table_insert(&mut map, arg.name.clone(), name);
        i = i + 1;
    }
    assert(e2.subrange(0, no as int) =~= e2);
    let mut i: usize = 0;
    while i < automaton.shared.len()
        invariant
            i <= automaton.shared@.len(),
            no == automaton.outputs@.len(),
            ns@ == a.name@,
            e3 == Seq::new(a.shared@.len(), |k: int| (a.shared@[k].var.value@, rename_text(c, a.shared@[k].var.value@, a.name@))),
            a == *automaton,
            table_models(map@, e1 + e2 + e3.subrange(0, i as int)),
            shared@.len() == no + i,
            forall|k: int| 0 <= k < no ==> {
                &&& (#[trigger] shared@[k]).var.loc == a.outputs@[k].size.loc
                &&& shared@[k].var.value@ == rename_text(c, a.outputs@[k].name@, a.name@)
                &&& shared@[k].expr.loc == a.outputs@[k].size.loc
                &&& shared@[k].expr.value == Expr::Const(ConstExpr::Unknown(false, a.outputs@[k].size))
            },
            forall|k: int| 0 <= k < i ==> {
                &&& (#[trigger] shared@[no + k]).var.loc == a.shared@[k].var.loc
                &&& shared@[no + k].var.value@ == rename_text(c, a.shared@[k].var.value@, a.name@)
                &&& shared@[no + k].expr.loc == a.shared@[k].expr.loc
                &&& ren_expr(a.shared@[k].expr.value, shared@[no + k].expr.value, kept())
            },
        decreases automaton.shared@.len() - i,
    {
        let v = &automaton.shared[i];
        let name = get_rename(c, v.var.value.as_str(), ns);
        shared.push(VarAssign {
            var: Loc { loc: v.var.loc, value: name.clone() },
            expr: Loc { loc: v.expr.loc, value: copy_expr(&v.expr.value) },
        });
        proof {
            lemma_models_push(map@, e1 + e2 + e3.subrange(0, i as int), v.var.value, name);
            assert((e1 + e2 + e3.subrange(0, i as int)).push((v.var.value@, name@)) =~= e1 + e2 + e3.subrange(0, i as int + 1));
        }
        table_insert(&mut map, v.var.value.clone(), name);
        i = i + 1;
    }
    assert(e3.subrange(0, a.shared@.len() as int) =~= e3);
    let ghost rn = renaming(map@, c, a.name@);
    assert forall|v: Seq<char>| #[trigger] rn.name(v) == inline_name(a, inputs@, c, v) by {
        assert(table_models(map@, es));
        match last_entry(es, v) {
            Some(x) => {},
            None => {},
        }
    }
    let mut resets: Vec<Transition> = Vec::new();
    let mut i: usize = 0;
    while i < automaton.init_states.len()
        invariant
            i <= automaton.init_states@.len(),
            ns@ == a.name@,
            a == *automaton,
            resets@.len() == i,
            forall|k: int| 0 <= k < i ==> {
                &&& (#[trigger] resets@[k]).condition.loc == reset_condition.loc
                &&& (resets@[k].condition.value matches TrCond::Expr(e) && ren_expr(reset_condition.value, e, kept()))
                &&& resets@[k].state.loc == a.init_states@[k].loc
                &&& (resets@[k].state.value matches Some(m) && m@ == rename_text(c, a.init_states@[k].value@, a.name@))
                &&& resets@[k].reset
            },
        decreases automaton.init_states@.len() - i,
    {
        let s = &automaton.init_states[i];
        resets.push(Transition {
            condition: Loc { loc: reset_condition.loc, value: TrCond::Expr(copy_expr(&reset_condition.value)) },
            state: Loc { loc: s.loc, value: Some(get_rename(c, s.value.as_str(), ns)) },
            reset: true,
        });
        i = i + 1;
    }
    assert(all_explicit(resets@));
    let mut i: usize = 0;
    while i < automaton.states.len()
        invariant
            i <= automaton.states@.len(),
            ns@ == a.name@,
            a == *automaton,
            inlinable(a),
            resume_condition.value is Expr,
            all_explicit(resets@),
            resets@.len() == a.init_states@.len(),
            rn == renaming(map@, c, a.name@),
            states@.len() == 2 * i,
            forall|k: int| 0 <= k < i ==> make_state_rel(rn, *resume_condition, resets@, exit_condition, #[trigger] a.states@[k].1, states@[2 * k], states@[2 * k + 1]),
        decreases automaton.states@.len() - i,
    {
        assert(all_explicit(a.states@[i as int].1.transitions@));
        let (st, ps) = make_state(c, ns, resume_condition, &resets, &exit_condition, &map, &automaton.states[i].1);
        states.push(st);
        states.push(ps);
        i = i + 1;
    }
    let mut outs: Vec<String> = Vec::new();
    let mut i: usize = 0;
    while i < automaton.outputs.len()
        invariant
            i <= automaton.outputs@.len(),
            a == *automaton,
            table_models(map@, e1 + e2 + e3),
            es == e1 + e2 + e3,
            es == inline_entries(a, inputs@, c),
            e1.len() == ni,
            e2 == Seq::new(no as nat, |k: int| (a.outputs@[k].name@, rename_text(c, a.outputs@[k].name@, a.name@))),
            no == a.outputs@.len(),
            rn == renaming(map@, c, a.name@),
            forall|v: Seq<char>| #[trigger] rn.name(v) == inline_name(a, inputs@, c, v),
            outs@.len() == i,
            forall|k: int| 0 <= k < i ==> (#[trigger] outs@[k])@ == inline_name(a, inputs@, c, a.outputs@[k].name@),
        decreases automaton.outputs@.len() - i,
    {
        let s = &automaton.outputs[i];
        match table_lookup(&map, s.name.as_str()) {
            Some(x) => {
                assert(rn.name(s.name@) == x@);
                outs.push(x.clone());
            },
            None => {
                proof {
                    let es0 = inline_entries(a, inputs@, c);
                    let idx = ni + i;
                    assert(es0 =~= e1 + e2 + e3);
                    assert(es0[idx as int].0 == s.name@);
                    lemma_last_entry_some(es0, idx as int);
                    assert(table_models(map@, es0));
                    assert(false);
                }
                return Err(CollapseAutomataError::UnknownVar(s.size.loc, s.name.clone()));
            },
        }
        i = i + 1;
    }
    let mut inits: Vec<Loc<String>> = Vec::new();
    let mut i: usize = 0;
    while i < automaton.init_states.len()
        invariant
            i <= automaton.init_states@.len(),
            ns@ == a.name@,
            a == *automaton,
            inits@.len() == i,
            forall|k: int| 0 <= k < i ==> (#[trigger] inits@[k]).loc == a.init_states@[k].loc
                && inits@[k].value@ == (if is_init {
                    rename_text(c, a.init_states@[k].value@, a.name@)
                } else {
                    pause_text(c, a.init_states@[k].value@, a.name@)
                }),
        decreases automaton.init_states@.len() - i,
    {
        let n = &automaton.init_states[i];
        let name = if is_init { get_rename(c, n.value.as_str(), ns) } else { get_pause_name(c, n.value.as_str(), ns) };
        inits.push(Loc { loc: n.loc, value: name });
        i = i + 1;
    }
    let r = (states, inits, shared, outs);
    assert(c == *old(counter));
    assert(make_automaton_rel(*resume_condition, *reset_condition, exit_condition, inputs@, *automaton, is_init, *old(counter), rn, resets@, r));
    assert(exists|rn: Renaming, resets: Seq<Transition>| #[trigger] make_automaton_rel(*resume_condition, *reset_condition, exit_condition, inputs@, *automaton, is_init, *old(counter), rn, resets, r));
    let res: Result<(Vec<State>, Vec<Loc<String>>, Vec<VarAssign>, Vec<String>), CollapseAutomataError> = Ok(r);
    assert(res->Ok_0 == r);
    res
}


/// For the first `m` transitions of `s` going to the state named `name`, the name of `s`.
pub open spec fn targets_of(s: State, name: Seq<char>, m: int) -> Seq<Seq<char>>
    decreases m,
{
    if m <= 0 || m > s.transitions@.len() {
        Seq::empty()
    } else {
        let prev = targets_of(s, name, m - 1);
        if s.transitions@[m - 1].state.value matches Some(x) && x@ == name {
            prev.push(s.name.value@)
        } else {
            prev
        }
    }
}

/// The parents of the state named `name` among the first `i` states of `a`: the name of a
/// state once for each of its transitions to it.
pub open spec fn parents_upto(a: Automaton, name: Seq<char>, i: int) -> Seq<Seq<char>>
    decreases i,
{
    if i <= 0 || i > a.states@.len() {
        Seq::empty()
    } else {
        let s = a.states@[i - 1].1;
        parents_upto(a, name, i - 1) + targets_of(s, name, s.transitions@.len() as int)
    }
}

/// The names of the strings.
pub open spec fn names_text(v: Seq<String>) -> Seq<Seq<char>> {
    v.map_values(|x: String| x@)
}

/// The parents of the state named `name`; see `parents_upto`.
pub fn state_parents(a: &Automaton, name: &str) -> (r: Vec<String>)
    ensures
        names_text(r@) == parents_upto(*a, name@, a.states@.len() as int),
{
    let mut r: Vec<String> = Vec::new();
    let mut i: usize = 0;
    while i < a.states.len()
        invariant
            i <= a.states@.len(),
            names_text(r@) == parents_upto(*a, name@, i as int),
        decreases a.states@.len() - i,
    {
        let s = &a.states[i].1;
        let ghost before = r@;
        let mut m: usize = 0;
        while m < s.transitions.len()
            invariant
                m <= s.transitions@.len(),
                names_text(r@) == names_text(before) + targets_of(*s, name@, m as int),
            decreases s.transitions@.len() - m,
        {
            let hit = match &s.transitions[m].state.value {
                Some(x) => crate::util::tables::string_eq_str(x, name),
                None => false,
            };
            if hit {
                let ghost rb = r@;
                r.push(s.name.value.clone());
                proof {
                    assert(names_text(r@) =~= names_text(rb).push(s.name.value@));
                    assert(names_text(before) + targets_of(*s, name@, m as int + 1) =~= (names_text(before) + targets_of(*s, name@, m as int)).push(s.name.value@));
                }
            } else {
                proof {
                    assert(targets_of(*s, name@, m as int + 1) == targets_of(*s, name@, m as int));
                }
            }
            m = m + 1;
        }
        i = i + 1;
    }
    r
}

/// The parents of each state, by state name, in the order of the states; see
/// `parents_upto`.
pub fn compute_states_parents(a: &Automaton) -> (r: Vec<(String, Vec<String>)>)
    ensures
        r@.len() == a.states@.len(),
        forall|k: int| 0 <= k < a.states@.len() ==> (#[trigger] r@[k]).0 == a.states@[k].1.name.value
            && names_text(r@[k].1@) == parents_upto(*a, a.states@[k].1.name.value@, a.states@.len() as int),
{
    let mut r: Vec<(String, Vec<String>)> = Vec::new();
    let mut i: usize = 0;
    while i < a.states.len()
        invariant
            i <= a.states@.len(),
            r@.len() == i,
            forall|k: int| 0 <= k < i ==> (#[trigger] r@[k]).0 == a.states@[k].1.name.value
                && names_text(r@[k].1@) == parents_upto(*a, a.states@[k].1.name.value@, a.states@.len() as int),
        decreases a.states@.len() - i,
    {
        let name = a.states[i].1.name.value.clone();
        let ps = state_parents(a, name.as_str());
        r.push((name, ps));
        i = i + 1;
    }
    r
}

/// Whether every condition is given by an expression; see `all_explicit`.
fn all_explicit_exec(ts: &Vec<Transition>) -> (r: bool)
    ensures
        r == all_explicit(ts@),
{
    let mut i: usize = 0;
    while i < ts.len()
        invariant
            i <= ts@.len(),
            forall|k: int| 0 <= k < i ==> (#[trigger] ts@[k]).condition.value is Expr,
        decreases ts@.len() - i,
    {
        if ts[i].condition.value.is_default() {
            return false;
        }
        i = i + 1;
    }
    true
}

/// Whether an automaton can be inlined; see `inlinable`.
fn inlinable_exec(a: &Automaton) -> (r: bool)
    ensures
        r == inlinable(*a),
{
    let mut i: usize = 0;
    while i < a.states.len()
        invariant
            i <= a.states@.len(),
            forall|k: int| 0 <= k < i ==> all_explicit((#[trigger] a.states@[k]).1.transitions@),
        decreases a.states@.len() - i,
    {
        if !all_explicit_exec(&a.states[i].1.transitions) {
            return false;
        }
        i = i + 1;
    }
    !(a.states.len() > 0 && a.init_states.len() == 0)
}

/// Whether some statement of the state calls an automaton.
pub open spec fn has_call(s: State) -> bool {
    exists|k: int| 0 <= k < s.statements@.len() && (#[trigger] s.statements@[k]) is ExtAutomaton
}

/// Whether some statement of the state calls an automaton; see `has_call`.
fn has_call_exec(s: &State) -> (r: bool)
    ensures
        r == has_call(*s),
{
    let mut i: usize = 0;
    while i < s.statements.len()
        invariant
            i <= s.statements@.len(),
            forall|k: int| 0 <= k < i ==> !((#[trigger] s.statements@[k]) is ExtAutomaton),
        decreases s.statements@.len() - i,
    {
        if let Statement::ExtAutomaton(_) = &s.statements[i] {
            return true;
        }
        i = i + 1;
    }
    false
}

/// The conditions for entering `state` from its parents (named in `parents`, found in
/// `main` by name): by a reset transition, and by a resuming one. Each is the conjunction of
/// the conditions of such transitions, each with the state running, or `false` when there
/// is none.
fn entry_conditions(main: &Automaton, parents: &Vec<String>, state: &State) -> (r: (Loc<Expr>, Loc<TrCond>))
    ensures
        r.1.value is Expr,
{
    let mut reset: Option<Loc<Expr>> = None;
    let mut resume: Option<Loc<Expr>> = None;
    let mut i: usize = 0;
    while i < parents.len()
        invariant
            i <= parents@.len(),
        decreases parents@.len() - i,
    {
        match table_lookup(&main.states, parents[i].as_str()) {
            Some(parent) => {
                let mut k: usize = 0;
                while k < parent.transitions.len()
                    invariant
                        k <= parent.transitions@.len(),
                    decreases parent.transitions@.len() - k,
                {
                    let t = &parent.transitions[k];
                    let to_state = match &t.state.value {
                        Some(x) => crate::util::tables::string_eq_str(x, state.name.value.as_str()),
                        None => false,
                    };
                    if to_state {
                        if let TrCond::Expr(e) = &t.condition.value {
                            let n = Loc {
                                loc: t.condition.loc,
                                value: Expr::BiOp(
                                    BiOp::And,
                                    Box::new(Loc { loc: t.condition.loc, value: copy_expr(e) }),
                                    Box::new(Loc { loc: state.name.loc, value: Expr::Var(copy_name(&state.name)) }),
                                ),
                            };
                            if t.reset {
                                reset = match reset {
                                    None => Some(n),
                                    Some(p) => Some(Loc { loc: n.loc, value: Expr::BiOp(BiOp::And, Box::new(p), Box::new(n)) }),
                                };
                            } else {
                                resume = match resume {
                                    None => Some(n),
                                    Some(p) => Some(Loc { loc: n.loc, value: Expr::BiOp(BiOp::And, Box::new(p), Box::new(n)) }),
                                };
                            }
                        }
                    }
                    k = k + 1;
                }
            },
            None => {},
        }
        i = i + 1;
    }
    let reset = match reset {
        Some(e) => e,
        None => Loc { loc: state.name.loc, value: Expr::Const(ConstExpr::Known(false_bit())) },
    };
    let resume = match resume {
        Some(e) => Loc { loc: e.loc, value: TrCond::Expr(e.value) },
        None => Loc { loc: state.name.loc, value: TrCond::Expr(Expr::Const(ConstExpr::Known(false_bit()))) },
    };
    (reset, resume)
}


/// The statements of a block other than calls of automata, in order.
pub open spec fn non_calls(b: Seq<Statement>) -> Seq<Statement>
    decreases b.len(),
{
    if b.len() == 0 {
        Seq::empty()
    } else if b.last() is ExtAutomaton {
        non_calls(b.drop_last())
    } else {
        non_calls(b.drop_last()).push(b.last())
    }
}

/// The statements of a state other than calls of automata (copies), in order.
fn link_statements(state: &State) -> (r: Vec<Statement>)
    ensures
        r@.len() == non_calls(state.statements@).len(),
        forall|k: int| 0 <= k < r@.len() ==> ren_stmt(non_calls(state.statements@)[k], #[trigger] r@[k], kept()),
        forall|k: int| 0 <= k < r@.len() ==> !((#[trigger] r@[k]) is ExtAutomaton),
{
    let ghost b = state.statements@;
    let mut r: Vec<Statement> = Vec::new();
    let mut i: usize = 0;
    proof {
        assert(b.subrange(0, 0) =~= Seq::<Statement>::empty());
    }
    while i < state.statements.len()
        invariant
            i <= state.statements@.len(),
            b == state.statements@,
            r@.len() == non_calls(b.subrange(0, i as int)).len(),
            forall|k: int| 0 <= k < r@.len() ==> ren_stmt(non_calls(b.subrange(0, i as int))[k], #[trigger] r@[k], kept()),
            forall|k: int| 0 <= k < r@.len() ==> !((#[trigger] r@[k]) is ExtAutomaton),
        decreases state.statements@.len() - i,
    {
        let ghost r0 = r@;
        proof {
            assert(b.subrange(0, i as int + 1).drop_last() =~= b.subrange(0, i as int));
            assert(b.subrange(0, i as int + 1).last() == b[i as int]);
        }
        match &state.statements[i] {
            Statement::ExtAutomaton(_) => {},
            st => {
                let c = copy_statement(st);
                r.push(c);
                proof {
                    assert forall|k: int| 0 <= k < r@.len() implies ren_stmt(non_calls(b.subrange(0, i as int + 1))[k], #[trigger] r@[k], kept()) by {
                        if k < r0.len() {
                            assert(r@[k] == r0[k]);
                        }
                    }
                }
            },
        }
        i = i + 1;
    }
    proof {
        assert(b.subrange(0, b.len() as int) =~= b);
    }
    r
}

/// Copies of transitions.
fn copy_transitions(ts: &Vec<Transition>) -> (r: Vec<Transition>)
    ensures
        r@.len() == ts@.len(),
        forall|k: int| 0 <= k < ts@.len() ==> trans_copy(#[trigger] ts@[k], r@[k]),
{
    let mut r: Vec<Transition> = Vec::new();
    let mut i: usize = 0;
    while i < ts.len()
        invariant
            i <= ts@.len(),
            r@.len() == i,
            forall|k: int| 0 <= k < i ==> trans_copy(#[trigger] ts@[k], r@[k]),
        decreases ts@.len() - i,
    {
        r.push(copy_transition(&ts[i]));
        i = i + 1;
    }
    r
}

/// Whether `v` holds a located name equal to `s`.
fn names_contain(v: &Vec<Loc<String>>, s: &str) -> (r: bool)
    ensures
        r == exists|i: int| 0 <= i < v@.len() && (#[trigger] v@[i]).value@ == s@,
{
    let mut i: usize = 0;
    while i < v.len()
        invariant
            i <= v@.len(),
            forall|k: int| 0 <= k < i ==> (#[trigger] v@[k]).value@ != s@,
        decreases v@.len() - i,
    {
        if crate::util::tables::string_eq_str(&v[i].value, s) {
            return true;
        }
        i = i + 1;
    }
    false
}

/// Whether `a` can be inlined: its transitions are explicit (or will be, when `pending`),
/// and it has an initial state if it has states.
pub open spec fn inline_ready(a: Automaton, pending: bool) -> bool {
    &&& pending || forall|k: int| 0 <= k < a.states@.len() ==> all_explicit((#[trigger] a.states@[k]).1.transitions@)
    &&& a.states@.len() > 0 ==> a.init_states@.len() > 0
}

/// The error of inlining the call `e` in the automaton named `main_name`, if any: a call of
/// itself, an unknown automaton, the wrong number of inputs or of outputs (expected, given),
/// or an automaton that cannot be inlined.
pub open spec fn ext_failure(au: Seq<(String, Automaton)>, main_name: Seq<char>, e: ExtAutomaton, pending: bool) -> Option<CollapseAutomataError> {
    if e.name.value@ == main_name {
        Some(CollapseAutomataError::CyclicAutomatonCall(e.name.value))
    } else {
        match table_get(au, e.name.value@) {
            None => Some(CollapseAutomataError::UnknownAutomaton(e.name.loc, e.name.value)),
            Some(a) => if a.inputs@.len() != e.inputs.value@.len() {
                Some(CollapseAutomataError::WrongNumber(
                    WrongNumberType::Args,
                    e.name.loc,
                    a.inputs@.len() as usize,
                    e.inputs.value@.len() as usize,
                ))
            } else if a.outputs@.len() != e.outputs.value@.len() {
                Some(CollapseAutomataError::WrongNumber(
                    WrongNumberType::ReturnVars,
                    e.name.loc,
                    a.outputs@.len() as usize,
                    e.outputs.value@.len() as usize,
                ))
            } else if !inline_ready(a, pending) {
                Some(CollapseAutomataError::NotInlinable(e.name.loc, e.name.value))
            } else {
                None
            },
        }
    }
}

/// The first error of the calls of automata among the statements from `j` on.
pub open spec fn calls_failure_from(au: Seq<(String, Automaton)>, main_name: Seq<char>, b: Seq<Statement>, j: int, pending: bool) -> Option<CollapseAutomataError>
    decreases b.len() - j,
{
    if j < 0 || j >= b.len() {
        None
    } else {
        let here = match b[j] {
            Statement::ExtAutomaton(e) => ext_failure(au, main_name, e, pending),
            _ => None,
        };
        if here is Some {
            here
        } else {
            calls_failure_from(au, main_name, b, j + 1, pending)
        }
    }
}

/// The error of collapsing the calls of the state `s` of the automaton named `main_name`:
/// a default transition left (unless `pending`), else the first error of its calls.
pub open spec fn state_failure(au: Seq<(String, Automaton)>, main_name: Seq<char>, s: State, pending: bool) -> Option<CollapseAutomataError> {
    if !pending && !all_explicit(s.transitions@) {
        Some(CollapseAutomataError::NotInlinable(s.name.loc, s.name.value))
    } else {
        calls_failure_from(au, main_name, s.statements@, 0, pending)
    }
}

/// The first error of a round of collapsing `main`, among its states from `k` on that call
/// automata.
pub open spec fn round_failure_from(au: Seq<(String, Automaton)>, main: Automaton, k: int, pending: bool) -> Option<CollapseAutomataError>
    decreases main.states@.len() - k,
{
    if k < 0 || k >= main.states@.len() {
        None
    } else {
        let s = main.states@[k].1;
        let here = if has_call(s) {
            state_failure(au, main.name@, s, pending)
        } else {
            None
        };
        if here is Some {
            here
        } else {
            round_failure_from(au, main, k + 1, pending)
        }
    }
}

/// The error the first round of collapsing meets in the program as given: no `main`, or
/// the first error of its states, the transitions being made explicit first.
pub open spec fn first_round_failure(p: Program) -> Option<CollapseAutomataError> {
    match table_get(p.automata@, "main"@) {
        None => Some(CollapseAutomataError::NoMainAutomaton),
        Some(m) => round_failure_from(p.automata@, m, 0, true),
    }
}

/// `b` is `a` with its transitions made explicit and one more statement, not a call of an
/// automaton, at the end of each state: what the first round of collapsing sees of `a`.
pub open spec fn prepared_rel(a: Automaton, b: Automaton) -> bool {
    &&& b.name == a.name
    &&& b.inputs == a.inputs
    &&& b.outputs == a.outputs
    &&& b.init_states == a.init_states
    &&& b.states@.len() == a.states@.len()
    &&& forall|k: int| 0 <= k < a.states@.len() ==> {
        let (s, t) = (a.states@[k].1, (#[trigger] b.states@[k]).1);
        &&& b.states@[k].0 == a.states@[k].0
        &&& t.name == s.name
        &&& all_explicit(t.transitions@)
        &&& t.statements@.len() == s.statements@.len() + 1
        &&& (forall|j: int| 0 <= j < s.statements@.len() ==> #[trigger] t.statements@[j] == s.statements@[j])
        &&& !(t.statements@.last() is ExtAutomaton)
    }
}

/// Tables with the same names whose values are related by `prepared_rel`, entry by entry.
pub open spec fn prepared_tables(t: Seq<(String, Automaton)>, u: Seq<(String, Automaton)>) -> bool {
    &&& u.len() == t.len()
    &&& forall|k: int| 0 <= k < t.len() ==> (#[trigger] u[k]).0 == t[k].0 && prepared_rel(t[k].1, u[k].1)
}

/// A state whose default transitions are made explicit has only explicit transitions.
proof fn lemma_explicit_rel_all(s: State, t: State)
    requires
        explicit_rel(s, t),
    ensures
        all_explicit(t.transitions@),
{
    let ts = with_default(s);
    assert forall|i: int| 0 <= i < t.transitions@.len() implies (#[trigger] t.transitions@[i]).condition.value is Expr by {
        if is_default(ts[i]) {
        } else {
            assert(t.transitions@[i] == ts[i]);
        }
    }
}

/// Lookups in related tables find related automata.
proof fn lemma_prepared_get(t: Seq<(String, Automaton)>, u: Seq<(String, Automaton)>, n: Seq<char>, i: int)
    requires
        prepared_tables(t, u),
        0 <= i,
    ensures
        match table_get_from(t, n, i) {
            None => table_get_from(u, n, i) is None,
            Some(a) => table_get_from(u, n, i) matches Some(b) && prepared_rel(a, b),
        },
    decreases t.len() - i,
{
    if i < t.len() {
        assert(u[i].0 == t[i].0);
        lemma_prepared_get(t, u, n, i + 1);
    }
}

/// A call fails alike before and after the preparation.
proof fn lemma_prepared_ext(t: Seq<(String, Automaton)>, u: Seq<(String, Automaton)>, n: Seq<char>, e: ExtAutomaton)
    requires
        prepared_tables(t, u),
    ensures
        ext_failure(u, n, e, false) == ext_failure(t, n, e, true),
{
    lemma_prepared_get(t, u, e.name.value@, 0);
    match table_get(t, e.name.value@) {
        None => {},
        Some(a) => {
            let b = table_get(u, e.name.value@)->0;
            assert forall|k: int| 0 <= k < b.states@.len() implies all_explicit((#[trigger] b.states@[k]).1.transitions@) by {
                assert(k < a.states@.len());
            }
            assert(inline_ready(b, false) == inline_ready(a, true));
        },
    }
}

/// The calls of a prepared state fail alike, from `j` on.
proof fn lemma_prepared_calls(
    t: Seq<(String, Automaton)>,
    u: Seq<(String, Automaton)>,
    n: Seq<char>,
    b0: Seq<Statement>,
    b1: Seq<Statement>,
    j: int,
)
    requires
        prepared_tables(t, u),
        0 <= j,
        b1.len() == b0.len() + 1,
        forall|k: int| 0 <= k < b0.len() ==> #[trigger] b1[k] == b0[k],
        !(b1.last() is ExtAutomaton),
    ensures
        calls_failure_from(u, n, b1, j, false) == calls_failure_from(t, n, b0, j, true),
    decreases b1.len() - j,
{
    if j < b0.len() {
        assert(b1[j] == b0[j]);
        if let Statement::ExtAutomaton(e) = b0[j] {
            lemma_prepared_ext(t, u, n, e);
        }
        lemma_prepared_calls(t, u, n, b0, b1, j + 1);
    } else if j == b0.len() {
        assert(b1[j] == b1.last());
        assert(!(b1[j] is ExtAutomaton));
        assert(calls_failure_from(u, n, b1, j + 1, false) is None);
    }
}

/// A prepared `main` fails its first round as the program as given says, from state `k` on.
proof fn lemma_prepared_round(t: Seq<(String, Automaton)>, u: Seq<(String, Automaton)>, a: Automaton, b: Automaton, k: int)
    requires
        prepared_tables(t, u),
        prepared_rel(a, b),
        0 <= k,
    ensures
        round_failure_from(u, b, k, false) == round_failure_from(t, a, k, true),
    decreases a.states@.len() - k,
{
    if k < a.states@.len() {
        let s = a.states@[k].1;
        let s1 = b.states@[k].1;
        assert(has_call(s1) == has_call(s)) by {
            if has_call(s) {
                let j = choose|j: int| 0 <= j < s.statements@.len() && (#[trigger] s.statements@[j]) is ExtAutomaton;
                assert(s1.statements@[j] == s.statements@[j]);
            }
            if has_call(s1) {
                let j = choose|j: int| 0 <= j < s1.statements@.len() && (#[trigger] s1.statements@[j]) is ExtAutomaton;
                if j < s.statements@.len() {
                    assert(s1.statements@[j] == s.statements@[j]);
                } else {
                    assert(s1.statements@[j] == s1.statements@.last());
                }
            }
        }
        lemma_prepared_calls(t, u, a.name@, s.statements@, s1.statements@, 0);
        lemma_prepared_round(t, u, a, b, k + 1);
    }
}

/// An automaton prepared from one that calls none calls none.
proof fn lemma_prepared_calls_none(a: Automaton, b: Automaton)
    requires
        prepared_rel(a, b),
        calls_none(a),
    ensures
        calls_none(b),
{
    assert forall|q: int| 0 <= q < b.states@.len() implies !has_call(#[trigger] b.states@[q].1) by {
        let s = a.states@[q].1;
        let t = b.states@[q].1;
        assert(!has_call(s));
        if has_call(t) {
            let j = choose|j: int| 0 <= j < t.statements@.len() && (#[trigger] t.statements@[j]) is ExtAutomaton;
            if j < s.statements@.len() {
                assert(t.statements@[j] == s.statements@[j]);
            } else {
                assert(t.statements@[j] == t.statements@.last());
            }
        }
    }
}

/// A round never fails for want of `main`.
proof fn lemma_round_failure_has_main(au: Seq<(String, Automaton)>, main: Automaton, k: int, pending: bool)
    ensures
        !(round_failure_from(au, main, k, pending) matches Some(CollapseAutomataError::NoMainAutomaton)),
    decreases main.states@.len() - k,
{
    if 0 <= k < main.states@.len() {
        lemma_calls_failure_has_main(au, main.name@, main.states@[k].1.statements@, 0, pending);
        lemma_round_failure_has_main(au, main, k + 1, pending);
    }
}

/// The calls of a state never fail for want of `main`.
proof fn lemma_calls_failure_has_main(au: Seq<(String, Automaton)>, main_name: Seq<char>, b: Seq<Statement>, j: int, pending: bool)
    ensures
        !(calls_failure_from(au, main_name, b, j, pending) matches Some(CollapseAutomataError::NoMainAutomaton)),
    decreases b.len() - j,
{
    if 0 <= j < b.len() {
        lemma_calls_failure_has_main(au, main_name, b, j + 1, pending);
    }
}

/// No state of the automaton calls an automaton.
pub open spec fn calls_none(a: Automaton) -> bool {
    forall|q: int| 0 <= q < a.states@.len() ==> !has_call(#[trigger] a.states@[q].1)
}

/// No automaton but the one named `main_name` calls an automaton.
pub open spec fn callees_call_none(au: Seq<(String, Automaton)>, main_name: Seq<char>) -> bool {
    forall|k: int| 0 <= k < au.len() && (#[trigger] au[k]).0@ != main_name ==> calls_none(au[k].1)
}

/// A program whose automaton `main` (named so) is the only one that calls automata.
pub open spec fn one_level(p: Program) -> bool {
    &&& table_get(p.automata@, "main"@) matches Some(m) && m.name@ == "main"@
    &&& callees_call_none(p.automata@, "main"@)
}

/// A renamed statement calls an automaton exactly when the statement does.
proof fn lemma_ren_stmt_call(a: Statement, b: Statement, rn: Renaming)
    requires
        ren_stmt(a, b, rn),
    ensures
        (b is ExtAutomaton) == (a is ExtAutomaton),
{
}

/// The states made by inlining an automaton that calls none call none.
proof fn lemma_inlined_calls_none(
    resume: Loc<TrCond>,
    reset_cond: Loc<Expr>,
    exit: Loc<Expr>,
    inputs: Seq<String>,
    a: Automaton,
    is_init: bool,
    c: u32,
    rn: Renaming,
    resets: Seq<Transition>,
    r: (Vec<State>, Vec<Loc<String>>, Vec<VarAssign>, Vec<String>),
)
    requires
        make_automaton_rel(resume, reset_cond, exit, inputs, a, is_init, c, rn, resets, r),
        calls_none(a),
    ensures
        forall|q: int| 0 <= q < r.0@.len() ==> !has_call(#[trigger] r.0@[q]),
{
    assert forall|q: int| 0 <= q < r.0@.len() implies !has_call(#[trigger] r.0@[q]) by {
        let k = q / 2;
        assert(0 <= k < a.states@.len());
        assert(make_state_rel(rn, resume, resets, exit, a.states@[k].1, r.0@[2 * k], r.0@[2 * k + 1]));
        assert(!has_call(a.states@[k].1));
        if q == 2 * k {
            let st = r.0@[q];
            if has_call(st) {
                let j = choose|j: int| 0 <= j < st.statements@.len() && (#[trigger] st.statements@[j]) is ExtAutomaton;
                lemma_ren_stmt_call(a.states@[k].1.statements@[j], st.statements@[j], rn);
                assert(a.states@[k].1.statements@[j] is ExtAutomaton);
            }
        } else {
            assert(q == 2 * k + 1);
        }
    }
}

/// What a round of collapsing adds to `main`: states, shared variables, initial states, and
/// the name of the last automaton inlined.
/// The automaton that the call `e` names in `autos`.
pub open spec fn callee(autos: Seq<(String, Automaton)>, e: ExtAutomaton) -> Automaton {
    table_get(autos, e.name.value@)->Some_0
}

/// The state at `q` of `out` is named `n`.
pub open spec fn named_at(out: Seq<State>, q: int, n: Seq<char>) -> bool {
    0 <= q < out.len() && out[q].name.value@ == n
}

/// For each state of `a`, `out` holds a state under the name that inlining `a` gives it.
pub open spec fn inlined_in(a: Automaton, out: Seq<State>) -> bool {
    forall|k: int| 0 <= k < a.states@.len() ==> #[trigger] state_inlined_in(a, k, out)
}

/// `out` holds a state under the name that inlining `a` gives its state at `k`.
pub open spec fn state_inlined_in(a: Automaton, k: int, out: Seq<State>) -> bool {
    exists|q: int, c: u32| #[trigger] named_at(out, q, rename_text(c, a.states@[k].1.name.value@, a.name@))
}

/// The table of states has a state named `n` under its own name.
pub open spec fn has_named(st: Seq<(String, State)>, n: Seq<char>) -> bool {
    exists|q: int| 0 <= q < st.len() && (#[trigger] st[q]).0@ == n && st[q].1.name.value@ == n
}

/// For each state of `a`, the table holds a state, under its own name, named as inlining
/// `a` names it.
pub open spec fn named_inlined(a: Automaton, st: Seq<(String, State)>) -> bool {
    forall|k: int| 0 <= k < a.states@.len() ==> #[trigger] state_named_inlined(a, k, st)
}

/// The table holds, under its own name, a state named as inlining `a` names its state at `k`.
pub open spec fn state_named_inlined(a: Automaton, k: int, st: Seq<(String, State)>) -> bool {
    exists|c: u32| #[trigger] has_named(st, rename_text(c, a.states@[k].1.name.value@, a.name@))
}

/// Each state of `t` that calls automata has a state of the same name in `news`.
pub open spec fn links_cover(t: Seq<(String, State)>, news: Seq<State>) -> bool {
    forall|q: int| 0 <= q < t.len() && has_call((#[trigger] t[q]).1) ==> exists|i: int|
        #[trigger] named_at(news, i, t[q].1.name.value@)
}

/// What collapsing keeps of `main0` in the states `st` of the collapsed `main`: each state
/// kept under its own name is still there under that name, and each automaton that one of
/// its states calls has all its states inlined, each under the name inlining gives it.
pub open spec fn collapse_keeps(autos: Seq<(String, Automaton)>, main0: Automaton, st: Seq<(String, State)>) -> bool {
    &&& forall|q: int| 0 <= q < main0.states@.len() && (#[trigger] main0.states@[q]).0@ == main0.states@[q].1.name.value@
        ==> has_named(st, main0.states@[q].0@)
    &&& forall|q: int, j: int| 0 <= q < main0.states@.len() && 0 <= j < main0.states@[q].1.statements@.len()
        ==> (#[trigger] main0.states@[q].1.statements@[j] matches Statement::ExtAutomaton(e)
        ==> (table_get(autos, e.name.value@) is Some ==> named_inlined(callee(autos, e), st)))
}

/// Adding states at the end of `out` keeps what `inlined_in` says of it.
proof fn lemma_inlined_in_grow(a: Automaton, out: Seq<State>, out2: Seq<State>)
    requires
        inlined_in(a, out),
        out.len() <= out2.len(),
        forall|q: int| 0 <= q < out.len() ==> #[trigger] out2[q] == out[q],
    ensures
        inlined_in(a, out2),
{
    assert forall|k: int| 0 <= k < a.states@.len() implies #[trigger] state_inlined_in(a, k, out2) by {
        assert(state_inlined_in(a, k, out));
        let (q, c) = choose|q: int, c: u32| #[trigger] named_at(out, q, rename_text(c, a.states@[k].1.name.value@, a.name@));
        assert(out2[q] == out[q]);
        assert(named_at(out2, q, rename_text(c, a.states@[k].1.name.value@, a.name@)));
    }
    assert(inlined_in(a, out2));
}

/// Setting a state by its name keeps each state kept under its own name, and puts the new
/// one under its name.
proof fn lemma_set_named(t: Seq<(String, State)>, v: State, n: Seq<char>)
    ensures
        has_named(t, n) ==> has_named(table_set(t, v.name.value, v), n),
        has_named(table_set(t, v.name.value, v), v.name.value@),
{
    let name = v.name.value;
    if exists|i: int| 0 <= i < t.len() && #[trigger] t[i].0@ == name@ {
        let i = choose|i: int|
            0 <= i < t.len() && #[trigger] t[i].0@ == name@ && forall|j: int|
                0 <= j < i ==> #[trigger] t[j].0@ != name@;
        crate::util::tables::lemma_first_index(t, name@, choose|w: int| 0 <= w < t.len() && #[trigger] t[w].0@ == name@);
        let t1 = t.update(i, (t[i].0, v));
        assert(table_set(t, name, v) == t1);
        assert(t1[i].0@ == name@ && t1[i].1.name.value@ == name@);
        if has_named(t, n) {
            let p = choose|q: int| 0 <= q < t.len() && (#[trigger] t[q]).0@ == n && t[q].1.name.value@ == n;
            if p != i {
                assert(t1[p] == t[p]);
            }
        }
    } else {
        let t1 = t.push((name, v));
        assert(table_set(t, name, v) == t1);
        assert(t1[t.len() as int].0@ == name@);
        if has_named(t, n) {
            let p = choose|q: int| 0 <= q < t.len() && (#[trigger] t[q]).0@ == n && t[q].1.name.value@ == n;
            assert(t1[p] == t[p]);
        }
    }
}

/// Setting states by name keeps each state kept under its own name, and puts each new one
/// under its name.
proof fn lemma_states_set_named(t: Seq<(String, State)>, news: Seq<State>, n: Seq<char>)
    ensures
        has_named(t, n) ==> has_named(states_set(t, news), n),
        forall|i: int| 0 <= i < news.len() ==> has_named(states_set(t, news), (#[trigger] news[i]).name.value@),
    decreases news.len(),
{
    if news.len() > 0 {
        let t1 = table_set(t, news[0].name.value, news[0]);
        let rest = news.subrange(1, news.len() as int);
        lemma_set_named(t, news[0], n);
        lemma_states_set_named(t1, rest, n);
        lemma_states_set_named(t1, rest, news[0].name.value@);
        assert(states_set(t, news) == states_set(t1, rest));
        assert forall|i: int| 0 <= i < news.len() implies has_named(states_set(t, news), (#[trigger] news[i]).name.value@) by {
            if i > 0 {
                assert(news[i] == rest[i - 1]);
            }
        }
    }
}

/// A state without calls is kept by `states_without_calls`.
proof fn lemma_without_calls_keeps(t: Seq<(String, State)>, q: int)
    requires
        0 <= q < t.len(),
        !has_call(t[q].1),
    ensures
        exists|r: int| 0 <= r < states_without_calls(t).len() && #[trigger] states_without_calls(t)[r] == t[q],
    decreases t.len(),
{
    let tail = t.subrange(1, t.len() as int);
    if q == 0 {
        assert(states_without_calls(t)[0] == t[0]);
    } else {
        assert(tail[q - 1] == t[q]);
        lemma_without_calls_keeps(tail, q - 1);
        let r = choose|r: int| 0 <= r < states_without_calls(tail).len() && #[trigger] states_without_calls(tail)[r] == tail[q - 1];
        if has_call(t[0].1) {
            assert(states_without_calls(t)[r] == t[q]);
        } else {
            assert(states_without_calls(t)[r + 1] == t[q]);
        }
    }
}

/// After a round, a state kept under its own name is still there: a state without calls
/// stays, and one with calls has its link state under its name.
proof fn lemma_round_keeps_named(t: Seq<(String, State)>, news: Seq<State>, n: Seq<char>)
    requires
        has_named(t, n),
        links_cover(t, news),
    ensures
        has_named(states_set(states_without_calls(t), news), n),
{
    let p = choose|q: int| 0 <= q < t.len() && (#[trigger] t[q]).0@ == n && t[q].1.name.value@ == n;
    let w = states_without_calls(t);
    lemma_states_set_named(w, news, n);
    if has_call(t[p].1) {
        let i = choose|i: int| #[trigger] named_at(news, i, t[p].1.name.value@);
        assert(has_named(states_set(w, news), news[i].name.value@));
    } else {
        lemma_without_calls_keeps(t, p);
        let r = choose|r: int| 0 <= r < w.len() && #[trigger] w[r] == t[p];
        assert(w[r].0@ == n);
    }
}

/// After a round, what was inlined stays.
proof fn lemma_round_keeps_inlined(a: Automaton, t: Seq<(String, State)>, news: Seq<State>)
    requires
        named_inlined(a, t),
        links_cover(t, news),
    ensures
        named_inlined(a, states_set(states_without_calls(t), news)),
{
    assert forall|k: int| 0 <= k < a.states@.len() implies #[trigger] state_named_inlined(a, k, states_set(states_without_calls(t), news)) by {
        assert(state_named_inlined(a, k, t));
        let c = choose|c: u32| #[trigger] has_named(t, rename_text(c, a.states@[k].1.name.value@, a.name@));
        lemma_round_keeps_named(t, news, rename_text(c, a.states@[k].1.name.value@, a.name@));
    }
    assert(named_inlined(a, states_set(states_without_calls(t), news)));
}

/// After a round, what collapsing keeps of `main0` stays.
proof fn lemma_round_keeps(autos: Seq<(String, Automaton)>, main0: Automaton, t: Seq<(String, State)>, news: Seq<State>)
    requires
        collapse_keeps(autos, main0, t),
        links_cover(t, news),
    ensures
        collapse_keeps(autos, main0, states_set(states_without_calls(t), news)),
{
    let t2 = states_set(states_without_calls(t), news);
    assert forall|q: int| 0 <= q < main0.states@.len() && (#[trigger] main0.states@[q]).0@ == main0.states@[q].1.name.value@
        implies has_named(t2, main0.states@[q].0@) by {
        lemma_round_keeps_named(t, news, main0.states@[q].0@);
    }
    assert forall|q: int, j: int| 0 <= q < main0.states@.len() && 0 <= j < main0.states@[q].1.statements@.len()
        implies (#[trigger] main0.states@[q].1.statements@[j] matches Statement::ExtAutomaton(e)
        ==> (table_get(autos, e.name.value@) is Some ==> named_inlined(callee(autos, e), t2))) by {
        if let Statement::ExtAutomaton(e) = main0.states@[q].1.statements@[j] {
            if table_get(autos, e.name.value@) is Some {
                lemma_round_keeps_inlined(callee(autos, e), t, news);
            }
        }
    }
}

pub type RoundResult = (Vec<State>, Vec<VarAssign>, Vec<Loc<String>>, String);

/// Inlines the calls of one state of `main`, giving its link state.
fn collapse_state(
    prog: &Program,
    main: &Automaton,
    parents: &Vec<(String, Vec<String>)>,
    state: &State,
    out: &mut RoundResult,
    inline_counter: &mut u32,
    input_counter: &mut u32,
) -> (r: Result<(), CollapseAutomataError>)
    ensures
        match state_failure(prog.automata@, main.name@, *state, false) {
            Some(e) => r matches Err(x) && x == e,
            None => r is Ok,
        },
        final(out).0@.len() >= old(out).0@.len(),
        forall|q: int| 0 <= q < old(out).0@.len() ==> #[trigger] final(out).0@[q] == old(out).0@[q],
        r is Ok && callees_call_none(prog.automata@, main.name@) ==> forall|q: int|
            old(out).0@.len() <= q < final(out).0@.len() ==> !has_call(#[trigger] final(out).0@[q]),
        r is Ok ==> final(out).0@.len() > old(out).0@.len() && final(out).0@.last().name == state.name,
        r is Ok ==> forall|j: int| 0 <= j < state.statements@.len() ==> (#[trigger] state.statements@[j] matches Statement::ExtAutomaton(e)
            ==> inlined_in(callee(prog.automata@, e), final(out).0@)),
{
    let ghost o0 = out.0@;
    if !all_explicit_exec(&state.transitions) {
        return Err(CollapseAutomataError::NotInlinable(state.name.loc, state.name.value.clone()));
    }
    let exit = get_exit_condition(state);
    let empty: Vec<String> = Vec::new();
    let ps = match table_lookup(parents, state.name.value.as_str()) {
        Some(p) => p,
        None => &empty,
    };
    let (reset, resume) = entry_conditions(main, ps, state);
    let mut link = State {
        name: copy_name(&state.name),
        statements: link_statements(state),
        transitions: copy_transitions(&state.transitions),
        weak: state.weak,
    };
    let is_init = names_contain(&main.init_states, state.name.value.as_str());
    let mut j: usize = 0;
    while j < state.statements.len()
        invariant
            j <= state.statements@.len(),
            resume.value is Expr,
            all_explicit(state.transitions@),
            calls_failure_from(prog.automata@, main.name@, state.statements@, 0, false)
                == calls_failure_from(prog.automata@, main.name@, state.statements@, j as int, false),
            o0 == old(out).0@,
            out.0@.len() >= o0.len(),
            forall|q: int| 0 <= q < o0.len() ==> #[trigger] out.0@[q] == o0[q],
            callees_call_none(prog.automata@, main.name@) ==> forall|q: int|
                o0.len() <= q < out.0@.len() ==> !has_call(#[trigger] out.0@[q]),
            forall|q: int| 0 <= q < link.statements@.len() ==> !((#[trigger] link.statements@[q]) is ExtAutomaton),
            link.name == state.name,
            forall|jj: int| 0 <= jj < j ==> (#[trigger] state.statements@[jj] matches Statement::ExtAutomaton(e)
                ==> inlined_in(callee(prog.automata@, e), out.0@)),
        decreases state.statements@.len() - j,
    {
        let ghost oj = out.0@;
        if let Statement::ExtAutomaton(e) = &state.statements[j] {
            let ghost here = ext_failure(prog.automata@, main.name@, *e, false);
            proof {
                assert(calls_failure_from(prog.automata@, main.name@, state.statements@, j as int, false)
                    == if here is Some { here } else { calls_failure_from(prog.automata@, main.name@, state.statements@, j as int + 1, false) });
            }
            if crate::util::tables::string_eq_str(&e.name.value, main.name.as_str()) {
                return Err(CollapseAutomataError::CyclicAutomatonCall(e.name.value.clone()));
            }
            let automaton = match table_lookup(&prog.automata, e.name.value.as_str()) {
                Some(a) => a,
                None => {
                    return Err(CollapseAutomataError::UnknownAutomaton(e.name.loc, e.name.value.clone()));
                },
            };
            if automaton.inputs.len() != e.inputs.value.len() {
                return Err(CollapseAutomataError::WrongNumber(
                    WrongNumberType::Args,
                    e.name.loc,
                    automaton.inputs.len(),
                    e.inputs.value.len(),
                ));
            }
            if automaton.outputs.len() != e.outputs.value.len() {
                return Err(CollapseAutomataError::WrongNumber(
                    WrongNumberType::ReturnVars,
                    e.name.loc,
                    automaton.outputs.len(),
                    e.outputs.value.len(),
                ));
            }
            if !inlinable_exec(automaton) {
                return Err(CollapseAutomataError::NotInlinable(e.name.loc, e.name.value.clone()));
            }
            let mut in_names: Vec<String> = Vec::new();
            let ghost ob = out.0@;
            let mut k: usize = 0;
            while k < e.inputs.value.len()
                invariant
                    k <= e.inputs.value@.len(),
                    e.inputs.value@.len() == automaton.inputs@.len(),
                    out.0@ == ob,
                    forall|q: int| 0 <= q < link.statements@.len() ==> !((#[trigger] link.statements@[q]) is ExtAutomaton),
                    link.name == state.name,
                decreases e.inputs.value@.len() - k,
            {
                let expr = &e.inputs.value[k];
                let name = get_input_name(&e.name.value, input_counter);
                in_names.push(name.clone());
                out.1.push(VarAssign {
                    var: Loc { loc: expr.loc, value: name.clone() },
                    expr: Loc { loc: expr.loc, value: Expr::Const(ConstExpr::Unknown(false, copy_loc_const(&automaton.inputs[k].size))) },
                });
                let mut assign: Vec<VarAssign> = Vec::new();
                assign.push(VarAssign { var: Loc { loc: expr.loc, value: name }, expr: Loc { loc: expr.loc, value: copy_expr(&expr.value) } });
                link.statements.push(Statement::Assign(assign));
                k = k + 1;
            }
            let exit_copy = Loc { loc: exit.loc, value: copy_expr(&exit.value) };
            let ghost exit_g = exit_copy;
            let ghost in_g = in_names@;
            let ghost old_counter = *inline_counter;
            let (states, inits, shared, outs) = match make_automaton(&resume, &reset, exit_copy, in_names, automaton, is_init, inline_counter) {
                Ok(x) => x,
                Err(err) => {
                    return Err(err);
                },
            };
            let ghost a_rel = choose|rn: Renaming, resets: Seq<Transition>| #[trigger] make_automaton_rel(
                resume, reset, exit_g, in_g, *automaton, is_init, old_counter, rn, resets, (states, inits, shared, outs));
            proof {
                if callees_call_none(prog.automata@, main.name@) {
                    crate::util::tables::lemma_table_get_from_index(prog.automata@, e.name.value@, 0);
                    let w = choose|w: int| 0 <= w < prog.automata@.len() && #[trigger] prog.automata@[w].0@ == e.name.value@
                        && Some(prog.automata@[w].1) == table_get(prog.automata@, e.name.value@);
                    assert(calls_none(*automaton));
                    let (rn, resets) = choose|rn: Renaming, resets: Seq<Transition>| #[trigger] make_automaton_rel(
                        resume, reset, exit_g, in_g, *automaton, is_init, old_counter, rn, resets, (states, inits, shared, outs));
                    lemma_inlined_calls_none(resume, reset, exit_g, in_g, *automaton, is_init, old_counter, rn, resets, (states, inits, shared, outs));
                }
            }
            let ghost states0 = states@;
            let ghost oa = out.0@;
            let mut states = states;
            let mut inits = inits;
            let mut shared = shared;
            out.2.append(&mut inits);
            out.0.append(&mut states);
            proof {
                assert forall|q: int| 0 <= q < o0.len() implies #[trigger] out.0@[q] == o0[q] by {
                    assert(out.0@[q] == oa[q]);
                }
                if callees_call_none(prog.automata@, main.name@) {
                    assert forall|q: int| o0.len() <= q < out.0@.len() implies !has_call(#[trigger] out.0@[q]) by {
                        if q < oa.len() {
                            assert(out.0@[q] == oa[q]);
                        } else {
                            assert(out.0@[q] == states0[q - oa.len()]);
                        }
                    }
                }
            }
            proof {
                let a = *automaton;
                assert(callee(prog.automata@, *e) == a);
                assert forall|k: int| 0 <= k < a.states@.len() implies #[trigger] state_inlined_in(a, k, out.0@) by {
                    assert(make_state_rel(a_rel.0, resume, a_rel.1, exit_g, a.states@[k].1, states0[2 * k], states0[2 * k + 1]));
                    assert(out.0@[oa.len() + 2 * k] == states0[2 * k]);
                    assert(named_at(out.0@, oa.len() + 2 * k, rename_text(old_counter, a.states@[k].1.name.value@, a.name@)));
                }
                assert(inlined_in(a, out.0@));
                assert forall|jj: int| 0 <= jj < j implies (#[trigger] state.statements@[jj] matches Statement::ExtAutomaton(f)
                    ==> inlined_in(callee(prog.automata@, f), out.0@)) by {
                    if let Statement::ExtAutomaton(f) = state.statements@[jj] {
                        lemma_inlined_in_grow(callee(prog.automata@, f), oj, out.0@);
                    }
                }
            }
            out.1.append(&mut shared);
            let pos = e.name.loc;
            let mut assign: Vec<VarAssign> = Vec::new();
            let mut k: usize = 0;
            while k < e.outputs.value.len() && k < outs.len()
                invariant
                    k <= e.outputs.value@.len(),
                decreases e.outputs.value@.len() - k,
            {
                assign.push(VarAssign {
                    var: copy_name(&e.outputs.value[k]),
                    expr: Loc { loc: pos, value: Expr::Var(Loc { loc: pos, value: outs[k].clone() }) },
                });
                k = k + 1;
            }
            link.statements.push(Statement::Assign(assign));
            out.3 = e.name.value.clone();
        }
        proof {
            if !(state.statements@[j as int] is ExtAutomaton) {
                assert(out.0@ == oj);
            }
        }
        j = j + 1;
    }
    let ghost ol = out.0@;
    proof {
        if has_call(link) {
            let q = choose|q: int| 0 <= q < link.statements@.len() && (#[trigger] link.statements@[q]) is ExtAutomaton;
        }
    }
    out.0.push(link);
    proof {
        assert forall|q: int| 0 <= q < o0.len() implies #[trigger] out.0@[q] == o0[q] by {
            assert(out.0@[q] == ol[q]);
        }
        assert forall|jj: int| 0 <= jj < state.statements@.len() implies (#[trigger] state.statements@[jj] matches Statement::ExtAutomaton(f)
            ==> inlined_in(callee(prog.automata@, f), out.0@)) by {
            if let Statement::ExtAutomaton(f) = state.statements@[jj] {
                assert forall|q: int| 0 <= q < ol.len() implies #[trigger] out.0@[q] == ol[q] by {}
                lemma_inlined_in_grow(callee(prog.automata@, f), ol, out.0@);
            }
        }
        if callees_call_none(prog.automata@, main.name@) {
            assert forall|q: int| o0.len() <= q < out.0@.len() implies !has_call(#[trigger] out.0@[q]) by {
                if q < ol.len() {
                    assert(out.0@[q] == ol[q]);
                }
            }
        }
    }
    Ok(())
}

/// One round of collapsing of the automaton at `mi` (`main`): for each of its states that
/// calls automata, its link state (its other statements, with the assignments of the
/// calls' inputs and outputs) and what the inlined automata add. `None` when no state
/// calls an automaton.
fn collapse_round(prog: &Program, mi: usize, inline_counter: &mut u32, input_counter: &mut u32) -> (r: Result<Option<RoundResult>, CollapseAutomataError>)
    requires
        mi < prog.automata@.len(),
    ensures
        match round_failure_from(prog.automata@, prog.automata@[mi as int].1, 0, false) {
            Some(e) => r matches Err(x) && x == e,
            None => r is Ok,
        },
        r matches Ok(None) ==> forall|k: int| 0 <= k < prog.automata@[mi as int].1.states@.len()
            ==> !has_call(#[trigger] prog.automata@[mi as int].1.states@[k].1),
        calls_none(prog.automata@[mi as int].1) ==> r matches Ok(None),
        callees_call_none(prog.automata@, prog.automata@[mi as int].1.name@) ==> (r matches Ok(Some(res)) ==> forall|q: int|
            0 <= q < res.0@.len() ==> !has_call(#[trigger] res.0@[q])),
        r matches Ok(Some(res)) ==> links_cover(prog.automata@[mi as int].1.states@, res.0@),
        r matches Ok(Some(res)) ==> forall|q: int, j: int| 0 <= q < prog.automata@[mi as int].1.states@.len()
            && 0 <= j < prog.automata@[mi as int].1.states@[q].1.statements@.len()
            ==> (#[trigger] prog.automata@[mi as int].1.states@[q].1.statements@[j] matches Statement::ExtAutomaton(e)
            ==> inlined_in(callee(prog.automata@, e), res.0@)),
{
    let main = &prog.automata[mi].1;
    let parents = compute_states_parents(main);
    let mut out: RoundResult = (Vec::new(), Vec::new(), Vec::new(), String::new());
    let mut changed = false;
    let mut i: usize = 0;
    while i < main.states.len()
        invariant
            i <= main.states@.len(),
            *main == prog.automata@[mi as int].1,
            !changed ==> forall|k: int| 0 <= k < i ==> !has_call(#[trigger] main.states@[k].1),
            round_failure_from(prog.automata@, *main, 0, false) == round_failure_from(prog.automata@, *main, i as int, false),
            changed ==> !calls_none(*main),
            callees_call_none(prog.automata@, main.name@) ==> forall|q: int| 0 <= q < out.0@.len() ==> !has_call(#[trigger] out.0@[q]),
            forall|q: int| 0 <= q < i && has_call((#[trigger] main.states@[q]).1) ==> exists|x: int|
                #[trigger] named_at(out.0@, x, main.states@[q].1.name.value@),
            forall|q: int, j: int| 0 <= q < i && 0 <= j < main.states@[q].1.statements@.len()
                ==> (#[trigger] main.states@[q].1.statements@[j] matches Statement::ExtAutomaton(e)
                ==> inlined_in(callee(prog.automata@, e), out.0@)),
        decreases main.states@.len() - i,
    {
        let ghost oi = out.0@;
        let state = &main.states[i].1;
        proof {
            assert(round_failure_from(prog.automata@, *main, i as int, false) == if has_call(*state) && state_failure(prog.automata@, main.name@, *state, false) is Some {
                state_failure(prog.automata@, main.name@, *state, false)
            } else {
                round_failure_from(prog.automata@, *main, i as int + 1, false)
            });
        }
        if has_call_exec(state) {
            changed = true;
            match collapse_state(prog, main, &parents, state, &mut out, inline_counter, input_counter) {
                Ok(()) => {},
                Err(e) => {
                    return Err(e);
                },
            }
            proof {
                assert(named_at(out.0@, out.0@.len() - 1, main.states@[i as int].1.name.value@));
                assert forall|q: int| 0 <= q < i + 1 && has_call((#[trigger] main.states@[q]).1) implies exists|x: int|
                    #[trigger] named_at(out.0@, x, main.states@[q].1.name.value@) by {
                    if q < i {
                        let x = choose|x: int| #[trigger] named_at(oi, x, main.states@[q].1.name.value@);
                        assert(out.0@[x] == oi[x]);
                        assert(named_at(out.0@, x, main.states@[q].1.name.value@));
                    }
                }
                assert forall|q: int, j: int| 0 <= q < i + 1 && 0 <= j < main.states@[q].1.statements@.len()
                    implies (#[trigger] main.states@[q].1.statements@[j] matches Statement::ExtAutomaton(e)
                    ==> inlined_in(callee(prog.automata@, e), out.0@)) by {
                    if let Statement::ExtAutomaton(e) = main.states@[q].1.statements@[j] {
                        if q < i {
                            lemma_inlined_in_grow(callee(prog.automata@, e), oi, out.0@);
                        }
                    }
                }
            }
        } else {
            proof {
                assert forall|q: int, j: int| 0 <= q < i + 1 && 0 <= j < main.states@[q].1.statements@.len()
                    implies (#[trigger] main.states@[q].1.statements@[j] matches Statement::ExtAutomaton(e)
                    ==> inlined_in(callee(prog.automata@, e), out.0@)) by {
                    if q == i && main.states@[q].1.statements@[j] is ExtAutomaton {
                        assert(has_call(main.states@[q].1));
                    }
                }
            }
        }
        i = i + 1;
    }
    if changed {
        Ok(Some(out))
    } else {
        Ok(None)
    }
}

/// The states of a table that call no automaton, in order.
pub open spec fn states_without_calls(t: Seq<(String, State)>) -> Seq<(String, State)>
    decreases t.len(),
{
    if t.len() == 0 {
        Seq::empty()
    } else {
        let rest = states_without_calls(t.subrange(1, t.len() as int));
        if has_call(t[0].1) {
            rest
        } else {
            seq![t[0]] + rest
        }
    }
}

/// The table `t` with the states `news` set one after the other, each by its name.
pub open spec fn states_set(t: Seq<(String, State)>, news: Seq<State>) -> Seq<(String, State)>
    decreases news.len(),
{
    if news.len() == 0 {
        t
    } else {
        states_set(table_set(t, news[0].name.value, news[0]), news.subrange(1, news.len() as int))
    }
}

/// The states kept by `states_without_calls` call no automaton.
proof fn lemma_without_calls(t: Seq<(String, State)>)
    ensures
        forall|q: int| 0 <= q < states_without_calls(t).len() ==> !has_call(#[trigger] states_without_calls(t)[q].1),
    decreases t.len(),
{
    if t.len() > 0 {
        let rest = states_without_calls(t.subrange(1, t.len() as int));
        lemma_without_calls(t.subrange(1, t.len() as int));
        if !has_call(t[0].1) {
            assert forall|q: int| 0 <= q < states_without_calls(t).len() implies !has_call(#[trigger] states_without_calls(t)[q].1) by {
                if q > 0 {
                    assert(states_without_calls(t)[q] == rest[q - 1]);
                }
            }
        }
    }
}

/// Setting states that call no automaton in a table of such states keeps it so.
proof fn lemma_states_set_calls_none(t: Seq<(String, State)>, news: Seq<State>)
    requires
        forall|q: int| 0 <= q < t.len() ==> !has_call(#[trigger] t[q].1),
        forall|q: int| 0 <= q < news.len() ==> !has_call(#[trigger] news[q]),
    ensures
        forall|q: int| 0 <= q < states_set(t, news).len() ==> !has_call(#[trigger] states_set(t, news)[q].1),
    decreases news.len(),
{
    if news.len() > 0 {
        let t1 = table_set(t, news[0].name.value, news[0]);
        assert(!has_call(news[0]));
        let name = news[0].name.value;
        let v = news[0];
        if exists|i: int| 0 <= i < t.len() && #[trigger] t[i].0@ == name@ {
            let i = choose|i: int|
                0 <= i < t.len() && #[trigger] t[i].0@ == name@ && forall|j: int|
                    0 <= j < i ==> #[trigger] t[j].0@ != name@;
            crate::util::tables::lemma_first_index(t, name@, choose|w: int| 0 <= w < t.len() && #[trigger] t[w].0@ == name@);
            assert(t1 == t.update(i, (t[i].0, v)));
            assert forall|q: int| 0 <= q < t1.len() implies !has_call(#[trigger] t1[q].1) by {
                if q != i {
                    assert(t1[q] == t[q]);
                }
            }
        } else {
            assert(t1 == t.push((name, v)));
            assert forall|q: int| 0 <= q < t1.len() implies !has_call(#[trigger] t1[q].1) by {
                if q < t.len() {
                    assert(t1[q] == t[q]);
                }
            }
        }
        let rest = news.subrange(1, news.len() as int);
        assert forall|q: int| 0 <= q < rest.len() implies !has_call(#[trigger] rest[q]) by {
            assert(rest[q] == news[q + 1]);
        }
        lemma_states_set_calls_none(t1, rest);
        assert(states_set(t, news) == states_set(t1, rest));
    }
}

/// Applies a round to `main`: the states with calls leave, the shared variables and initial
/// states are added, and the new states are set by name.
fn apply_round(main: &mut Automaton, round: RoundResult)
    ensures
        final(main).name == old(main).name,
        final(main).inputs == old(main).inputs,
        final(main).outputs == old(main).outputs,
        final(main).shared@ == old(main).shared@ + round.1@,
        final(main).init_states@ == old(main).init_states@ + round.2@,
        final(main).states@ == states_set(states_without_calls(old(main).states@), round.0@),
        (forall|q: int| 0 <= q < round.0@.len() ==> !has_call(#[trigger] round.0@[q])) ==> calls_none(*final(main)),
{
    let (new_states, mut new_shared, mut new_inits, _) = round;
    let mut states: Vec<(String, State)> = Vec::new();
    std::mem::swap(&mut states, &mut main.states);
    let ghost all = states@;
    let mut kept_states: Vec<(String, State)> = Vec::new();
    let mut rest = states;
    while rest.len() > 0
        invariant
            states_without_calls(all) == kept_states@ + states_without_calls(rest@),
        decreases rest@.len(),
    {
        let ghost r0 = rest@;
        let (k, s) = rest.remove(0);
        proof {
            assert(rest@ =~= r0.subrange(1, r0.len() as int));
        }
        if !has_call_exec(&s) {
            let ghost k0 = kept_states@;
            kept_states.push((k, s));
            proof {
                assert(kept_states@ + states_without_calls(rest@) =~= k0 + (seq![r0[0]] + states_without_calls(rest@)));
            }
        }
    }
    proof {
        assert(kept_states@ + states_without_calls(rest@) =~= kept_states@);
    }
    main.states = kept_states;
    main.shared.append(&mut new_shared);
    main.init_states.append(&mut new_inits);
    let ghost news = new_states@;
    let mut rest = new_states;
    while rest.len() > 0
        invariant
            states_set(states_without_calls(all), news) == states_set(main.states@, rest@),
            main.name == old(main).name,
            main.inputs == old(main).inputs,
            main.outputs == old(main).outputs,
            main.shared@ == old(main).shared@ + round.1@,
            main.init_states@ == old(main).init_states@ + round.2@,
        decreases rest@.len(),
    {
        let ghost r0 = rest@;
        let s = rest.remove(0);
        proof {
            assert(rest@ =~= r0.subrange(1, r0.len() as int));
        }
        let key = s.name.value.clone();
        table_insert(&mut main.states, key, s);
    }
    proof {
        if forall|q: int| 0 <= q < round.0@.len() ==> !has_call(#[trigger] round.0@[q]) {
            lemma_without_calls(all);
            lemma_states_set_calls_none(states_without_calls(all), news);
        }
    }
}

/// The keys of the tables are the same.
pub open spec fn same_keys<V, W>(t: Seq<(String, V)>, u: Seq<(String, W)>) -> bool {
    &&& t.len() == u.len()
    &&& forall|k: int| 0 <= k < t.len() ==> #[trigger] t[k].0 == u[k].0
}

proof fn lemma_same_keys_has<V, W>(t: Seq<(String, V)>, u: Seq<(String, W)>, n: Seq<char>)
    requires
        same_keys(t, u),
    ensures
        table_has(t, n) == table_has(u, n),
{
    if table_has(t, n) {
        let i = choose|i: int| 0 <= i < t.len() && #[trigger] t[i].0@ == n;
        assert(u[i].0@ == n);
    }
    if table_has(u, n) {
        let i = choose|i: int| 0 <= i < u.len() && #[trigger] u[i].0@ == n;
        assert(t[i].0@ == n);
    }
}

/// The first round, from the prepared `main`, keeps what `collapse_keeps` says of `main0`.
proof fn lemma_first_round_keeps(
    keys0: Seq<(String, Automaton)>,
    au2: Seq<(String, Automaton)>,
    main0: Automaton,
    m2: Automaton,
    news: Seq<State>,
)
    requires
        prepared_tables(keys0, au2),
        prepared_rel(main0, m2),
        links_cover(m2.states@, news),
        forall|q: int, j: int| 0 <= q < m2.states@.len() && 0 <= j < m2.states@[q].1.statements@.len()
            ==> (#[trigger] m2.states@[q].1.statements@[j] matches Statement::ExtAutomaton(e)
            ==> inlined_in(callee(au2, e), news)),
    ensures
        collapse_keeps(keys0, main0, states_set(states_without_calls(m2.states@), news)),
{
    let t = m2.states@;
    let t2 = states_set(states_without_calls(t), news);
    assert forall|q: int| 0 <= q < main0.states@.len() && (#[trigger] main0.states@[q]).0@ == main0.states@[q].1.name.value@
        implies has_named(t2, main0.states@[q].0@) by {
        assert(t[q].0 == main0.states@[q].0 && t[q].1.name == main0.states@[q].1.name);
        assert(has_named(t, main0.states@[q].0@));
        lemma_round_keeps_named(t, news, main0.states@[q].0@);
    }
    assert forall|q: int, j: int| 0 <= q < main0.states@.len() && 0 <= j < main0.states@[q].1.statements@.len()
        implies (#[trigger] main0.states@[q].1.statements@[j] matches Statement::ExtAutomaton(e)
        ==> (table_get(keys0, e.name.value@) is Some ==> named_inlined(callee(keys0, e), t2))) by {
        if let Statement::ExtAutomaton(e) = main0.states@[q].1.statements@[j] {
            if table_get(keys0, e.name.value@) is Some {
                assert(t[q].1.statements@[j] == main0.states@[q].1.statements@[j]);
                let b = callee(au2, e);
                assert(inlined_in(b, news));
                lemma_prepared_get(keys0, au2, e.name.value@, 0);
                let a = callee(keys0, e);
                assert(prepared_rel(a, b));
                assert forall|k: int| 0 <= k < a.states@.len() implies #[trigger] state_named_inlined(a, k, t2) by {
                    assert(state_inlined_in(b, k, news));
                    let (x, c) = choose|x: int, c: u32| #[trigger] named_at(news, x, rename_text(c, b.states@[k].1.name.value@, b.name@));
                    lemma_states_set_named(states_without_calls(t), news, news[x].name.value@);
                    assert(has_named(t2, news[x].name.value@));
                    assert(b.states@[k].1.name == a.states@[k].1.name);
                    assert(has_named(t2, rename_text(c, a.states@[k].1.name.value@, a.name@)));
                }
                assert(named_inlined(a, t2));
            }
        }
    }
}

/// A prepared `main` whose states call no automaton keeps what `collapse_keeps` says of
/// `main0`.
proof fn lemma_first_keeps_none(keys0: Seq<(String, Automaton)>, main0: Automaton, m2: Automaton)
    requires
        prepared_rel(main0, m2),
        forall|k: int| 0 <= k < m2.states@.len() ==> !has_call(#[trigger] m2.states@[k].1),
    ensures
        collapse_keeps(keys0, main0, m2.states@),
{
    let t = m2.states@;
    assert forall|q: int| 0 <= q < main0.states@.len() && (#[trigger] main0.states@[q]).0@ == main0.states@[q].1.name.value@
        implies has_named(t, main0.states@[q].0@) by {
        assert(t[q].0 == main0.states@[q].0 && t[q].1.name == main0.states@[q].1.name);
    }
    assert forall|q: int, j: int| 0 <= q < main0.states@.len() && 0 <= j < main0.states@[q].1.statements@.len()
        implies (#[trigger] main0.states@[q].1.statements@[j] matches Statement::ExtAutomaton(e)
        ==> (table_get(keys0, e.name.value@) is Some ==> named_inlined(callee(keys0, e), t))) by {
        if main0.states@[q].1.statements@[j] is ExtAutomaton {
            assert(t[q].1.statements@[j] == main0.states@[q].1.statements@[j]);
            assert(has_call(t[q].1));
        }
    }
}

/// Collapses all the automata into `main`: the transitions are first given shared variables
/// (round 1) and made explicit, then, round after round, each call of an automaton in a
/// state of `main` is inlined, until none is left; only `main` stays. The counters number
/// the inlined automata and the variables of their inputs. A program whose calls still
/// go on after as many rounds as it has automata has a cycle of calls, reported as such.
/// An error of the first round is the one `first_round_failure` gives of the program as given.
/// A program whose `main` alone calls automata (`one_level`) and whose first round meets no
/// error is collapsed without error. On success the collapsed `main` keeps every state of the
/// `main` given (those kept under their own names) and holds, under their new names, the
/// states of every automaton that a state of it calls (`collapse_keeps`).
pub fn collapse_automata(prog: &mut Program, inline_counter: &mut u32, input_counter: &mut u32) -> (r: Result<(), CollapseAutomataError>)
    ensures
        (r matches Err(CollapseAutomataError::NoMainAutomaton)) <==> !table_has(old(prog).automata@, "main"@),
        first_round_failure(*old(prog)) matches Some(e) ==> r matches Err(x) && x == e,
        first_round_failure(*old(prog)) is None && one_level(*old(prog)) ==> r is Ok,
        r is Ok ==> {
            &&& final(prog).automata@.len() >= 1
            &&& forall|k: int| 0 <= k < final(prog).automata@.len() ==> (#[trigger] final(prog).automata@[k]).0@ == "main"@
            &&& forall|k: int| 0 <= k < final(prog).automata@[0].1.states@.len()
                ==> !has_call(#[trigger] final(prog).automata@[0].1.states@[k].1)
            &&& collapse_keeps(old(prog).automata@, table_get(old(prog).automata@, "main"@)->Some_0, final(prog).automata@[0].1.states@)
        },
{
    let ghost keys0 = old(prog).automata@;
    make_transitions_shared(prog, 1);
    let ghost au1 = prog.automata@;
    make_transitions_explicit(prog);
    assert(same_keys(keys0, prog.automata@));
    let ghost au2 = prog.automata@;
    proof {
        assert forall|k: int| 0 <= k < keys0.len() implies (#[trigger] au2[k]).0 == keys0[k].0 && prepared_rel(keys0[k].1, au2[k].1) by {
            let (a0, a1, a2) = (keys0[k].1, au1[k].1, au2[k].1);
            assert(shared_auto_rel(1, keys0[k].0@, a0, a1));
            assert(states_mapped(a1, a2, |s: State, t: State| explicit_rel(s, t)));
            assert forall|q: int| 0 <= q < a0.states@.len() implies {
                let (s, t) = (a0.states@[q].1, (#[trigger] a2.states@[q]).1);
                &&& a2.states@[q].0 == a0.states@[q].0
                &&& all_explicit(t.transitions@)
                &&& t.statements@.len() == s.statements@.len() + 1
                &&& (forall|j: int| 0 <= j < s.statements@.len() ==> #[trigger] t.statements@[j] == s.statements@[j])
                &&& !(t.statements@.last() is ExtAutomaton)
            } by {
                assert(shared_state_rel(a0, 1, a0.states@[q].0@, keys0[k].0@, a0.states@[q].1, a1.states@[q].1));
                assert(explicit_rel(a1.states@[q].1, a2.states@[q].1));
                lemma_explicit_rel_all(a1.states@[q].1, a2.states@[q].1);
            }
        }
        assert(prepared_tables(keys0, au2));
    }
    let ghost main0 = table_get(keys0, "main"@)->Some_0;
    let ghost mut first = true;
    let ghost ok_case = first_round_failure(*old(prog)) is None && one_level(*old(prog));
    let ghost mut mfirst: int = 0;
    let rounds = prog.automata.len();
    let mut round: usize = 0;
    let mut done = false;
    let mut exhausted = false;
    let mut last = String::new();
    let mut mi: usize = 0;
    while !done && !exhausted
        invariant
            same_keys(keys0, prog.automata@),
            keys0 == old(prog).automata@,
            round <= rounds,
            done ==> mi < prog.automata@.len() && prog.automata@[mi as int].0@ == "main"@
                && (forall|j: int| 0 <= j < mi ==> (#[trigger] prog.automata@[j]).0@ != "main"@)
                && (forall|k: int| 0 <= k < prog.automata@[mi as int].1.states@.len()
                    ==> !has_call(#[trigger] prog.automata@[mi as int].1.states@[k].1)),
            (done || exhausted) ==> table_has(keys0, "main"@),
            prepared_tables(keys0, au2),
            first ==> prog.automata@ == au2,
            !first ==> !(first_round_failure(*old(prog)) is Some),
            (done || exhausted) ==> !first,
            rounds == prog.automata@.len(),
            ok_case == (first_round_failure(*old(prog)) is None && one_level(*old(prog))),
            ok_case ==> !exhausted,
            first ==> round == 0,
            !first ==> 0 <= mfirst < prog.automata@.len() && prog.automata@[mfirst].0@ == "main"@
                && (forall|j: int| 0 <= j < mfirst ==> (#[trigger] prog.automata@[j]).0@ != "main"@),
            ok_case && !first && !done ==> calls_none(prog.automata@[mfirst].1),
            main0 == table_get(keys0, "main"@)->Some_0,
            !first ==> collapse_keeps(keys0, main0, prog.automata@[mfirst].1.states@),
            done ==> mi == mfirst,
        decreases rounds - round, (if done || exhausted { 0int } else { 1int }),
    {
        let m = match crate::util::tables::table_position(&prog.automata, "main") {
            Some(i) => i,
            None => {
                proof {
                    lemma_same_keys_has(keys0, prog.automata@, "main"@);
                    crate::util::tables::lemma_table_get_some(keys0, "main"@);
                }
                return Err(CollapseAutomataError::NoMainAutomaton);
            },
        };
        proof {
            crate::util::tables::lemma_table_get_some(prog.automata@, "main"@);
            lemma_same_keys_has(keys0, prog.automata@, "main"@);
        }
        proof {
            lemma_round_failure_has_main(prog.automata@, prog.automata@[m as int].1, 0, false);
            if first {
                lemma_prepared_get(keys0, au2, "main"@, 0);
                let a0 = table_get(keys0, "main"@)->0;
                lemma_prepared_round(keys0, au2, a0, au2[m as int].1, 0);
                assert(first_round_failure(*old(prog)) == round_failure_from(au2, au2[m as int].1, 0, false));
                if ok_case {
                    assert(prepared_rel(a0, au2[m as int].1));
                    assert forall|k: int| 0 <= k < au2.len() && (#[trigger] au2[k]).0@ != au2[m as int].1.name@ implies calls_none(au2[k].1) by {
                        assert(keys0[k].0 == au2[k].0);
                        assert(calls_none(keys0[k].1));
                        lemma_prepared_calls_none(keys0[k].1, au2[k].1);
                    }
                }
            } else {
                if (m as int) < mfirst {
                    assert(prog.automata@[m as int].0@ != "main"@);
                } else if (m as int) > mfirst {
                    assert(prog.automata@[mfirst].0@ != "main"@);
                }
            }
        }
        let ghost was_first = first;
        let ghost m2 = prog.automata@[m as int].1;
        proof {
            if first {
                lemma_prepared_get(keys0, au2, "main"@, 0);
                assert(prepared_rel(main0, m2));
            }
            first = false;
            mfirst = m as int;
        }
        match collapse_round(prog, m, inline_counter, input_counter) {
            Err(e) => {
                return Err(e);
            },
            Ok(None) => {
                proof {
                    if was_first {
                        lemma_first_keeps_none(keys0, main0, m2);
                    }
                }
                mi = m;
                done = true;
            },
            Ok(Some(res)) => {
                last = res.3.clone();
                let ghost pa = prog.automata@;
                let ghost news = res.0@;
                apply_round(&mut prog.automata[m].1, res);
                proof {
                    if was_first {
                        lemma_first_round_keeps(keys0, au2, main0, m2, news);
                    } else {
                        lemma_round_keeps(keys0, main0, m2.states@, news);
                    }
                    assert(prog.automata@[mfirst].1.states@ == states_set(states_without_calls(m2.states@), news));
                    assert(prog.automata@ == pa.update(m as int, (pa[m as int].0, prog.automata@[m as int].1)));
                    assert forall|j: int| 0 <= j < mfirst implies (#[trigger] prog.automata@[j]).0@ != "main"@ by {
                        assert(prog.automata@[j] == pa[j]);
                    }
                    assert(same_keys(keys0, prog.automata@)) by {
                        assert forall|k: int| 0 <= k < keys0.len() implies #[trigger] keys0[k].0 == prog.automata@[k].0 by {
                            assert(keys0[k].0 == pa[k].0);
                        }
                    }
                    if ok_case {
                        assert(was_first);
                        assert(round == 0 && rounds >= 1);
                    }
                }
                if round == rounds {
                    exhausted = true;
                } else {
                    round = round + 1;
                }
            },
        }
    }
    if !done {
        return Err(CollapseAutomataError::CyclicAutomatonCall(last));
    }
    let mut automata: Vec<(String, Automaton)> = Vec::new();
    std::mem::swap(&mut automata, &mut prog.automata);
    let ghost all = automata@;
    assert(all.len() <= usize::MAX);
    let mut kept: Vec<(String, Automaton)> = Vec::new();
    let mut rest = automata;
    let mut i: usize = 0;
    while rest.len() > 0
        invariant
            rest@ == all.subrange(i as int, all.len() as int),
            i <= all.len(),
            all.len() <= usize::MAX,
            mi < all.len(),
            all[mi as int].0@ == "main"@,
            forall|j: int| 0 <= j < mi ==> (#[trigger] all[j]).0@ != "main"@,
            forall|k: int| 0 <= k < kept@.len() ==> (#[trigger] kept@[k]).0@ == "main"@,
            i <= mi ==> kept@.len() == 0,
            i > mi ==> kept@.len() >= 1 && kept@[0] == all[mi as int],
        decreases rest@.len(),
    {
        assert(i < all.len());
        let (k, a) = rest.remove(0);
        assert((k, a) == all[i as int]);
        if crate::util::tables::string_eq_str(&k, "main") {
            kept.push((k, a));
        }
        i = i + 1;
    }
    prog.automata = kept;
    Ok(())
}

} // verus!
