//! Inlining of functions.
//!
//! Each call of a function in a state is replaced by the function's body: the call's
//! arguments are assigned to new variables, the body's constants are computed with the
//! call's static arguments, and its variables are renamed: its arguments and return
//! variables to those of the call, the others apart. As a body may call functions in turn,
//! this repeats until no call is left, or too many rounds went by.
use vstd::prelude::*;

use crate::ast::parse_ast::{
    Automaton, State, Const, ConstExpr, Expr, ExtAutomaton, FnAssign, FnCall, Function, IfStruct, Loc, Pos, Program,
    RamStruct, RomStruct, Statement, VarAssign, copy_const, copy_loc_const,
};
use crate::frontend::constants::{
    ComputeConstError, compute_const, const_fits_exec, compute_consts_in_statement, stmt_fits_exec, stmt_err, stmt_mapped,
    const_value, const_fits, int_result, expr_err, expr_fits, args_err_from, args_fit_from, assigns_err_from,
    assigns_fit_from, stmts_err_from, stmts_fit_from, stmt_fits,
};
use crate::frontend::hierarchical_automata::{copy_const_expr, copy_consts, copy_name, same_const_expr, table_models, last_entry, lemma_models_push};
use crate::util::tables::{table_get, table_has, table_lookup, table_set, table_insert, last_value, table_after, lemma_table_after_push};
use crate::util::text::{decimal, push_decimal, signed_decimal, push_signed_decimal};

verus! {

/// The number of rounds of inlining after which a call left is taken for an endless
/// recursion.
pub const REC_DEPTH: u32 = 1000;

/// What a call of a function has the wrong number of.
#[derive(Debug, Clone, Copy, PartialEq, Eq, Structural)]
pub enum WrongNumberType {
    Args,
    StaticArgs,
    ReturnVars,
}

impl WrongNumberType {
    /// The words for it in an error message.
    pub fn text(&self) -> (r: String)
        ensures
            r@ == (match *self {
                WrongNumberType::Args => "arguments"@,
                WrongNumberType::StaticArgs => "static arguments"@,
                WrongNumberType::ReturnVars => "return variables"@,
            }),
    {
        match self {
            WrongNumberType::Args => String::from_str("arguments"),
            WrongNumberType::StaticArgs => String::from_str("static arguments"),
            WrongNumberType::ReturnVars => String::from_str("return variables"),
        }
    }
}

/// The errors of the inlining of functions.
#[derive(Debug)]
pub enum ExpandFnError {
    /// A call left after `REC_DEPTH` rounds: the last function inlined.
    StackOverflow(Loc<String>),
    /// What, where, which function, how many expected, how many given.
    WrongNumber(WrongNumberType, Pos, String, usize, usize),
    ReplaceConstError(ComputeConstError),
    UnknowFunction(Pos, String),
}

/// The name of the variable holding the argument `arg` of a call of `fname` with the static
/// arguments written `params`, the call being number `counter`.
pub open spec fn arg_text(fname: Seq<char>, params: Seq<char>, arg: Seq<char>, counter: u32) -> Seq<char> {
    "$arg$"@ + fname + "$"@ + params + "$"@ + arg + "$"@ + decimal(counter as nat)
}

/// The name of the local variable `v` of the body of such a call.
pub open spec fn in_fn_text(fname: Seq<char>, params: Seq<char>, v: Seq<char>, counter: u32) -> Seq<char> {
    "$in_fn$"@ + fname + "$"@ + params + "$"@ + v + "$"@ + decimal(counter as nat)
}

/// How the variables of an inlined body are renamed: by `map` when it names them, else
/// apart with the function's name, the static arguments and the number of the call.
pub struct FnNaming {
    pub map: Seq<(String, String)>,
    pub fname: Seq<char>,
    pub params: Seq<char>,
    pub counter: u32,
}

impl FnNaming {
    /// The new name of `v`.
    pub open spec fn name(self, v: Seq<char>) -> Seq<char> {
        match table_get(self.map, v) {
            Some(x) => x@,
            None => in_fn_text(self.fname, self.params, v, self.counter),
        }
    }
}

/// `b` is `a` with its variables (not those under `last`) renamed by `nm`.
pub open spec fn fn_ren_expr(a: Expr, b: Expr, nm: FnNaming) -> bool
    decreases a,
{
    match (a, b) {
        (Expr::Var(v), Expr::Var(w)) => w.loc == v.loc && w.value@ == nm.name(v.value@),
        (Expr::Last(v), Expr::Last(w)) => w == v,
        (Expr::Const(c), Expr::Const(d)) => same_const_expr(c, d),
        (Expr::Not(e), Expr::Not(f)) => fn_ren_expr(*e, *f, nm),
        (Expr::Slice(e, c1, c2), Expr::Slice(f, d1, d2)) => f.loc == e.loc && fn_ren_expr(e.value, f.value, nm) && d1 == c1 && d2 == c2,
        (Expr::BiOp(op, e1, e2), Expr::BiOp(op2, f1, f2)) => {
            &&& op2 == op
            &&& f1.loc == e1.loc && fn_ren_expr(e1.value, f1.value, nm)
            &&& f2.loc == e2.loc && fn_ren_expr(e2.value, f2.value, nm)
        },
        (Expr::Mux(e1, e2, e3), Expr::Mux(f1, f2, f3)) => {
            &&& f1.loc == e1.loc && fn_ren_expr(e1.value, f1.value, nm)
            &&& f2.loc == e2.loc && fn_ren_expr(e2.value, f2.value, nm)
            &&& f3.loc == e3.loc && fn_ren_expr(e3.value, f3.value, nm)
        },
        (Expr::Reg(c, e), Expr::Reg(d, f)) => d == c && f.loc == e.loc && fn_ren_expr(e.value, f.value, nm),
        (Expr::Ram(r), Expr::Ram(q)) => {
            &&& q.read_addr.loc == r.read_addr.loc && fn_ren_expr(r.read_addr.value, q.read_addr.value, nm)
            &&& q.write_enable.loc == r.write_enable.loc && fn_ren_expr(r.write_enable.value, q.write_enable.value, nm)
            &&& q.write_addr.loc == r.write_addr.loc && fn_ren_expr(r.write_addr.value, q.write_addr.value, nm)
            &&& q.write_data.loc == r.write_data.loc && fn_ren_expr(r.write_data.value, q.write_data.value, nm)
        },
        (Expr::Rom(r), Expr::Rom(q)) => q.word_size == r.word_size && q.read_addr.loc == r.read_addr.loc
            && fn_ren_expr(r.read_addr.value, q.read_addr.value, nm),
        (Expr::FnCall(f), Expr::FnCall(g)) => {
            &&& g.name == f.name
            &&& g.static_args.loc == f.static_args.loc && g.static_args.value@ == f.static_args.value@
            &&& g.args.loc == f.args.loc
            &&& g.args.value@.len() == f.args.value@.len()
            &&& forall|i: int| 0 <= i < f.args.value@.len() ==> (#[trigger] g.args.value@[i]).loc == f.args.value@[i].loc
                && fn_ren_expr(f.args.value@[i].value, g.args.value@[i].value, nm)
        },
        _ => false,
    }
}

/// `b` is the located name `a` renamed by `nm`.
pub open spec fn fn_ren_var(a: Loc<String>, b: Loc<String>, nm: FnNaming) -> bool {
    b.loc == a.loc && b.value@ == nm.name(a.value@)
}

/// `b` is the statement `a` with its variables renamed by `nm`.
pub open spec fn fn_ren_stmt(a: Statement, b: Statement, nm: FnNaming) -> bool
    decreases a,
{
    match (a, b) {
        (Statement::Assign(v), Statement::Assign(w)) => {
            &&& w@.len() == v@.len()
            &&& forall|i: int| 0 <= i < v@.len() ==> fn_ren_var((#[trigger] v@[i]).var, w@[i].var, nm)
                && w@[i].expr.loc == v@[i].expr.loc && fn_ren_expr(v@[i].expr.value, w@[i].expr.value, nm)
        },
        (Statement::If(i), Statement::If(j)) => {
            &&& j.condition == i.condition
            &&& j.if_block@.len() == i.if_block@.len()
            &&& j.else_block@.len() == i.else_block@.len()
            &&& forall|k: int| 0 <= k < i.if_block@.len() ==> fn_ren_stmt(#[trigger] i.if_block@[k], j.if_block@[k], nm)
            &&& forall|k: int| 0 <= k < i.else_block@.len() ==> fn_ren_stmt(#[trigger] i.else_block@[k], j.else_block@[k], nm)
        },
        (Statement::FnAssign(fa), Statement::FnAssign(fb)) => {
            &&& fb.vars@.len() == fa.vars@.len()
            &&& forall|i: int| 0 <= i < fa.vars@.len() ==> fn_ren_var(#[trigger] fa.vars@[i], fb.vars@[i], nm)
            &&& fn_ren_expr(Expr::FnCall(fa.f), Expr::FnCall(fb.f), nm)
        },
        (Statement::ExtAutomaton(e), Statement::ExtAutomaton(f)) => {
            &&& f.name == e.name
            &&& f.inputs.loc == e.inputs.loc
            &&& f.inputs.value@.len() == e.inputs.value@.len()
            &&& forall|i: int| 0 <= i < e.inputs.value@.len() ==> (#[trigger] f.inputs.value@[i]).loc == e.inputs.value@[i].loc
                && fn_ren_expr(e.inputs.value@[i].value, f.inputs.value@[i].value, nm)
            &&& f.outputs.loc == e.outputs.loc
            &&& f.outputs.value@.len() == e.outputs.value@.len()
            &&& forall|i: int| 0 <= i < e.outputs.value@.len() ==> fn_ren_var(#[trigger] e.outputs.value@[i], f.outputs.value@[i], nm)
        },
        _ => false,
    }
}

/// The naming with `map`, `fname`, `params` and `counter`.
pub open spec fn naming(map: Seq<(String, String)>, fname: Seq<char>, params: Seq<char>, counter: u32) -> FnNaming {
    FnNaming { map, fname, params, counter }
}

/// The local name of `v` in a body; see `in_fn_text`.
fn in_fn_name(fname: &str, params: &str, v: &str, counter: u32) -> (r: String)
    ensures
        r@ == in_fn_text(fname@, params@, v@, counter),
{
    let mut s = String::from_str("$in_fn$");
    s.append(fname);
    s.append("$");
    s.append(params);
    s.append("$");
    s.append(v);
    s.append("$");
    push_decimal(&mut s, counter as usize);
    s
}

/// Renames a located name; see `FnNaming::name`.
fn map_var(v: &Loc<String>, map: &Vec<(String, String)>, fname: &str, params: &str, counter: u32) -> (r: Loc<String>)
    ensures
        fn_ren_var(*v, r, naming(map@, fname@, params@, counter)),
{
    match table_lookup(map, v.value.as_str()) {
        Some(x) => Loc { loc: v.loc, value: x.clone() },
        None => Loc { loc: v.loc, value: in_fn_name(fname, params, v.value.as_str(), counter) },
    }
}

/// Renames the variables of a located expression.
fn map_vars_in_loc(e: &Loc<Expr>, map: &Vec<(String, String)>, fname: &str, params: &str, counter: u32) -> (r: Box<Loc<Expr>>)
    ensures
        r.loc == e.loc,
        fn_ren_expr(e.value, r.value, naming(map@, fname@, params@, counter)),
    decreases e.value, 3int,
{
    Box::new(Loc { loc: e.loc, value: map_vars_in_expr(&e.value, map, fname, params, counter) })
}

/// Renames the variables of the arguments of a call.
fn map_vars_in_list(
    args: &Vec<Loc<Expr>>,
    map: &Vec<(String, String)>,
    fname: &str,
    params: &str,
    counter: u32,
    Ghost(parent): Ghost<Expr>,
) -> (r: Vec<Loc<Expr>>)
    requires
        forall|i: int| 0 <= i < args@.len() ==> decreases_to!(parent => (#[trigger] args@[i]).value),
    ensures
        r@.len() == args@.len(),
        forall|i: int| 0 <= i < args@.len() ==> (#[trigger] r@[i]).loc == args@[i].loc
            && fn_ren_expr(args@[i].value, r@[i].value, naming(map@, fname@, params@, counter)),
    decreases parent, 0int,
{
    let mut r: Vec<Loc<Expr>> = Vec::new();
    let mut i: usize = 0;
    while i < args.len()
        invariant
            i <= args@.len(),
            forall|k: int| 0 <= k < args@.len() ==> decreases_to!(parent => (#[trigger] args@[k]).value),
            r@.len() == i,
            forall|k: int| 0 <= k < i ==> (#[trigger] r@[k]).loc == args@[k].loc
                && fn_ren_expr(args@[k].value, r@[k].value, naming(map@, fname@, params@, counter)),
        decreases args@.len() - i,
    {
        assert(decreases_to!(parent => args@[i as int].value));
        let e = map_vars_in_expr(&args[i].value, map, fname, params, counter);
        r.push(Loc { loc: args[i].loc, value: e });
        i = i + 1;
    }
    r
}

/// Renames the variables of an expression, those under `last` excepted: those of `map` by
/// it, the others apart; see `fn_ren_expr`.
pub fn map_vars_in_expr(expr: &Expr, map: &Vec<(String, String)>, fname: &str, params: &str, counter: u32) -> (r: Expr)
    ensures
        fn_ren_expr(*expr, r, naming(map@, fname@, params@, counter)),
    decreases *expr, 2int,
{
    match expr {
        Expr::Var(v) => Expr::Var(map_var(v, map, fname, params, counter)),
        Expr::Last(v) => Expr::Last(copy_name(v)),
        Expr::Const(c) => Expr::Const(copy_const_expr(c)),
        Expr::Not(e) => Expr::Not(Box::new(map_vars_in_expr(e, map, fname, params, counter))),
        Expr::Slice(e, c1, c2) => Expr::Slice(
            map_vars_in_loc(e, map, fname, params, counter),
            crate::frontend::hierarchical_automata::copy_opt_const(c1),
            crate::frontend::hierarchical_automata::copy_opt_const(c2),
        ),
        Expr::BiOp(op, e1, e2) => Expr::BiOp(*op, map_vars_in_loc(e1, map, fname, params, counter), map_vars_in_loc(e2, map, fname, params, counter)),
        Expr::Mux(e1, e2, e3) => Expr::Mux(
            map_vars_in_loc(e1, map, fname, params, counter),
            map_vars_in_loc(e2, map, fname, params, counter),
            map_vars_in_loc(e3, map, fname, params, counter),
        ),
        Expr::Reg(c, e) => Expr::Reg(copy_loc_const(c), map_vars_in_loc(e, map, fname, params, counter)),
        Expr::Ram(r) => Expr::Ram(RamStruct {
            read_addr: map_vars_in_loc(&r.read_addr, map, fname, params, counter),
            write_enable: map_vars_in_loc(&r.write_enable, map, fname, params, counter),
            write_addr: map_vars_in_loc(&r.write_addr, map, fname, params, counter),
            write_data: map_vars_in_loc(&r.write_data, map, fname, params, counter),
        }),
        Expr::Rom(r) => Expr::Rom(RomStruct {
            word_size: copy_const(&r.word_size),
            read_addr: map_vars_in_loc(&r.read_addr, map, fname, params, counter),
        }),
        Expr::FnCall(f) => {
            let args = map_vars_in_list(&f.args.value, map, fname, params, counter, Ghost(*expr));
            Expr::FnCall(FnCall {
                name: copy_name(&f.name),
                args: Loc { loc: f.args.loc, value: args },
                static_args: Loc { loc: f.static_args.loc, value: copy_consts(&f.static_args.value) },
            })
        },
    }
}

/// Renames the variables of the expressions of a statement.
fn map_vars_in_args(args: &Vec<Loc<Expr>>, map: &Vec<(String, String)>, fname: &str, params: &str, counter: u32) -> (r: Vec<Loc<Expr>>)
    ensures
        r@.len() == args@.len(),
        forall|i: int| 0 <= i < args@.len() ==> (#[trigger] r@[i]).loc == args@[i].loc
            && fn_ren_expr(args@[i].value, r@[i].value, naming(map@, fname@, params@, counter)),
{
    let mut r: Vec<Loc<Expr>> = Vec::new();
    let mut i: usize = 0;
    while i < args.len()
        invariant
            i <= args@.len(),
            r@.len() == i,
            forall|k: int| 0 <= k < i ==> (#[trigger] r@[k]).loc == args@[k].loc
                && fn_ren_expr(args@[k].value, r@[k].value, naming(map@, fname@, params@, counter)),
        decreases args@.len() - i,
    {
        let e = map_vars_in_expr(&args[i].value, map, fname, params, counter);
        r.push(Loc { loc: args[i].loc, value: e });
        i = i + 1;
    }
    r
}

/// Renames a list of located names.
fn map_var_list(v: &Vec<Loc<String>>, map: &Vec<(String, String)>, fname: &str, params: &str, counter: u32) -> (r: Vec<Loc<String>>)
    ensures
        r@.len() == v@.len(),
        forall|i: int| 0 <= i < v@.len() ==> fn_ren_var(#[trigger] v@[i], r@[i], naming(map@, fname@, params@, counter)),
{
    let mut r: Vec<Loc<String>> = Vec::new();
    let mut i: usize = 0;
    while i < v.len()
        invariant
            i <= v@.len(),
            r@.len() == i,
            forall|k: int| 0 <= k < i ==> fn_ren_var(#[trigger] v@[k], r@[k], naming(map@, fname@, params@, counter)),
        decreases v@.len() - i,
    {
        r.push(map_var(&v[i], map, fname, params, counter));
        i = i + 1;
    }
    r
}

/// Renames the variables of a block.
fn map_vars_in_block(
    b: &Vec<Statement>,
    map: &Vec<(String, String)>,
    fname: &str,
    params: &str,
    counter: u32,
    Ghost(parent): Ghost<Statement>,
) -> (r: Vec<Statement>)
    requires
        forall|i: int| 0 <= i < b@.len() ==> decreases_to!(parent => #[trigger] b@[i]),
    ensures
        r@.len() == b@.len(),
        forall|i: int| 0 <= i < b@.len() ==> fn_ren_stmt(#[trigger] b@[i], r@[i], naming(map@, fname@, params@, counter)),
    decreases parent, 0int,
{
    let mut r: Vec<Statement> = Vec::new();
    let mut i: usize = 0;
    while i < b.len()
        invariant
            i <= b@.len(),
            forall|k: int| 0 <= k < b@.len() ==> decreases_to!(parent => #[trigger] b@[k]),
            r@.len() == i,
            forall|k: int| 0 <= k < i ==> fn_ren_stmt(#[trigger] b@[k], r@[k], naming(map@, fname@, params@, counter)),
        decreases b@.len() - i,
    {
        assert(decreases_to!(parent => b@[i as int]));
        r.push(map_vars_in_statement(&b[i], map, fname, params, counter));
        i = i + 1;
    }
    r
}

/// Renames the variables of a statement, its assigned variables included; see
/// `fn_ren_stmt`.
pub fn map_vars_in_statement(statement: &Statement, map: &Vec<(String, String)>, fname: &str, params: &str, counter: u32) -> (r: Statement)
    ensures
        fn_ren_stmt(*statement, r, naming(map@, fname@, params@, counter)),
    decreases *statement, 1int,
{
    match statement {
        Statement::Assign(v) => {
            let mut w: Vec<VarAssign> = Vec::new();
            let mut i: usize = 0;
            while i < v.len()
                invariant
                    i <= v@.len(),
                    w@.len() == i,
                    forall|k: int| 0 <= k < i ==> fn_ren_var((#[trigger] v@[k]).var, w@[k].var, naming(map@, fname@, params@, counter))
                        && w@[k].expr.loc == v@[k].expr.loc && fn_ren_expr(v@[k].expr.value, w@[k].expr.value, naming(map@, fname@, params@, counter)),
                decreases v@.len() - i,
            {
                let a = &v[i];
                let var = map_var(&a.var, map, fname, params, counter);
                let e = map_vars_in_expr(&a.expr.value, map, fname, params, counter);
                w.push(VarAssign { var, expr: Loc { loc: a.expr.loc, value: e } });
                i = i + 1;
            }
            Statement::Assign(w)
        },
        Statement::If(i) => {
            let if_block = map_vars_in_block(&i.if_block, map, fname, params, counter, Ghost(*statement));
            let else_block = map_vars_in_block(&i.else_block, map, fname, params, counter, Ghost(*statement));
            Statement::If(IfStruct { condition: copy_const(&i.condition), if_block, else_block })
        },
        Statement::FnAssign(fa) => {
            let vars = map_var_list(&fa.vars, map, fname, params, counter);
            let args = map_vars_in_args(&fa.f.args.value, map, fname, params, counter);
            Statement::FnAssign(FnAssign {
                vars,
                f: FnCall {
                    name: copy_name(&fa.f.name),
                    args: Loc { loc: fa.f.args.loc, value: args },
                    static_args: Loc { loc: fa.f.static_args.loc, value: copy_consts(&fa.f.static_args.value) },
                },
            })
        },
        Statement::ExtAutomaton(e) => {
            let inputs = map_vars_in_args(&e.inputs.value, map, fname, params, counter);
            let outputs = map_var_list(&e.outputs.value, map, fname, params, counter);
            Statement::ExtAutomaton(ExtAutomaton {
                inputs: Loc { loc: e.inputs.loc, value: inputs },
                outputs: Loc { loc: e.outputs.loc, value: outputs },
                name: copy_name(&e.name),
            })
        },
    }
}


/// Renaming variables changes neither the errors nor the fitting of the constants of an
/// expression.
pub proof fn lemma_ren_expr_consts(a: Expr, b: Expr, nm: FnNaming, consts: Seq<(String, Const)>)
    requires
        fn_ren_expr(a, b, nm),
    ensures
        expr_err(a, consts, None) == expr_err(b, consts, None),
        expr_fits(a, consts, None) == expr_fits(b, consts, None),
    decreases a, 1int, 0int,
{
    match (a, b) {
        (Expr::Not(x), Expr::Not(y)) => lemma_ren_expr_consts(*x, *y, nm, consts),
        (Expr::Slice(x, _, _), Expr::Slice(y, _, _)) => lemma_ren_expr_consts(x.value, y.value, nm, consts),
        (Expr::BiOp(_, x1, x2), Expr::BiOp(_, y1, y2)) => {
            lemma_ren_expr_consts(x1.value, y1.value, nm, consts);
            lemma_ren_expr_consts(x2.value, y2.value, nm, consts);
        },
        (Expr::Mux(x1, x2, x3), Expr::Mux(y1, y2, y3)) => {
            lemma_ren_expr_consts(x1.value, y1.value, nm, consts);
            lemma_ren_expr_consts(x2.value, y2.value, nm, consts);
            lemma_ren_expr_consts(x3.value, y3.value, nm, consts);
        },
        (Expr::Reg(_, x), Expr::Reg(_, y)) => lemma_ren_expr_consts(x.value, y.value, nm, consts),
        (Expr::Ram(x), Expr::Ram(y)) => {
            lemma_ren_expr_consts(x.read_addr.value, y.read_addr.value, nm, consts);
            lemma_ren_expr_consts(x.write_enable.value, y.write_enable.value, nm, consts);
            lemma_ren_expr_consts(x.write_addr.value, y.write_addr.value, nm, consts);
            lemma_ren_expr_consts(x.write_data.value, y.write_data.value, nm, consts);
        },
        (Expr::Rom(x), Expr::Rom(y)) => lemma_ren_expr_consts(x.read_addr.value, y.read_addr.value, nm, consts),
        (Expr::FnCall(f), Expr::FnCall(g)) => {
            lemma_ren_list_consts(f.args.value@, g.args.value@, nm, consts, 0, a);
        },
        _ => {},
    }
}

/// The same for the arguments of a call, from index `i` on.
proof fn lemma_ren_list_consts(s: Seq<Loc<Expr>>, t: Seq<Loc<Expr>>, nm: FnNaming, consts: Seq<(String, Const)>, i: int, parent: Expr)
    requires
        0 <= i,
        s.len() == t.len(),
        forall|k: int| 0 <= k < s.len() ==> decreases_to!(parent => (#[trigger] s[k]).value),
        forall|k: int| 0 <= k < s.len() ==> fn_ren_expr((#[trigger] s[k]).value, t[k].value, nm),
    ensures
        args_err_from(s, i, consts, None) == args_err_from(t, i, consts, None),
        args_fit_from(s, i, consts, None) == args_fit_from(t, i, consts, None),
    decreases parent, 0int, s.len() - i,
{
    if i < s.len() {
        assert(decreases_to!(parent => s[i].value));
        lemma_ren_expr_consts(s[i].value, t[i].value, nm, consts);
        lemma_ren_list_consts(s, t, nm, consts, i + 1, parent);
    }
}

/// The same for the expressions of a statement, from index `i` on.
proof fn lemma_ren_args_consts(s: Seq<Loc<Expr>>, t: Seq<Loc<Expr>>, nm: FnNaming, consts: Seq<(String, Const)>, i: int)
    requires
        0 <= i,
        s.len() == t.len(),
        forall|k: int| 0 <= k < s.len() ==> fn_ren_expr((#[trigger] s[k]).value, t[k].value, nm),
    ensures
        args_err_from(s, i, consts, None) == args_err_from(t, i, consts, None),
        args_fit_from(s, i, consts, None) == args_fit_from(t, i, consts, None),
    decreases s.len() - i,
{
    if i < s.len() {
        lemma_ren_expr_consts(s[i].value, t[i].value, nm, consts);
        lemma_ren_args_consts(s, t, nm, consts, i + 1);
    }
}

/// The same for the assignments of a statement, from index `i` on.
proof fn lemma_ren_assigns_consts(s: Seq<VarAssign>, t: Seq<VarAssign>, nm: FnNaming, consts: Seq<(String, Const)>, i: int)
    requires
        0 <= i,
        s.len() == t.len(),
        forall|k: int| 0 <= k < s.len() ==> fn_ren_expr((#[trigger] s[k]).expr.value, t[k].expr.value, nm),
    ensures
        assigns_err_from(s, i, consts, None) == assigns_err_from(t, i, consts, None),
        assigns_fit_from(s, i, consts, None) == assigns_fit_from(t, i, consts, None),
    decreases s.len() - i,
{
    if i < s.len() {
        lemma_ren_expr_consts(s[i].expr.value, t[i].expr.value, nm, consts);
        lemma_ren_assigns_consts(s, t, nm, consts, i + 1);
    }
}

/// Renaming variables changes neither the errors nor the fitting of the constants of a
/// statement.
pub proof fn lemma_ren_stmt_consts(a: Statement, b: Statement, nm: FnNaming, consts: Seq<(String, Const)>)
    requires
        fn_ren_stmt(a, b, nm),
    ensures
        stmt_err(a, consts, None) == stmt_err(b, consts, None),
        stmt_fits(a, consts, None) == stmt_fits(b, consts, None),
    decreases a, 1int, 0int,
{
    match (a, b) {
        (Statement::Assign(v), Statement::Assign(w)) => {
            assert forall|k: int| 0 <= k < v@.len() implies fn_ren_expr((#[trigger] v@[k]).expr.value, w@[k].expr.value, nm) by {}
            lemma_ren_assigns_consts(v@, w@, nm, consts, 0);
        },
        (Statement::If(i), Statement::If(j)) => {
            lemma_ren_block_consts(i.if_block@, j.if_block@, nm, consts, 0, a);
            lemma_ren_block_consts(i.else_block@, j.else_block@, nm, consts, 0, a);
        },
        (Statement::FnAssign(fa), Statement::FnAssign(fb)) => {
            lemma_ren_args_consts(fa.f.args.value@, fb.f.args.value@, nm, consts, 0);
        },
        (Statement::ExtAutomaton(e), Statement::ExtAutomaton(f)) => {
            lemma_ren_args_consts(e.inputs.value@, f.inputs.value@, nm, consts, 0);
        },
        _ => {},
    }
}

/// The same for a block, from index `i` on.
proof fn lemma_ren_block_consts(s: Seq<Statement>, t: Seq<Statement>, nm: FnNaming, consts: Seq<(String, Const)>, i: int, parent: Statement)
    requires
        0 <= i,
        s.len() == t.len(),
        forall|k: int| 0 <= k < s.len() ==> decreases_to!(parent => #[trigger] s[k]),
        forall|k: int| 0 <= k < s.len() ==> fn_ren_stmt(#[trigger] s[k], t[k], nm),
    ensures
        stmts_err_from(s, i, consts, None) == stmts_err_from(t, i, consts, None),
        stmts_fit_from(s, i, consts, None) == stmts_fit_from(t, i, consts, None),
    decreases parent, 0int, s.len() - i,
{
    if i < s.len() {
        assert(decreases_to!(parent => s[i]));
        lemma_ren_stmt_consts(s[i], t[i], nm, consts);
        lemma_ren_block_consts(s, t, nm, consts, i + 1, parent);
    }
}


/// The static arguments by name: the `j` first names of the function, each set to the
/// constant the call gives (a later one for a name replacing an earlier one).
pub open spec fn static_table(names: Seq<String>, consts: Seq<Const>, j: int) -> Seq<(String, Const)>
    decreases j,
{
    if j <= 0 || j > names.len() || j > consts.len() {
        Seq::empty()
    } else {
        table_set(static_table(names, consts, j - 1), names[j - 1], consts[j - 1])
    }
}

/// The writing of the static arguments that are values: `name_value|` for each, in the
/// order of the table.
pub open spec fn params_text(t: Seq<(String, Const)>, j: int) -> Seq<char>
    decreases j,
{
    if j <= 0 || j > t.len() {
        Seq::empty()
    } else {
        params_text(t, j - 1) + match t[j - 1].1 {
            Const::Value(i) => t[j - 1].0@ + "_"@ + signed_decimal(i as int) + "|"@,
            _ => Seq::empty(),
        }
    }
}

/// The first failure computing the first `j` static arguments (alone): a value that does
/// not fit in an `i32` (reported with the function's name), or an error.
pub open spec fn statics_outcome(consts: Seq<Const>, j: int, fname: String) -> Option<ComputeConstError>
    decreases j,
{
    if j <= 0 || j > consts.len() {
        None
    } else {
        match statics_outcome(consts, j - 1, fname) {
            Some(e) => Some(e),
            None => if !const_fits(consts[j - 1], Seq::empty()) {
                Some(ComputeConstError::Overflow(fname))
            } else {
                match const_value(consts[j - 1], Seq::empty()) {
                    Err(e) => Some(e),
                    Ok(_) => None,
                }
            },
        }
    }
}

/// The first failure computing the constants of the first `j` statements of a body with the
/// static arguments `tbl`: a value that does not fit in an `i32`, or an error.
pub open spec fn body_outcome(stmts: Seq<Statement>, tbl: Seq<(String, Const)>, j: int, fname: String) -> Option<ComputeConstError>
    decreases j,
{
    if j <= 0 || j > stmts.len() {
        None
    } else {
        match body_outcome(stmts, tbl, j - 1, fname) {
            Some(e) => Some(e),
            None => if !stmt_fits(stmts[j - 1], tbl, None) {
                Some(ComputeConstError::Overflow(fname))
            } else {
                stmt_err(stmts[j - 1], tbl, None)
            },
        }
    }
}

/// The static arguments of a call of `func`, by name.
pub open spec fn call_table(func: Function, call: FnCall) -> Seq<(String, Const)> {
    static_table(func.static_args@, call.static_args.value@, func.static_args@.len() as int)
}

/// The writing of the static arguments of a call of `func`.
pub open spec fn call_params(func: Function, call: FnCall) -> Seq<char> {
    let t = call_table(func, call);
    params_text(t, t.len() as int)
}

/// The error of inlining `func` at `call` with `outputs`, if any, in the order of the
/// checks: the numbers of static arguments, of arguments and of outputs, then the static
/// arguments, then the constants of the body.
pub open spec fn inline_err(func: Function, call: FnCall, outputs: Loc<Vec<Loc<String>>>) -> Option<ExpandFnError> {
    inline_err_at(func, call, outputs.loc, outputs.value@.len() as int)
}

/// `inline_err`, for `n` outputs written at `loc`.
pub open spec fn inline_err_at(func: Function, call: FnCall, loc: Pos, n: int) -> Option<ExpandFnError> {
    let fname = func.name.value;
    if call.static_args.value@.len() != func.static_args@.len() {
        Some(ExpandFnError::WrongNumber(
            WrongNumberType::StaticArgs,
            call.static_args.loc,
            fname,
            func.static_args@.len() as usize,
            call.static_args.value@.len() as usize,
        ))
    } else if call.args.value@.len() != func.args@.len() {
        Some(ExpandFnError::WrongNumber(WrongNumberType::Args, call.args.loc, fname, func.args@.len() as usize, call.args.value@.len() as usize))
    } else if n != func.return_vars@.len() {
        Some(ExpandFnError::WrongNumber(
            WrongNumberType::ReturnVars,
            loc,
            fname,
            func.return_vars@.len() as usize,
            n as usize,
        ))
    } else {
        match statics_outcome(call.static_args.value@, call.static_args.value@.len() as int, fname) {
            Some(e) => Some(ExpandFnError::ReplaceConstError(e)),
            None => match body_outcome(func.statements@, call_table(func, call), func.statements@.len() as int, fname) {
                Some(e) => Some(ExpandFnError::ReplaceConstError(e)),
                None => None,
            },
        }
    }
}

/// The renaming entries of an inlined body, in the order they are set: its arguments to the
/// variables holding the call's arguments, its return variables to the call's outputs.
pub open spec fn fn_entries(func: Function, outputs: Seq<Loc<String>>, params: Seq<char>, c: u32) -> Seq<(Seq<char>, Seq<char>)> {
    Seq::new(func.args@.len(), |k: int| (func.args@[k].name@, arg_text(func.name.value@, params, func.args@[k].name@, c)))
        + Seq::new(func.return_vars@.len(), |k: int| (func.return_vars@[k].name@, outputs[k].value@))
}

/// The new name of `v` in the inlined body: by its last entry, else apart.
pub open spec fn fn_var_name(func: Function, outputs: Seq<Loc<String>>, params: Seq<char>, c: u32, v: Seq<char>) -> Seq<char> {
    match last_entry(fn_entries(func, outputs, params, c), v) {
        Some(x) => x,
        None => in_fn_text(func.name.value@, params, v, c),
    }
}

/// The sizes required of the variables holding the first `j` arguments, when given by values.
pub open spec fn arg_types(func: Function, params: Seq<char>, c: u32, j: int) -> Seq<(Seq<char>, (i32, Pos))>
    decreases j,
{
    if j <= 0 || j > func.args@.len() {
        Seq::empty()
    } else {
        let a = func.args@[j - 1];
        arg_types(func, params, c, j - 1) + match a.size.value {
            Const::Value(s) => seq![(arg_text(func.name.value@, params, a.name@, c), (s, a.size.loc))],
            _ => Seq::empty(),
        }
    }
}

/// The sizes required of the first `j` outputs, when given by values.
pub open spec fn out_types(func: Function, outputs: Seq<Loc<String>>, j: int) -> Seq<(Seq<char>, (i32, Pos))>
    decreases j,
{
    if j <= 0 || j > func.return_vars@.len() || j > outputs.len() {
        Seq::empty()
    } else {
        let a = func.return_vars@[j - 1];
        out_types(func, outputs, j - 1) + match a.size.value {
            Const::Value(s) => seq![(outputs[j - 1].value@, (s, a.size.loc))],
            _ => Seq::empty(),
        }
    }
}

/// The body in `added` is renamed by `nm`, which renames as `fn_var_name`.
pub open spec fn body_named(func: Function, call: FnCall, outputs: Seq<Loc<String>>, c: u32, added: Seq<Statement>, nm: FnNaming) -> bool {
    let params = call_params(func, call);
    let k0: int = if call.args.value@.len() > 0 { 1 } else { 0 };
    &&& forall|v: Seq<char>| #[trigger] nm.name(v) == fn_var_name(func, outputs, params, c, v)
    &&& nm.fname == func.name.value@
    &&& nm.params == params
    &&& nm.counter == c
    &&& body_rel(func.statements@, nm, added, k0, call_table(func, call))
}

/// The statements an inlined call adds: the assignment of the arguments to their variables
/// (when there are arguments), then the body, each statement renamed by a naming that
/// renames as `fn_var_name`, its constants computed with the static arguments.
pub open spec fn inlined_rel(func: Function, call: FnCall, outputs: Seq<Loc<String>>, c: u32, added: Seq<Statement>) -> bool {
    let params = call_params(func, call);
    let k0: int = if call.args.value@.len() > 0 { 1 } else { 0 };
    &&& added.len() == k0 + func.statements@.len()
    &&& call.args.value@.len() > 0 ==> (added[0] matches Statement::Assign(w) && {
        &&& w@.len() == call.args.value@.len()
        &&& forall|i: int| 0 <= i < w@.len() ==> {
            &&& (#[trigger] w@[i]).var.loc == call.args.value@[i].loc
            &&& w@[i].var.value@ == arg_text(func.name.value@, params, func.args@[i].name@, c)
            &&& w@[i].expr == call.args.value@[i]
        }
    })
    &&& exists|nm: FnNaming| #[trigger] body_named(func, call, outputs, c, added, nm)
}


/// The name of the variable holding an argument; see `arg_text`.
fn arg_name(fname: &str, params: &str, arg: &str, counter: u32) -> (r: String)
    ensures
        r@ == arg_text(fname@, params@, arg@, counter),
{
    let mut s = String::from_str("$arg$");
    s.append(fname);
    s.append("$");
    s.append(params);
    s.append("$");
    s.append(arg);
    s.append("$");
    push_decimal(&mut s, counter as usize);
    s
}

/// The error of the checks of a call before its body, if any: the numbers of static
/// arguments, of arguments and of outputs, then the static arguments.
pub open spec fn call_err(func: Function, call: FnCall, outputs: Loc<Vec<Loc<String>>>) -> Option<ExpandFnError> {
    let fname = func.name.value;
    if call.static_args.value@.len() != func.static_args@.len() {
        Some(ExpandFnError::WrongNumber(
            WrongNumberType::StaticArgs,
            call.static_args.loc,
            fname,
            func.static_args@.len() as usize,
            call.static_args.value@.len() as usize,
        ))
    } else if call.args.value@.len() != func.args@.len() {
        Some(ExpandFnError::WrongNumber(WrongNumberType::Args, call.args.loc, fname, func.args@.len() as usize, call.args.value@.len() as usize))
    } else if outputs.value@.len() != func.return_vars@.len() {
        Some(ExpandFnError::WrongNumber(
            WrongNumberType::ReturnVars,
            outputs.loc,
            fname,
            func.return_vars@.len() as usize,
            outputs.value@.len() as usize,
        ))
    } else {
        match statics_outcome(call.static_args.value@, call.static_args.value@.len() as int, fname) {
            Some(e) => Some(ExpandFnError::ReplaceConstError(e)),
            None => None,
        }
    }
}

/// Checks a call before its body; gives its static arguments by name.
fn check_call(func: &Function, fncall: &FnCall, outputs: &Loc<Vec<Loc<String>>>) -> (r: Result<Vec<(String, Const)>, ExpandFnError>)
    ensures
        match call_err(*func, *fncall, *outputs) {
            Some(e) => r == Err::<Vec<(String, Const)>, ExpandFnError>(e),
            None => r matches Ok(t) && t@ == call_table(*func, *fncall),
        },
{
    if fncall.static_args.value.len() != func.static_args.len() {
        return Err(ExpandFnError::WrongNumber(
            WrongNumberType::StaticArgs,
            fncall.static_args.loc,
            func.name.value.clone(),
            func.static_args.len(),
            fncall.static_args.value.len(),
        ));
    }
    if fncall.args.value.len() != func.args.len() {
        return Err(ExpandFnError::WrongNumber(
            WrongNumberType::Args,
            fncall.args.loc,
            func.name.value.clone(),
            func.args.len(),
            fncall.args.value.len(),
        ));
    }
    if outputs.value.len() != func.return_vars.len() {
        return Err(ExpandFnError::WrongNumber(
            WrongNumberType::ReturnVars,
            outputs.loc,
            func.name.value.clone(),
            func.return_vars.len(),
            outputs.value.len(),
        ));
    }
    let empty: Vec<(String, Const)> = Vec::new();
    let mut tbl: Vec<(String, Const)> = Vec::new();
    let ns = fncall.static_args.value.len();
    let mut i: usize = 0;
    while i < ns
        invariant
            i <= ns,
            ns == fncall.static_args.value@.len(),
            ns == func.static_args@.len(),
            fncall.args.value@.len() == func.args@.len(),
            outputs.value@.len() == func.return_vars@.len(),
            empty@ == Seq::<(String, Const)>::empty(),
            statics_outcome(fncall.static_args.value@, i as int, func.name.value) is None,
            tbl@ == static_table(func.static_args@, fncall.static_args.value@, i as int),
        decreases ns - i,
    {
        let c = &fncall.static_args.value[i];
        if !const_fits_exec(c, &empty) {
            proof {
                lemma_statics_err(fncall.static_args.value@, i as int + 1, ns as int, func.name.value);
            }
            return Err(ExpandFnError::ReplaceConstError(ComputeConstError::Overflow(func.name.value.clone())));
        }
        match compute_const(c, &empty) {
            Err(e) => {
                proof {
                    lemma_statics_err(fncall.static_args.value@, i as int + 1, ns as int, func.name.value);
                }
                return Err(ExpandFnError::ReplaceConstError(e));
            },
            Ok(_) => {},
        }
        table_insert(&mut tbl, func.static_args[i].clone(), copy_const(c));
        i = i + 1;
    }
    Ok(tbl)
}

/// The writing of the static arguments; see `params_text`.
fn params_string(tbl: &Vec<(String, Const)>) -> (r: String)
    ensures
        r@ == params_text(tbl@, tbl@.len() as int),
{
    let mut params = String::new();
    let mut i: usize = 0;
    while i < tbl.len()
        invariant
            i <= tbl@.len(),
            params@ == params_text(tbl@, i as int),
        decreases tbl@.len() - i,
    {
        match &tbl[i].1 {
            Const::Value(v) => {
                params.append(tbl[i].0.as_str());
                params.append("_");
                push_signed_decimal(&mut params, *v);
                params.append("|");
            },
            _ => {
                proof {
                    assert(params@ =~= params_text(tbl@, i as int + 1));
                }
            },
        }
        i = i + 1;
    }
    params
}

/// The renaming entries of the arguments.
pub open spec fn arg_entries(func: Function, params: Seq<char>, c: u32) -> Seq<(Seq<char>, Seq<char>)> {
    Seq::new(func.args@.len(), |k: int| (func.args@[k].name@, arg_text(func.name.value@, params, func.args@[k].name@, c)))
}

/// Assigns the arguments of a call to their variables (`w`), renaming the arguments of the
/// body to them and recording their sizes.
fn bind_args(
    func: &Function,
    args: Vec<Loc<Expr>>,
    params: &String,
    c: u32,
    vars_map: &mut Vec<(String, String)>,
    type_map: &mut Vec<(String, (i32, Pos))>,
) -> (w: Vec<VarAssign>)
    requires
        args@.len() == func.args@.len(),
        old(vars_map)@.len() == 0,
    ensures
        table_models(final(vars_map)@, arg_entries(*func, params@, c)),
        table_after(final(type_map)@, old(type_map)@, arg_types(*func, params@, c, func.args@.len() as int)),
        w@.len() == args@.len(),
        forall|k: int| 0 <= k < w@.len() ==> {
            &&& (#[trigger] w@[k]).var.loc == args@[k].loc
            &&& w@[k].var.value@ == arg_text(func.name.value@, params@, func.args@[k].name@, c)
            &&& w@[k].expr == args@[k]
        },
{
    let ghost es = arg_entries(*func, params@, c);
    let ghost tm0 = type_map@;
    let ghost all = args@;
    let na = args.len();
    let mut w: Vec<VarAssign> = Vec::new();
    let mut rest = args;
    proof {
        assert(table_models(vars_map@, es.subrange(0, 0)));
        crate::util::tables::lemma_table_after_empty(type_map@);
        assert(arg_types(*func, params@, c, 0) =~= Seq::<(Seq<char>, (i32, Pos))>::empty());
    }
    let mut i: usize = 0;
    while i < na
        invariant
            i <= na,
            na == all.len(),
            na == func.args@.len(),
            rest@ == all.subrange(i as int, na as int),
            es == arg_entries(*func, params@, c),
            table_models(vars_map@, es.subrange(0, i as int)),
            table_after(type_map@, tm0, arg_types(*func, params@, c, i as int)),
            w@.len() == i,
            forall|k: int| 0 <= k < i ==> {
                &&& (#[trigger] w@[k]).var.loc == all[k].loc
                &&& w@[k].var.value@ == arg_text(func.name.value@, params@, func.args@[k].name@, c)
                &&& w@[k].expr == all[k]
            },
        decreases na - i,
    {
        let expr = rest.remove(0);
        let a = &func.args[i];
        let name = arg_name(func.name.value.as_str(), params.as_str(), a.name.as_str(), c);
        proof {
            lemma_models_push(vars_map@, es.subrange(0, i as int), a.name, name);
            assert(es.subrange(0, i as int).push((a.name@, name@)) =~= es.subrange(0, i as int + 1));
        }
        match &a.size.value {
            Const::Value(size) => {
                proof {
                    lemma_table_after_push(type_map@, tm0, arg_types(*func, params@, c, i as int), name, (*size, a.size.loc));
                    assert(arg_types(*func, params@, c, i as int).push((name@, (*size, a.size.loc))) =~= arg_types(*func, params@, c, i as int + 1));
                }
                table_insert(type_map, name.clone(), (*size, a.size.loc));
            },
            _ => {
                proof {
                    assert(arg_types(*func, params@, c, i as int) =~= arg_types(*func, params@, c, i as int + 1));
                }
            },
        }
        table_insert(vars_map, a.name.clone(), name.clone());
        w.push(VarAssign { var: Loc { loc: expr.loc, value: name }, expr });
        i = i + 1;
    }
    assert(es.subrange(0, na as int) =~= es);
    w
}

/// Renames the return variables of the body to the call's outputs, recording their sizes.
fn bind_outputs(
    func: &Function,
    outputs: &Vec<Loc<String>>,
    Ghost(es0): Ghost<Seq<(Seq<char>, Seq<char>)>>,
    vars_map: &mut Vec<(String, String)>,
    type_map: &mut Vec<(String, (i32, Pos))>,
)
    requires
        outputs@.len() == func.return_vars@.len(),
        table_models(old(vars_map)@, es0),
    ensures
        table_models(
            final(vars_map)@,
            es0 + Seq::new(func.return_vars@.len(), |k: int| (func.return_vars@[k].name@, outputs@[k].value@)),
        ),
        table_after(final(type_map)@, old(type_map)@, out_types(*func, outputs@, func.return_vars@.len() as int)),
{
    let ghost tm1 = type_map@;
    let ghost es_outs = Seq::new(func.return_vars@.len(), |k: int| (func.return_vars@[k].name@, outputs@[k].value@));
    let no = outputs.len();
    proof {
        crate::util::tables::lemma_table_after_empty(type_map@);
        assert(out_types(*func, outputs@, 0) =~= Seq::<(Seq<char>, (i32, Pos))>::empty());
        assert(es0 + es_outs.subrange(0, 0) =~= es0);
    }
    let mut i: usize = 0;
    while i < no
        invariant
            i <= no,
            no == outputs@.len(),
            no == func.return_vars@.len(),
            es_outs == Seq::new(func.return_vars@.len(), |k: int| (func.return_vars@[k].name@, outputs@[k].value@)),
            table_models(vars_map@, es0 + es_outs.subrange(0, i as int)),
            table_after(type_map@, tm1, out_types(*func, outputs@, i as int)),
        decreases no - i,
    {
        let a = &func.return_vars[i];
        let o = &outputs[i];
        match &a.size.value {
            Const::Value(size) => {
                proof {
                    lemma_table_after_push(type_map@, tm1, out_types(*func, outputs@, i as int), o.value, (*size, a.size.loc));
                    assert(out_types(*func, outputs@, i as int).push((o.value@, (*size, a.size.loc))) =~= out_types(*func, outputs@, i as int + 1));
                }
                table_insert(type_map, o.value.clone(), (*size, a.size.loc));
            },
            _ => {
                proof {
                    assert(out_types(*func, outputs@, i as int) =~= out_types(*func, outputs@, i as int + 1));
                }
            },
        }
        proof {
            lemma_models_push(vars_map@, es0 + es_outs.subrange(0, i as int), a.name, o.value);
            assert((es0 + es_outs.subrange(0, i as int)).push((a.name@, o.value@)) =~= es0 + es_outs.subrange(0, i as int + 1));
        }
        table_insert(vars_map, a.name.clone(), o.value.clone());
        i = i + 1;
    }
    assert(es_outs.subrange(0, no as int) =~= es_outs);
}

/// Each statement of the body, renamed by `nm`, its constants computed with `tbl`, is at
/// its place in `out` after `base` statements.
pub open spec fn body_rel(stmts: Seq<Statement>, nm: FnNaming, out: Seq<Statement>, base: int, tbl: Seq<(String, Const)>) -> bool {
    exists|mids: Seq<Statement>| #[trigger] body_rel_with(stmts, nm, out, base, tbl, mids)
}

/// `body_rel`, with the renamed statements `mids`.
pub open spec fn body_rel_with(stmts: Seq<Statement>, nm: FnNaming, out: Seq<Statement>, base: int, tbl: Seq<(String, Const)>, mids: Seq<Statement>) -> bool {
    &&& mids.len() == stmts.len()
    &&& forall|j: int| 0 <= j < stmts.len() ==> #[trigger] renamed_then_mapped(stmts[j], mids[j], nm, out[base + j], tbl)
}

/// `mid` is `s` renamed by `nm`, and `t` is `mid` with its constants computed with `tbl`.
pub open spec fn renamed_then_mapped(s: Statement, mid: Statement, nm: FnNaming, t: Statement, tbl: Seq<(String, Const)>) -> bool {
    fn_ren_stmt(s, mid, nm) && stmt_mapped(mid, t, tbl, None)
}

proof fn lemma_body_rel(stmts: Seq<Statement>, nm: FnNaming, out: Seq<Statement>, base: int, tbl: Seq<(String, Const)>, mids: Seq<Statement>)
    requires
        mids.len() == stmts.len(),
        forall|j: int| 0 <= j < stmts.len() ==> fn_ren_stmt(stmts[j], #[trigger] mids[j], nm) && stmt_mapped(mids[j], out[base + j], tbl, None),
    ensures
        body_rel(stmts, nm, out, base, tbl),
{
    assert forall|j: int| 0 <= j < stmts.len() implies #[trigger] renamed_then_mapped(stmts[j], mids[j], nm, out[base + j], tbl) by {
        assert(fn_ren_stmt(stmts[j], mids[j], nm));
    }
    assert(body_rel_with(stmts, nm, out, base, tbl, mids));
}

/// Appends the body of `func`, renamed by `nm` (its map `vars_map`), its constants
/// computed with `tbl`; or gives the first failure.
fn inline_body(
    func: &Function,
    tbl: &Vec<(String, Const)>,
    vars_map: &Vec<(String, String)>,
    params: &String,
    c: u32,
    out_statements: &mut Vec<Statement>,
) -> (r: Result<(), ExpandFnError>)
    ensures
        match body_outcome(func.statements@, tbl@, func.statements@.len() as int, func.name.value) {
            Some(e) => r == Err::<(), ExpandFnError>(ExpandFnError::ReplaceConstError(e)),
            None => {
                &&& r is Ok
                &&& final(out_statements)@.len() == old(out_statements)@.len() + func.statements@.len()
                &&& final(out_statements)@.subrange(0, old(out_statements)@.len() as int) == old(out_statements)@
                &&& body_rel(func.statements@, naming(vars_map@, func.name.value@, params@, c), final(out_statements)@, old(out_statements)@.len() as int, tbl@)
            },
        },
{
    let ghost nm = naming(vars_map@, func.name.value@, params@, c);
    let ghost base = out_statements@;
    let ghost mids: Seq<Statement> = Seq::empty();
    let nst = func.statements.len();
    let mut k: usize = 0;
    while k < nst
        invariant
            k <= nst,
            nst == func.statements@.len(),
            base == old(out_statements)@,
            nm == naming(vars_map@, func.name.value@, params@, c),
            body_outcome(func.statements@, tbl@, k as int, func.name.value) is None,
            out_statements@.len() == base.len() + k,
            out_statements@.subrange(0, base.len() as int) == base,
            mids.len() == k,
            forall|j: int| 0 <= j < k ==> fn_ren_stmt(func.statements@[j], #[trigger] mids[j], nm)
                && stmt_mapped(mids[j], out_statements@[base.len() + j], tbl@, None),
        decreases nst - k,
    {
        let mid = map_vars_in_statement(&func.statements[k], vars_map, func.name.value.as_str(), params.as_str(), c);
        proof {
            lemma_ren_stmt_consts(func.statements@[k as int], mid, nm, tbl@);
        }
        if !stmt_fits_exec(&mid, tbl, None) {
            proof {
                lemma_body_err(func.statements@, tbl@, k as int + 1, nst as int, func.name.value);
            }
            return Err(ExpandFnError::ReplaceConstError(ComputeConstError::Overflow(func.name.value.clone())));
        }
        let ghost mid0 = mid;
        let mut m = mid;
        match compute_consts_in_statement(&mut m, tbl) {
            Err(e) => {
                proof {
                    lemma_body_err(func.statements@, tbl@, k as int + 1, nst as int, func.name.value);
                }
                return Err(ExpandFnError::ReplaceConstError(e));
            },
            Ok(()) => {},
        }
        let ghost ob = out_statements@;
        out_statements.push(m);
        proof {
            mids = mids.push(mid0);
            assert(out_statements@.subrange(0, base.len() as int) =~= base);
            assert forall|j: int| 0 <= j < k + 1 implies fn_ren_stmt(func.statements@[j], #[trigger] mids[j], nm)
                && stmt_mapped(mids[j], out_statements@[base.len() + j], tbl@, None) by {
                if j < k {
                    assert(out_statements@[base.len() + j] == ob[base.len() + j]);
                }
            }
        }
        k = k + 1;
    }
    proof {
        let b: int = base.len() as int;
        let st = func.statements@;
        let out = out_statements@;
        let t = tbl@;
        lemma_body_rel(st, nm, out, b, t, mids);
        assert(body_outcome(func.statements@, tbl@, func.statements@.len() as int, func.name.value) is None);
        assert(out_statements@.len() == old(out_statements)@.len() + func.statements@.len());
        assert(out_statements@.subrange(0, old(out_statements)@.len() as int) == old(out_statements)@);
    }
    Ok(())
}

/// Inlines a call of `func` (its arguments in `fncall`, its outputs `outputs`): appends the
/// assignment of the arguments and the body to `out_statements`, records the required sizes
/// of the new variables in `type_map`, and numbers the call with `*counter` (which goes on,
/// wrapping); see `inline_err` and `inlined_rel`.
#[verifier::rlimit(40)]
#[verifier::spinoff_prover]
pub fn inline_function(
    func: &Function,
    fncall: FnCall,
    outputs: Loc<Vec<Loc<String>>>,
    out_statements: &mut Vec<Statement>,
    type_map: &mut Vec<(String, (i32, Pos))>,
    counter: &mut u32,
) -> (r: Result<(), ExpandFnError>)
    ensures
        match inline_err(*func, fncall, outputs) {
            Some(e) => r == Err::<(), ExpandFnError>(e),
            None => {
                &&& r is Ok
                &&& *final(counter) == old(counter).wrapping_add(1)
                &&& final(out_statements)@.len() >= old(out_statements)@.len()
                &&& final(out_statements)@.subrange(0, old(out_statements)@.len() as int) == old(out_statements)@
                &&& inlined_rel(
                    *func,
                    fncall,
                    outputs.value@,
                    *old(counter),
                    final(out_statements)@.subrange(old(out_statements)@.len() as int, final(out_statements)@.len() as int),
                )
                &&& table_after(
                    final(type_map)@,
                    old(type_map)@,
                    arg_types(*func, call_params(*func, fncall), *old(counter), func.args@.len() as int)
                        + out_types(*func, outputs.value@, func.return_vars@.len() as int),
                )
            },
        },
        call_err(*func, fncall, outputs) is Some ==> {
            &&& final(out_statements)@ == old(out_statements)@
            &&& final(type_map)@ == old(type_map)@
            &&& *final(counter) == *old(counter)
        },
{
    let ghost call0 = fncall;
    let tbl = match check_call(func, &fncall, &outputs) {
        Ok(t) => t,
        Err(e) => {
            return Err(e);
        },
    };
    let params = params_string(&tbl);
    let ghost params_v = params@;
    let c = *counter;
    *counter = counter.wrapping_add(1);
    let FnCall { name: _, args, static_args: _ } = fncall;
    let ghost old_out = out_statements@;
    let ghost tm0 = type_map@;
    let na = args.value.len();
    let mut vars_map: Vec<(String, String)> = Vec::new();
    let ghost all_args = args.value@;
    let ghost mut first: Statement = arbitrary();
    if na > 0 {
        let w = bind_args(func, args.value, &params, c, &mut vars_map, type_map);
        proof {
            first = Statement::Assign(w);
        }
        out_statements.push(Statement::Assign(w));
    } else {
        proof {
            assert(arg_entries(*func, params_v, c) =~= Seq::<(Seq<char>, Seq<char>)>::empty());
            assert(table_models(vars_map@, arg_entries(*func, params_v, c)));
            crate::util::tables::lemma_table_after_empty(type_map@);
            assert(arg_types(*func, params_v, c, func.args@.len() as int) =~= Seq::<(Seq<char>, (i32, Pos))>::empty());
        }
    }
    let ghost tm1 = type_map@;
    bind_outputs(func, &outputs.value, Ghost(arg_entries(*func, params_v, c)), &mut vars_map, type_map);
    proof {
        crate::util::tables::lemma_table_after_trans(
            type_map@,
            tm1,
            tm0,
            arg_types(*func, params_v, c, func.args@.len() as int),
            out_types(*func, outputs.value@, func.return_vars@.len() as int),
        );
        assert(arg_entries(*func, params_v, c) + Seq::new(func.return_vars@.len(), |k: int| (func.return_vars@[k].name@, outputs.value@[k].value@))
            =~= fn_entries(*func, outputs.value@, params_v, c));
    }
    let ghost nm = naming(vars_map@, func.name.value@, params_v, c);
    assert forall|v: Seq<char>| #[trigger] nm.name(v) == fn_var_name(*func, outputs.value@, params_v, c, v) by {
        match last_entry(fn_entries(*func, outputs.value@, params_v, c), v) {
            Some(x) => {},
            None => {},
        }
    }
    let ghost base = out_statements@;
    match inline_body(func, &tbl, &vars_map, &params, c, out_statements) {
        Ok(()) => {},
        Err(e) => {
            return Err(e);
        },
    }
    proof {
        let k0: int = if na > 0 { 1 } else { 0 };
        let added = out_statements@.subrange(old_out.len() as int, out_statements@.len() as int);
        assert(out_statements@.subrange(0, old_out.len() as int) =~= old_out);
        assert(base.len() == old_out.len() + k0);
        let mids = choose|mids: Seq<Statement>| #[trigger] body_rel_with(func.statements@, nm, out_statements@, base.len() as int, tbl@, mids);
        assert forall|j: int| 0 <= j < func.statements@.len() implies #[trigger] renamed_then_mapped(func.statements@[j], mids[j], nm, added[k0 + j], call_table(*func, call0)) by {
            assert(added[k0 + j] == out_statements@[base.len() + j]);
            assert(renamed_then_mapped(func.statements@[j], mids[j], nm, out_statements@[base.len() + j], tbl@));
        }
        assert(body_rel_with(func.statements@, nm, added, k0, call_table(*func, call0), mids));
        assert(body_rel(func.statements@, nm, added, k0, call_table(*func, call0)));
        if na > 0 {
            assert(added[0] == out_statements@[old_out.len() as int]);
            assert(out_statements@[old_out.len() as int] == base[old_out.len() as int]);
            assert(added[0] == first);
        }
        assert(added.len() == k0 + func.statements@.len());
        assert(body_named(*func, call0, outputs.value@, c, added, nm));
        assert(inlined_rel(*func, call0, outputs.value@, c, added));
    }
    Ok(())
}

proof fn lemma_statics_err(consts: Seq<Const>, j: int, len: int, fname: String)
    requires
        0 < j <= len <= consts.len(),
        statics_outcome(consts, j, fname) is Some,
    ensures
        statics_outcome(consts, len, fname) == statics_outcome(consts, j, fname),
    decreases len,
{
    if len > j {
        lemma_statics_err(consts, j, len - 1, fname);
    }
}

proof fn lemma_body_err(stmts: Seq<Statement>, tbl: Seq<(String, Const)>, j: int, len: int, fname: String)
    requires
        0 < j <= len <= stmts.len(),
        body_outcome(stmts, tbl, j, fname) is Some,
    ensures
        body_outcome(stmts, tbl, len, fname) == body_outcome(stmts, tbl, j, fname),
    decreases len,
{
    if len > j {
        lemma_body_err(stmts, tbl, j, len - 1, fname);
    }
}


/// Whether a statement calls a function: an assignment of a call, a call assigning several
/// variables, or a static `if` whose chosen block has such a statement.
pub open spec fn stmt_calls(s: Statement) -> bool
    decreases s,
{
    match s {
        Statement::Assign(v) => exists|i: int| 0 <= i < v@.len() && (#[trigger] v@[i]).expr.value is FnCall,
        Statement::FnAssign(_) => true,
        Statement::If(i) => match i.condition {
            Const::Value(c) => if c == 0 {
                exists|k: int| 0 <= k < i.else_block@.len() && stmt_calls(#[trigger] i.else_block@[k])
            } else {
                exists|k: int| 0 <= k < i.if_block@.len() && stmt_calls(#[trigger] i.if_block@[k])
            },
            _ => false,
        },
        Statement::ExtAutomaton(_) => false,
    }
}

/// Whether the assignment is of a call of the function named `n`.
pub open spec fn assign_calls_fn(a: VarAssign, n: Seq<char>) -> bool {
    match a.expr.value {
        Expr::FnCall(fc) => fc.name.value@ == n,
        _ => false,
    }
}

/// Whether the statement calls the function named `n`: an assignment of a call of it, a
/// `FnAssign` of it, or such a statement in the block that a static `if` keeps.
pub open spec fn stmt_calls_fn(s: Statement, n: Seq<char>) -> bool
    decreases s,
{
    match s {
        Statement::Assign(v) => exists|i: int| 0 <= i < v@.len() && assign_calls_fn(#[trigger] v@[i], n),
        Statement::FnAssign(fa) => fa.f.name.value@ == n,
        Statement::If(i) => match i.condition {
            Const::Value(c) => if c == 0 {
                exists|k: int| 0 <= k < i.else_block@.len() && stmt_calls_fn(#[trigger] i.else_block@[k], n)
            } else {
                exists|k: int| 0 <= k < i.if_block@.len() && stmt_calls_fn(#[trigger] i.if_block@[k], n)
            },
            _ => false,
        },
        Statement::ExtAutomaton(_) => false,
    }
}

/// Whether some statement of a block calls the function named `n`.
pub open spec fn block_calls_fn(b: Seq<Statement>, n: Seq<char>) -> bool {
    exists|k: int| 0 <= k < b.len() && stmt_calls_fn(#[trigger] b[k], n)
}

/// Whether some statement of a block calls a function.
pub open spec fn block_calls(b: Seq<Statement>) -> bool {
    exists|k: int| 0 <= k < b.len() && stmt_calls(#[trigger] b[k])
}

/// The error of inlining `call` with `n` outputs written at `loc`, if any: its function is
/// unknown, or `inline_err` of that function.
pub open spec fn call_failure(fns: Seq<(String, Function)>, call: FnCall, loc: Pos, n: int) -> Option<ExpandFnError> {
    match table_get(fns, call.name.value@) {
        None => Some(ExpandFnError::UnknowFunction(call.name.loc, call.name.value)),
        Some(f) => inline_err_at(f, call, loc, n),
    }
}

/// The first error of the calls in the assignments from `j` on.
pub open spec fn assigns_failure_from(fns: Seq<(String, Function)>, v: Seq<VarAssign>, j: int) -> Option<ExpandFnError>
    decreases v.len() - j,
{
    if j < 0 || j >= v.len() {
        None
    } else {
        let here = match v[j].expr.value {
            Expr::FnCall(fc) => call_failure(fns, fc, v[j].var.loc, 1),
            _ => None,
        };
        if here is Some {
            here
        } else {
            assigns_failure_from(fns, v, j + 1)
        }
    }
}

/// The first error of inlining the calls of a statement, as `replace_fn_calls_in_statements`
/// meets them.
pub open spec fn stmt_failure(fns: Seq<(String, Function)>, s: Statement) -> Option<ExpandFnError>
    decreases s, 0int,
{
    match s {
        Statement::Assign(v) => assigns_failure_from(fns, v@, 0),
        Statement::FnAssign(fa) => call_failure(fns, fa.f, fa.f.name.loc, fa.vars@.len() as int),
        Statement::If(i) => match i.condition {
            Const::Value(c) => if c == 0 {
                block_failure_from(fns, i.else_block@, 0)
            } else {
                block_failure_from(fns, i.if_block@, 0)
            },
            _ => None,
        },
        Statement::ExtAutomaton(_) => None,
    }
}

/// The first error of inlining the calls of the statements from `k` on.
pub open spec fn block_failure_from(fns: Seq<(String, Function)>, b: Seq<Statement>, k: int) -> Option<ExpandFnError>
    decreases b, b.len() - k,
{
    if k < 0 || k >= b.len() {
        None
    } else {
        let here = stmt_failure(fns, b[k]);
        if here is Some {
            here
        } else {
            block_failure_from(fns, b, k + 1)
        }
    }
}

/// The counter after `n` calls numbered from `c`.
pub open spec fn wadd(c: u32, n: nat) -> u32
    decreases n,
{
    if n == 0 {
        c
    } else {
        wadd(c, (n - 1) as nat).wrapping_add(1)
    }
}

/// The function a call names.
pub open spec fn call_fn(fns: Seq<(String, Function)>, call: FnCall) -> Function {
    table_get(fns, call.name.value@)->Some_0
}

/// The number of statements that inlining a call gives: the assignment of its arguments,
/// if any, and the body.
pub open spec fn call_len(fns: Seq<(String, Function)>, call: FnCall) -> nat {
    (if call.args.value@.len() > 0 { 1nat } else { 0nat }) + call_fn(fns, call).statements@.len()
}

/// The number of calls among the first `j` assignments.
pub open spec fn assigns_calls(v: Seq<VarAssign>, j: int) -> nat
    decreases j,
{
    if 0 < j <= v.len() {
        assigns_calls(v, j - 1) + (if v[j - 1].expr.value is FnCall { 1nat } else { 0nat })
    } else {
        0
    }
}

/// The number of statements that inlining the calls among the first `j` assignments gives.
pub open spec fn assigns_calls_len(fns: Seq<(String, Function)>, v: Seq<VarAssign>, j: int) -> nat
    decreases j,
{
    if 0 < j <= v.len() {
        assigns_calls_len(fns, v, j - 1) + match v[j - 1].expr.value {
            Expr::FnCall(fc) => call_len(fns, fc),
            _ => 0nat,
        }
    } else {
        0
    }
}

/// The assignments among the first `j` that are not calls, in order.
pub open spec fn kept_assigns(v: Seq<VarAssign>, j: int) -> Seq<VarAssign>
    decreases j,
{
    if 0 < j <= v.len() {
        if v[j - 1].expr.value is FnCall {
            kept_assigns(v, j - 1)
        } else {
            kept_assigns(v, j - 1).push(v[j - 1])
        }
    } else {
        Seq::empty()
    }
}

/// `seg` is the inlining of the calls among the first `j` assignments, in order, numbered
/// from `c`, each call assigning its one variable.
pub open spec fn assigns_calls_rel(fns: Seq<(String, Function)>, v: Seq<VarAssign>, j: int, seg: Seq<Statement>, c: u32) -> bool
    decreases j,
{
    if 0 < j <= v.len() {
        let l = assigns_calls_len(fns, v, j - 1) as int;
        &&& seg.len() == assigns_calls_len(fns, v, j)
        &&& assigns_calls_rel(fns, v, j - 1, seg.subrange(0, l), c)
        &&& match v[j - 1].expr.value {
            Expr::FnCall(fc) => inlined_rel(call_fn(fns, fc), fc, seq![v[j - 1].var], wadd(c, assigns_calls(v, j - 1)), seg.subrange(l, seg.len() as int)),
            _ => true,
        }
    } else {
        seg.len() == 0
    }
}

/// `seg` holds the assignments `kept`, one statement each.
pub open spec fn singles(kept: Seq<VarAssign>, seg: Seq<Statement>) -> bool {
    &&& seg.len() == kept.len()
    &&& forall|t: int| 0 <= t < seg.len() ==> (#[trigger] seg[t] matches Statement::Assign(w) && w@ == seq![kept[t]])
}

/// The number of calls that inlining a statement inlines (in the chosen block of a static
/// `if`).
pub open spec fn stmt_inl_calls(s: Statement) -> nat
    decreases s, 0int,
{
    match s {
        Statement::Assign(v) => assigns_calls(v@, v@.len() as int),
        Statement::FnAssign(_) => 1,
        Statement::If(i) => match i.condition {
            Const::Value(c) => if c == 0 {
                block_inl_calls(i.else_block@, i.else_block@.len() as int)
            } else {
                block_inl_calls(i.if_block@, i.if_block@.len() as int)
            },
            _ => 0,
        },
        Statement::ExtAutomaton(_) => 0,
    }
}

/// The number of calls inlined in the first `j` statements.
pub open spec fn block_inl_calls(b: Seq<Statement>, j: int) -> nat
    decreases b, j,
{
    if 0 < j <= b.len() {
        block_inl_calls(b, j - 1) + stmt_inl_calls(b[j - 1])
    } else {
        0
    }
}

/// The number of statements that inlining a statement gives.
pub open spec fn stmt_inl_len(fns: Seq<(String, Function)>, s: Statement) -> nat
    decreases s, 0int,
{
    match s {
        Statement::Assign(v) => assigns_calls_len(fns, v@, v@.len() as int) + kept_assigns(v@, v@.len() as int).len(),
        Statement::FnAssign(fa) => call_len(fns, fa.f),
        Statement::If(i) => match i.condition {
            Const::Value(c) => if c == 0 {
                block_inl_len(fns, i.else_block@, i.else_block@.len() as int)
            } else {
                block_inl_len(fns, i.if_block@, i.if_block@.len() as int)
            },
            _ => 1,
        },
        Statement::ExtAutomaton(_) => 1,
    }
}

/// The number of statements that inlining the first `j` statements gives.
pub open spec fn block_inl_len(fns: Seq<(String, Function)>, b: Seq<Statement>, j: int) -> nat
    decreases b, j,
{
    if 0 < j <= b.len() {
        block_inl_len(fns, b, j - 1) + stmt_inl_len(fns, b[j - 1])
    } else {
        0
    }
}

/// `seg` is the inlining of the statement `s`, its calls numbered from `c`: for assignments,
/// the inlined calls in order, then each other assignment on its own; for an assignment from
/// a call, the inlined call; for a static `if`, the inlining of its chosen block (the `else`
/// block for 0); anything else as it is.
pub open spec fn stmt_inl_rel(fns: Seq<(String, Function)>, s: Statement, seg: Seq<Statement>, c: u32) -> bool
    decreases s, 0int,
{
    match s {
        Statement::Assign(v) => {
            let cl = assigns_calls_len(fns, v@, v@.len() as int) as int;
            &&& seg.len() == stmt_inl_len(fns, s)
            &&& assigns_calls_rel(fns, v@, v@.len() as int, seg.subrange(0, cl), c)
            &&& singles(kept_assigns(v@, v@.len() as int), seg.subrange(cl, seg.len() as int))
        },
        Statement::FnAssign(fa) => seg.len() == call_len(fns, fa.f) && inlined_rel(call_fn(fns, fa.f), fa.f, fa.vars@, c, seg),
        Statement::If(i) => match i.condition {
            Const::Value(x) => if x == 0 {
                block_inl_rel(fns, i.else_block@, i.else_block@.len() as int, seg, c)
            } else {
                block_inl_rel(fns, i.if_block@, i.if_block@.len() as int, seg, c)
            },
            _ => seg == seq![s],
        },
        Statement::ExtAutomaton(_) => seg == seq![s],
    }
}

/// `seg` is the inlining of the first `j` statements in order, their calls numbered from `c`.
pub open spec fn block_inl_rel(fns: Seq<(String, Function)>, b: Seq<Statement>, j: int, seg: Seq<Statement>, c: u32) -> bool
    decreases b, j,
{
    if 0 < j <= b.len() {
        let l = block_inl_len(fns, b, j - 1) as int;
        &&& seg.len() == block_inl_len(fns, b, j)
        &&& block_inl_rel(fns, b, j - 1, seg.subrange(0, l), c)
        &&& stmt_inl_rel(fns, b[j - 1], seg.subrange(l, seg.len() as int), wadd(c, block_inl_calls(b, j - 1)))
    } else {
        seg.len() == 0
    }
}

/// The statement is a static `if`, one whose condition is a value.
pub open spec fn is_static_if(s: Statement) -> bool {
    s matches Statement::If(i) && i.condition is Value
}

/// No statement of the block is a static `if`.
pub open spec fn no_static_if(b: Seq<Statement>) -> bool {
    forall|k: int| 0 <= k < b.len() ==> !is_static_if(#[trigger] b[k])
}

/// Assignments without calls inline into no statement.
proof fn lemma_calls_len_zero(fns: Seq<(String, Function)>, v: Seq<VarAssign>, j: int)
    requires
        forall|t: int| 0 <= t < j && t < v.len() ==> !((#[trigger] v[t]).expr.value is FnCall),
    ensures
        assigns_calls_len(fns, v, j) == 0,
    decreases j,
{
    if 0 < j <= v.len() {
        lemma_calls_len_zero(fns, v, j - 1);
    }
}

/// Inlining a statement without calls leaves no static `if`.
proof fn lemma_stmt_inl_no_if(fns: Seq<(String, Function)>, s: Statement, seg: Seq<Statement>, c: u32)
    requires
        stmt_inl_rel(fns, s, seg, c),
        !stmt_calls(s),
    ensures
        no_static_if(seg),
    decreases s, 0int,
{
    match s {
        Statement::Assign(v) => {
            assert forall|t: int| 0 <= t < v@.len() implies !((#[trigger] v@[t]).expr.value is FnCall) by {
                if v@[t].expr.value is FnCall {
                    assert(stmt_calls(s));
                }
            }
            lemma_calls_len_zero(fns, v@, v@.len() as int);
            assert(seg.subrange(0, seg.len() as int) =~= seg);
            assert forall|k: int| 0 <= k < seg.len() implies !is_static_if(#[trigger] seg[k]) by {
                assert(seg.subrange(0, seg.len() as int)[k] == seg[k]);
            }
        },
        Statement::If(i) => {
            if let Const::Value(x) = i.condition {
                let b = if x == 0 { i.else_block@ } else { i.if_block@ };
                assert forall|t: int| 0 <= t < b.len() implies !stmt_calls(#[trigger] b[t]) by {
                    if stmt_calls(b[t]) {
                        assert(stmt_calls(s));
                    }
                }
                lemma_block_inl_no_if(fns, b, b.len() as int, seg, c);
            } else {
                assert(seg[0] == s);
            }
        },
        _ => {},
    }
}

/// Inlining the first `j` statements of a block, none with calls, leaves no static `if`.
proof fn lemma_block_inl_no_if(fns: Seq<(String, Function)>, b: Seq<Statement>, j: int, seg: Seq<Statement>, c: u32)
    requires
        block_inl_rel(fns, b, j, seg, c),
        forall|t: int| 0 <= t < j && t < b.len() ==> !stmt_calls(#[trigger] b[t]),
    ensures
        no_static_if(seg),
    decreases b, j,
{
    if 0 < j <= b.len() {
        let l = block_inl_len(fns, b, j - 1) as int;
        let s1 = seg.subrange(0, l);
        let s2 = seg.subrange(l, seg.len() as int);
        assert(decreases_to!(b => b[j - 1]));
        lemma_block_inl_no_if(fns, b, j - 1, s1, c);
        lemma_stmt_inl_no_if(fns, b[j - 1], s2, wadd(c, block_inl_calls(b, j - 1)));
        assert forall|k: int| 0 <= k < seg.len() implies !is_static_if(#[trigger] seg[k]) by {
            if k < l {
                assert(s1[k] == seg[k]);
            } else {
                assert(s2[k - l] == seg[k]);
            }
        }
    }
}

/// Numbering `a` calls then `b` calls is numbering `a + b` calls.
proof fn lemma_wadd_add(c: u32, a: nat, b: nat)
    ensures
        wadd(wadd(c, a), b) == wadd(c, a + b),
    decreases b,
{
    if b > 0 {
        lemma_wadd_add(c, a, (b - 1) as nat);
        assert((a + b - 1) as nat == a + (b - 1) as nat);
    }
}

/// Inlining one more call extends the inlining of the calls of assignments.
proof fn lemma_calls_rel_call(fns: Seq<(String, Function)>, v: Seq<VarAssign>, j: int, seg: Seq<Statement>, added: Seq<Statement>, c: u32, fc: FnCall)
    requires
        0 <= j < v.len(),
        v[j].expr.value == Expr::FnCall(fc),
        assigns_calls_rel(fns, v, j, seg, c),
        inlined_rel(call_fn(fns, fc), fc, seq![v[j].var], wadd(c, assigns_calls(v, j)), added),
    ensures
        assigns_calls_rel(fns, v, j + 1, seg + added, c),
{
    assert(seg.len() == assigns_calls_len(fns, v, j));
    assert((seg + added).subrange(0, seg.len() as int) =~= seg);
    assert((seg + added).subrange(seg.len() as int, (seg + added).len() as int) =~= added);
}

/// An assignment that is not a call adds nothing to the inlining of the calls.
proof fn lemma_calls_rel_plain(fns: Seq<(String, Function)>, v: Seq<VarAssign>, j: int, seg: Seq<Statement>, c: u32)
    requires
        0 <= j < v.len(),
        !(v[j].expr.value is FnCall),
        assigns_calls_rel(fns, v, j, seg, c),
    ensures
        assigns_calls_rel(fns, v, j + 1, seg, c),
{
    assert(seg.len() == assigns_calls_len(fns, v, j));
    assert(seg.subrange(0, seg.len() as int) =~= seg);
}

/// The inlining of a statement has the length `stmt_inl_len` gives.
proof fn lemma_stmt_inl_len(fns: Seq<(String, Function)>, s: Statement, seg: Seq<Statement>, c: u32)
    requires
        stmt_inl_rel(fns, s, seg, c),
    ensures
        seg.len() == stmt_inl_len(fns, s),
{
}

/// The inlining of one more statement extends the inlining of a block.
proof fn lemma_block_inl_step(fns: Seq<(String, Function)>, b: Seq<Statement>, i: int, nv: Seq<Statement>, seg: Seq<Statement>, c: u32)
    requires
        0 <= i < b.len(),
        block_inl_rel(fns, b, i, nv, c),
        stmt_inl_rel(fns, b[i], seg, wadd(c, block_inl_calls(b, i))),
    ensures
        block_inl_rel(fns, b, i + 1, nv + seg, c),
{
    lemma_stmt_inl_len(fns, b[i], seg, wadd(c, block_inl_calls(b, i)));
    assert(nv.len() == block_inl_len(fns, b, i));
    assert((nv + seg).subrange(0, nv.len() as int) =~= nv);
    assert((nv + seg).subrange(nv.len() as int, (nv + seg).len() as int) =~= seg);
}

/// An error met at the assignment `j` of the statement `i`, before which none was met, is
/// the first of the block.
proof fn lemma_assign_failure(fns: Seq<(String, Function)>, b: Seq<Statement>, i: int, v: Vec<VarAssign>, j: int)
    requires
        0 <= i < b.len(),
        b[i] == Statement::Assign(v),
        block_failure_from(fns, b, 0) == block_failure_from(fns, b, i),
        assigns_failure_from(fns, v@, 0) == assigns_failure_from(fns, v@, j),
        assigns_failure_from(fns, v@, j) is Some,
    ensures
        block_failure_from(fns, b, 0) == assigns_failure_from(fns, v@, j),
{
    assert(stmt_failure(fns, b[i]) == assigns_failure_from(fns, v@, 0));
}

/// A block with one more statement calls a function when the block or the statement does.
proof fn lemma_block_calls_concat(a: Seq<Statement>, b: Seq<Statement>)
    ensures
        block_calls(a + b) == (block_calls(a) || block_calls(b)),
{
    if block_calls(a + b) {
        let k = choose|k: int| 0 <= k < (a + b).len() && stmt_calls(#[trigger] (a + b)[k]);
        if k < a.len() {
            assert(a[k] == (a + b)[k]);
        } else {
            assert(b[k - a.len()] == (a + b)[k]);
        }
    }
    if block_calls(a) {
        let k = choose|k: int| 0 <= k < a.len() && stmt_calls(#[trigger] a[k]);
        assert((a + b)[k] == a[k]);
    }
    if block_calls(b) {
        let k = choose|k: int| 0 <= k < b.len() && stmt_calls(#[trigger] b[k]);
        assert((a + b)[a.len() + k] == b[k]);
    }
}

/// Inlines the function calls of a block (one level: the inlined bodies are not looked
/// into): an assignment of a call and a call assigning several variables are replaced by
/// the inlined body, the other assignments of a statement follow one by one, a static `if`
/// is replaced by its chosen block (itself inlined), and an `if` whose condition is not a
/// value, or a call of an automaton, stays. Gives the new block and the last function
/// inlined (`None` when the block calls none); fails with the first error of its calls, in
/// the order they are met (`block_failure_from`).
#[verifier::rlimit(100)]
#[verifier::spinoff_prover]
pub fn replace_fn_calls_in_statements(
    statements: Vec<Statement>,
    functions: &Vec<(String, Function)>,
    type_map: &mut Vec<(String, (i32, Pos))>,
    counter: &mut u32,
) -> (r: Result<(Vec<Statement>, Option<Loc<String>>), ExpandFnError>)
    ensures
        match block_failure_from(functions@, statements@, 0) {
            Some(e) => r matches Err(x) && x == e,
            None => r is Ok,
        },
        r is Err ==> block_calls(statements@),
        r matches Ok((out, ch)) ==> (ch is Some <==> block_calls(statements@)),
        r matches Ok((out, Some(nm))) ==> table_has(functions@, nm.value@) && block_calls_fn(statements@, nm.value@),
        !(r matches Err(ExpandFnError::StackOverflow(_))),
        r matches Ok((out, ch)) ==> (ch is None ==> !block_calls(out@) && no_static_if(out@)),
        r matches Ok((out, ch)) ==> block_inl_rel(functions@, statements@, statements@.len() as int, out@, *old(counter))
            && *final(counter) == wadd(*old(counter), block_inl_calls(statements@, statements@.len() as int)),
    decreases statements,
{
    let ghost c0 = *counter;
    let ghost s0 = statements@;
    let ghost orig = statements;
    let len = statements.len();
    let mut rest = statements;
    let mut new_vec: Vec<Statement> = Vec::new();
    let mut changed: Option<Loc<String>> = None;
    proof {
        assert(s0.subrange(0, 0) =~= Seq::<Statement>::empty());
        assert(new_vec@ =~= Seq::<Statement>::empty());
    }
    let mut i: usize = 0;
    while i < len
        invariant
            i <= len,
            len == s0.len(),
            s0 == orig@,
            orig == statements,
            s0 == statements@,
            rest@ == s0.subrange(i as int, len as int),
            changed is Some <==> block_calls(s0.subrange(0, i as int)),
            changed is None ==> !block_calls(new_vec@),
            changed matches Some(nm) ==> table_has(functions@, nm.value@) && block_calls_fn(s0, nm.value@),
            block_failure_from(functions@, s0, 0) == block_failure_from(functions@, s0, i as int),
            c0 == *old(counter),
            block_inl_rel(functions@, s0, i as int, new_vec@, c0),
            *counter == wadd(c0, block_inl_calls(s0, i as int)),
        decreases len - i,
    {
        let st = rest.remove(0);
        assert(st == s0[i as int]);
        let ghost before = new_vec@;
        let ghost ch0 = changed;
        let ghost cb = *counter;
        proof {
            assert(s0.subrange(0, i as int + 1) =~= s0.subrange(0, i as int) + seq![st]);
            lemma_block_calls_concat(s0.subrange(0, i as int), seq![st]);
            assert(block_calls(seq![st]) == stmt_calls(st)) by {
                if stmt_calls(st) {
                    assert(seq![st][0] == st);
                }
            }
        }
        match st {
            Statement::Assign(var_assigns) => {
                let ghost va = var_assigns@;
                let n = var_assigns.len();
                let mut vrest = var_assigns;
                let mut kept: Vec<VarAssign> = Vec::new();
                let mut found = false;
                let ghost base = new_vec@.len();
                proof {
                    assert(new_vec@.subrange(base as int, base as int) =~= Seq::<Statement>::empty());
                    assert(kept@ =~= kept_assigns(va, 0));
                }
                let mut j: usize = 0;
                while j < n
                    invariant
                        before == new_vec@.subrange(0, base as int),
                        new_vec@.len() >= base,
                        base == before.len(),
                        assigns_calls_rel(functions@, va, j as int, new_vec@.subrange(base as int, new_vec@.len() as int), cb),
                        *counter == wadd(cb, assigns_calls(va, j as int)),
                        kept@ == kept_assigns(va, j as int),
                        block_inl_rel(functions@, s0, i as int, before, c0),
                        cb == wadd(c0, block_inl_calls(s0, i as int)),
                        j <= n,
                        n == va.len(),
                        vrest@ == va.subrange(j as int, n as int),
                        found <==> exists|q: int| 0 <= q < j && (#[trigger] va[q]).expr.value is FnCall,
                        found ==> changed is Some,
                        !found ==> changed == ch0 && new_vec@ == before,
                        forall|q: int| 0 <= q < kept@.len() ==> !((#[trigger] kept@[q]).expr.value is FnCall),
                        s0[i as int] == Statement::Assign(var_assigns),
                        va == var_assigns@,
                        i < s0.len(),
                        s0 == statements@,
                        assigns_failure_from(functions@, va, 0) == assigns_failure_from(functions@, va, j as int),
                        block_failure_from(functions@, s0, 0) == block_failure_from(functions@, s0, i as int),
                        changed matches Some(nm) ==> table_has(functions@, nm.value@) && block_calls_fn(s0, nm.value@),
                    decreases n - j,
                {
                    let a = vrest.remove(0);
                    assert(a == va[j as int]);
                    let VarAssign { var, expr } = a;
                    let Loc { loc, value } = expr;
                    match value {
                        Expr::FnCall(fc) => {
                            proof {
                                assert(va[j as int].expr.value is FnCall);
                                assert(stmt_calls(s0[i as int]));
                                assert(block_calls(s0));
                            }
                            proof {
                                assert(va[j as int].expr.value == Expr::FnCall(fc));
                                assert(va[j as int].var.loc == var.loc);
                            }
                            let func = match table_lookup(functions, fc.name.value.as_str()) {
                                Some(f) => f,
                                None => {
                                    proof {
                                        assert(assigns_failure_from(functions@, va, j as int)
                                            == Some(ExpandFnError::UnknowFunction(fc.name.loc, fc.name.value)));
                                        lemma_assign_failure(functions@, s0, i as int, var_assigns, j as int);
                                    }
                                    return Err(ExpandFnError::UnknowFunction(fc.name.loc, fc.name.value.clone()));
                                },
                            };
                            proof {
                                crate::util::tables::lemma_table_get_some(functions@, fc.name.value@);
                            }
                            let name = copy_name(&fc.name);
                            let mut outs: Vec<Loc<String>> = Vec::new();
                            let vloc = var.loc;
                            outs.push(var);
                            let ghost fc0 = fc;
                            let ghost outs0 = outs@;
                            let ghost nvj = new_vec@;
                            let ghost cj = *counter;
                            proof {
                                assert(outs0 =~= seq![va[j as int].var]);
                            }
                            match inline_function(func, fc, Loc { loc: vloc, value: outs }, &mut new_vec, type_map, counter) {
                                Ok(()) => {
                                    proof {
                                        assert(assigns_failure_from(functions@, va, j as int)
                                            == assigns_failure_from(functions@, va, j as int + 1));
                                        let added = new_vec@.subrange(nvj.len() as int, new_vec@.len() as int);
                                        assert(inline_err(*func, fc0, Loc { loc: vloc, value: outs }) is None);
                                        assert(inlined_rel(*func, fc0, outs0, cj, added));
                                        assert(new_vec@ =~= nvj + added);
                                        let segj = nvj.subrange(base as int, nvj.len() as int);
                                        let seg = new_vec@.subrange(base as int, new_vec@.len() as int);
                                        assert(seg.subrange(0, segj.len() as int) =~= segj);
                                        assert(seg.subrange(segj.len() as int, seg.len() as int) =~= added);
                                        assert(new_vec@.subrange(0, base as int) =~= nvj.subrange(0, base as int));
                                        assert(call_fn(functions@, fc0) == *func);
                                        assert(seg =~= segj + added);
                                        lemma_calls_rel_call(functions@, va, j as int, segj, added, cb, fc0);
                                        assert(kept_assigns(va, j as int + 1) == kept_assigns(va, j as int));
                                    }
                                },
                                Err(e) => {
                                    proof {
                                        assert(assigns_failure_from(functions@, va, j as int) == Some(e));
                                        lemma_assign_failure(functions@, s0, i as int, var_assigns, j as int);
                                    }
                                    return Err(e);
                                },
                            }
                            proof {
                                assert(stmt_calls_fn(s0[i as int], name.value@));
                                assert(block_calls_fn(s0, name.value@));
                            }
                            changed = Some(name);
                            found = true;
                        },
                        other => {
                            proof {
                                assert(!(va[j as int].expr.value is FnCall));
                                assert(assigns_failure_from(functions@, va, j as int)
                                    == assigns_failure_from(functions@, va, j as int + 1));
                            }
                            kept.push(VarAssign { var, expr: Loc { loc, value: other } });
                            proof {
                                assert(kept@ =~= kept_assigns(va, j as int + 1));
                                let seg = new_vec@.subrange(base as int, new_vec@.len() as int);
                                lemma_calls_rel_plain(functions@, va, j as int, seg, cb);
                            }
                        },
                    }
                    j = j + 1;
                }
                assert(found == stmt_calls(st));
                proof {
                    assert(stmt_failure(functions@, s0[i as int]) == assigns_failure_from(functions@, va, 0));
                    assert(block_failure_from(functions@, s0, i as int) == block_failure_from(functions@, s0, i as int + 1));
                }
                let nk = kept.len();
                let ghost kv = kept@;
                let ghost nv0 = new_vec@;
                let ghost ck = *counter;
                let ghost base2 = nv0.len();
                let mut krest = kept;
                let mut q: usize = 0;
                while q < nk
                    invariant
                        new_vec@.len() == base2 + q,
                        new_vec@.subrange(0, base2 as int) == nv0,
                        forall|t: int| 0 <= t < q ==> (#[trigger] new_vec@[base2 + t] matches Statement::Assign(w) && w@ == seq![kv[t]]),
                        *counter == ck,
                        base2 == nv0.len(),
                        q <= nk,
                        nk == kv.len(),
                        krest@ == kv.subrange(q as int, nk as int),
                        forall|t: int| 0 <= t < nk ==> !((#[trigger] kv[t]).expr.value is FnCall),
                        !block_calls(nv0) ==> !block_calls(new_vec@),
                        found ==> changed is Some,
                        !found ==> changed == ch0,
                        changed matches Some(nm) ==> table_has(functions@, nm.value@) && block_calls_fn(s0, nm.value@),
                    decreases nk - q,
                {
                    let a = krest.remove(0);
                    assert(a == kv[q as int]);
                    let mut one: Vec<VarAssign> = Vec::new();
                    one.push(a);
                    let ghost nb = new_vec@;
                    let s1 = Statement::Assign(one);
                    proof {
                        assert(!stmt_calls(s1)) by {
                            if stmt_calls(s1) {
                                let t = choose|t: int| 0 <= t < one@.len() && (#[trigger] one@[t]).expr.value is FnCall;
                                assert(one@[t] == a);
                            }
                        }
                        lemma_block_calls_concat(nb, seq![s1]);
                        assert(!block_calls(seq![s1])) by {
                            if block_calls(seq![s1]) {
                                let t = choose|t: int| 0 <= t < 1 && stmt_calls(#[trigger] seq![s1][t]);
                                assert(seq![s1][t] == s1);
                            }
                        }
                    }
                    new_vec.push(s1);
                    proof {
                        assert(new_vec@ =~= nb + seq![s1]);
                        assert(one@ =~= seq![kv[q as int]]);
                        assert(new_vec@.subrange(0, base2 as int) =~= nb.subrange(0, base2 as int));
                        assert forall|t: int| 0 <= t < q + 1 implies (#[trigger] new_vec@[base2 + t] matches Statement::Assign(w) && w@ == seq![kv[t]]) by {
                            if t < q {
                                assert(new_vec@[base2 + t] == nb[base2 + t]);
                            }
                        }
                    }
                    q = q + 1;
                }
                proof {
                    let seg = new_vec@.subrange(base as int, new_vec@.len() as int);
                    let cl = assigns_calls_len(functions@, va, n as int) as int;
                    let calls = nv0.subrange(base as int, base2 as int);
                    assert(calls.len() == cl);
                    assert(seg.subrange(0, cl) =~= calls);
                    let ks = seg.subrange(cl, seg.len() as int);
                    assert forall|t: int| 0 <= t < ks.len() implies (#[trigger] ks[t] matches Statement::Assign(w) && w@ == seq![kv[t]]) by {
                        assert(ks[t] == new_vec@[base2 + t]);
                    }
                    assert(singles(kept_assigns(va, n as int), ks));
                    assert(new_vec@.subrange(0, base as int) =~= before);
                    assert(stmt_inl_rel(functions@, s0[i as int], seg, cb));
                    assert(*counter == wadd(cb, stmt_inl_calls(s0[i as int])));
                }
            },
            Statement::If(ifs) => {
                let IfStruct { condition, if_block, else_block } = ifs;
                match condition {
                    Const::Value(c) => {
                        let block = if c == 0 { else_block } else { if_block };
                        proof {
                            assert(decreases_to!(orig => orig@));
                            assert(decreases_to!(orig@ => s0[i as int]));
                            assert(decreases_to!(s0[i as int] => block));
                            assert(decreases_to!(statements => block));
                            assert(block_calls(block@) == stmt_calls(st));
                        }
                        let ghost blk = block@;
                        proof {
                            assert(stmt_failure(functions@, s0[i as int]) == block_failure_from(functions@, blk, 0));
                        }
                        let (out, ch) = match replace_fn_calls_in_statements(block, functions, type_map, counter) {
                            Ok(x) => x,
                            Err(e) => {
                                proof {
                                    assert(stmt_calls(s0[i as int]));
                                    assert(block_calls(s0));
                                    assert(block_failure_from(functions@, s0, i as int) == Some(e));
                                }
                                return Err(e);
                            },
                        };
                        proof {
                            assert(block_failure_from(functions@, s0, i as int) == block_failure_from(functions@, s0, i as int + 1));
                        }
                        let ghost chg = ch;
                        proof {
                            if let Some(nm) = chg {
                                assert(block_calls_fn(blk, nm.value@));
                                assert(stmt_calls_fn(s0[i as int], nm.value@));
                                assert(block_calls_fn(s0, nm.value@));
                            }
                        }
                        if ch.is_some() && changed.is_none() {
                            changed = ch;
                        }
                        let mut q: usize = 0;
                        let ghost ov = out@;
                        let ghost nv0 = new_vec@;
                        let ghost ck = *counter;
                        let no = out.len();
                        let mut orest = out;
                        while q < no
                            invariant
                                *counter == ck,
                                q <= no,
                                no == ov.len(),
                                orest@ == ov.subrange(q as int, no as int),
                                new_vec@ == nv0 + ov.subrange(0, q as int),
                            decreases no - q,
                        {
                            let s2 = orest.remove(0);
                            assert(s2 == ov[q as int]);
                            new_vec.push(s2);
                            proof {
                                assert(new_vec@ =~= nv0 + ov.subrange(0, q as int + 1));
                            }
                            q = q + 1;
                        }
                        proof {
                            assert(ov.subrange(0, no as int) =~= ov);
                            lemma_block_calls_concat(nv0, ov);
                            assert(nv0 == before);
                            assert(new_vec@.subrange(before.len() as int, new_vec@.len() as int) =~= ov);
                            assert(new_vec@.subrange(0, before.len() as int) =~= before);
                            assert(stmt_inl_rel(functions@, s0[i as int], ov, cb));
                            assert(*counter == wadd(cb, stmt_inl_calls(s0[i as int])));
                        }
                    },
                    other => {
                        let s1 = Statement::If(IfStruct { condition: other, if_block, else_block });
                        assert(!stmt_calls(s1));
                        assert(block_failure_from(functions@, s0, i as int) == block_failure_from(functions@, s0, i as int + 1));
                        let ghost nb = new_vec@;
                        new_vec.push(s1);
                        proof {
                            assert(new_vec@ =~= nb + seq![s1]);
                            assert(new_vec@.subrange(before.len() as int, new_vec@.len() as int) =~= seq![s1]);
                            assert(new_vec@.subrange(0, before.len() as int) =~= before);
                            assert(stmt_inl_rel(functions@, s0[i as int], seq![s1], cb));
                            assert(*counter == wadd(cb, stmt_inl_calls(s0[i as int])));
                            lemma_block_calls_concat(nb, seq![s1]);
                            assert(!block_calls(seq![s1])) by {
                                if block_calls(seq![s1]) {
                                    let t = choose|t: int| 0 <= t < 1 && stmt_calls(#[trigger] seq![s1][t]);
                                    assert(seq![s1][t] == s1);
                                }
                            }
                        }
                    },
                }
            },
            Statement::FnAssign(fa) => {
                proof {
                    assert(stmt_calls(s0[i as int]));
                    assert(block_calls(s0));
                }
                let FnAssign { vars, f } = fa;
                let ghost here = call_failure(functions@, f, f.name.loc, vars@.len() as int);
                proof {
                    assert(stmt_failure(functions@, s0[i as int]) == here);
                }
                let func = match table_lookup(functions, f.name.value.as_str()) {
                    Some(x) => x,
                    None => {
                        proof {
                            assert(block_failure_from(functions@, s0, i as int) == here);
                        }
                        return Err(ExpandFnError::UnknowFunction(f.name.loc, f.name.value.clone()));
                    },
                };
                proof {
                    crate::util::tables::lemma_table_get_some(functions@, f.name.value@);
                }
                let name = copy_name(&f.name);
                let nloc = f.name.loc;
                let ghost f0 = f;
                let ghost vars0 = vars@;
                match inline_function(func, f, Loc { loc: nloc, value: vars }, &mut new_vec, type_map, counter) {
                    Ok(()) => {
                        proof {
                            assert(block_failure_from(functions@, s0, i as int) == block_failure_from(functions@, s0, i as int + 1));
                            let added = new_vec@.subrange(before.len() as int, new_vec@.len() as int);
                            assert(inline_err(*func, f0, Loc { loc: nloc, value: vars }) is None);
                            assert(inlined_rel(*func, f0, vars0, cb, added));
                            assert(call_fn(functions@, f0) == *func);
                            assert(stmt_inl_rel(functions@, s0[i as int], added, cb));
                            assert(wadd(cb, 0) == cb);
                            assert(*counter == wadd(cb, stmt_inl_calls(s0[i as int])));
                            assert(new_vec@.subrange(0, before.len() as int) =~= before);
                        }
                    },
                    Err(e) => {
                        proof {
                            assert(block_failure_from(functions@, s0, i as int) == here);
                        }
                        return Err(e);
                    },
                }
                proof {
                    assert(stmt_calls_fn(s0[i as int], name.value@));
                    assert(block_calls_fn(s0, name.value@));
                }
                changed = Some(name);
            },
            Statement::ExtAutomaton(e) => {
                let s1 = Statement::ExtAutomaton(e);
                assert(!stmt_calls(s1));
                assert(block_failure_from(functions@, s0, i as int) == block_failure_from(functions@, s0, i as int + 1));
                let ghost nb = new_vec@;
                new_vec.push(s1);
                proof {
                    assert(new_vec@ =~= nb + seq![s1]);
                    assert(new_vec@.subrange(before.len() as int, new_vec@.len() as int) =~= seq![s1]);
                    assert(new_vec@.subrange(0, before.len() as int) =~= before);
                    assert(stmt_inl_rel(functions@, s0[i as int], seq![s1], cb));
                    assert(*counter == wadd(cb, stmt_inl_calls(s0[i as int])));
                    lemma_block_calls_concat(nb, seq![s1]);
                    assert(!block_calls(seq![s1])) by {
                        if block_calls(seq![s1]) {
                            let t = choose|t: int| 0 <= t < 1 && stmt_calls(#[trigger] seq![s1][t]);
                            assert(seq![s1][t] == s1);
                        }
                    }
                }
            },
        }
        proof {
            let seg = new_vec@.subrange(before.len() as int, new_vec@.len() as int);
            assert(new_vec@ =~= before + seg);
            lemma_block_inl_step(functions@, s0, i as int, before, seg, c0);
            lemma_wadd_add(c0, block_inl_calls(s0, i as int), stmt_inl_calls(s0[i as int]));
        }
        i = i + 1;
    }
    proof {
        assert(s0.subrange(0, len as int) =~= s0);
        if changed is None {
            assert forall|t: int| 0 <= t < len && t < s0.len() implies !stmt_calls(#[trigger] s0[t]) by {
                if stmt_calls(s0[t]) {
                    assert(block_calls(s0));
                }
            }
            lemma_block_inl_no_if(functions@, s0, len as int, new_vec@, c0);
        }
    }
    Ok((new_vec, changed))
}


/// The first error of inlining the calls of the states from `k` on.
pub open spec fn states_failure_from(fns: Seq<(String, Function)>, st: Seq<(String, State)>, k: int) -> Option<ExpandFnError>
    decreases st.len() - k,
{
    if k < 0 || k >= st.len() {
        None
    } else {
        let here = block_failure_from(fns, st[k].1.statements@, 0);
        if here is Some {
            here
        } else {
            states_failure_from(fns, st, k + 1)
        }
    }
}

/// The first error of inlining the calls of the automata from `i` on.
pub open spec fn automata_failure_from(fns: Seq<(String, Function)>, au: Seq<(String, Automaton)>, i: int) -> Option<ExpandFnError>
    decreases au.len() - i,
{
    if i < 0 || i >= au.len() {
        None
    } else {
        let here = states_failure_from(fns, au[i].1.states@, 0);
        if here is Some {
            here
        } else {
            automata_failure_from(fns, au, i + 1)
        }
    }
}

/// Whether some state of the automaton at `i` calls a function.
pub open spec fn auto_calls(a: Automaton) -> bool {
    exists|k: int| 0 <= k < a.states@.len() && block_calls((#[trigger] a.states@[k]).1.statements@)
}

/// Whether some state of the automaton calls the function named `n`.
pub open spec fn auto_calls_fn(a: Automaton, n: Seq<char>) -> bool {
    exists|k: int| 0 <= k < a.states@.len() && block_calls_fn((#[trigger] a.states@[k]).1.statements@, n)
}

/// Whether some state of some automaton calls the function named `n`.
pub open spec fn prog_calls_fn(p: Program, n: Seq<char>) -> bool {
    exists|i: int| 0 <= i < p.automata@.len() && auto_calls_fn((#[trigger] p.automata@[i]).1, n)
}

/// Whether some state of some automaton calls a function.
pub open spec fn prog_calls(p: Program) -> bool {
    exists|i: int| 0 <= i < p.automata@.len() && auto_calls(#[trigger] p.automata@[i].1)
}

/// The number of calls inlined in the first `k` states.
pub open spec fn states_inl_calls(st: Seq<(String, State)>, k: int) -> nat
    decreases k,
{
    if 0 < k <= st.len() {
        states_inl_calls(st, k - 1) + block_inl_calls(st[k - 1].1.statements@, st[k - 1].1.statements@.len() as int)
    } else {
        0
    }
}

/// `b` is the automaton `a` with the calls of each state inlined, in order, numbered from `c`.
pub open spec fn auto_inl_rel(fns: Seq<(String, Function)>, a: Automaton, b: Automaton, c: u32) -> bool {
    &&& b.name == a.name
    &&& b.inputs == a.inputs
    &&& b.outputs == a.outputs
    &&& b.shared == a.shared
    &&& b.init_states == a.init_states
    &&& b.states@.len() == a.states@.len()
    &&& forall|q: int| 0 <= q < a.states@.len() ==> {
        let (s, t) = (a.states@[q].1, (#[trigger] b.states@[q]).1);
        &&& b.states@[q].0 == a.states@[q].0
        &&& t.name == s.name
        &&& t.transitions == s.transitions
        &&& t.weak == s.weak
        &&& block_inl_rel(fns, s.statements@, s.statements@.len() as int, t.statements@, wadd(c, states_inl_calls(a.states@, q)))
    }
}

/// The number of calls inlined in the first `i` automata.
pub open spec fn automata_inl_calls(au: Seq<(String, Automaton)>, i: int) -> nat
    decreases i,
{
    if 0 < i <= au.len() {
        automata_inl_calls(au, i - 1) + states_inl_calls(au[i - 1].1.states@, au[i - 1].1.states@.len() as int)
    } else {
        0
    }
}

/// `q` is the program `p` after one round of inlining, its calls numbered from `c`.
pub open spec fn round_rel(p: Program, q: Program, c: u32) -> bool {
    &&& q.imports == p.imports
    &&& q.functions == p.functions
    &&& q.global_consts == p.global_consts
    &&& q.automata@.len() == p.automata@.len()
    &&& forall|i: int| 0 <= i < p.automata@.len() ==> (#[trigger] q.automata@[i]).0 == p.automata@[i].0
        && auto_inl_rel(p.functions@, p.automata@[i].1, q.automata@[i].1, wadd(c, automata_inl_calls(p.automata@, i)))
}

/// Inlines one level of function calls in each state of an automaton; gives the first
/// function inlined, if any.
fn replace_fn_calls_in_automaton(
    a: &mut Automaton,
    functions: &Vec<(String, Function)>,
    type_map: &mut Vec<(String, (i32, Pos))>,
    counter: &mut u32,
) -> (r: Result<Option<Loc<String>>, ExpandFnError>)
    ensures
        match states_failure_from(functions@, old(a).states@, 0) {
            Some(e) => r matches Err(x) && x == e,
            None => r is Ok,
        },
        r is Err ==> auto_calls(*old(a)),
        r matches Ok(Some(nm)) ==> table_has(functions@, nm.value@) && auto_calls_fn(*old(a), nm.value@),
        !(r matches Err(ExpandFnError::StackOverflow(_))),
        r matches Ok(ch) ==> (ch is Some <==> auto_calls(*old(a))),
        r matches Ok(ch) ==> (ch is None ==> !auto_calls(*final(a))),
        r is Ok ==> auto_inl_rel(functions@, *old(a), *final(a), *old(counter))
            && *final(counter) == wadd(*old(counter), states_inl_calls(old(a).states@, old(a).states@.len() as int)),
{
    let ghost a0 = *a;
    let ghost c0 = *counter;
    let mut changed: Option<Loc<String>> = None;
    let mut k: usize = 0;
    while k < a.states.len()
        invariant
            k <= a.states@.len(),
            a0 == *old(a),
            a.states@.len() == a0.states@.len(),
            forall|q: int| k <= q < a.states@.len() ==> a.states@[q] == a0.states@[q],
            changed is Some <==> exists|q: int| 0 <= q < k && block_calls((#[trigger] a0.states@[q]).1.statements@),
            changed is None ==> forall|q: int| 0 <= q < k ==> !block_calls((#[trigger] a.states@[q]).1.statements@),
            states_failure_from(functions@, a0.states@, 0) == states_failure_from(functions@, a0.states@, k as int),
            changed matches Some(nm) ==> table_has(functions@, nm.value@) && auto_calls_fn(a0, nm.value@),
            c0 == *old(counter),
            a.name == a0.name,
            a.inputs == a0.inputs,
            a.outputs == a0.outputs,
            a.shared == a0.shared,
            a.init_states == a0.init_states,
            *counter == wadd(c0, states_inl_calls(a0.states@, k as int)),
            forall|q: int| 0 <= q < k ==> {
                let (s, t) = (a0.states@[q].1, (#[trigger] a.states@[q]).1);
                &&& a.states@[q].0 == a0.states@[q].0
                &&& t.name == s.name
                &&& t.transitions == s.transitions
                &&& t.weak == s.weak
                &&& block_inl_rel(functions@, s.statements@, s.statements@.len() as int, t.statements@, wadd(c0, states_inl_calls(a0.states@, q)))
            },
        decreases a.states@.len() - k,
    {
        let ghost sk = a0.states@[k as int].1.statements@;
        let ghost sb = a.states@;
        let mut stmts: Vec<Statement> = Vec::new();
        std::mem::swap(&mut stmts, &mut a.states[k].1.statements);
        assert(stmts@ == sk);
        match replace_fn_calls_in_statements(stmts, functions, type_map, counter) {
            Ok((out, ch)) => {
                a.states[k].1.statements = out;
                let ghost chg = ch;
                proof {
                    if let Some(nm) = chg {
                        assert(block_calls_fn(a0.states@[k as int].1.statements@, nm.value@));
                        assert(auto_calls_fn(a0, nm.value@));
                    }
                }
                if changed.is_none() {
                    changed = ch;
                }
                proof {
                    assert forall|q: int| k + 1 <= q < a.states@.len() implies a.states@[q] == a0.states@[q] by {
                        assert(a.states@[q] == sb[q]);
                    }
                    if changed is None {
                        assert forall|q: int| 0 <= q < k + 1 implies !block_calls((#[trigger] a.states@[q]).1.statements@) by {
                            if q < k {
                                assert(a.states@[q] == sb[q]);
                            }
                        }
                    }
                    if block_calls(sk) {
                        assert(block_calls(a0.states@[k as int].1.statements@));
                    }
                    assert forall|q: int| 0 <= q < k + 1 implies {
                        let (s, t) = (a0.states@[q].1, (#[trigger] a.states@[q]).1);
                        &&& a.states@[q].0 == a0.states@[q].0
                        &&& t.name == s.name
                        &&& t.transitions == s.transitions
                        &&& t.weak == s.weak
                        &&& block_inl_rel(functions@, s.statements@, s.statements@.len() as int, t.statements@, wadd(c0, states_inl_calls(a0.states@, q)))
                    } by {
                        if q < k {
                            assert(a.states@[q] == sb[q]);
                        }
                    }
                    lemma_wadd_add(c0, states_inl_calls(a0.states@, k as int), block_inl_calls(sk, sk.len() as int));
                }
            },
            Err(e) => {
                proof {
                    assert(block_calls(a0.states@[k as int].1.statements@));
                    assert(states_failure_from(functions@, a0.states@, k as int) == Some(e));
                }
                return Err(e);
            },
        }
        k = k + 1;
    }
    Ok(changed)
}

/// Inlines one level of function calls in every state; gives the first function inlined,
/// if any. Fails with the first error of the calls, automaton after automaton and state
/// after state (`automata_failure_from`).
pub fn replace_fn_calls(prog: &mut Program, type_map: &mut Vec<(String, (i32, Pos))>, counter: &mut u32) -> (r: Result<
    Option<Loc<String>>,
    ExpandFnError,
>)
    ensures
        match automata_failure_from(old(prog).functions@, old(prog).automata@, 0) {
            Some(e) => r matches Err(x) && x == e,
            None => r is Ok,
        },
        final(prog).functions == old(prog).functions,
        r matches Ok(Some(nm)) ==> table_has(old(prog).functions@, nm.value@) && prog_calls_fn(*old(prog), nm.value@),
        !(r matches Err(ExpandFnError::StackOverflow(_))),
        r is Ok ==> round_rel(*old(prog), *final(prog), *old(counter))
            && *final(counter) == wadd(*old(counter), automata_inl_calls(old(prog).automata@, old(prog).automata@.len() as int)),
        r is Err ==> prog_calls(*old(prog)),
        r matches Ok(ch) ==> (ch is Some <==> prog_calls(*old(prog))),
        r matches Ok(ch) ==> (ch is None ==> !prog_calls(*final(prog))),
{
    let ghost p0 = *prog;
    let ghost c0 = *counter;
    let mut automata: Vec<(String, Automaton)> = Vec::new();
    std::mem::swap(&mut automata, &mut prog.automata);
    let mut changed: Option<Loc<String>> = None;
    let mut i: usize = 0;
    while i < automata.len()
        invariant
            i <= automata@.len(),
            p0 == *old(prog),
            automata@.len() == p0.automata@.len(),
            forall|q: int| i <= q < automata@.len() ==> automata@[q] == p0.automata@[q],
            changed is Some <==> exists|q: int| 0 <= q < i && auto_calls((#[trigger] p0.automata@[q]).1),
            changed is None ==> forall|q: int| 0 <= q < i ==> !auto_calls((#[trigger] automata@[q]).1),
            prog.functions == p0.functions,
            prog.imports == p0.imports,
            prog.global_consts == p0.global_consts,
            c0 == *old(counter),
            *counter == wadd(c0, automata_inl_calls(p0.automata@, i as int)),
            forall|q: int| 0 <= q < i ==> (#[trigger] automata@[q]).0 == p0.automata@[q].0
                && auto_inl_rel(p0.functions@, p0.automata@[q].1, automata@[q].1, wadd(c0, automata_inl_calls(p0.automata@, q))),
            changed matches Some(nm) ==> table_has(p0.functions@, nm.value@) && prog_calls_fn(p0, nm.value@),
            automata_failure_from(p0.functions@, p0.automata@, 0) == automata_failure_from(p0.functions@, p0.automata@, i as int),
        decreases automata@.len() - i,
    {
        let ghost ab = automata@;
        let res = replace_fn_calls_in_automaton(&mut automata[i].1, &prog.functions, type_map, counter);
        match res {
            Ok(ch) => {
                let ghost chg = ch;
                proof {
                    if let Some(nm) = chg {
                        assert(auto_calls_fn(p0.automata@[i as int].1, nm.value@));
                        assert(prog_calls_fn(p0, nm.value@));
                    }
                }
                if changed.is_none() {
                    changed = ch;
                }
                proof {
                    assert forall|q: int| i + 1 <= q < automata@.len() implies automata@[q] == p0.automata@[q] by {
                        assert(automata@[q] == ab[q]);
                    }
                    if changed is None {
                        assert forall|q: int| 0 <= q < i + 1 implies !auto_calls((#[trigger] automata@[q]).1) by {
                            if q < i {
                                assert(automata@[q] == ab[q]);
                            }
                        }
                    }
                    if auto_calls(ab[i as int].1) {
                        assert(auto_calls(p0.automata@[i as int].1));
                    }
                    assert forall|q: int| 0 <= q < i + 1 implies (#[trigger] automata@[q]).0 == p0.automata@[q].0
                        && auto_inl_rel(p0.functions@, p0.automata@[q].1, automata@[q].1, wadd(c0, automata_inl_calls(p0.automata@, q))) by {
                        if q < i {
                            assert(automata@[q] == ab[q]);
                        }
                    }
                    lemma_wadd_add(c0, automata_inl_calls(p0.automata@, i as int), states_inl_calls(ab[i as int].1.states@, ab[i as int].1.states@.len() as int));
                }
            },
            Err(e) => {
                proof {
                    assert(auto_calls(p0.automata@[i as int].1));
                    assert(automata_failure_from(p0.functions@, p0.automata@, i as int) == Some(e));
                }
                prog.automata = automata;
                return Err(e);
            },
        }
        i = i + 1;
    }
    prog.automata = automata;
    Ok(changed)
}

/// The call counter after one round of inlining on `p` started at `c`.
pub open spec fn round_counter(p: Program, c: u32) -> u32 {
    wadd(c, automata_inl_calls(p.automata@, p.automata@.len() as int))
}

/// Link `i` of a chain of rounds: the program at `i` calls functions without error, and the
/// one at `i + 1` is what a round of inlining makes of it, with the counter that follows.
pub open spec fn round_link(ps: Seq<(Program, u32)>, i: int) -> bool {
    &&& prog_calls(ps[i].0)
    &&& automata_failure_from(ps[i].0.functions@, ps[i].0.automata@, 0) is None
    &&& round_rel(ps[i].0, ps[i + 1].0, ps[i].1)
    &&& ps[i + 1].1 == round_counter(ps[i].0, ps[i].1)
}

/// `ps` lists the programs, each with the call counter, before each round of inlining that
/// starts from `p0` and `c0`.
pub open spec fn expansion_chain(p0: Program, c0: u32, ps: Seq<(Program, u32)>) -> bool {
    &&& ps.len() >= 1
    &&& ps[0] == (p0, c0)
    &&& forall|i: int| 0 <= i < ps.len() - 1 ==> #[trigger] round_link(ps, i)
}

/// Inlines the function calls, round after round, until no state calls a function; after
/// `REC_DEPTH` rounds with calls left, the last function inlined is taken for an endless
/// recursion. The required sizes of the new variables go to `type_map`, and `counter`
/// numbers the calls.
///
/// The rounds form an `expansion_chain` from the program as given. It ends well when a round
/// finds no call: the result is that round's output. It fails with the first error of the
/// calls of the program a round starts from, or with `StackOverflow` when the program after
/// `REC_DEPTH - 1` rounds still calls functions, naming a function that it calls.
pub fn expand_functions(prog: &mut Program, type_map: &mut Vec<(String, (i32, Pos))>, counter: &mut u32) -> (r: Result<
    (),
    ExpandFnError,
>)
    ensures
        r is Ok ==> !prog_calls(*final(prog)),
        !prog_calls(*old(prog)) ==> r is Ok,
        automata_failure_from(old(prog).functions@, old(prog).automata@, 0) matches Some(e) ==> r matches Err(x) && x == e,
        r matches Err(ExpandFnError::StackOverflow(nm)) ==> prog_calls(*old(prog)) && table_has(old(prog).functions@, nm.value@),
        final(prog).functions == old(prog).functions,
        r is Ok ==> exists|ps: Seq<(Program, u32)>| {
            &&& #[trigger] expansion_chain(*old(prog), *old(counter), ps)
            &&& ps.len() <= REC_DEPTH
            &&& !prog_calls(ps.last().0)
            &&& round_rel(ps.last().0, *final(prog), ps.last().1)
            &&& *final(counter) == round_counter(ps.last().0, ps.last().1)
        },
        r matches Err(e) ==> (!(e is StackOverflow) ==> exists|ps: Seq<(Program, u32)>| {
            &&& #[trigger] expansion_chain(*old(prog), *old(counter), ps)
            &&& ps.len() <= REC_DEPTH
            &&& automata_failure_from(ps.last().0.functions@, ps.last().0.automata@, 0) == Some(e)
        }),
        r matches Err(ExpandFnError::StackOverflow(nm)) ==> exists|ps: Seq<(Program, u32)>| {
            &&& #[trigger] expansion_chain(*old(prog), *old(counter), ps)
            &&& ps.len() == REC_DEPTH
            &&& prog_calls_fn(ps.last().0, nm.value@)
            &&& automata_failure_from(ps.last().0.functions@, ps.last().0.automata@, 0) is None
        },
        (forall|ps: Seq<(Program, u32)>| #[trigger] expansion_chain(*old(prog), *old(counter), ps) ==> {
            &&& automata_failure_from(ps.last().0.functions@, ps.last().0.automata@, 0) is None
            &&& (prog_calls(ps.last().0) ==> ps.len() < REC_DEPTH)
        }) ==> r is Ok,
{
    let ghost p0 = *prog;
    let ghost c0 = *counter;
    let ghost mut ps: Seq<(Program, u32)> = seq![(p0, c0)];
    let mut rounds: u32 = 0;
    loop
        invariant
            rounds < REC_DEPTH,
            p0 == *old(prog),
            c0 == *old(counter),
            expansion_chain(p0, c0, ps),
            ps.len() == rounds + 1,
            ps.last() == (*prog, *counter),
            rounds > 0 ==> prog_calls(p0),
            rounds > 0 ==> automata_failure_from(p0.functions@, p0.automata@, 0) is None,
            prog.functions == p0.functions,
        decreases REC_DEPTH - rounds,
    {
        let changed = match replace_fn_calls(prog, type_map, counter) {
            Ok(c) => c,
            Err(e) => {
                proof {
                    assert(expansion_chain(p0, c0, ps));
                }
                return Err(e);
            },
        };
        match changed {
            None => {
                proof {
                    assert(expansion_chain(p0, c0, ps));
                }
                return Ok(());
            },
            Some(name) => {
                if rounds + 1 >= REC_DEPTH {
                    proof {
                        assert(expansion_chain(p0, c0, ps));
                    }
                    return Err(ExpandFnError::StackOverflow(name));
                }
                proof {
                    let ghost qs = ps.push((*prog, *counter));
                    assert forall|i: int| 0 <= i < qs.len() - 1 implies #[trigger] round_link(qs, i) by {
                        assert(qs[i] == ps[i]);
                        if i < ps.len() - 1 {
                            assert(round_link(ps, i));
                            assert(qs[i + 1] == ps[i + 1]);
                        }
                    }
                    ps = qs;
                }
                rounds = rounds + 1;
            },
        }
    }
}

} // verus!
