use tinyjazz::ast::graph::{BiOp, FlatProgramGraph, Node, RCell};
use tinyjazz::ast::parse_ast::{
    Const, ConstBiOp, ConstExpr, Expr, FnCall, Loc, Pos, Statement, TrCond, VarAssign,
};
use tinyjazz::backends::netlist::to_netlist;
use tinyjazz::frontend::constants::{
    compute_const, compute_consts_in_statement, compute_global_consts, ComputeConstError,
};
use tinyjazz::frontend::nested_expr::{flatten_assigns, FlattenError};
use tinyjazz::interpreters::low_level_interpreter::interprete;
use tinyjazz::optimization::basic::optimize;
use tinyjazz::ast::graph_automaton::ExprOperation;
use tinyjazz::ast::typed_ast::{
    ExprTermType, ExprType, Program as TypedProgram, Sized, State as TypedState, Var as TypedVar,
};
use tinyjazz::frontend::automaton::flatten_automata;
use tinyjazz::frontend::make_graph_automaton::make_graph;

fn p(i: usize) -> Pos {
    Pos(0, i, i + 1)
}

fn var(name: &str, i: usize) -> Loc<String> {
    Loc::new(p(i), name.to_string())
}

fn var_expr(name: &str, i: usize) -> Loc<Expr> {
    Loc::new(p(i), Expr::Var(var(name, i)))
}

fn bits(v: &[bool]) -> Loc<Expr> {
    Loc::new(p(0), Expr::Const(ConstExpr::Known(v.to_vec())))
}

fn cbin(op: ConstBiOp, a: Const, b: Const) -> Const {
    Const::BiOp(op, Box::new(a), Box::new(Loc::new(p(1), b)))
}

fn assigned_name(s: &Statement) -> String {
    match s {
        Statement::Assign(v) => v[0].var.value.clone(),
        _ => panic!("not an assignment"),
    }
}

#[test]
fn loc_new_keeps_position_and_value() {
    let l = Loc::new(Pos(1, 2, 3), 7u8);
    assert_eq!(l.loc, Pos(1, 2, 3));
    assert_eq!(l.value, 7);
}

#[test]
fn transition_conditions() {
    assert!(TrCond::Default.is_default());
    assert!(!TrCond::Default.is_expr());
    let c = TrCond::Expr(Expr::Var(var("x", 0)));
    assert!(c.is_expr());
    assert!(!c.is_default());
}

#[test]
fn rcell_new_appends_to_the_arena() {
    let mut arena: Vec<Node> = Vec::new();
    let a = RCell::new(&mut arena, Node::Input(0));
    let b = RCell::new(&mut arena, Node::Not(a));
    assert_eq!(a.id(), 0);
    assert_eq!(b.id(), 1);
    assert_eq!(arena.len(), 2);
}

#[test]
fn constant_arithmetic() {
    let consts: Vec<(String, Const)> = vec![("n".to_string(), Const::Value(5))];
    let c = cbin(
        ConstBiOp::Plus,
        Const::Value(3),
        cbin(ConstBiOp::Times, Const::Var(var("n", 0)), Const::Value(2)),
    );
    assert_eq!(compute_const(&c, &consts).unwrap(), 13);
    let d = cbin(ConstBiOp::Div, Const::Value(-7), Const::Value(2));
    assert_eq!(compute_const(&d, &consts).unwrap(), -3);
    let cmp = cbin(ConstBiOp::Lt, Const::Value(1), Const::Value(2));
    assert_eq!(compute_const(&cmp, &consts).unwrap(), 1);
}

#[test]
fn constant_errors() {
    let consts: Vec<(String, Const)> = Vec::new();
    let unknown = Const::Var(var("m", 4));
    assert!(matches!(
        compute_const(&unknown, &consts),
        Err(ComputeConstError::UnknowVariable(pos, name)) if pos == p(4) && name == "m"
    ));
    let div = cbin(ConstBiOp::Div, Const::Value(1), Const::Value(0));
    assert!(matches!(
        compute_const(&div, &consts),
        Err(ComputeConstError::DivisionByZero(_))
    ));
}

#[test]
fn constants_in_statements_are_reduced() {
    let consts: Vec<(String, Const)> = vec![("n".to_string(), Const::Value(4))];
    let e = Expr::Const(ConstExpr::Unknown(true, Loc::new(p(0), Const::Var(var("n", 0)))));
    let mut st = Statement::Assign(vec![VarAssign { var: var("a", 0), expr: Loc::new(p(0), e) }]);
    assert!(compute_consts_in_statement(&mut st, &consts).is_ok());
    match st {
        Statement::Assign(v) => match &v[0].expr.value {
            Expr::Const(ConstExpr::Unknown(b, c)) => {
                assert!(*b);
                assert!(matches!(c.value, Const::Value(4)));
            }
            _ => panic!("the constant is gone"),
        },
        _ => panic!("the statement changed kind"),
    }
}

#[test]
fn global_constants_follow_their_dependencies() {
    let mut consts: Vec<(String, Const)> = vec![
        ("b".to_string(), cbin(ConstBiOp::Plus, Const::Var(var("a", 0)), Const::Value(1))),
        ("a".to_string(), Const::Value(2)),
    ];
    assert!(compute_global_consts(&mut consts).is_ok());
    let b = consts.iter().find(|(n, _)| n == "b").unwrap();
    assert!(matches!(b.1, Const::Value(3)));
}

#[test]
fn cyclic_global_constants_are_refused() {
    let mut consts: Vec<(String, Const)> = vec![
        ("a".to_string(), Const::Var(var("b", 0))),
        ("b".to_string(), Const::Var(var("a", 1))),
    ];
    assert!(matches!(
        compute_global_consts(&mut consts),
        Err(ComputeConstError::CyclicDefinition)
    ));
}

#[test]
fn flattening_names_intermediate_variables() {
    // a = (x & y) | z
    let inner = Loc::new(
        p(1),
        Expr::BiOp(BiOp::And, Box::new(var_expr("x", 1)), Box::new(var_expr("y", 2))),
    );
    let e = Loc::new(p(1), Expr::BiOp(BiOp::Or, Box::new(inner), Box::new(var_expr("z", 3))));
    let mut counter: usize = 0;
    let out = flatten_assigns(vec![VarAssign { var: var("a", 0), expr: e }], &mut counter).unwrap();
    // x = x & y; a = x | z: the top operation assigns a directly
    assert_eq!(out.len(), 2);
    assert_eq!(counter, 2);
    assert_eq!(assigned_name(&out[0]), "a#flatten#0");
    assert_eq!(assigned_name(&out[1]), "a");
    match &out[1] {
        Statement::Assign(v) => match &v[0].expr.value {
            Expr::BiOp(BiOp::Or, x, z) => {
                assert!(matches!(&x.value, Expr::Var(n) if n.value == "a#flatten#0"));
                assert!(matches!(&z.value, Expr::Var(n) if n.value == "z"));
            }
            _ => panic!("the top operation is not assigned"),
        },
        _ => panic!("not an assignment"),
    }
}

#[test]
fn flattening_call_arguments_uses_the_function_name() {
    // a = f(not x)
    let arg = Loc::new(p(2), Expr::Not(Box::new(Expr::Var(var("x", 2)))));
    let call = FnCall {
        name: var("f", 1),
        args: Loc::new(p(1), vec![arg]),
        static_args: Loc::new(p(1), Vec::new()),
    };
    let e = Loc::new(p(1), Expr::FnCall(call));
    let mut counter: usize = 10;
    let out = flatten_assigns(vec![VarAssign { var: var("a", 0), expr: e }], &mut counter).unwrap();
    assert_eq!(counter, 12);
    assert_eq!(out.len(), 2);
    assert_eq!(assigned_name(&out[0]), "f#flatten#11");
    match &out[1] {
        Statement::FnAssign(fa) => {
            assert_eq!(fa.vars[0].value, "a");
            assert!(matches!(&fa.f.args.value[0].value, Expr::Var(v) if v.value == "f#flatten#11"));
        }
        _ => panic!("the call is not kept"),
    }
}

#[test]
fn registers_read_variables_through_the_register() {
    // a = reg(x & y)
    let arg = Loc::new(
        p(5),
        Expr::BiOp(BiOp::And, Box::new(var_expr("x", 6)), Box::new(var_expr("y", 7))),
    );
    let e = Loc::new(p(4), Expr::Reg(Loc::new(p(4), Const::Value(1)), Box::new(arg)));
    let mut counter: usize = 0;
    let out = flatten_assigns(vec![VarAssign { var: var("a", 0), expr: e }], &mut counter).unwrap();
    // reg x, reg y, and the and assigned to a
    assert_eq!(out.len(), 3);
    match &out[0] {
        Statement::Assign(v) => {
            assert!(matches!(&v[0].expr.value, Expr::Reg(_, x) if matches!(&x.value, Expr::Var(n) if n.value == "x")));
            assert_eq!(v[0].var.loc, p(5));
        }
        _ => panic!("not an assignment"),
    }
}

#[test]
fn concatenation_under_a_register_is_refused() {
    let arg = Loc::new(
        p(5),
        Expr::BiOp(BiOp::Concat, Box::new(var_expr("x", 6)), Box::new(bits(&[true]))),
    );
    let e = Loc::new(p(4), Expr::Reg(Loc::new(p(4), Const::Value(2)), Box::new(arg)));
    let mut counter: usize = 0;
    let r = flatten_assigns(vec![VarAssign { var: var("a", 0), expr: e }], &mut counter);
    assert!(matches!(r, Err(FlattenError::ConcatInReg(pos)) if pos == p(5)));
}

#[test]
fn slices_and_memories_under_a_register_are_refused() {
    let arg = Loc::new(p(8), Expr::Slice(Box::new(var_expr("x", 9)), None, None));
    let e = Loc::new(p(4), Expr::Reg(Loc::new(p(4), Const::Value(2)), Box::new(arg)));
    let mut counter: usize = 0;
    let r = flatten_assigns(vec![VarAssign { var: var("a", 0), expr: e }], &mut counter);
    assert!(matches!(r, Err(FlattenError::SliceInReg(pos)) if pos == p(8)));
}

fn counter_graph() -> FlatProgramGraph {
    // r = reg(not r): 0, 1, 0, 1, ...
    let mut nodes: Vec<Node> = Vec::new();
    let reg = RCell::new(&mut nodes, Node::TmpValueHolder(0));
    let not = RCell::new(&mut nodes, Node::Not(reg));
    nodes[0] = Node::Reg(1, not);
    FlatProgramGraph { outputs: vec![("r".to_string(), reg)], inputs: Vec::new(), nodes }
}

#[test]
fn interpreter_runs_a_register_loop() {
    let g = counter_graph();
    let mut it = interprete(&g);
    let mut seen = Vec::new();
    for _ in 0..4 {
        let outs = it.next(&Vec::new()).unwrap();
        assert_eq!(outs[0].0, "r");
        seen.push(outs[0].1[0]);
    }
    assert_eq!(seen, vec![false, true, false, true]);
}

#[test]
fn interpreter_reads_inputs_and_operations() {
    let mut nodes: Vec<Node> = Vec::new();
    let a = RCell::new(&mut nodes, Node::Input(0));
    let b = RCell::new(&mut nodes, Node::Input(1));
    let x = RCell::new(&mut nodes, Node::BiOp(BiOp::Xor, a, b));
    let c = RCell::new(&mut nodes, Node::BiOp(BiOp::Concat, a, x));
    let g = FlatProgramGraph { outputs: vec![("c".to_string(), c)], inputs: vec![2, 2], nodes };
    let mut it = interprete(&g);
    let outs = it.next(&vec![vec![true, false], vec![true, true]]).unwrap();
    assert_eq!(outs[0].1, vec![true, false, false, true]);
}

#[test]
fn interpreter_ram_reads_before_writing() {
    let mut nodes: Vec<Node> = Vec::new();
    let addr = RCell::new(&mut nodes, Node::Const(vec![true]));
    let we = RCell::new(&mut nodes, Node::Const(vec![true]));
    let data = RCell::new(&mut nodes, Node::Input(0));
    let ram = RCell::new(&mut nodes, Node::Ram(addr, we, addr, data));
    let g = FlatProgramGraph { outputs: vec![("m".to_string(), ram)], inputs: vec![2], nodes };
    let mut it = interprete(&g);
    assert_eq!(it.next(&vec![vec![true, true]]).unwrap()[0].1, vec![false, false]);
    assert_eq!(it.next(&vec![vec![false, true]]).unwrap()[0].1, vec![true, true]);
    assert_eq!(it.next(&vec![vec![false, false]]).unwrap()[0].1, vec![false, true]);
}

#[test]
fn interpreter_fails_on_a_placeholder() {
    let mut nodes: Vec<Node> = Vec::new();
    let t = RCell::new(&mut nodes, Node::TmpValueHolder(3));
    let g = FlatProgramGraph { outputs: vec![("t".to_string(), t)], inputs: Vec::new(), nodes };
    let mut it = interprete(&g);
    assert!(it.next(&Vec::new()).is_none());
}

#[test]
fn netlist_of_a_small_graph() {
    let mut nodes: Vec<Node> = Vec::new();
    let a = RCell::new(&mut nodes, Node::Input(0));
    let k = RCell::new(&mut nodes, Node::Const(vec![true, false]));
    let x = RCell::new(&mut nodes, Node::BiOp(BiOp::And, a, k));
    let s = RCell::new(&mut nodes, Node::Slice(x, 1, 2));
    let g = FlatProgramGraph {
        outputs: vec![("x".to_string(), x), ("s".to_string(), s)],
        inputs: vec![2],
        nodes,
    };
    let text = to_netlist(&g);
    let expected = "INPUT i_0\n\
                    OUTPUT o_x, o_s\n\
                    VAR v_0 : 2, v_1 : 2, v_2 : 2, v_3\n\
                    IN\n\
                    \n\
                    v_1 = 1 0\n\
                    v_2 = AND i_0 v_1 \n\
                    o_x = v_2 \n\
                    v_3 = SELECT 1 v_2 \n\
                    o_s = v_3 \n";
    assert_eq!(text, expected);
}

#[test]
fn optimize_folds_constants() {
    let mut nodes: Vec<Node> = Vec::new();
    let k1 = RCell::new(&mut nodes, Node::Const(vec![true, true]));
    let k2 = RCell::new(&mut nodes, Node::Const(vec![false, true]));
    let o = RCell::new(&mut nodes, Node::BiOp(BiOp::Or, k1, k2));
    let n = RCell::new(&mut nodes, Node::Not(o));
    let mut g = FlatProgramGraph { outputs: vec![("n".to_string(), n)], inputs: Vec::new(), nodes };
    optimize(&mut g);
    assert_eq!(g.nodes[3], Node::Const(vec![false, false]));
    assert_eq!(g.nodes[2], Node::Const(vec![true, true]));
}

#[test]
fn optimize_rewrites_not_and_into_nand() {
    let mut nodes: Vec<Node> = Vec::new();
    let a = RCell::new(&mut nodes, Node::Input(0));
    let b = RCell::new(&mut nodes, Node::Input(1));
    let x = RCell::new(&mut nodes, Node::BiOp(BiOp::And, a, b));
    let n = RCell::new(&mut nodes, Node::Not(x));
    let mut g = FlatProgramGraph { outputs: vec![("n".to_string(), n)], inputs: vec![1, 1], nodes };
    optimize(&mut g);
    assert_eq!(g.nodes[3], Node::BiOp(BiOp::Nand, a, b));
}

#[test]
fn optimize_drops_neutral_operands() {
    let mut nodes: Vec<Node> = Vec::new();
    let a = RCell::new(&mut nodes, Node::Input(0));
    let ones = RCell::new(&mut nodes, Node::Const(vec![true]));
    let x = RCell::new(&mut nodes, Node::BiOp(BiOp::And, a, ones));
    let mut g = FlatProgramGraph { outputs: vec![("x".to_string(), x)], inputs: vec![1], nodes };
    optimize(&mut g);
    assert_eq!(g.nodes[2], Node::Input(0));
}

#[test]
fn optimize_merges_slices() {
    let mut nodes: Vec<Node> = Vec::new();
    let a = RCell::new(&mut nodes, Node::Input(0));
    let s1 = RCell::new(&mut nodes, Node::Slice(a, 2, 6));
    let s2 = RCell::new(&mut nodes, Node::Slice(s1, 1, 3));
    let mut g = FlatProgramGraph { outputs: vec![("s".to_string(), s2)], inputs: vec![8], nodes };
    optimize(&mut g);
    assert_eq!(g.nodes[2], Node::Slice(a, 3, 5));
}

fn sized<T>(value: T, size: usize) -> Sized<T> {
    Sized { value, size }
}

fn one_state_program() -> TypedProgram {
    // o = not a; the state loops on itself while t = 1
    let not_a = sized(
        ExprType::Not(sized(ExprTermType::Var(TypedVar::Shared("a".to_string())), 1)),
        1,
    );
    let t = sized(ExprType::Term(sized(ExprTermType::Const(vec![true]), 1)), 1);
    let state = TypedState {
        name: "s".to_string(),
        statements: vec![
            (TypedVar::Shared("o".to_string()), not_a),
            (TypedVar::Local("t".to_string()), t),
        ],
        transitions: vec![(TypedVar::Local("t".to_string()), Some("s".to_string()), false)],
        weak: false,
    };
    TypedProgram {
        inputs: vec![sized("a".to_string(), 1)],
        outputs: vec![sized("o".to_string(), 1)],
        shared: vec![("o".to_string(), vec![false])],
        states: vec![("s".to_string(), state)],
        init_states: vec!["s".to_string()],
    }
}

#[test]
fn graph_of_a_one_state_program() {
    let g = make_graph(&one_state_program()).unwrap();
    assert_eq!(g.shared, vec![vec![false], vec![true], vec![false]]);
    assert_eq!(g.init_states, vec![0]);
    assert_eq!(g.outputs, vec![("o".to_string(), 2)]);
    assert_eq!(g.inputs, vec![1]);
    assert!(g.schedule.is_empty());
    let st = &g.states[0];
    assert_eq!(st.inputs, vec![0]);
    assert_eq!(st.n_vars, 1);
    assert_eq!(st.shared_outputs.len(), 1);
    assert_eq!(st.shared_outputs[0].0, 2);
    match &st.shared_outputs[0].1.op {
        ExprOperation::Not(x) => assert!(matches!(x.op, ExprOperation::Input(0))),
        _ => panic!("the output is not a negation"),
    }
    assert_eq!(st.transition_outputs.len(), 1);
    assert_eq!(st.transition_outputs[0].0, Some(0));
    assert_eq!(st.transition_outputs[0].1.id, Some(0));
    assert!(matches!(&st.transition_outputs[0].1.op, ExprOperation::Const(c) if *c == vec![true]));
}

#[test]
fn graph_of_a_program_with_an_unknown_state_fails() {
    let mut p = one_state_program();
    p.init_states = vec!["nowhere".to_string()];
    assert!(make_graph(&p).is_none());
}

#[test]
fn flattening_an_unscheduled_graph_keeps_initial_values() {
    let g = make_graph(&one_state_program()).unwrap();
    let flat = flatten_automata(&g);
    assert_eq!(flat.inputs, vec![1]);
    assert_eq!(flat.outputs.len(), 1);
    assert_eq!(flat.outputs[0].0, "o");
    assert_eq!(flat.nodes[flat.outputs[0].1.id()], Node::Const(vec![false]));
}

#[test]
fn flattening_a_scheduled_state_multiplexes_its_outputs() {
    let mut g = make_graph(&one_state_program()).unwrap();
    g.schedule = vec![0];
    let flat = flatten_automata(&g);
    let out = &flat.nodes[flat.outputs[0].1.id()];
    match out {
        Node::Mux(sel, e, prev) => {
            assert!(matches!(flat.nodes[e.id()], Node::Not(_)));
            assert_eq!(flat.nodes[prev.id()], Node::Const(vec![false]));
            // the selector is the variable of the state, a register multiplexed with its
            // initial value
            assert!(matches!(flat.nodes[sel.id()], Node::Mux(..)));
        }
        _ => panic!("the output is not a multiplexer"),
    }
    assert!(!flat.nodes.iter().any(|n| matches!(n, Node::TmpValueHolder(i) if *i < 3)));
}

#[test]
fn flattening_the_documented_example() {
    // a = 1 + 0 * b + f(0)  becomes  x = 0 * b; y = 1 + x; z = f(0); a = y + z
    let prod = Loc::new(p(2), Expr::BiOp(BiOp::And, Box::new(bits(&[false])), Box::new(var_expr("b", 2))));
    let sum = Loc::new(p(1), Expr::BiOp(BiOp::Or, Box::new(bits(&[true])), Box::new(prod)));
    let call = FnCall { name: var("f", 3), args: Loc::new(p(3), vec![bits(&[false])]), static_args: Loc::new(p(3), Vec::new()) };
    let e = Loc::new(p(1), Expr::BiOp(BiOp::Or, Box::new(sum), Box::new(Loc::new(p(3), Expr::FnCall(call)))));
    let mut counter: usize = 0;
    let out = flatten_assigns(vec![VarAssign { var: var("a", 0), expr: e }], &mut counter).unwrap();
    assert_eq!(out.len(), 4);
    assert!(matches!(&out[0], Statement::Assign(v) if matches!(v[0].expr.value, Expr::BiOp(BiOp::And, _, _))));
    assert!(matches!(&out[1], Statement::Assign(v) if matches!(v[0].expr.value, Expr::BiOp(BiOp::Or, _, _))));
    assert!(matches!(&out[2], Statement::FnAssign(_)));
    assert_eq!(assigned_name(&out[3]), "a");
}

#[test]
fn acyclic_global_constants_are_computed() {
    let mut consts = vec![
        ("b".to_string(), Const::Var(var("a", 1))),
        ("a".to_string(), Const::Value(3)),
    ];
    assert!(compute_global_consts(&mut consts).is_ok());
    assert!(consts.iter().all(|(_, c)| matches!(c, Const::Value(3))));
}

#[test]
fn a_concatenation_is_declared_with_both_widths() {
    let mut nodes: Vec<Node> = Vec::new();
    let a = RCell::new(&mut nodes, Node::Const(vec![true]));
    let b = RCell::new(&mut nodes, Node::Const(vec![false, true]));
    let c = RCell::new(&mut nodes, Node::BiOp(BiOp::Concat, a, b));
    let g = FlatProgramGraph { outputs: vec![("c".to_string(), c)], inputs: Vec::new(), nodes };
    let text = to_netlist(&g);
    assert!(text.contains("VAR v_0, v_1 : 2, v_2 : 3\nIN"));
}

#[test]
fn nand_of_constants_is_folded_as_not_and() {
    let mut nodes: Vec<Node> = Vec::new();
    let a = RCell::new(&mut nodes, Node::Const(vec![false, true]));
    let b = RCell::new(&mut nodes, Node::Const(vec![false, true]));
    let n = RCell::new(&mut nodes, Node::BiOp(BiOp::Nand, a, b));
    let mut g = FlatProgramGraph { outputs: vec![("n".to_string(), n)], inputs: Vec::new(), nodes };
    optimize(&mut g);
    assert_eq!(g.nodes[n.id()], Node::Const(vec![true, false]));
}

#[test]
fn two_interpreters_do_not_affect_each_other() {
    let g = counter_graph();
    let mut it1 = interprete(&g);
    let mut it2 = interprete(&g);
    let mut first = Vec::new();
    for _ in 0..3 {
        first.push(it1.next(&Vec::new()).unwrap()[0].1[0]);
    }
    let mut second = Vec::new();
    for _ in 0..3 {
        second.push(it2.next(&Vec::new()).unwrap()[0].1[0]);
    }
    assert_eq!(first, second);
    assert_eq!(first, vec![false, true, false]);
}
