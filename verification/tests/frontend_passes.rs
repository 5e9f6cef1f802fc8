use tinyjazz::ast::parse_ast::{
    Arg, Automaton, Const, ConstExpr, Expr, FnAssign, FnCall, Function, IfStruct, Loc, Pos, Program,
    State, Statement, TrCond, Transition, VarAssign,
};
use tinyjazz::ast::BiOp;
use tinyjazz::frontend::constants::{compute_consts, ComputeConstError};
use tinyjazz::frontend::functions::{expand_functions, replace_fn_calls_in_statements, ExpandFnError};
use tinyjazz::frontend::hierarchical_automata::{
    collapse_automata, get_input_name, get_pause_name, get_rename, CollapseAutomataError,
};
use tinyjazz::backends::netlist::{nodes_linked_exec, printable_exec, to_netlist};
use tinyjazz::frontend::automaton::{flat_ready_exec, flatten_automata};
use tinyjazz::frontend::make_graph_automaton::make_graph;
use tinyjazz::frontend::nested_expr::{flatten, flatten_ready, FlattenError};
use tinyjazz::util::viz::{drawable_exec, render_graph};
use tinyjazz::frontend::typing::{automaton_shape_exec, type_prog, TypingError};

fn p(i: usize) -> Pos {
    Pos(0, i, i + 1)
}

fn name(s: &str, i: usize) -> Loc<String> {
    Loc::new(p(i), s.to_string())
}

fn var(s: &str, i: usize) -> Loc<Expr> {
    Loc::new(p(i), Expr::Var(name(s, i)))
}

fn arg(s: &str, size: i32) -> Arg {
    Arg { name: s.to_string(), size: Loc::new(p(0), Const::Value(size)) }
}

fn assign(v: &str, e: Loc<Expr>) -> Statement {
    Statement::Assign(vec![VarAssign { var: name(v, e.loc.1), expr: e }])
}

fn state(s: &str, statements: Vec<Statement>, transitions: Vec<Transition>) -> State {
    State { name: name(s, 0), statements, transitions, weak: false }
}

fn automaton(n: &str, inputs: Vec<Arg>, outputs: Vec<Arg>, states: Vec<State>) -> Automaton {
    let init = vec![name(&states[0].name.value, 0)];
    Automaton {
        name: n.to_string(),
        inputs,
        outputs,
        shared: Vec::new(),
        states: states.into_iter().map(|s| (s.name.value.clone(), s)).collect(),
        init_states: init,
    }
}

fn program(automata: Vec<Automaton>, functions: Vec<Function>, consts: Vec<(String, Const)>) -> Program {
    Program {
        imports: Vec::new(),
        automata: automata.into_iter().map(|a| (a.name.clone(), a)).collect(),
        functions: functions.into_iter().map(|f| (f.name.value.clone(), f)).collect(),
        global_consts: consts,
    }
}

fn statement_vars(st: &Vec<Statement>) -> Vec<String> {
    st.iter()
        .map(|s| match s {
            Statement::Assign(v) => v[0].var.value.clone(),
            Statement::FnAssign(f) => f.vars[0].value.clone(),
            _ => String::new(),
        })
        .collect()
}

#[test]
fn a_condition_that_is_an_expression_unwraps() {
    let c = TrCond::Expr(Expr::Var(name("x", 3)));
    assert!(matches!(c.unwrap_ref(), Expr::Var(v) if v.value == "x"));
    assert!(matches!(c.unwrap(), Expr::Var(v) if v.loc == p(3)));
}

#[test]
fn names_of_inlined_automata() {
    assert_eq!(get_rename(3, "x", "m"), "inline_mod$x$m$3$");
    assert_eq!(get_pause_name(0, "s", "m"), "inline_mod_pause$s$m$0$");
    let mut c: u32 = 7;
    assert_eq!(get_input_name(&"f".to_string(), &mut c), "f#mod_input#7");
    assert_eq!(c, 8);
    let mut c: u32 = u32::MAX;
    assert_eq!(get_input_name(&"g".to_string(), &mut c), "g#mod_input#4294967295");
    assert_eq!(c, 0);
}

#[test]
fn collapsing_without_main_fails() {
    let a = automaton("other", Vec::new(), Vec::new(), vec![state("s", Vec::new(), Vec::new())]);
    let mut prog = program(vec![a], Vec::new(), Vec::new());
    let (mut i, mut j) = (0u32, 0u32);
    assert!(matches!(
        collapse_automata(&mut prog, &mut i, &mut j),
        Err(CollapseAutomataError::NoMainAutomaton)
    ));
}

#[test]
fn collapsing_a_call_to_an_unknown_automaton_fails() {
    let call = Statement::ExtAutomaton(tinyjazz::ast::parse_ast::ExtAutomaton {
        inputs: Loc::new(p(1), Vec::new()),
        outputs: Loc::new(p(1), Vec::new()),
        name: name("nowhere", 1),
    });
    let main = automaton("main", Vec::new(), Vec::new(), vec![state("s", vec![call], Vec::new())]);
    let mut prog = program(vec![main], Vec::new(), Vec::new());
    let (mut i, mut j) = (0u32, 0u32);
    assert!(matches!(
        collapse_automata(&mut prog, &mut i, &mut j),
        Err(CollapseAutomataError::UnknownAutomaton(_, n)) if n == "nowhere"
    ));
}

#[test]
fn collapsing_reports_a_wrong_number_of_outputs() {
    let sub = automaton("sub", vec![arg("x", 1)], vec![arg("y", 1), arg("z", 1)], vec![state("t", Vec::new(), Vec::new())]);
    let call = Statement::ExtAutomaton(tinyjazz::ast::parse_ast::ExtAutomaton {
        inputs: Loc::new(p(1), vec![var("a", 1)]),
        outputs: Loc::new(p(1), vec![name("o", 1)]),
        name: name("sub", 1),
    });
    let main = automaton("main", vec![arg("a", 1)], Vec::new(), vec![state("s", vec![call], Vec::new())]);
    let mut prog = program(vec![main, sub], Vec::new(), Vec::new());
    let (mut i, mut j) = (0u32, 0u32);
    match collapse_automata(&mut prog, &mut i, &mut j) {
        Err(CollapseAutomataError::WrongNumber(t, pos, expected, given)) => {
            assert_eq!(t.text(), "return variables");
            assert_eq!(pos, p(1));
            assert_eq!((expected, given), (2, 1));
        },
        _ => panic!("the wrong number of outputs was not reported"),
    }
}

#[test]
fn collapsing_keeps_only_main() {
    let main = automaton(
        "main",
        vec![arg("a", 1)],
        vec![arg("o", 1)],
        vec![state("s", vec![assign("o", Loc::new(p(2), Expr::Not(Box::new(Expr::Var(name("a", 2))))))], Vec::new())],
    );
    let other = automaton("other", Vec::new(), Vec::new(), vec![state("t", Vec::new(), Vec::new())]);
    let mut prog = program(vec![main, other], Vec::new(), Vec::new());
    let (mut i, mut j) = (0u32, 0u32);
    assert!(collapse_automata(&mut prog, &mut i, &mut j).is_ok());
    assert!(!prog.automata.is_empty());
    assert!(prog.automata.iter().all(|(n, _)| n == "main"));
    // the default transition of the state is made explicit
    let s = &prog.automata[0].1.states[0].1;
    assert!(s.transitions.iter().all(|t| t.condition.value.is_expr()));
}

#[test]
fn a_small_program_goes_through_the_front_end() {
    // main(a:1) -> (o:n): state s: o = not a + (a and 1)
    let e = Loc::new(
        p(2),
        Expr::BiOp(
            BiOp::Or,
            Box::new(Loc::new(p(2), Expr::Not(Box::new(Expr::Var(name("a", 2)))))),
            Box::new(Loc::new(
                p(3),
                Expr::BiOp(
                    BiOp::And,
                    Box::new(var("a", 3)),
                    Box::new(Loc::new(p(4), Expr::Const(ConstExpr::Known(vec![true])))),
                ),
            )),
        ),
    );
    let mut out = arg("o", 0);
    out.size = Loc::new(p(0), Const::Var(name("n", 0)));
    // a weak state: its conditions may use its local variables
    let mut s = state("s", vec![assign("o", e)], Vec::new());
    s.weak = true;
    let main = automaton("main", vec![arg("a", 1)], vec![out], vec![s]);
    let mut prog = program(vec![main], Vec::new(), vec![("n".to_string(), Const::Value(1))]);
    assert!(compute_consts(&mut prog).is_ok());
    assert!(matches!(prog.automata[0].1.outputs[0].size.value, Const::Value(1)));
    let (mut i, mut j) = (0u32, 0u32);
    assert!(collapse_automata(&mut prog, &mut i, &mut j).is_ok());
    let mut counter: usize = 0;
    assert!(flatten_ready(&prog, counter));
    assert!(!flatten_ready(&prog, usize::MAX));
    assert!(flatten(&mut prog, &mut counter).is_ok());
    let mut type_map: Vec<(String, (i32, Pos))> = Vec::new();
    let mut calls: u32 = 0;
    assert!(expand_functions(&mut prog, &mut type_map, &mut calls).is_ok());
    let main = &prog.automata[0].1;
    let s = &main.states[0].1;
    // the nested expression is cut into intermediate variables named after `o`
    let vars = statement_vars(&s.statements);
    assert!(vars.contains(&"o#flatten#0".to_string()));
    assert!(vars.contains(&"o#flatten#1".to_string()));
    assert!(vars.contains(&"o".to_string()));
    assert!(automaton_shape_exec(main));
    let typed = type_prog(prog, type_map).unwrap();
    assert_eq!(typed.inputs.len(), 1);
    assert_eq!(typed.inputs[0].value, "a");
    assert_eq!(typed.outputs[0].value, "o");
    assert_eq!(typed.outputs[0].size, 1);
    assert_eq!(typed.init_states, vec!["s".to_string()]);
    // then the graph, flattened, printed and drawn
    let graph = make_graph(&typed).unwrap();
    assert!(flat_ready_exec(&graph));
    let flat = flatten_automata(&graph);
    assert_eq!(flat.inputs, vec![1]);
    assert_eq!(flat.outputs[0].0, "o");
    assert!(nodes_linked_exec(&flat.nodes));
    assert!(printable_exec(&flat));
    assert!(to_netlist(&flat).starts_with("INPUT i_0"));
    assert!(drawable_exec(&flat));
    assert_eq!(render_graph(&flat).nodes[0], "Output o");
}

#[test]
fn a_register_on_a_last_value_never_flattens() {
    // o = reg(last x): its register form is a register on `last x` again
    let e = Loc::new(p(1), Expr::Reg(Loc::new(p(1), Const::Value(1)), Box::new(Loc::new(p(2), Expr::Last(name("x", 2))))));
    let main = automaton("main", Vec::new(), Vec::new(), vec![state("s", vec![assign("o", e)], Vec::new())]);
    let prog = program(vec![main], Vec::new(), Vec::new());
    assert!(!flatten_ready(&prog, 0));
}

#[test]
fn a_strong_state_cannot_test_its_local_variables() {
    // the default transition of a strong state is computed in the state, which the typing refuses
    let main = automaton("main", Vec::new(), Vec::new(), vec![state("s", Vec::new(), Vec::new())]);
    let mut prog = program(vec![main], Vec::new(), Vec::new());
    let (mut i, mut j) = (0u32, 0u32);
    assert!(collapse_automata(&mut prog, &mut i, &mut j).is_ok());
    let mut counter: usize = 0;
    assert!(flatten(&mut prog, &mut counter).is_ok());
    assert!(automaton_shape_exec(&prog.automata[0].1));
    assert!(matches!(type_prog(prog, Vec::new()), Err(TypingError::LocalVarInUnless(..))));
}

#[test]
fn constants_of_the_program_are_computed() {
    // n = m * 2, m = 3; the output has size n, a function argument size m + x
    let mut out = arg("o", 0);
    out.size = Loc::new(p(0), Const::Var(name("n", 0)));
    let main = automaton("main", Vec::new(), vec![out], vec![state("s", Vec::new(), Vec::new())]);
    let f = Function {
        name: name("f", 0),
        static_args: vec!["x".to_string()],
        args: vec![Arg {
            name: "y".to_string(),
            size: Loc::new(
                p(0),
                Const::BiOp(
                    tinyjazz::ast::parse_ast::ConstBiOp::Plus,
                    Box::new(Const::Var(name("m", 0))),
                    Box::new(Loc::new(p(1), Const::Var(name("x", 1)))),
                ),
            ),
        }],
        return_vars: Vec::new(),
        statements: Vec::new(),
    };
    let consts = vec![
        (
            "n".to_string(),
            Const::BiOp(
                tinyjazz::ast::parse_ast::ConstBiOp::Times,
                Box::new(Const::Var(name("m", 0))),
                Box::new(Loc::new(p(1), Const::Value(2))),
            ),
        ),
        ("m".to_string(), Const::Value(3)),
    ];
    let mut prog = program(vec![main], vec![f], consts);
    assert!(compute_consts(&mut prog).is_ok());
    assert!(matches!(prog.automata[0].1.outputs[0].size.value, Const::Value(6)));
    match &prog.functions[0].1.args[0].size.value {
        Const::BiOp(_, a, b) => {
            assert!(matches!(**a, Const::Value(3)));
            assert!(matches!(&b.value, Const::Var(v) if v.value == "x"));
        }
        _ => panic!("the size lost its static argument"),
    }
}

#[test]
fn an_unknown_constant_in_an_automaton_is_reported() {
    let mut out = arg("o", 0);
    out.size = Loc::new(p(5), Const::Var(name("k", 5)));
    let main = automaton("main", Vec::new(), vec![out], vec![state("s", Vec::new(), Vec::new())]);
    let mut prog = program(vec![main], Vec::new(), Vec::new());
    assert!(matches!(
        compute_consts(&mut prog),
        Err(ComputeConstError::UnknowVariable(pos, n)) if pos == p(5) && n == "k"
    ));
}

#[test]
fn a_concatenation_under_a_register_stops_the_flattening() {
    let inner = Loc::new(p(3), Expr::BiOp(BiOp::Concat, Box::new(var("x", 3)), Box::new(var("y", 4))));
    let e = Loc::new(p(2), Expr::Reg(Loc::new(p(2), Const::Value(2)), Box::new(inner)));
    let main = automaton("main", Vec::new(), Vec::new(), vec![state("s", vec![assign("a", e)], Vec::new())]);
    let mut prog = program(vec![main], Vec::new(), Vec::new());
    let mut counter: usize = 0;
    assert_eq!(flatten(&mut prog, &mut counter), Err(FlattenError::ConcatInReg(p(3))));
}

#[test]
fn transition_conditions_become_variables() {
    // a transition to t when (a and b)
    let cond = Expr::BiOp(BiOp::And, Box::new(var("a", 6)), Box::new(var("b", 7)));
    let tr = Transition {
        condition: Loc::new(p(6), TrCond::Expr(cond)),
        state: Loc::new(p(8), Some("t".to_string())),
        reset: true,
    };
    let keep = Transition {
        condition: Loc::new(p(9), TrCond::Expr(Expr::Var(name("c", 9)))),
        state: Loc::new(p(9), None),
        reset: false,
    };
    let main = automaton("main", Vec::new(), Vec::new(), vec![state("s", Vec::new(), vec![tr, keep])]);
    let mut prog = program(vec![main], Vec::new(), Vec::new());
    let mut counter: usize = 5;
    assert!(flatten(&mut prog, &mut counter).is_ok());
    assert_eq!(counter, 7);
    let s = &prog.automata[0].1.states[0].1;
    assert_eq!(statement_vars(&s.statements), vec!["s#flatten#5".to_string(), "s#flatten#6".to_string()]);
    match &s.transitions[0].condition.value {
        TrCond::Expr(Expr::Var(v)) => assert_eq!(v.value, "s#flatten#6"),
        _ => panic!("the condition is not a variable"),
    }
    assert!(s.transitions[0].reset);
    assert_eq!(s.transitions[0].state.value, Some("t".to_string()));
    match &s.transitions[1].condition.value {
        TrCond::Expr(Expr::Var(v)) => assert_eq!(v.value, "c"),
        _ => panic!("the variable condition changed"),
    }
}

#[test]
fn functions_are_inlined() {
    // f(x) -> (r): r = not x; main: o = f(a)
    let f = Function {
        name: name("f", 0),
        static_args: Vec::new(),
        args: vec![arg("x", 1)],
        return_vars: vec![arg("r", 1)],
        statements: vec![assign("r", Loc::new(p(1), Expr::Not(Box::new(Expr::Var(name("x", 1))))))],
    };
    let call = Statement::FnAssign(FnAssign {
        vars: vec![name("o", 2)],
        f: FnCall { name: name("f", 2), args: Loc::new(p(2), vec![var("a", 3)]), static_args: Loc::new(p(2), Vec::new()) },
    });
    let main = automaton("main", vec![arg("a", 1)], vec![arg("o", 1)], vec![state("s", vec![call], Vec::new())]);
    let mut prog = program(vec![main], vec![f], Vec::new());
    let mut type_map: Vec<(String, (i32, Pos))> = Vec::new();
    let mut calls: u32 = 0;
    assert!(expand_functions(&mut prog, &mut type_map, &mut calls).is_ok());
    assert_eq!(calls, 1);
    let s = &prog.automata[0].1.states[0].1;
    assert!(s.statements.iter().all(|st| matches!(st, Statement::Assign(_))));
    let vars = statement_vars(&s.statements);
    assert!(vars.contains(&"$arg$f$$x$0".to_string()));
    assert!(vars.contains(&"o".to_string()));
    assert!(type_map.iter().any(|(n, (size, _))| n == "$arg$f$$x$0" && *size == 1));
}

#[test]
fn calling_an_unknown_function_is_reported() {
    let call = Statement::FnAssign(FnAssign {
        vars: vec![name("o", 2)],
        f: FnCall { name: name("g", 4), args: Loc::new(p(4), Vec::new()), static_args: Loc::new(p(4), Vec::new()) },
    });
    let main = automaton("main", Vec::new(), Vec::new(), vec![state("s", vec![call], Vec::new())]);
    let mut prog = program(vec![main], Vec::new(), Vec::new());
    let mut type_map: Vec<(String, (i32, Pos))> = Vec::new();
    let mut calls: u32 = 0;
    assert!(matches!(
        expand_functions(&mut prog, &mut type_map, &mut calls),
        Err(ExpandFnError::UnknowFunction(pos, n)) if pos == p(4) && n == "g"
    ));
}

#[test]
fn the_first_faulty_call_is_reported() {
    // f(x) -> (r); main: (o, q) = f(a); z = g()
    let f = Function {
        name: name("f", 0),
        static_args: Vec::new(),
        args: vec![arg("x", 1)],
        return_vars: vec![arg("r", 1)],
        statements: vec![assign("r", Loc::new(p(1), Expr::Var(name("x", 1))))],
    };
    let wrong = Statement::FnAssign(FnAssign {
        vars: vec![name("o", 2), name("q", 2)],
        f: FnCall { name: name("f", 2), args: Loc::new(p(3), vec![var("a", 3)]), static_args: Loc::new(p(3), Vec::new()) },
    });
    let unknown = Statement::FnAssign(FnAssign {
        vars: vec![name("z", 5)],
        f: FnCall { name: name("g", 5), args: Loc::new(p(5), Vec::new()), static_args: Loc::new(p(5), Vec::new()) },
    });
    let main = automaton("main", vec![arg("a", 1)], Vec::new(), vec![state("s", vec![wrong, unknown], Vec::new())]);
    let mut prog = program(vec![main], vec![f], Vec::new());
    let mut type_map: Vec<(String, (i32, Pos))> = Vec::new();
    let mut calls: u32 = 0;
    match expand_functions(&mut prog, &mut type_map, &mut calls) {
        Err(ExpandFnError::WrongNumber(t, pos, n, expected, given)) => {
            assert_eq!(t.text(), "return variables");
            assert_eq!(pos, p(2));
            assert_eq!(n, "f");
            assert_eq!((expected, given), (1, 2));
        },
        _ => panic!("the wrong number of outputs was not reported"),
    }
}

#[test]
fn typing_refuses_an_unknown_initial_state() {
    let mut main = automaton("main", Vec::new(), Vec::new(), vec![state("s", Vec::new(), Vec::new())]);
    main.init_states = vec![name("nowhere", 7)];
    let prog = program(vec![main], Vec::new(), Vec::new());
    assert!(automaton_shape_exec(&prog.automata[0].1));
    assert!(matches!(
        type_prog(prog, Vec::new()),
        Err(TypingError::UnknownState(n, pos)) if n == "nowhere" && pos == p(7)
    ));
}

#[test]
fn typing_refuses_mismatched_sizes() {
    // o has size 1 but is given a bus of size 2
    let e = Loc::new(p(3), Expr::Const(ConstExpr::Known(vec![true, false])));
    let main = automaton("main", Vec::new(), vec![arg("o", 1)], vec![state("s", vec![assign("o", e)], Vec::new())]);
    let prog = program(vec![main], Vec::new(), Vec::new());
    assert!(matches!(type_prog(prog, Vec::new()), Err(TypingError::MismatchedBusSize(..))));
}

#[test]
fn shapes_the_typing_does_not_take() {
    // a nested expression, and a call, are not typed directly
    let nested = Loc::new(
        p(1),
        Expr::Not(Box::new(Expr::BiOp(BiOp::And, Box::new(var("a", 1)), Box::new(var("b", 1))))),
    );
    let main = automaton("main", Vec::new(), Vec::new(), vec![state("s", vec![assign("x", nested)], Vec::new())]);
    assert!(!automaton_shape_exec(&main));
    let mut sized = automaton("main", vec![arg("a", 1)], Vec::new(), vec![state("s", Vec::new(), Vec::new())]);
    sized.inputs[0].size = Loc::new(p(0), Const::Var(name("n", 0)));
    assert!(!automaton_shape_exec(&sized));
}

#[test]
fn the_explicit_default_fires_when_no_other_transition_does() {
    let t1 = Transition { condition: Loc::new(p(1), TrCond::Expr(Expr::Var(name("c1", 1)))), state: Loc::new(p(1), Some("a".to_string())), reset: false };
    let t2 = Transition { condition: Loc::new(p(2), TrCond::Expr(Expr::Var(name("c2", 2)))), state: Loc::new(p(2), Some("b".to_string())), reset: false };
    let main = automaton("main", Vec::new(), Vec::new(), vec![state("s", Vec::new(), vec![t1, t2])]);
    let mut prog = program(vec![main], Vec::new(), Vec::new());
    tinyjazz::frontend::hierarchical_automata::make_transitions_explicit(&mut prog);
    let s = &prog.automata[0].1.states[0].1;
    assert_eq!(s.transitions.len(), 3);
    assert_eq!(s.transitions[2].state.value, Some("s".to_string()));
    match &s.transitions[2].condition.value {
        TrCond::Expr(Expr::Not(x)) => assert!(matches!(&**x, Expr::BiOp(BiOp::Or, _, _))),
        _ => panic!("the default is not a negation"),
    }
}

#[test]
fn collapsing_a_call_of_a_plain_automaton_succeeds() {
    let sub = automaton("sub", vec![arg("x", 1)], vec![arg("y", 1)], vec![state("t", vec![assign("y", var("x", 1))], Vec::new())]);
    let call = Statement::ExtAutomaton(tinyjazz::ast::parse_ast::ExtAutomaton {
        inputs: Loc::new(p(1), vec![var("a", 1)]),
        outputs: Loc::new(p(1), vec![name("o", 1)]),
        name: name("sub", 1),
    });
    let main = automaton("main", vec![arg("a", 1)], vec![arg("o", 1)], vec![state("s", vec![call], Vec::new())]);
    let mut prog = program(vec![main, sub], Vec::new(), Vec::new());
    let (mut i, mut j) = (0u32, 0u32);
    assert!(collapse_automata(&mut prog, &mut i, &mut j).is_ok());
    assert_eq!(prog.automata.len(), 1);
    assert!(prog.automata[0].1.states.iter().all(|(_, s)| !s.statements.iter().any(|st| matches!(st, Statement::ExtAutomaton(_)))));
    assert!(prog.automata[0].1.states.len() > 1);
}

#[test]
fn an_output_that_is_an_input_follows_the_input() {
    let graph = tinyjazz::ast::graph_automaton::ProgramGraph {
        init_states: Vec::new(),
        states: Vec::new(),
        shared: vec![vec![false]],
        schedule: Vec::new(),
        outputs: vec![("o".to_string(), 0)],
        inputs: vec![1],
    };
    assert!(flat_ready_exec(&graph));
    let flat = flatten_automata(&graph);
    assert_eq!(flat.inputs, vec![1]);
    assert_eq!(flat.outputs.len(), 1);
    assert_eq!(flat.outputs[0].0, "o");
    assert_eq!(flat.nodes[flat.outputs[0].1.id()], tinyjazz::ast::graph::Node::Input(0));
}

#[test]
fn an_endless_self_call_overflows_naming_the_function() {
    // f(x) -> (r): r = f(x); main: o = f(a)
    let inner = Statement::FnAssign(FnAssign {
        vars: vec![name("r", 1)],
        f: FnCall { name: name("f", 1), args: Loc::new(p(1), vec![var("x", 1)]), static_args: Loc::new(p(1), Vec::new()) },
    });
    let f = Function {
        name: name("f", 0),
        static_args: Vec::new(),
        args: vec![arg("x", 1)],
        return_vars: vec![arg("r", 1)],
        statements: vec![inner],
    };
    let call = Statement::FnAssign(FnAssign {
        vars: vec![name("o", 2)],
        f: FnCall { name: name("f", 2), args: Loc::new(p(2), vec![var("a", 3)]), static_args: Loc::new(p(2), Vec::new()) },
    });
    let main = automaton("main", vec![arg("a", 1)], vec![arg("o", 1)], vec![state("s", vec![call], Vec::new())]);
    let mut prog = program(vec![main], vec![f], Vec::new());
    let mut type_map: Vec<(String, (i32, Pos))> = Vec::new();
    let mut calls: u32 = 0;
    match expand_functions(&mut prog, &mut type_map, &mut calls) {
        Err(ExpandFnError::StackOverflow(nm)) => assert_eq!(nm.value, "f"),
        _ => panic!("the endless recursion was not reported"),
    }
    assert_eq!(calls, 1000);
}

#[test]
fn a_static_if_keeps_the_chosen_block() {
    let functions: Vec<(String, Function)> = Vec::new();
    for (c, kept) in [(0, "v"), (5, "u")] {
        let st = vec![Statement::If(IfStruct { condition: Const::Value(c), if_block: vec![assign("u", var("a", 1))], else_block: vec![assign("v", var("b", 2))] })];
        let mut type_map: Vec<(String, (i32, Pos))> = Vec::new();
        let mut calls: u32 = 0;
        match replace_fn_calls_in_statements(st, &functions, &mut type_map, &mut calls) {
            Ok((out, None)) => {
                assert_eq!(out.len(), 1);
                assert_eq!(statement_vars(&out), vec![kept.to_string()]);
            },
            _ => panic!("a static if without calls was not resolved"),
        }
        assert_eq!(calls, 0);
    }
}

#[test]
fn collapsing_keeps_the_states_and_inlines_the_called_ones() {
    let sub = automaton("sub", vec![arg("x", 1)], vec![arg("y", 1)], vec![
        state("t", vec![assign("y", var("x", 1))], Vec::new()),
        state("w", vec![assign("y", var("x", 2))], Vec::new()),
    ]);
    let call = Statement::ExtAutomaton(tinyjazz::ast::parse_ast::ExtAutomaton {
        inputs: Loc::new(p(1), vec![var("a", 1)]),
        outputs: Loc::new(p(1), vec![name("o", 1)]),
        name: name("sub", 1),
    });
    let main = automaton("main", vec![arg("a", 1)], vec![arg("o", 1)], vec![
        state("s", vec![call], Vec::new()),
        state("z", vec![assign("o", var("a", 4))], Vec::new()),
    ]);
    let mut prog = program(vec![main, sub], Vec::new(), Vec::new());
    let (mut i, mut j) = (0u32, 0u32);
    assert!(collapse_automata(&mut prog, &mut i, &mut j).is_ok());
    let names: Vec<String> = prog.automata[0].1.states.iter().map(|(k, _)| k.clone()).collect();
    for n in ["s", "z", "inline_mod$t$sub$0$", "inline_mod$w$sub$0$"] {
        assert!(names.contains(&n.to_string()), "missing state {}", n);
    }
}

#[test]
fn flattenings_sharing_the_counter_take_new_names() {
    // two states assign the same nested expression to the same variable
    let nested = |i: usize| {
        Loc::new(
            p(i),
            Expr::BiOp(
                BiOp::Or,
                Box::new(Loc::new(p(i), Expr::Not(Box::new(Expr::Var(name("a", i)))))),
                Box::new(var("a", i)),
            ),
        )
    };
    let s1 = state("s", vec![assign("o", nested(2))], Vec::new());
    let s2 = state("t", vec![assign("o", nested(3))], Vec::new());
    let main = automaton("main", vec![arg("a", 1)], vec![arg("o", 1)], vec![s1, s2]);
    let mut prog = program(vec![main], Vec::new(), Vec::new());
    let mut counter: usize = 5;
    assert!(flatten(&mut prog, &mut counter).is_ok());
    let mut names: Vec<String> = Vec::new();
    for (_, st) in prog.automata[0].1.states.iter() {
        for v in statement_vars(&st.statements) {
            if v.contains("#flatten#") {
                assert!(!names.contains(&v), "{} taken twice", v);
                names.push(v);
            }
        }
    }
    // the top operation of each assignment writes `o` itself; its number is taken all the same
    assert_eq!(names, vec!["o#flatten#5", "o#flatten#7"]);
    assert_eq!(counter, 9);
}
