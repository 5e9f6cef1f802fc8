use tinyjazz::ast::graph::{BiOp, Node, RCell};
use tinyjazz::ast::parse_ast::{Automaton, Const, Expr, Loc, Pos, State, TrCond, Transition};
use tinyjazz::backends::netlist::operand_cells;
use tinyjazz::frontend::constants::{from_solvent_error, ComputeConstError};
use tinyjazz::frontend::functions::map_vars_in_expr;
use tinyjazz::frontend::hierarchical_automata::{
    compute_states_parents, get_exit_condition, replace_var_in_expr, state_parents,
};
use tinyjazz::frontend::typing::format_var;
use tinyjazz::util::solver::DependencyError;
use tinyjazz::util::tables::{table_insert, table_lookup};
use tinyjazz::util::text::{push_signed_decimal, split_nonempty_exec, split_pieces, usize_to_string};

fn p(i: usize) -> Pos {
    Pos(0, i, i + 1)
}

fn name(s: &str, i: usize) -> Loc<String> {
    Loc::new(p(i), s.to_string())
}

fn to(target: &str, cond: &str, i: usize) -> Transition {
    Transition {
        condition: Loc::new(p(i), TrCond::Expr(Expr::Var(name(cond, i)))),
        state: Loc::new(p(i), Some(target.to_string())),
        reset: false,
    }
}

fn st(n: &str, transitions: Vec<Transition>) -> (String, State) {
    (n.to_string(), State { name: name(n, 0), statements: Vec::new(), transitions, weak: false })
}

fn var_name(e: &Expr) -> String {
    match e {
        Expr::Var(v) | Expr::Last(v) => v.value.clone(),
        _ => panic!("not a variable"),
    }
}

#[test]
fn names_made_by_function_expansion_are_explained() {
    assert_eq!(
        format_var("$in_fn$f$n_3|m_-1|$y#flatten#2$0".to_string()),
        "\"y\" in call of function \"f\" with arguments n = 3, m = -1,"
    );
    assert_eq!(format_var("plain".to_string()), "plain");
    // without static arguments
    assert_eq!(format_var("$arg$f$$x$0".to_string()), "\"x\" in call of function \"f\" with arguments");
}

#[test]
fn splitting_and_writing_numbers() {
    assert_eq!(split_pieces("a,,b", ','), vec!["a".to_string(), String::new(), "b".to_string()]);
    assert_eq!(split_nonempty_exec("|a||b|", '|'), vec!["a".to_string(), "b".to_string()]);
    assert_eq!(usize_to_string(305), "305");
    assert_eq!(usize_to_string(0), "0");
    let mut s = String::from("x = ");
    push_signed_decimal(&mut s, -42);
    assert_eq!(s, "x = -42");
}

#[test]
fn tables_keep_the_first_entry_of_a_name() {
    let mut t: Vec<(String, i32)> = vec![("a".to_string(), 1), ("b".to_string(), 2), ("a".to_string(), 3)];
    assert_eq!(table_lookup(&t, "a"), Some(&1));
    table_insert(&mut t, "a".to_string(), 10);
    assert_eq!(t[0].1, 10);
    assert_eq!(t[2].1, 3);
    table_insert(&mut t, "c".to_string(), 4);
    assert_eq!(t.len(), 4);
    assert_eq!(table_lookup(&t, "c"), Some(&4));
    assert_eq!(table_lookup(&t, "d"), None);
}

#[test]
fn the_parents_of_a_state_are_the_states_that_go_to_it() {
    let a = Automaton {
        name: "m".to_string(),
        inputs: Vec::new(),
        outputs: Vec::new(),
        shared: Vec::new(),
        states: vec![st("s", vec![to("t", "c", 1)]), st("t", vec![to("s", "d", 2), to("t", "e", 3)])],
        init_states: vec![name("s", 0)],
    };
    assert_eq!(state_parents(&a, "t"), vec!["s".to_string(), "t".to_string()]);
    assert_eq!(state_parents(&a, "s"), vec!["t".to_string()]);
    let all = compute_states_parents(&a);
    assert_eq!(all.len(), 2);
    assert_eq!(all[0], ("s".to_string(), vec!["t".to_string()]));
    assert_eq!(all[1], ("t".to_string(), vec!["s".to_string(), "t".to_string()]));
}

#[test]
fn the_exit_condition_of_a_state() {
    let (_, s) = st("s", vec![to("t", "c", 4)]);
    let e = get_exit_condition(&s);
    assert_eq!(e.loc, p(4));
    match e.value {
        Expr::BiOp(BiOp::And, a, b) => {
            assert_eq!(var_name(&a.value), "c");
            assert_eq!(var_name(&b.value), "s");
        }
        _ => panic!("not a conjunction"),
    }
}

#[test]
fn renaming_the_variables_of_an_inlined_automaton() {
    let e = Expr::BiOp(
        BiOp::Or,
        Box::new(Loc::new(p(1), Expr::Var(name("x", 1)))),
        Box::new(Loc::new(p(2), Expr::Last(name("y", 2)))),
    );
    let map = vec![("x".to_string(), "input_x".to_string())];
    match replace_var_in_expr(&e, &map, 5, "m") {
        Expr::BiOp(BiOp::Or, a, b) => {
            assert_eq!(var_name(&a.value), "input_x");
            assert_eq!(var_name(&b.value), "inline_mod$y$m$5$");
            assert_eq!(b.loc, p(2));
        }
        _ => panic!("the shape changed"),
    }
}

#[test]
fn renaming_the_variables_of_an_inlined_function() {
    let e = Expr::BiOp(
        BiOp::And,
        Box::new(Loc::new(p(1), Expr::Var(name("x", 1)))),
        Box::new(Loc::new(p(2), Expr::Var(name("t", 2)))),
    );
    let map = vec![("x".to_string(), "$arg$f$$x$0".to_string())];
    match map_vars_in_expr(&e, &map, "f", "", 0) {
        Expr::BiOp(BiOp::And, a, b) => {
            assert_eq!(var_name(&a.value), "$arg$f$$x$0");
            assert_eq!(var_name(&b.value), "$in_fn$f$$t$0");
        }
        _ => panic!("the shape changed"),
    }
}

#[test]
fn errors_of_the_solver() {
    assert!(matches!(from_solvent_error(DependencyError::CycleDetected), ComputeConstError::CyclicDefinition));
    assert!(matches!(
        from_solvent_error(DependencyError::NoSuchNode),
        ComputeConstError::Other(m) if m == "Unknown error while computing constants dependancy graph"
    ));
    let _ = Const::Value(0);
}

#[test]
fn operands_of_nodes() {
    let a = RCell { id: 3 };
    let b = RCell { id: 5 };
    assert_eq!(operand_cells(&Node::BiOp(BiOp::Xor, a, b)), vec![a, b]);
    assert_eq!(operand_cells(&Node::Input(0)), Vec::<RCell>::new());
    assert_eq!(operand_cells(&Node::Ram(a, b, a, b)).len(), 4);
}
