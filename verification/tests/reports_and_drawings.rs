use tinyjazz::ast::graph::{print_node, BiOp, FlatProgramGraph, Node, RCell};
use tinyjazz::ast::parse_ast::{Const, Loc, Pos, Program};
use tinyjazz::backends::netlist::to_netlist;
use tinyjazz::frontend::constants::ComputeConstError;
use tinyjazz::frontend::from_netlist::{from_netlist, NetExpr, Netlist};
use tinyjazz::frontend::hierarchical_automata::{CollapseAutomataError, WrongNumberType};
use tinyjazz::frontend::nested_expr::FlattenError;
use tinyjazz::frontend::parser_wrapper::{
    join, merge_program, parse_error_type, pattern_text, replace_regex, FileError, ImportQueue,
    ParseErrorType, ParserError, RawParseError, SyntaxError,
};
use tinyjazz::frontend::typing::{Token, TypingError};
use tinyjazz::util::errors::{get_diagnostic, ErrorType};
use tinyjazz::util::viz::render_graph;

fn p(i: usize) -> Pos {
    Pos(2, i, i + 3)
}

#[test]
fn report_of_an_unknown_constant() {
    let d = get_diagnostic(&ErrorType::ComputeConst(ComputeConstError::UnknowVariable(p(4), "n".to_string())));
    assert_eq!(d.code, "E0002");
    assert_eq!(d.message, "Error : unknow variable");
    assert_eq!(d.labels.len(), 1);
    assert_eq!((d.labels[0].file, d.labels[0].start, d.labels[0].end), (2, 4, 7));
    assert_eq!(d.labels[0].message, "Unknown variable n");
    assert!(d.notes.is_empty());
}

#[test]
fn report_of_a_cycle_of_constants() {
    let d = get_diagnostic(&ErrorType::ComputeConst(ComputeConstError::CyclicDefinition));
    assert_eq!(d.code, "E0003");
    assert_eq!(d.message, "Error : cyclic constant definition");
    assert!(d.labels.is_empty());
}

#[test]
fn report_of_a_size_mismatch_names_both_buses() {
    let t1 = Token { loc: p(1), name: Some("a".to_string()), length: 3 };
    let t2 = Token { loc: p(9), name: None, length: 12 };
    let d = get_diagnostic(&ErrorType::Typing(TypingError::MismatchedBusSize(t1, t2)));
    assert_eq!(d.code, "E0011");
    assert_eq!(d.message, "These variables must have the same length ");
    assert_eq!(d.labels[0].message, "The variable a has length 3");
    assert_eq!(d.labels[1].message, "This expression has length 12");
    assert_eq!(d.labels[1].start, 9);
}

#[test]
fn report_of_a_negative_size_and_an_index() {
    let d = get_diagnostic(&ErrorType::Typing(TypingError::NegativeSizeBus(p(0), -4)));
    assert_eq!(d.message, "Bus must have a positive length, got -4 instead");
    let d = get_diagnostic(&ErrorType::Typing(TypingError::IndexOutOfRange(p(0), 5, 4)));
    assert_eq!(d.code, "E0018");
    assert_eq!(d.message, "Index out of range : index is 5 for a bus of length 4");
}

#[test]
fn report_of_a_wrong_number_of_arguments_of_an_automaton() {
    let e = CollapseAutomataError::WrongNumber(WrongNumberType::Args, p(3), 2, 1);
    let d = get_diagnostic(&ErrorType::ColAutomata(e));
    assert_eq!(d.code, "E0016");
    assert_eq!(d.message, "Wrong number of arguments:expected 2, got 1");
    assert_eq!(WrongNumberType::ReturnVars.text(), "return variables");
}

#[test]
fn reports_of_the_parser_and_of_registers() {
    let s = SyntaxError { l: 3, r: 5, token: "+".to_string(), expected: "Number".to_string() };
    let d = get_diagnostic(&ErrorType::Parser(ParserError::Parse(1, ParseErrorType::Syntax(s))));
    assert_eq!(d.code, "E0001");
    assert_eq!(d.message, "Syntax Error");
    assert_eq!((d.labels[0].file, d.labels[0].start, d.labels[0].end), (1, 3, 5));
    assert_eq!(d.labels[0].message, "Unexpected token +");
    assert_eq!(d.notes, vec!["Expected one of the following tokens : \nNumber".to_string()]);
    let f = FileError { file: "a.tj".to_string(), error: "not found".to_string() };
    let d = get_diagnostic(&ErrorType::Parser(ParserError::File(f)));
    assert_eq!(d.code, "E0000");
    assert_eq!(d.message, "File a.tj");
    assert_eq!(d.notes, vec!["not found".to_string()]);
    let d = get_diagnostic(&ErrorType::Parser(ParserError::Parse(4, ParseErrorType::UnexpectedEOF(17))));
    assert_eq!(d.code, "E0006");
    assert_eq!((d.labels[0].file, d.labels[0].start, d.labels[0].end), (4, 17, 17));
    let d = get_diagnostic(&ErrorType::FlattenError(FlattenError::MemoryInReg(p(1))));
    assert_eq!(d.code, "E0022");
    assert_eq!(d.message, "Can't access rom or ram memory in a register");
}

#[test]
fn token_patterns_get_readable_names() {
    assert_eq!(pattern_text(&r###"r#"[0-9]+"#"###.to_string()), "Number");
    assert_eq!(pattern_text(&r###"r#"[a-zA-Z_][a-zA-Z_0-9]*"#"###.to_string()), "Variable name");
    assert_eq!(pattern_text(&"\";\"".to_string()), "\";\"");
    let mut v = vec![
        r###"r#"[a-zA-Z_][a-zA-Z_0-9]*\\("#"###.to_string(),
        "\"end\"".to_string(),
        r###"r#"import[ ]+[^/\\n \"]*(/[^/\\n \"]*)*"#"###.to_string(),
    ];
    replace_regex(&mut v);
    assert_eq!(
        v,
        vec![
            "Function name + \"(\" (without a space between the name and \"(\") ".to_string(),
            "\"end\"".to_string(),
            "Import".to_string(),
        ]
    );
}

#[test]
fn strings_are_joined_with_the_separator() {
    assert_eq!(join(&vec!["a".to_string(), "b".to_string(), "c".to_string()], ", "), "a, b, c");
    assert_eq!(join(&vec!["a".to_string()], ", "), "a");
    assert_eq!(join(&Vec::new(), ", "), "");
}

#[test]
fn parse_errors_of_the_generated_parser() {
    let e = RawParseError::UnrecognizedToken {
        token: (4, "}".to_string(), 5),
        expected: vec![r###"r#"[0-9]+"#"###.to_string(), "\";\"".to_string()],
    };
    match parse_error_type(e) {
        ParseErrorType::Syntax(s) => {
            assert_eq!((s.l, s.r), (4, 5));
            assert_eq!(s.token, "}");
            assert_eq!(s.expected, "Number \n \";\"");
        }
        _ => panic!("not a syntax error"),
    }
    match parse_error_type(RawParseError::InvalidToken { location: 9 }) {
        ParseErrorType::Syntax(s) => {
            assert_eq!((s.l, s.r), (9, 9));
            assert_eq!(s.token, "unknown token");
            assert_eq!(s.expected, "");
        }
        _ => panic!("not a syntax error"),
    }
    match parse_error_type(RawParseError::ExtraToken { token: (1, "x".to_string(), 2) }) {
        ParseErrorType::Syntax(s) => assert_eq!(s.expected, "nothing"),
        _ => panic!("not a syntax error"),
    }
    assert!(matches!(
        parse_error_type(RawParseError::UnrecognizedEOF { location: 30, expected: Vec::new() }),
        ParseErrorType::UnexpectedEOF(30)
    ));
    assert!(matches!(
        parse_error_type(RawParseError::User { error: "bad".to_string() }),
        ParseErrorType::Other(m) if m == "bad"
    ));
}

#[test]
fn imported_definitions_replace_those_of_the_same_name() {
    let mut main = Program {
        imports: vec!["lib.tj".to_string()],
        automata: Vec::new(),
        functions: Vec::new(),
        global_consts: vec![("a".to_string(), Const::Value(1)), ("b".to_string(), Const::Value(2))],
    };
    let other = Program {
        imports: Vec::new(),
        automata: Vec::new(),
        functions: Vec::new(),
        global_consts: vec![("b".to_string(), Const::Value(20)), ("c".to_string(), Const::Value(30))],
    };
    merge_program(&mut main, other);
    assert_eq!(main.imports, vec!["lib.tj".to_string()]);
    let values: Vec<(String, i32)> = main
        .global_consts
        .iter()
        .map(|(n, c)| (n.clone(), match c { Const::Value(v) => *v, _ => -1 }))
        .collect();
    assert_eq!(values, vec![("a".to_string(), 1), ("b".to_string(), 20), ("c".to_string(), 30)]);
}

#[test]
fn each_file_is_read_once() {
    let mut q = ImportQueue::new("main.tj".to_string());
    assert_eq!(q.next_file(), Some("main.tj".to_string()));
    q.add_file("main.tj".to_string(), vec!["a.tj".to_string(), "main.tj".to_string(), "b.tj".to_string()]);
    assert_eq!(q.pending, vec!["a.tj".to_string(), "b.tj".to_string()]);
    assert_eq!(q.next_file(), Some("b.tj".to_string()));
    q.add_file("b.tj".to_string(), vec!["a.tj".to_string()]);
    assert_eq!(q.next_file(), Some("a.tj".to_string()));
    q.add_file("a.tj".to_string(), Vec::new());
    // "a.tj" was waiting twice; once read, it is not read again
    assert_eq!(q.next_file(), None);
    assert!(q.pending.is_empty());
}

fn sample_graph() -> FlatProgramGraph {
    // o = mux(c, a and c, not a), p = a and c
    let mut nodes: Vec<Node> = Vec::new();
    let a = RCell::new(&mut nodes, Node::Input(0));
    let c = RCell::new(&mut nodes, Node::Const(vec![true, false]));
    let x = RCell::new(&mut nodes, Node::BiOp(BiOp::And, a, c));
    let n = RCell::new(&mut nodes, Node::Not(a));
    let m = RCell::new(&mut nodes, Node::Mux(c, x, n));
    FlatProgramGraph { outputs: vec![("o".to_string(), m), ("p".to_string(), x)], inputs: vec![2], nodes }
}

#[test]
fn drawing_a_graph() {
    let v = render_graph(&sample_graph());
    assert_eq!(
        v.nodes,
        vec!["Output o", "Mux", "10", "And", "Input : 0", "Not", "Output p"]
            .into_iter()
            .map(|s| s.to_string())
            .collect::<Vec<String>>()
    );
    let edges: Vec<(usize, usize, &str)> = v.edges.iter().map(|(a, b, l)| (*a, *b, l.as_str())).collect();
    assert_eq!(
        edges,
        vec![(0, 1, ""), (1, 2, "c"), (1, 3, "v"), (3, 4, ""), (3, 2, ""), (1, 5, "f"), (5, 4, ""), (6, 3, "")]
    );
}

#[test]
fn drawing_a_register_loop_stops() {
    let mut nodes: Vec<Node> = Vec::new();
    let r = RCell::new(&mut nodes, Node::TmpValueHolder(0));
    let n = RCell::new(&mut nodes, Node::Not(r));
    nodes[0] = Node::Reg(1, n);
    let v = render_graph(&FlatProgramGraph { outputs: vec![("r".to_string(), r)], inputs: Vec::new(), nodes });
    assert_eq!(v.nodes, vec!["Output r".to_string(), "Reg".to_string(), "Not".to_string()]);
    assert_eq!(v.edges.len(), 3);
    assert_eq!((v.edges[2].0, v.edges[2].1), (2, 1));
}

fn netlist() -> Netlist {
    // INPUT a  OUTPUT o, r  VAR a:1, o:1, r:1, c:1
    // o = AND a r ; r = REG o ; c unused
    Netlist {
        inputs: vec!["a".to_string()],
        outputs: vec!["o".to_string(), "r".to_string()],
        vars: vec![("a".to_string(), 1), ("o".to_string(), 1), ("r".to_string(), 1), ("c".to_string(), 1)],
        instr: vec![
            ("o".to_string(), NetExpr::BiOp(BiOp::And, "a".to_string(), "r".to_string())),
            ("r".to_string(), NetExpr::Reg("o".to_string())),
            ("c".to_string(), NetExpr::Const(vec![true])),
        ],
    }
}

#[test]
fn reading_a_netlist() {
    let g = from_netlist(&netlist()).unwrap();
    assert_eq!(g.inputs, vec![1]);
    assert_eq!(g.outputs.len(), 2);
    assert_eq!(g.outputs[0].0, "o");
    assert_eq!(g.outputs[1].0, "r");
    match &g.nodes[g.outputs[0].1.id()] {
        Node::BiOp(BiOp::And, a, r) => {
            assert_eq!(g.nodes[a.id()], Node::Input(0));
            assert_eq!(r.id(), g.outputs[1].1.id());
            assert!(matches!(g.nodes[r.id()], Node::Reg(1, o) if o.id() == g.outputs[0].1.id()));
        }
        _ => panic!("o is not an and"),
    }
    assert!(!g.nodes.iter().any(|n| matches!(n, Node::TmpValueHolder(_))));
    // the graph read back can be written again
    let text = to_netlist(&g);
    assert!(text.starts_with("INPUT"));
}

#[test]
fn a_netlist_with_a_missing_instruction_is_refused() {
    let mut n = netlist();
    n.instr.remove(1);
    assert!(from_netlist(&n).is_none());
}

#[test]
fn a_cycle_that_no_register_breaks_is_refused() {
    let mut n = netlist();
    // r = NOT o turns the register loop into a combinational one
    n.instr[1].1 = NetExpr::Not("o".to_string());
    assert!(from_netlist(&n).is_none());
}

#[test]
fn an_unused_variable_without_instruction_does_not_matter() {
    let mut n = netlist();
    n.vars.push(("z".to_string(), 1));
    n.instr.push(("y".to_string(), NetExpr::Not("z".to_string())));
    assert!(from_netlist(&n).is_some());
}

#[test]
fn an_input_without_size_is_refused() {
    let mut n = netlist();
    n.vars.remove(0);
    assert!(from_netlist(&n).is_none());
}

#[test]
fn a_loc_keeps_its_position() {
    let l = Loc::new(p(1), "x".to_string());
    assert_eq!(l.loc, Pos(2, 1, 4));
}

#[test]
fn printing_a_node_with_its_operands() {
    let g = sample_graph();
    let m = &g.nodes[g.outputs[0].1.id()];
    let text = print_node(&g.nodes, m, false, &String::new(), 10).unwrap();
    assert_eq!(
        text,
        "Mux Const [true, false] \nAnd Input 0 \n Const [true, false] \nNot Input 0"
    );
    // too shallow a depth
    assert!(print_node(&g.nodes, m, false, &String::new(), 2).is_none());
}

#[test]
fn printing_a_register_loop() {
    let mut nodes: Vec<Node> = Vec::new();
    let r = RCell::new(&mut nodes, Node::TmpValueHolder(0));
    let n = RCell::new(&mut nodes, Node::Not(r));
    nodes[0] = Node::Reg(1, n);
    let text = print_node(&nodes, &nodes[0], false, &String::new(), 10).unwrap();
    assert_eq!(text, "Reg Not Reg loop");
    assert_eq!(print_node(&nodes, &Node::TmpValueHolder(7), false, &String::new(), 1).unwrap(), "Temp value 7");
}
