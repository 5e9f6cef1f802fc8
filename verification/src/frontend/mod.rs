pub mod constants;
pub mod nested_expr;
pub mod make_graph_automaton;
pub mod automaton;
pub mod typing;
pub mod hierarchical_automata;
pub mod parser_wrapper;
pub mod functions;
pub mod from_netlist;
