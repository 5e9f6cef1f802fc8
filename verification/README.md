# Tinyjazz

Tinyjazz is a dataflow language with hierarchical automata, compiled to netlists.
This crate is its compiler, written in Verus: each pass carries a contract, and Verus
proves that the code meets it.

## Layout

* `src/ast` — the representations the passes go through: the parsed program
  (`parse_ast`), the typed program (`typed_ast`), the automaton of expression DAGs
  (`graph_automaton`) and the flat dataflow graph (`graph`), whose nodes live in an arena.
* `src/frontend` — the passes, in order: constants (`constants`), collapsing of the
  automata into `main` (`hierarchical_automata`), flattening of nested expressions
  (`nested_expr`), inlining of functions (`functions`), typing (`typing`), the automaton
  graph (`make_graph_automaton`) and the flat graph (`automaton`). `from_netlist` reads a
  netlist into a flat graph; `parser_wrapper` holds the errors of the parser, the merging
  of imported files and the order in which they are read.
* `src/optimization` — constant propagation and local rewrites on the flat graph.
* `src/backends` — the netlist text of a flat graph.
* `src/interpreters` — a step-by-step interpreter of flat graphs.
* `src/util` — name tables, text, the dependency solver of the global constants, the
  contents of the error reports and the drawing of a graph.
* `app` — the command line: reading files, printing reports, writing `out.net` and
  `viz.dot`, and the rhai scripts that give the inputs of the interpreter.
* `tests` — tests of the passes on small programs and graphs.
