pub mod netlist;
