pub mod low_level_interpreter;
