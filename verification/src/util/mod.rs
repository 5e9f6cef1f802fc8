//! Helpers shared by the passes: name tables, string building and bus operations.
use vstd::prelude::*;

pub mod tables;
pub mod text;
pub mod solver;
pub mod errors;
pub mod viz;
