//! A conflict-driven clause-learning SAT solver for formulas in conjunctive
//! normal form, with two-watched-literal propagation, first-UIP clause
//! learning and an XOR / Gaussian-elimination preprocessor.

pub mod lit;
pub mod normalize;
pub mod parse;
pub mod preprocessing;
pub mod solver;
pub mod strategy;

pub use crate::lit::{Clause, Lit, VarValue};
pub use crate::parse::{parse_custom_format, parse_lit, run_solver_on_content};
pub use crate::solver::Solver;
pub use crate::strategy::{BranchingStrategy, RandomStrategy};
