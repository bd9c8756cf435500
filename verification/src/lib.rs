//! SeMiTONE: a modular foundation for satisfiability-modulo-theories solvers.
pub mod fraction;
pub mod rational;
pub mod dl_theory;

pub mod ast;
pub mod lit;
pub mod sparse_row;
pub mod lra_theory;
pub mod proxy;
pub mod linear;
pub mod euf_theory;
pub mod dot;
pub mod model;
pub mod display;
pub mod encode;
pub mod atoms;
pub mod smt;
pub mod formulas;
pub mod engine;
pub mod formula_checks;
pub mod session;
