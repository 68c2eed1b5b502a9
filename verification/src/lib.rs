//! A tree-walking evaluator for a small dynamically-typed expression language.

pub mod decimal;
pub mod env;
pub mod fault;
pub mod interpreter;
pub mod laws;
pub mod number;
pub mod rounding;
pub mod semantics;
pub mod types;
pub mod value;
