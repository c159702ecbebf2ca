//! A tree-walking evaluator for a small s-expression language.

pub mod comparison;
pub mod eval;
pub mod expr;
pub mod render;
pub mod scope;
pub mod lexer;
pub mod parser;
pub mod repl;
pub mod laws;
pub mod round_trip;
