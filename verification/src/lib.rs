//! Front end of a small imperative expression language: a lexer that turns
//! source text into tokens on demand, and a recursive-descent parser that
//! turns the tokens into a syntax tree.

pub mod engine;
pub mod scan;
pub mod lexer;
pub mod grammar;
pub mod parser;
pub mod fringe;
