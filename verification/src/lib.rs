//! A two-stage front end for a minimal S-expression language: a pull-based
//! lexer that annotates every token with its source range, and a
//! recursive-descent parser with one token of lookahead that builds
//! position-annotated expression trees and reports structured syntax errors.

pub mod range;
pub mod token;
pub mod lexer;
pub mod tree;
pub mod errors;
pub mod parser;
pub mod laws;
pub mod arith;
