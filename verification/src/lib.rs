//! Normalisation of untyped lambda-calculus expressions.
//!
//! Text is split into tokens ([`lexer`]), tokens are parsed into an
//! expression tree ([`parser`]), and the tree is reduced pass by pass until
//! it stops changing ([`eval`]).  The contract of every executable function
//! is stated over the mathematical model of expression trees in [`term`],
//! and [`laws`] proves what holds of reduction as a whole.

pub mod ast;
pub mod env;
pub mod eval;
pub mod laws;
pub mod lexer;
pub mod parser;
pub mod term;
