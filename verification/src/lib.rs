//! An evaluator for integer arithmetic expressions.
//!
//! Text is cut into tokens by the [`lexer`], the tokens are arranged into a
//! tree by the [`parser`], and the tree is reduced to a number by [`eval`].

pub mod eval;
pub mod grammar;
pub mod lexer;
pub mod parser;
