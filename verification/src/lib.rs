//! A small arithmetic-expression calculator: a tokenizer, a precedence
//! parser that builds an expression tree, and the helpers they share.

pub mod expr;
pub mod laws;
pub mod literal;
pub mod segment;
pub mod utils;
