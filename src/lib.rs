//! A small arithmetic-expression engine: source text is split into tokens,
//! the tokens are parsed into an expression tree that honours operator
//! precedence and parentheses, and the tree is evaluated to a single `i64`.
pub mod enums;
pub mod tokenizer;
pub mod parser;
pub mod interpreter;
pub mod laws;
