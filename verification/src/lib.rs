//! A small arithmetic calculator: a tokenizer with source positions, a
//! recursive-descent parser and an evaluator for expressions over `i32`
//! with `+ - * /` and parentheses.

pub mod lexer;
pub mod line;
pub mod parser;
