//! An infix arithmetic front end: a lexer from a line of text to tokens, and an
//! operator-precedence parser from tokens to the expression they denote.
//!
//! The library holds no floating-point value. A number travels through it as
//! the characters of its literal, and the parser's result is the tree of
//! operations to perform on those literals, in the order in which a two-stack
//! evaluator would perform them.

pub mod token;
pub mod lexer;
pub mod parser;
pub mod lexer_laws;
pub mod parser_laws;
pub mod notation;
