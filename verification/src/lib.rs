//! A verified front-end for a small dynamically-typed scripting language:
//! lexical analysis, recursive-descent parsing into an expression tree, and
//! tree-walking evaluation against a lexically scoped environment.
pub mod ast;
pub mod eval;
pub mod lexer;
pub mod num;
pub mod parser;
pub mod pipeline;
pub mod runner;
pub mod token;

pub use token::Token;
pub use token::TokenType;
