//! The Cypher subset: tokens, syntax tree, grammar, parser, expression
//! evaluation and interpreter.

pub mod lexer;
pub mod ast;
pub mod grammar;
pub mod parser;
pub mod result;
pub mod eval;
pub mod interpreter;
pub mod run;
