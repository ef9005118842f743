//! A small compiler for a C-like expression language: a lexer, a
//! recursive-descent parser with a flat symbol table, and a stack-discipline
//! code generator for x86-64 assembly text.

pub mod token;
pub mod parse;
pub mod codegen;
pub mod compile;
pub mod machine;
pub mod listing;
