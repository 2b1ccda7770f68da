//! A compiler for the eight-command tape language: a lexer, a parser that
//! merges runs of identical commands, and two backends (x86-64 assembly and C).

pub mod ast;
pub mod cli;
pub mod codegen;
pub mod lexer;
pub mod parser;
pub mod token;
