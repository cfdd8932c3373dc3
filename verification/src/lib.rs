//! Core of a broadcast shell: a tokenizer and expander for command lines,
//! a resolver that classifies a line as a builtin or a program to spawn,
//! and a registry of directories that spawned commands fan out to.

pub mod context;
pub mod env;
pub mod expand;
pub mod lexer;
pub mod lexer_laws;
pub mod report;
pub mod resolve;
pub mod strutil;
