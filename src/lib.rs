//! A compiler for a small integer-only C subset: one or more `int` functions without
//! parameters, with local variables, assignment, arithmetic, comparisons and short-circuit
//! logic. Source text is lexed into tokens, parsed into a syntax tree and lowered to x86-64
//! assembly in AT&T syntax.
pub mod ast;
pub mod codegen;
pub mod lexer;
pub mod listing;
pub mod parser;
pub mod precedence;
pub mod scoping;
pub mod text;
