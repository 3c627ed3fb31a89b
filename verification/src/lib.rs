//! Static semantic analysis for a small scripting language: lexically scoped
//! name resolution over an abstract syntax tree, reporting undefined-variable
//! uses, undefined-function calls, arity mismatches, and unused variables.

pub mod ast;
pub mod analyser;
pub mod laws;
