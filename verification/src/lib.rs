//! Mutation generator for Rust source code.

pub mod ast_mutation;
pub mod mutants;
pub mod mutate;
pub mod parse;
pub mod text;
