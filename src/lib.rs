//! Semantic analysis for a small class-based language: inheritance resolution,
//! scope construction and expression type checking over an already parsed tree.
//!
//! Names are interned as `u64` values by the parser; classes live in one arena
//! and refer to each other by index.

pub mod types;
pub mod diag;
pub mod scope;
pub mod ast;
pub mod hierarchy;
pub mod members;
pub mod locals;
pub mod resolver;
pub mod type_checker;
pub mod pipeline;
