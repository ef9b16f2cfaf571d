//! A small interpreter for a parenthesized symbolic-expression language.
//!
//! Source text is read into a tree of expression nodes, and the tree is
//! evaluated against a stack of scopes holding name/value bindings.

pub mod ast;
pub mod config;
pub mod error;
pub mod evaluator;
pub mod functions;
pub mod lispobject;
pub mod objectmanager;
