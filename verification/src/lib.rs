//! A verified parser for Taskfiles, and the decisions of a language server built on it.
pub mod answers;
pub mod ast;
pub mod laws;
pub mod lines;
pub mod model;
pub mod parser;
pub mod server;
pub mod shift;
pub mod text;
