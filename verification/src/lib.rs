//! Graphol: a small graph-oriented, message-passing language.
//!
//! The library holds the language's syntax tree, the include resolver that
//! expands `include "file"` directives, the Rust code generator, the command
//! line argument rules and an object/scope runtime model.
pub mod ast;
pub mod text;
pub mod directive;
pub mod source_loader;
pub mod codegen;
pub mod cli;
pub mod artifacts;
pub mod runtime;
