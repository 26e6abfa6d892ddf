//! The object and scope model of the Graphol runtime.
pub mod number;
pub mod value;
pub mod object;
pub mod scope;
pub mod eval;
pub mod engine;
