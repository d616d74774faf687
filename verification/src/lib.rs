//! An interpreter for A=B^Reflect, a string-rewriting language with
//! primitives for output, input, reflection and introspection.
pub mod error;
pub mod laws;
pub mod parser;
pub mod primitives;
pub mod rule;
pub mod tape;
pub mod text;
pub mod vm;
