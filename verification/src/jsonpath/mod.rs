//! The JSONPath expression language: the parts of a path, reading a path
//! from its text, and applying a path to a value.
pub mod exception;
pub mod parser;
pub mod path;
pub mod selector;
