//! Reading a path expression: its tokens, and the path that they spell.
pub mod grammar;
pub mod lexeme;
pub mod scan;
pub mod token;
pub mod unquote;
