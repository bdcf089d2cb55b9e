//! A binary JSON value library with a JSONPath expression language.
//!
//! A JSON value is kept in one self-describing buffer of bytes, which is
//! written once and then read in place: its children are found by their
//! index or their name without building the value again. Values are put
//! together from buffers, ordered, projected onto bytes that sort like the
//! values, and written as text. A path expression is split into tokens,
//! read as a path, and applied to a buffer.
//!
//! What a buffer, a path and each operation on them are is said over
//! mathematical values: a `JsonValue` for a value, sequences of bytes for
//! buffers, and so on. The modules `laws`, `layout` and `sorting`, and the
//! proof functions in the others, state and prove what holds between the
//! operations.
pub mod builder;
pub mod compare;
pub mod decode;
pub mod format;
pub mod functions;
pub mod jsonpath;
pub mod laws;
pub mod layout;
pub mod number;
pub mod order;
pub mod sorting;
pub mod text;
pub mod value;
