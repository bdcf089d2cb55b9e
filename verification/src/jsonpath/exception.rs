//! Errors of the path language and the spans they point at.
use vstd::prelude::*;

verus! {

/// A half-open interval `start..end` of byte offsets into a source text.
#[derive(Clone, Copy, Debug, PartialEq, Eq, Hash, Structural)]
pub struct Range {
    pub start: usize,
    pub end: usize,
}

impl Range {
    /// The interval from `start` up to, and not including, `end`.
    pub fn new(start: usize, end: usize) -> (r: Range)
        ensures
            r.start == start,
            r.end == end,
    {
        Range { start, end }
    }
}

/// What went wrong.
#[derive(Clone, Copy, Debug, PartialEq, Eq, Hash, Structural)]
pub enum ErrorKind {
    /// The text is not a path expression.
    SyntaxException,
    /// A value cannot be read as the type that was asked for.
    TypeMismatch,
    /// A buffer does not hold an encoded value.
    InvalidEncoding,
}

/// An error: its kind, a message for a human reader, and the part of the
/// source text it is about, where there is one.
#[derive(Debug)]
pub struct ErrorCode {
    pub kind: ErrorKind,
    pub message: String,
    pub span: Option<Range>,
}

impl ErrorCode {
    /// A syntax error with the given message and no span.
    pub fn syntax_exception(message: String) -> (e: ErrorCode)
        ensures
            e.kind == ErrorKind::SyntaxException,
            e.message == message,
            e.span is None,
    {
        ErrorCode { kind: ErrorKind::SyntaxException, message, span: None }
    }

    /// A mismatch of types with the given message and no span.
    pub fn type_mismatch(message: String) -> (e: ErrorCode)
        ensures
            e.kind == ErrorKind::TypeMismatch,
            e.message == message,
            e.span is None,
    {
        ErrorCode { kind: ErrorKind::TypeMismatch, message, span: None }
    }

    /// An encoding error with the given message and no span.
    pub fn invalid_encoding(message: String) -> (e: ErrorCode)
        ensures
            e.kind == ErrorKind::InvalidEncoding,
            e.message == message,
            e.span is None,
    {
        ErrorCode { kind: ErrorKind::InvalidEncoding, message, span: None }
    }

    /// The same error, pointing at `span`.
    pub fn set_span(self, span: Option<Range>) -> (e: ErrorCode)
        ensures
            e.kind == self.kind,
            e.message == self.message,
            e.span == span,
    {
        ErrorCode { kind: self.kind, message: self.message, span }
    }
}

} // verus!
