//! Source positions and parse errors.
use vstd::prelude::*;

verus! {

/// A 0-based position in the source text: line, column (byte offset within
/// the line), and absolute byte offset.
#[derive(Clone, Copy, Debug, PartialEq, Eq, Structural)]
pub struct Position {
    pub line: usize,
    pub column: usize,
    pub offset: usize,
}

/// An error with a machine code, a human message, and an
/// inclusive-begin / exclusive-end span.
#[derive(Clone, Debug, PartialEq)]
pub struct MOTLYError {
    pub code: String,
    pub message: String,
    pub begin: Position,
    pub end: Position,
}

impl MOTLYError {
    /// A fatal parse error; all parse errors carry this one code.
    pub fn syntax_error(message: String, begin: Position, end: Position) -> (r: MOTLYError)
        ensures
            r.code@ == "tag-parse-syntax-error"@,
            r.message == message,
            r.begin == begin,
            r.end == end,
    {
        MOTLYError { code: "tag-parse-syntax-error".to_owned(), message, begin, end }
    }
}

/// The position used for errors that carry no source span (interpreter
/// errors refer to statements, not to source text).
pub fn zero_position() -> (r: Position)
    ensures
        r.line == 0,
        r.column == 0,
        r.offset == 0,
{
    Position { line: 0, column: 0, offset: 0 }
}

} // verus!
