//! Source location tracking for tokens and diagnostics.
use vstd::prelude::*;

verus! {

/// Byte offsets into the source text plus a 1-indexed line and column
/// for user-facing diagnostics.
///
/// `start` is inclusive, `end` exclusive, both in bytes. `line` and
/// `column` point at the first character of the span. The column is
/// 1-indexed so that "column 7" in a fixed-format indicator field
/// matches everyday usage and error-message conventions.
#[derive(Debug, Clone, Copy, PartialEq, Eq, Hash, Structural)]
pub struct Span {
    pub start: usize,
    pub end: usize,
    pub line: u32,
    pub column: u32,
}

impl Span {
    pub fn new(start: usize, end: usize, line: u32, column: u32) -> (s: Self)
        ensures
            s == (Span { start, end, line, column }),
    {
        Span { start, end, line, column }
    }

    /// Number of bytes covered by the span.
    pub fn len(&self) -> (n: usize)
        requires
            self.start <= self.end,
        ensures
            n == self.end - self.start,
    {
        self.end - self.start
    }

    /// True when the span covers no bytes.
    pub fn is_empty(&self) -> (b: bool)
        ensures
            b == (self.start == self.end),
    {
        self.start == self.end
    }
}

} // verus!
