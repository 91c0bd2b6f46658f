//! Lexer-level error types.
//!
//! Scanning never short-circuits: the lexer accumulates every error it
//! sees and keeps producing tokens around them. Downstream stages
//! therefore still get useful input for recovery, and end users get all
//! the complaints at once.
use crate::span::Span;
use vstd::prelude::*;

verus! {

#[derive(Debug, Clone, Copy, PartialEq, Eq, Structural)]
pub enum LexerError {
    UnterminatedStringLiteral { span: Span },
    InvalidCharacter { ch: char, span: Span },
    EncounteredNullByte { span: Span },
    ContinuationWithoutReopeningQuote { expected: char, span: Span },
    OrphanContinuation { span: Span },
}

impl LexerError {
    /// The span that every variant carries.
    pub open spec fn spec_span(self) -> Span {
        match self {
            LexerError::UnterminatedStringLiteral { span } => span,
            LexerError::InvalidCharacter { span, .. } => span,
            LexerError::EncounteredNullByte { span } => span,
            LexerError::ContinuationWithoutReopeningQuote { span, .. } => span,
            LexerError::OrphanContinuation { span } => span,
        }
    }

    pub fn span(&self) -> (s: Span)
        ensures
            s == self.spec_span(),
    {
        match self {
            LexerError::UnterminatedStringLiteral { span } => *span,
            LexerError::InvalidCharacter { span, .. } => *span,
            LexerError::EncounteredNullByte { span } => *span,
            LexerError::ContinuationWithoutReopeningQuote { span, .. } => *span,
            LexerError::OrphanContinuation { span } => *span,
        }
    }
}

} // verus!
