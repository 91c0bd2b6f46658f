use copyforge_core::error::LexerError;
use copyforge_core::span::Span;

#[test]
fn span_new_len_and_is_empty() {
    let s = Span::new(4, 10, 3, 12);
    assert_eq!((s.start, s.end, s.line, s.column), (4, 10, 3, 12));
    assert_eq!(s.len(), 6);
    assert!(!s.is_empty());
    let e = Span::new(7, 7, 1, 1);
    assert_eq!(e.len(), 0);
    assert!(e.is_empty());
}

#[test]
fn every_error_variant_reports_its_span() {
    let sp = Span::new(1, 2, 3, 4);
    let errors = [
        LexerError::UnterminatedStringLiteral { span: sp },
        LexerError::InvalidCharacter { ch: '~', span: sp },
        LexerError::EncounteredNullByte { span: sp },
        LexerError::ContinuationWithoutReopeningQuote { expected: '"', span: sp },
        LexerError::OrphanContinuation { span: sp },
    ];
    for e in errors {
        assert_eq!(e.span(), sp);
    }
}
