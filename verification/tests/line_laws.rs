use copyforge_core::lexer::fixed_format::{self, LogicalLine, Segment};
use copyforge_core::lexer::free_format;
use copyforge_core::lexer::scanner::{capture_picture_string, scan_line, span_for};
use copyforge_core::lexer::token::{match_keyword, KeywordKind, Token, TokenKind};
use copyforge_core::error::LexerError;
use copyforge_core::span::Span;

fn line_at(text: &str, base: usize, line: u32, col: u32) -> LogicalLine {
    LogicalLine {
        text: text.to_string(),
        segments: vec![Segment {
            logical_start: 0,
            source_start: base,
            len: text.len(),
            source_line: line,
            source_col: col,
        }],
        start_line: line,
    }
}

#[test]
fn scanned_tokens_come_in_source_order_and_fit_their_text() {
    let source = "xx05 ORDER-ID PIC 9(5) OCCURS 3 VALUE 'A', \"B\".";
    let text = &source[2..];
    let line = line_at(text, 2, 4, 8);
    let mut tokens: Vec<Token<'_>> = Vec::new();
    let mut errors = Vec::new();
    scan_line(&line, source, &mut tokens, &mut errors);
    assert!(errors.is_empty());
    let kinds: Vec<TokenKind> = tokens.iter().map(|t| t.kind).collect();
    assert_eq!(
        kinds,
        vec![
            TokenKind::LevelNumber(5),
            TokenKind::Identifier,
            TokenKind::Keyword(KeywordKind::Pic),
            TokenKind::PictureString,
            TokenKind::Keyword(KeywordKind::Occurs),
            TokenKind::NumericLiteral,
            TokenKind::Keyword(KeywordKind::Value),
            TokenKind::StringLiteral,
            TokenKind::Comma,
            TokenKind::StringLiteral,
            TokenKind::Period,
        ]
    );
    for pair in tokens.windows(2) {
        assert!(pair[0].span.end <= pair[1].span.start);
    }
    for t in &tokens {
        assert!(t.kind != TokenKind::Eof);
        assert_eq!(t.text, &source[t.span.start..t.span.end]);
        assert!(2 <= t.span.start && t.span.end <= source.len());
        assert_eq!(t.span.line, 4);
        assert_eq!(t.span.column as usize, 8 + (t.span.start - 2));
        match t.kind {
            TokenKind::Identifier => assert_eq!(match_keyword(t.text), None),
            TokenKind::Keyword(k) => assert_eq!(match_keyword(t.text), Some(k)),
            _ => {}
        }
    }
}

#[test]
fn a_two_digit_first_item_opens_with_a_level_number() {
    let source = "\t 88 FLAG.";
    let line = line_at(source, 0, 1, 1);
    let mut tokens: Vec<Token<'_>> = Vec::new();
    let mut errors = Vec::new();
    scan_line(&line, source, &mut tokens, &mut errors);
    assert_eq!(tokens[0].kind, TokenKind::LevelNumber(88));
    assert_eq!(tokens[0].text, "88");

    let source = "123 FLAG.";
    let line = line_at(source, 0, 1, 1);
    let mut tokens: Vec<Token<'_>> = Vec::new();
    scan_line(&line, source, &mut tokens, &mut errors);
    assert_eq!(tokens[0].kind, TokenKind::NumericLiteral);
}

#[test]
fn span_for_maps_offsets_to_source_and_columns() {
    assert_eq!(span_for(7, 3, 8, 2, 5), Span::new(9, 12, 3, 10));
    assert_eq!(span_for(40, 2, 1, 0, 4), Span::new(40, 44, 2, 1));
    assert_eq!(span_for(0, 1, u32::MAX, 3, 3), Span::new(3, 3, 1, u32::MAX));
}

#[test]
fn capture_picture_string_takes_the_run_after_blanks() {
    let source = "PIC  S9(4)V99. REST";
    let t = source.as_bytes();
    let mut tokens: Vec<Token<'_>> = Vec::new();
    let next = capture_picture_string(t, 3, source, 0, 1, 8, &mut tokens);
    assert_eq!(next, 13);
    assert_eq!(tokens.len(), 1);
    assert_eq!(tokens[0].kind, TokenKind::PictureString);
    assert_eq!(tokens[0].text, "S9(4)V99");
    assert_eq!(tokens[0].span, Span::new(5, 13, 1, 13));
}

#[test]
fn capture_picture_string_takes_nothing_before_a_period() {
    let source = "PIC  .";
    let t = source.as_bytes();
    let mut tokens: Vec<Token<'_>> = Vec::new();
    let next = capture_picture_string(t, 3, source, 0, 1, 8, &mut tokens);
    assert_eq!(next, 5);
    assert!(tokens.is_empty());
}

#[test]
fn fixed_logical_lines_are_in_order_and_within_columns_8_to_72() {
    let long = "X".repeat(80);
    let source = format!("000100 01 A.\n000200*note\n000300 {}\n000400 05 B.\n", long);
    let (lines, errors) = fixed_format::preprocess(&source);
    assert!(errors.is_empty());
    let numbers: Vec<u32> = lines.iter().map(|l| l.start_line).collect();
    assert_eq!(numbers, vec![1, 3, 4]);
    for pair in lines.windows(2) {
        let a = &pair[0].segments[0];
        let b = &pair[1].segments[0];
        assert!(a.source_start + a.len <= b.source_start);
    }
    for l in &lines {
        assert!(l.text.len() <= 65);
        assert_eq!(l.segments[0].source_col, 8);
    }
    assert_eq!(lines[1].text.len(), 65);
}

#[test]
fn free_logical_lines_are_in_order_from_column_1() {
    let source = "01 A. *> note\n\n   \n>>SOURCE FORMAT FREE\n05 B PIC X.";
    let (lines, errors) = free_format::preprocess(source);
    assert!(errors.is_empty());
    let numbers: Vec<u32> = lines.iter().map(|l| l.start_line).collect();
    assert_eq!(numbers, vec![1, 5]);
    assert_eq!(lines[0].text, "01 A. ");
    assert_eq!(lines[1].text, "05 B PIC X.");
    for l in &lines {
        assert_eq!(l.segments[0].source_col, 1);
    }
}

#[test]
fn fixed_errors_mark_each_bad_indicator() {
    let source = "000100Q01 A.\n0002\n000300\u{0}05 B.\n000400d05 C.\n";
    let (lines, errors) = fixed_format::preprocess(source);
    assert_eq!(lines.len(), 1);
    assert_eq!(lines[0].text, "05 C.");
    assert_eq!(lines[0].start_line, 4);
    assert_eq!(
        errors,
        vec![
            LexerError::InvalidCharacter { ch: 'Q', span: Span::new(6, 7, 1, 7) },
            LexerError::EncounteredNullByte { span: Span::new(24, 25, 3, 7) },
        ]
    );
}
