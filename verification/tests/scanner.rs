use copyforge_core::error::LexerError;
use copyforge_core::lexer::fixed_format::{LogicalLine, Segment};
use copyforge_core::lexer::scanner::scan_line;
use copyforge_core::lexer::token::{KeywordKind, Token, TokenKind};

fn scan(text: &str) -> (Vec<Token<'_>>, Vec<LexerError>) {
    let line = LogicalLine {
        text: text.to_string(),
        segments: vec![Segment {
            logical_start: 0,
            source_start: 0,
            len: text.len(),
            source_line: 1,
            source_col: 8,
        }],
        start_line: 1,
    };
    let mut tokens = vec![];
    let mut errors = vec![];
    scan_line(&line, text, &mut tokens, &mut errors);
    (tokens, errors)
}

#[test]
fn level_number_only_at_line_start() {
    let (tokens, _) = scan("01 FOO 99.");
    let kinds: Vec<_> = tokens.iter().map(|t| t.kind).collect();
    assert!(matches!(kinds[0], TokenKind::LevelNumber(1)));
    assert!(matches!(kinds[1], TokenKind::Identifier));
    assert!(matches!(kinds[2], TokenKind::NumericLiteral));
    assert!(matches!(kinds[3], TokenKind::Period));
}

#[test]
fn picture_string_captured_atomically() {
    let (tokens, _) = scan("05 AMOUNT PIC S9(7)V99.");
    let pic = tokens.iter().find(|t| t.kind == TokenKind::PictureString).unwrap();
    assert_eq!(pic.text, "S9(7)V99");
}

#[test]
fn unterminated_string_reports_error() {
    let (_, errors) = scan("VALUE \"oops");
    assert_eq!(errors.len(), 1);
    assert!(matches!(errors[0], LexerError::UnterminatedStringLiteral { .. }));
}

#[test]
fn invalid_character_recorded_and_scanning_continues() {
    let (tokens, errors) = scan("FOO ~ BAR.");
    assert_eq!(errors.len(), 1);
    assert_eq!(tokens.len(), 3);
    assert!(matches!(errors[0], LexerError::InvalidCharacter { ch: '~', .. }));
}

#[test]
fn spans_and_columns_follow_the_segment() {
    let (tokens, errors) = scan("05 A-B VALUE 'X'.");
    assert!(errors.is_empty());
    let got: Vec<(TokenKind, usize, usize, u32, &str)> =
        tokens.iter().map(|t| (t.kind, t.span.start, t.span.end, t.span.column, t.text)).collect();
    assert_eq!(
        got,
        vec![
            (TokenKind::LevelNumber(5), 0, 2, 8, "05"),
            (TokenKind::Identifier, 3, 6, 11, "A-B"),
            (TokenKind::Keyword(KeywordKind::Value), 7, 12, 15, "VALUE"),
            (TokenKind::StringLiteral, 13, 16, 21, "'X'"),
            (TokenKind::Period, 16, 17, 24, "."),
        ]
    );
}

#[test]
fn longest_match_rules() {
    // A trailing hyphen is not part of an identifier; a period not followed
    // by a digit is not part of a number.
    let (tokens, errors) = scan("FOO- 12. 3.5 X--Y");
    let got: Vec<(TokenKind, &str)> = tokens.iter().map(|t| (t.kind, t.text)).collect();
    assert_eq!(
        got,
        vec![
            (TokenKind::Identifier, "FOO"),
            (TokenKind::NumericLiteral, "12"),
            (TokenKind::Period, "."),
            (TokenKind::NumericLiteral, "3.5"),
            (TokenKind::Identifier, "X"),
            (TokenKind::Identifier, "Y"),
        ]
    );
    assert_eq!(errors.len(), 3);
    for e in &errors {
        assert!(matches!(e, LexerError::InvalidCharacter { ch: '-', .. }));
    }
}

#[test]
fn null_byte_and_multibyte_invalid_character() {
    let (tokens, errors) = scan("A\0é,");
    assert_eq!(tokens.len(), 2);
    assert_eq!(tokens[1].kind, TokenKind::Comma);
    assert_eq!(tokens[1].span.start, 4);
    assert_eq!(errors.len(), 2);
    assert!(matches!(errors[0], LexerError::EncounteredNullByte { span } if span.start == 1 && span.end == 2));
    match errors[1] {
        LexerError::InvalidCharacter { ch, span } => {
            assert_eq!(ch, 'é');
            assert_eq!((span.start, span.end, span.column), (2, 4, 10));
        }
        other => panic!("unexpected {other:?}"),
    }
}

#[test]
fn error_first_means_no_level_number() {
    let (tokens, errors) = scan("~ 01 X");
    assert_eq!(errors.len(), 1);
    assert_eq!(tokens[0].kind, TokenKind::NumericLiteral);
}

#[test]
fn picture_keyword_without_string_and_with_tab() {
    let (tokens, _) = scan("PIC .");
    let kinds: Vec<_> = tokens.iter().map(|t| t.kind).collect();
    assert_eq!(kinds, vec![TokenKind::Keyword(KeywordKind::Pic), TokenKind::Period]);
    let (tokens, _) = scan("picture\tX(10) COMP.");
    let got: Vec<(TokenKind, &str)> = tokens.iter().map(|t| (t.kind, t.text)).collect();
    assert_eq!(
        got,
        vec![
            (TokenKind::Keyword(KeywordKind::Picture), "picture"),
            (TokenKind::PictureString, "X(10)"),
            (TokenKind::Keyword(KeywordKind::Comp), "COMP"),
            (TokenKind::Period, "."),
        ]
    );
}

#[test]
fn double_quote_string_and_open_single_quote() {
    let (tokens, errors) = scan("\"a'b\" 'c");
    assert_eq!(tokens.len(), 1);
    assert_eq!(tokens[0].text, "\"a'b\"");
    assert_eq!(errors.len(), 1);
    assert!(matches!(errors[0], LexerError::UnterminatedStringLiteral { span } if span.start == 6 && span.end == 8));
}
