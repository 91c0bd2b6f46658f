use copyforge_core::error::LexerError;
use copyforge_core::lexer::{lex, lex_with_format, token::TokenKind, SourceFormat};

#[test]
fn inline_comment_inside_literal() {
    let src = "05 A VALUE '*> not a comment'.\n";
    let (tokens, errors) = lex_with_format(src, SourceFormat::Free);
    assert!(errors.is_empty(), "{errors:?}");
    let literal =
        tokens.iter().find(|t| t.kind == TokenKind::StringLiteral).expect("string literal token");
    assert_eq!(literal.text, "'*> not a comment'");
}

#[test]
fn long_line_not_truncated() {
    let ident: String = "A".repeat(100);
    let src = format!("{ident}.\n");
    let (tokens, errors) = lex_with_format(&src, SourceFormat::Free);
    assert!(errors.is_empty(), "{errors:?}");
    let id = tokens.iter().find(|t| t.kind == TokenKind::Identifier).expect("identifier token");
    assert_eq!(id.text.len(), 100);
    assert_eq!(id.span.column, 1);
}

#[test]
fn content_in_cols_1_through_6_is_code() {
    let src = "01 FOO.\n";
    let (tokens, errors) = lex_with_format(src, SourceFormat::Free);
    assert!(errors.is_empty(), "{errors:?}");
    let first = &tokens[0];
    assert!(matches!(first.kind, TokenKind::LevelNumber(1)));
    assert_eq!(first.span.line, 1);
    assert_eq!(first.span.column, 1);
}

#[test]
fn star_at_col_1_is_not_special() {
    let src = "* not a comment\n";
    let (_, errors) = lex_with_format(src, SourceFormat::Free);
    assert!(
        errors.iter().any(|e| matches!(e, LexerError::InvalidCharacter { ch: '*', .. })),
        "expected InvalidCharacter('*'), got {errors:?}"
    );
}

#[test]
fn lexer_free_format_eof_tracks_physical_line_count() {
    let src = "*> first\n*> second\n*> third\n";
    let (tokens, _) = lex_with_format(src, SourceFormat::Free);
    let eof = tokens.last().expect("eof token");
    assert_eq!(eof.kind, TokenKind::Eof);
    assert_eq!(eof.span.line, 4);
}

#[test]
fn directives_do_not_leak_into_token_stream() {
    let src = ">>SOURCE FORMAT IS FREE\n01 FOO.\n>>D DISPLAY 'X'.\n";
    let (tokens, errors) = lex_with_format(src, SourceFormat::Free);
    assert!(errors.is_empty(), "{errors:?}");
    let kinds: Vec<TokenKind> = tokens.iter().map(|t| t.kind).collect();
    assert_eq!(
        kinds,
        vec![TokenKind::LevelNumber(1), TokenKind::Identifier, TokenKind::Period, TokenKind::Eof]
    );
}

fn assert_token_kinds_match(fixed: &str, free: &str) {
    let (fixed_tokens, fixed_errors) = lex_with_format(fixed, SourceFormat::Fixed);
    let (free_tokens, free_errors) = lex_with_format(free, SourceFormat::Free);
    assert!(fixed_errors.is_empty(), "fixed errors: {fixed_errors:?}");
    assert!(free_errors.is_empty(), "free errors: {free_errors:?}");
    let fixed_kinds: Vec<TokenKind> = fixed_tokens.iter().map(|t| t.kind).collect();
    let free_kinds: Vec<TokenKind> = free_tokens.iter().map(|t| t.kind).collect();
    assert_eq!(
        fixed_kinds, free_kinds,
        "kind sequences diverge\nfixed: {fixed_kinds:?}\nfree: {free_kinds:?}"
    );
}

#[test]
fn parity_simple_record() {
    assert_token_kinds_match("       01 FOO.\n", "01 FOO.\n");
}

#[test]
fn parity_data_item_with_picture() {
    assert_token_kinds_match(
        "       05 AMOUNT PIC S9(7)V99 COMP-3.\n",
        "05 AMOUNT PIC S9(7)V99 COMP-3.\n",
    );
}

#[test]
fn parity_string_literal() {
    assert_token_kinds_match("       05 GREETING VALUE 'HELLO'.\n", "05 GREETING VALUE 'HELLO'.\n");
}

#[test]
fn parity_comment_drops_whole_line_in_both_formats() {
    assert_token_kinds_match(
        "      * header comment\n       05 X.\n",
        "*> header comment\n05 X.\n",
    );
}

#[test]
fn parity_nested_group() {
    let fixed = "       01 PARENT.\n          05 CHILD PIC X(4).\n          05 KID   PIC 9(2).\n";
    let free = "01 PARENT.\n   05 CHILD PIC X(4).\n   05 KID   PIC 9(2).\n";
    assert_token_kinds_match(fixed, free);
}

#[test]
fn free_spans_use_source_offsets_and_column_one_base() {
    let src = "\n  05 A. *> note\n";
    let (tokens, errors) = lex_with_format(src, SourceFormat::Free);
    assert!(errors.is_empty());
    let got: Vec<(TokenKind, usize, usize, u32, u32)> = tokens
        .iter()
        .map(|t| (t.kind, t.span.start, t.span.end, t.span.line, t.span.column))
        .collect();
    assert_eq!(
        got,
        vec![
            (TokenKind::LevelNumber(5), 3, 5, 2, 3),
            (TokenKind::Identifier, 6, 7, 2, 6),
            (TokenKind::Period, 7, 8, 2, 7),
            (TokenKind::Eof, 17, 17, 3, 1),
        ]
    );
}

#[test]
fn parity_holds_with_empty_and_blank_lines() {
    let fixed = "       01 REC.\n       \n       \t  \n      * note\n       05 F PIC X.\n";
    let free = "01 REC.\n\n\t  \n*> note\n05 F PIC X.\n";
    assert_token_kinds_match(fixed, free);
    let (_, fixed_errors) = lex(fixed);
    let (_, free_errors) = lex_with_format(free, SourceFormat::Free);
    assert!(fixed_errors.is_empty());
    assert!(free_errors.is_empty());
}
