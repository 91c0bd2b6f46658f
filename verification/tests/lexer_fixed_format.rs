use copyforge_core::error::LexerError;
use copyforge_core::lexer::token::{KeywordKind, Token, TokenKind};
use copyforge_core::lexer::lex;

fn kinds(src: &str) -> Vec<TokenKind> {
    lex(src).0.iter().map(|t| t.kind).collect()
}

#[test]
fn sequence_area_ignored() {
    // cols 1-6 carry digits and letters; they must not become tokens.
    let src = "123456 01 FOO.\nABCDEF 05 BAR.\n";
    let (tokens, errors) = lex(src);
    assert!(errors.is_empty());
    let got: Vec<(TokenKind, &str, u32, u32)> =
        tokens.iter().map(|t| (t.kind, t.text, t.span.line, t.span.column)).collect();
    assert_eq!(
        got,
        vec![
            (TokenKind::LevelNumber(1), "01", 1, 8),
            (TokenKind::Identifier, "FOO", 1, 11),
            (TokenKind::Period, ".", 1, 14),
            (TokenKind::LevelNumber(5), "05", 2, 8),
            (TokenKind::Identifier, "BAR", 2, 11),
            (TokenKind::Period, ".", 2, 14),
            (TokenKind::Eof, "", 3, 1),
        ]
    );
}

#[test]
fn column_72_truncation() {
    let mut src = String::from("       "); // 7 cols: sequence + indicator (blank)
    for _ in 8..=80 {
        src.push('X');
    }
    src.push('\n');

    let (tokens, errors) = lex(&src);
    assert!(errors.is_empty(), "unexpected errors: {errors:?}");

    let ident: Vec<&Token<'_>> =
        tokens.iter().filter(|t| t.kind == TokenKind::Identifier).collect();
    assert_eq!(ident.len(), 1, "expected a single identifier token");
    assert_eq!(
        ident[0].text.len(),
        65,
        "cols 8..=72 is 65 characters; truncation must drop the rest"
    );
    assert!(ident[0].text.chars().all(|c| c == 'X'));
    let max_end_col = 72 + 1;
    for tok in &tokens {
        assert!(
            tok.span.column + tok.text.len() as u32 <= max_end_col || tok.kind == TokenKind::Eof,
            "token {tok:?} extends past column 72"
        );
    }
}

#[test]
fn numeric_and_string_literals() {
    let src = "       05 A VALUE \"foo\".\n       05 B VALUE 42.\n       05 C VALUE 'X'.\n";
    let (tokens, errors) = lex(src);
    assert!(errors.is_empty());
    let got: Vec<(TokenKind, &str)> = tokens.iter().map(|t| (t.kind, t.text)).collect();
    let value = TokenKind::Keyword(KeywordKind::Value);
    assert_eq!(
        got,
        vec![
            (TokenKind::LevelNumber(5), "05"),
            (TokenKind::Identifier, "A"),
            (value, "VALUE"),
            (TokenKind::StringLiteral, "\"foo\""),
            (TokenKind::Period, "."),
            (TokenKind::LevelNumber(5), "05"),
            (TokenKind::Identifier, "B"),
            (value, "VALUE"),
            (TokenKind::NumericLiteral, "42"),
            (TokenKind::Period, "."),
            (TokenKind::LevelNumber(5), "05"),
            (TokenKind::Identifier, "C"),
            (value, "VALUE"),
            (TokenKind::StringLiteral, "'X'"),
            (TokenKind::Period, "."),
            (TokenKind::Eof, ""),
        ]
    );
}

#[test]
fn lexer_fixed_format_eof_tracks_physical_line_count() {
    // Source has three physical lines, all comments, zero logical lines.
    let src = "      * only comment\n      * another comment\n      * and one more\n";
    let (tokens, _) = lex(src);
    let eof = tokens.last().expect("eof token");
    assert_eq!(eof.kind, TokenKind::Eof);
    assert_eq!(eof.span.line, 4, "three physical lines plus trailing slot");
}

#[test]
fn error_recovery() {
    // '~' is not a valid character; the lexer must record the error and keep
    // emitting tokens from surrounding lines.
    let src = "       01 FOO.\n       05 ~ BAR.\n       05 BAZ.\n";
    let (tokens, errors) = lex(src);
    assert_eq!(errors.len(), 1, "{errors:?}");
    assert!(matches!(errors[0], LexerError::InvalidCharacter { ch: '~', .. }));
    let idents: Vec<&str> =
        tokens.iter().filter(|t| t.kind == TokenKind::Identifier).map(|t| t.text).collect();
    assert_eq!(idents, vec!["FOO", "BAR", "BAZ"]);
}

#[test]
fn eof_of_empty_and_unterminated_sources() {
    let (tokens, errors) = lex("");
    assert!(errors.is_empty());
    assert_eq!(tokens.len(), 1);
    assert_eq!((tokens[0].kind, tokens[0].span.start, tokens[0].span.line), (TokenKind::Eof, 0, 1));
    let (tokens, _) = lex("       01 A.\n       02 B.");
    let eof = tokens.last().unwrap();
    assert_eq!((eof.span.start, eof.span.end, eof.span.line, eof.span.column), (25, 25, 3, 1));
}

#[test]
fn preprocess_errors_come_before_scan_errors() {
    let src = "       01 ~.\n      ?01 X.\n";
    let (_, errors) = lex(src);
    assert_eq!(errors.len(), 2);
    assert!(matches!(errors[0], LexerError::InvalidCharacter { ch: '?', .. }));
    assert!(matches!(errors[1], LexerError::InvalidCharacter { ch: '~', .. }));
}

#[test]
fn level_number_is_the_first_token_of_each_line() {
    assert_eq!(
        kinds("       10 A 20.\n       99.\n"),
        vec![
            TokenKind::LevelNumber(10),
            TokenKind::Identifier,
            TokenKind::NumericLiteral,
            TokenKind::Period,
            TokenKind::LevelNumber(99),
            TokenKind::Period,
            TokenKind::Eof,
        ]
    );
}
