use copyforge_core::lexer::token::{match_keyword, KeywordKind, Token, TokenKind};
use copyforge_core::span::Span;

#[test]
fn keyword_lookup_is_case_insensitive() {
    assert_eq!(match_keyword("PIC"), Some(KeywordKind::Pic));
    assert_eq!(match_keyword("pic"), Some(KeywordKind::Pic));
    assert_eq!(match_keyword("PiCtUrE"), Some(KeywordKind::Picture));
    assert_eq!(match_keyword("COMP-3"), Some(KeywordKind::Comp3));
    assert_eq!(match_keyword("packed-decimal"), Some(KeywordKind::PackedDecimal));
}

#[test]
fn non_keyword_returns_none() {
    assert_eq!(match_keyword("CUSTOMER"), None);
    assert_eq!(match_keyword("AMOUNT-FIELD"), None);
    assert_eq!(match_keyword(""), None);
}

#[test]
fn overlong_input_returns_none() {
    assert_eq!(match_keyword("packed-decimal-extended"), None);
}

#[test]
fn every_keyword_spelling_is_recognised() {
    let table = [
        ("pic", KeywordKind::Pic),
        ("picture", KeywordKind::Picture),
        ("occurs", KeywordKind::Occurs),
        ("redefines", KeywordKind::Redefines),
        ("usage", KeywordKind::Usage),
        ("comp", KeywordKind::Comp),
        ("comp-3", KeywordKind::Comp3),
        ("comp-4", KeywordKind::Comp4),
        ("comp-5", KeywordKind::Comp5),
        ("binary", KeywordKind::Binary),
        ("display", KeywordKind::Display),
        ("packed-decimal", KeywordKind::PackedDecimal),
        ("value", KeywordKind::Value),
        ("times", KeywordKind::Times),
        ("filler", KeywordKind::Filler),
        ("to", KeywordKind::To),
        ("is", KeywordKind::Is),
        ("are", KeywordKind::Are),
    ];
    for (word, kind) in table {
        assert_eq!(match_keyword(word), Some(kind));
        assert_eq!(match_keyword(&word.to_ascii_uppercase()), Some(kind));
    }
}

#[test]
fn keyword_lookup_ignores_only_ascii_case() {
    assert_eq!(match_keyword("PIC "), None);
    assert_eq!(match_keyword("comp3"), None);
    assert_eq!(match_keyword("pİc"), None);
}

#[test]
fn token_new_keeps_its_parts() {
    let span = Span::new(3, 6, 2, 9);
    let t = Token::new(TokenKind::Identifier, span, "FOO");
    assert_eq!(t.kind, TokenKind::Identifier);
    assert_eq!(t.span, span);
    assert_eq!(t.text, "FOO");
}

#[test]
fn keyword_table_matches_each_spelling_in_any_ascii_case() {
    let table = [
        ("pic", KeywordKind::Pic),
        ("picture", KeywordKind::Picture),
        ("occurs", KeywordKind::Occurs),
        ("redefines", KeywordKind::Redefines),
        ("usage", KeywordKind::Usage),
        ("comp", KeywordKind::Comp),
        ("comp-3", KeywordKind::Comp3),
        ("comp-4", KeywordKind::Comp4),
        ("comp-5", KeywordKind::Comp5),
        ("binary", KeywordKind::Binary),
        ("display", KeywordKind::Display),
        ("packed-decimal", KeywordKind::PackedDecimal),
        ("value", KeywordKind::Value),
        ("times", KeywordKind::Times),
        ("filler", KeywordKind::Filler),
        ("to", KeywordKind::To),
        ("is", KeywordKind::Is),
        ("are", KeywordKind::Are),
    ];
    for (word, kind) in table {
        assert_eq!(match_keyword(word), Some(kind));
        assert_eq!(match_keyword(&word.to_ascii_uppercase()), Some(kind));
        let mixed: String = word
            .chars()
            .enumerate()
            .map(|(i, c)| if i % 2 == 0 { c.to_ascii_uppercase() } else { c })
            .collect();
        assert_eq!(match_keyword(&mixed), Some(kind));
        assert_eq!(match_keyword(&format!("{word}x")), None);
    }
    assert_eq!(match_keyword("comp-6"), None);
    assert_eq!(match_keyword("pİc"), None);
}
