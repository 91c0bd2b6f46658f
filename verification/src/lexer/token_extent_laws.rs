//! How far each number, string literal and PICTURE string of a line scan
//! reaches, stated over the line's bytes: each takes the longest run its
//! pattern allows, and no more.
use crate::lexer::fixed_format::{line_in_source, LogicalLine};
use crate::lexer::properties::place_fits;
use crate::lexer::scanner::{
    blanks_end, char_end, digits_end, ident_end, is_alpha, is_blank, is_digit, is_word, lemma_blanks_end_bounds, lemma_picture_end_bounds,
    lemma_quote_stop_bounds, lemma_raw_token_end, lemma_step_advances, line_place, quote_stop,
    raw_token, scan_from, scan_line_spec, scan_step, LinePlace, RawToken,
};
use crate::error::LexerError;
use crate::lexer::token::TokenKind;
use crate::span::Span;
use vstd::prelude::*;
use vstd::utf8::{encode_utf8, is_continuation_byte};

verus! {

/// `[s, e)` of `t` is a whole number: digits, with at most one period that
/// has a digit on each side; the byte after it is not a digit; and when it
/// has no period, it is not followed by a period and a digit.
pub open spec fn number_extent(t: Seq<u8>, s: int, e: int) -> bool {
    &&& 0 <= s < e <= t.len()
    &&& is_digit(t[s])
    &&& forall|j: int|
        s <= j < e ==> is_digit(#[trigger] t[j]) || (t[j] == 0x2e && s < j && j + 1 < e
            && is_digit(t[j - 1]) && is_digit(t[j + 1]))
    &&& forall|j1: int, j2: int|
        s <= j1 < j2 < e && #[trigger] t[j1] == 0x2e ==> #[trigger] t[j2] != 0x2e
    &&& e == t.len() || !is_digit(t[e])
    &&& (forall|j: int| s <= j < e ==> #[trigger] t[j] != 0x2e) ==> !(e + 1 < t.len() && t[e]
        == 0x2e && is_digit(t[e + 1]))
}

/// `[s, e)` of `t` is a whole word: a letter, then letters, digits,
/// underscores, and hyphens each followed by one of those; the word is not
/// continued by such a byte, nor by a hyphen and such a byte.
pub open spec fn word_extent(t: Seq<u8>, s: int, e: int) -> bool {
    &&& 0 <= s < e <= t.len()
    &&& is_alpha(t[s])
    &&& forall|j: int|
        s <= j < e ==> is_word(#[trigger] t[j]) || (t[j] == 0x2d && j + 1 < e && is_word(t[j + 1]))
    &&& e == t.len() || (!is_word(t[e]) && !(t[e] == 0x2d && e + 1 < t.len() && is_word(
        t[e + 1],
    )))
}

/// `[s, e)` of `t` is a closed string literal: a quote, then bytes that are
/// neither that quote nor a newline, then the same quote.
pub open spec fn string_extent(t: Seq<u8>, s: int, e: int) -> bool {
    &&& 0 <= s && s + 2 <= e <= t.len()
    &&& t[s] == 0x22 || t[s] == 0x27
    &&& t[e - 1] == t[s]
    &&& forall|j: int| s < j < e - 1 ==> #[trigger] t[j] != t[s] && t[j] != 0x0a
}

/// `[s, e)` of `t` is the PICTURE string after a keyword ending at `ke`:
/// only blanks and tabs lie between them, and it is the whole run of bytes
/// that are neither blank, tab nor period, up to the next such byte or the
/// end of the line.
pub open spec fn picture_extent(t: Seq<u8>, ke: int, s: int, e: int) -> bool {
    &&& 0 <= ke <= s < e <= t.len()
    &&& forall|j: int| ke <= j < s ==> is_blank(#[trigger] t[j])
    &&& forall|j: int| s <= j < e ==> !is_blank(#[trigger] t[j]) && t[j] != 0x2e
    &&& e == t.len() || is_blank(t[e]) || t[e] == 0x2e
}

/// The local start of the span `sp` of the line placed at `p`.
pub open spec fn local_start(p: LinePlace, sp: Span) -> int {
    sp.start - p.base
}

/// The local end of the span `sp` of the line placed at `p`.
pub open spec fn local_end(p: LinePlace, sp: Span) -> int {
    sp.end - p.base
}

/// Every number, string literal and PICTURE string of `toks` has the
/// extent its pattern gives it in `t`.
pub open spec fn extents_ok(t: Seq<u8>, p: LinePlace, toks: Seq<(TokenKind, Span)>) -> bool {
    forall|k: int|
        0 <= k < toks.len() ==> {
            let s = local_start(p, (#[trigger] toks[k]).1);
            let e = local_end(p, toks[k].1);
            match toks[k].0 {
                TokenKind::Identifier => word_extent(t, s, e),
                TokenKind::Keyword(_) => word_extent(t, s, e),
                TokenKind::LevelNumber(_) => number_extent(t, s, e),
                TokenKind::NumericLiteral => number_extent(t, s, e),
                TokenKind::StringLiteral => string_extent(t, s, e),
                TokenKind::PictureString => k > 0 && picture_extent(
                    t,
                    local_end(p, toks[k - 1].1),
                    s,
                    e,
                ),
                _ => true,
            }
        }
}

proof fn lemma_digits_end_exact(t: Seq<u8>, j: int)
    requires
        0 <= j <= t.len(),
    ensures
        j <= digits_end(t, j) <= t.len(),
        forall|k: int| j <= k < digits_end(t, j) ==> is_digit(#[trigger] t[k]),
        digits_end(t, j) < t.len() ==> !is_digit(t[digits_end(t, j)]),
    decreases t.len() - j,
{
    if j < t.len() && is_digit(t[j]) {
        lemma_digits_end_exact(t, j + 1);
    }
}

proof fn lemma_ident_end_exact(t: Seq<u8>, j: int)
    requires
        0 <= j <= t.len(),
    ensures
        j <= ident_end(t, j) <= t.len(),
        forall|k: int|
            j <= k < ident_end(t, j) ==> is_word(#[trigger] t[k]) || (t[k] == 0x2d && k + 1
                < ident_end(t, j) && is_word(t[k + 1])),
        ident_end(t, j) == t.len() || (!is_word(t[ident_end(t, j)]) && !(t[ident_end(t, j)]
            == 0x2d && ident_end(t, j) + 1 < t.len() && is_word(t[ident_end(t, j) + 1]))),
    decreases t.len() - j,
{
    if j < t.len() && is_word(t[j]) {
        lemma_ident_end_exact(t, j + 1);
    } else if j + 1 < t.len() && t[j] == 0x2d && is_word(t[j + 1]) {
        lemma_ident_end_exact(t, j + 2);
        assert(is_word(t[j + 1]));
    }
}

proof fn lemma_quote_stop_inside(t: Seq<u8>, j: int, q: u8)
    requires
        0 <= j <= t.len(),
    ensures
        forall|k: int| j <= k < quote_stop(t, j, q) ==> #[trigger] t[k] != q && t[k] != 0x0a,
    decreases t.len() - j,
{
    if j < t.len() && t[j] != q && t[j] != 0x0a {
        lemma_quote_stop_inside(t, j + 1, q);
    }
}

proof fn lemma_number_extent(t: Seq<u8>, i: int)
    requires
        0 <= i < t.len(),
        is_digit(t[i]),
    ensures
        number_extent(t, i, raw_token(t, i).1),
{
    let d = digits_end(t, i);
    lemma_digits_end_exact(t, i);
    let e = raw_token(t, i).1;
    if d < t.len() && d + 1 < t.len() && t[d] == 0x2e && is_digit(t[d + 1]) {
        lemma_digits_end_exact(t, d + 1);
        assert(e == digits_end(t, d + 1));
        assert forall|j: int| i <= j < e implies is_digit(#[trigger] t[j]) || (t[j] == 0x2e && i
            < j && j + 1 < e && is_digit(t[j - 1]) && is_digit(t[j + 1])) by {
            if j < d {
            } else if j == d {
                assert(d > i);
                assert(is_digit(t[d - 1]));
            } else {
            }
        }
        assert forall|j1: int, j2: int|
            i <= j1 < j2 < e && #[trigger] t[j1] == 0x2e implies #[trigger] t[j2] != 0x2e by {
            if j1 < d {
                assert(is_digit(t[j1]));
            } else if j1 > d {
                assert(is_digit(t[j1]));
            } else {
                assert(is_digit(t[j2]));
            }
        }
        assert(t[d] == 0x2e);
    } else {
        assert(e == d);
        assert forall|j1: int, j2: int|
            i <= j1 < j2 < e && #[trigger] t[j1] == 0x2e implies #[trigger] t[j2] != 0x2e by {
            assert(is_digit(t[j1]));
        }
    }
}

proof fn lemma_step_extents(t: Seq<u8>, i: int, at_start: bool, p: LinePlace)
    requires
        place_fits(t, p),
        0 <= i < t.len(),
    ensures
        extents_ok(t, p, scan_step(t, i, at_start, p).tokens),
{
    reveal(scan_step);
    lemma_raw_token_end(t, i);
    let (raw, e) = raw_token(t, i);
    let st = scan_step(t, i, at_start, p);
    let c = t[i];
    if raw == RawToken::Number {
        lemma_number_extent(t, i);
    } else if raw == RawToken::DoubleString || raw == RawToken::SingleString {
        lemma_quote_stop_bounds(t, i + 1, c);
        lemma_quote_stop_inside(t, i + 1, c);
    } else if raw == RawToken::Identifier {
        lemma_ident_end_exact(t, i + 1);
        lemma_blanks_end_bounds(t, e);
        let s = blanks_end(t, e);
        lemma_picture_end_bounds(t, s);
    }
    assert forall|k: int| 0 <= k < st.tokens.len() implies {
        let s = local_start(p, (#[trigger] st.tokens[k]).1);
        let e2 = local_end(p, st.tokens[k].1);
        match st.tokens[k].0 {
            TokenKind::Identifier => word_extent(t, s, e2),
            TokenKind::Keyword(_) => word_extent(t, s, e2),
            TokenKind::LevelNumber(_) => number_extent(t, s, e2),
            TokenKind::NumericLiteral => number_extent(t, s, e2),
            TokenKind::StringLiteral => string_extent(t, s, e2),
            TokenKind::PictureString => k > 0 && picture_extent(
                t,
                local_end(p, st.tokens[k - 1].1),
                s,
                e2,
            ),
            _ => true,
        }
    } by {
        if raw == RawToken::Identifier && k == 1 {
            assert(local_end(p, st.tokens[0].1) == e);
        }
    }
}

proof fn lemma_scan_extents(t: Seq<u8>, i: int, at_start: bool, p: LinePlace)
    requires
        place_fits(t, p),
        0 <= i,
    ensures
        extents_ok(t, p, scan_from(t, i, at_start, p).0),
    decreases t.len() - i,
{
    if i < t.len() {
        let all = scan_from(t, i, at_start, p);
        if is_blank(t[i]) {
            lemma_scan_extents(t, i + 1, at_start, p);
            assert(all == scan_from(t, i + 1, at_start, p));
        } else {
            let st = scan_step(t, i, at_start, p);
            lemma_step_advances(t, i, at_start, p);
            lemma_step_extents(t, i, at_start, p);
            lemma_scan_extents(t, st.next, false, p);
            let rest = scan_from(t, st.next, false, p).0;
            let n = st.tokens.len();
            assert(all.0 == st.tokens + rest);
            assert forall|k: int| 0 <= k < all.0.len() implies {
                let s = local_start(p, (#[trigger] all.0[k]).1);
                let e = local_end(p, all.0[k].1);
                match all.0[k].0 {
                    TokenKind::Identifier => word_extent(t, s, e),
                    TokenKind::Keyword(_) => word_extent(t, s, e),
                    TokenKind::LevelNumber(_) => number_extent(t, s, e),
                    TokenKind::NumericLiteral => number_extent(t, s, e),
                    TokenKind::StringLiteral => string_extent(t, s, e),
                    TokenKind::PictureString => k > 0 && picture_extent(
                        t,
                        local_end(p, all.0[k - 1].1),
                        s,
                        e,
                    ),
                    _ => true,
                }
            } by {
                if k < n {
                    assert(all.0[k] == st.tokens[k]);
                    if k > 0 {
                        assert(all.0[k - 1] == st.tokens[k - 1]);
                    }
                } else {
                    assert(all.0[k] == rest[k - n]);
                    if k - n > 0 {
                        assert(all.0[k - 1] == rest[k - n - 1]);
                    }
                }
            }
        }
    }
}

/// Numbers, string literals and PICTURE strings take exactly the bytes
/// their patterns match, and no more or less. In the scan of a logical line
/// of the source:
/// - an identifier or keyword is the whole word: letters, digits,
///   underscores and inner hyphens, not continued by such a byte or by a
///   hyphen and such a byte;
/// - a level number or numeric literal is digits with at most one period,
///   which has a digit on each side; the next byte is not a digit, and a
///   number without a period is not followed by a period and a digit (so
///   `12.50` is one literal);
/// - a string literal runs from a quote to the first next byte that is the
///   same quote, with no newline between (so `'Y' 'N'` is two literals, and
///   an apostrophe inside a `"`-literal is just a byte of it);
/// - a PICTURE string follows its `PIC`/`PICTURE` keyword across blanks and
///   tabs only, and is the whole run up to the next blank, tab or period or
///   the end of the line (so `ZZ,ZZ9` is one PICTURE string).
pub proof fn scanned_tokens_take_whole_matches(line: LogicalLine, b: Seq<u8>)
    requires
        line_in_source(line, b),
        b.len() <= usize::MAX,
    ensures
        extents_ok(encode_utf8(line.text@), line_place(line), scan_line_spec(line).0),
{
    let t = encode_utf8(line.text@);
    let p = line_place(line);
    assert(t.len() == line.segments@[0].len);
    assert(place_fits(t, p));
    lemma_scan_extents(t, 0, true, p);
}

/// A byte that starts no token: not a blank or tab, letter, digit, quote,
/// null byte, period, parenthesis or comma.
pub open spec fn starts_nothing(c: u8) -> bool {
    !is_blank(c) && !is_alpha(c) && !is_digit(c) && c != 0x22 && c != 0x27 && c != 0 && c != 0x2e
        && c != 0x28 && c != 0x29 && c != 0x2c
}

/// Each error of `errs` covers what it reports in `t`: an unterminated
/// literal runs from its quote to the end of the line (or a newline) with
/// no second such quote; a null byte is that one byte; an invalid character
/// is exactly one whole character, whose first byte starts no token.
pub open spec fn error_extents_ok(t: Seq<u8>, p: LinePlace, errs: Seq<LexerError>) -> bool {
    forall|k: int|
        0 <= k < errs.len() ==> {
            let s = local_start(p, (#[trigger] errs[k]).spec_span());
            let e = local_end(p, errs[k].spec_span());
            match errs[k] {
                LexerError::UnterminatedStringLiteral { .. } => {
                    &&& 0 <= s < e <= t.len()
                    &&& (t[s] == 0x22 || t[s] == 0x27)
                    &&& forall|j: int| s < j < e ==> #[trigger] t[j] != t[s] && t[j] != 0x0a
                    &&& e == t.len() || t[e] == 0x0a
                },
                LexerError::EncounteredNullByte { .. } => 0 <= s && e == s + 1 && e <= t.len()
                    && t[s] == 0,
                LexerError::InvalidCharacter { .. } => {
                    &&& 0 <= s < e <= t.len()
                    &&& starts_nothing(t[s])
                    &&& forall|j: int| s < j < e ==> is_continuation_byte(#[trigger] t[j])
                    &&& e == t.len() || !is_continuation_byte(t[e])
                },
                _ => false,
            }
        }
}

proof fn lemma_char_end_exact(t: Seq<u8>, j: int)
    requires
        0 <= j <= t.len(),
    ensures
        j <= char_end(t, j) <= t.len(),
        forall|k: int| j <= k < char_end(t, j) ==> is_continuation_byte(#[trigger] t[k]),
        char_end(t, j) == t.len() || !is_continuation_byte(t[char_end(t, j)]),
    decreases t.len() - j,
{
    if j < t.len() && is_continuation_byte(t[j]) {
        lemma_char_end_exact(t, j + 1);
    }
}

proof fn lemma_step_error_extents(t: Seq<u8>, i: int, at_start: bool, p: LinePlace)
    requires
        place_fits(t, p),
        0 <= i < t.len(),
        !is_blank(t[i]),
    ensures
        error_extents_ok(t, p, scan_step(t, i, at_start, p).errors),
{
    reveal(scan_step);
    lemma_raw_token_end(t, i);
    let (raw, e) = raw_token(t, i);
    let c = t[i];
    if raw == RawToken::UnterminatedDouble || raw == RawToken::UnterminatedSingle {
        lemma_quote_stop_bounds(t, i + 1, c);
        lemma_quote_stop_inside(t, i + 1, c);
    } else if raw == RawToken::Invalid {
        lemma_char_end_exact(t, i + 1);
    }
}

proof fn lemma_scan_error_extents(t: Seq<u8>, i: int, at_start: bool, p: LinePlace)
    requires
        place_fits(t, p),
        0 <= i,
    ensures
        error_extents_ok(t, p, scan_from(t, i, at_start, p).1),
    decreases t.len() - i,
{
    if i < t.len() {
        let all = scan_from(t, i, at_start, p);
        if is_blank(t[i]) {
            lemma_scan_error_extents(t, i + 1, at_start, p);
            assert(all == scan_from(t, i + 1, at_start, p));
        } else {
            let st = scan_step(t, i, at_start, p);
            lemma_step_advances(t, i, at_start, p);
            lemma_step_error_extents(t, i, at_start, p);
            lemma_scan_error_extents(t, st.next, false, p);
            let rest = scan_from(t, st.next, false, p).1;
            let n = st.errors.len();
            assert(all.1 == st.errors + rest);
            assert forall|k: int| 0 <= k < all.1.len() implies #[trigger] all.1[k] == (if k < n {
                st.errors[k]
            } else {
                rest[k - n]
            }) by {}
        }
    }
}

/// Each error of a line scan covers exactly what it reports: an
/// unterminated string literal runs from its quote to the end of the line
/// with no second such quote; a null byte error is that byte; an invalid
/// character error is one whole character (its first byte and the
/// continuation bytes after it), whose first byte starts no token.
pub proof fn scan_errors_cover_what_they_report(line: LogicalLine, b: Seq<u8>)
    requires
        line_in_source(line, b),
        b.len() <= usize::MAX,
    ensures
        error_extents_ok(encode_utf8(line.text@), line_place(line), scan_line_spec(line).1),
{
    let t = encode_utf8(line.text@);
    let p = line_place(line);
    assert(t.len() == line.segments@[0].len);
    assert(place_fits(t, p));
    lemma_scan_error_extents(t, 0, true, p);
}

} // verus!
