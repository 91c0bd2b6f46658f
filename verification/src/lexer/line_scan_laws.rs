//! Properties of the scan of one logical line: the order of its tokens and
//! what each token's kind says of the bytes it covers.
use crate::lexer::fixed_format::{line_in_source, LogicalLine};
use crate::lexer::properties::{lemma_scan_spans, lemma_step_spans, place_fits, span_in_line};
use crate::lexer::scanner::{
    blanks_end, is_alpha, is_blank, is_digit, is_two_digit_number, lemma_blanks_end_bounds,
    lemma_picture_end_bounds, lemma_quote_stop_bounds, lemma_raw_token_end, lemma_step_advances,
    line_place, picture_end, raw_token, scan_from, scan_line_spec, scan_step, span_at, word_kind,
    LinePlace, RawToken,
};
use crate::lexer::token::{keyword_of, TokenKind};
use crate::span::Span;
use vstd::prelude::*;
use vstd::utf8::encode_utf8;

verus! {

/// The value of two ASCII digits.
pub open spec fn two_digit_value(w: Seq<u8>) -> int {
    (w[0] - 0x30) * 10 + (w[1] - 0x30)
}

/// What a token's kind says of the bytes `w` it covers. An identifier
/// starts with a letter and spells no keyword; a keyword spells itself,
/// ignoring case; a level number is two ASCII digits and carries their
/// value; a numeric literal starts with a digit; a string literal is
/// enclosed in a pair of the same quote; a PICTURE string is not empty;
/// each punctuation token is its one character. No scanned token is `Eof`.
pub open spec fn kind_fits_text(k: TokenKind, w: Seq<u8>) -> bool {
    match k {
        TokenKind::Identifier => w.len() > 0 && is_alpha(w[0]) && keyword_of(w) is None,
        TokenKind::Keyword(kw) => keyword_of(w) == Some(kw),
        TokenKind::LevelNumber(v) => is_two_digit_number(w) && v == two_digit_value(w),
        TokenKind::NumericLiteral => w.len() > 0 && is_digit(w[0]),
        TokenKind::StringLiteral => w.len() >= 2 && (w[0] == 0x22 || w[0] == 0x27) && w.last()
            == w[0],
        TokenKind::PictureString => w.len() > 0,
        TokenKind::Period => w == seq![0x2eu8],
        TokenKind::LParen => w == seq![0x28u8],
        TokenKind::RParen => w == seq![0x29u8],
        TokenKind::Comma => w == seq![0x2cu8],
        TokenKind::Eof => false,
    }
}

/// The bytes of the line `t` placed at `p` that the span `sp` covers.
pub open spec fn covered_bytes(t: Seq<u8>, p: LinePlace, sp: Span) -> Seq<u8> {
    t.subrange(sp.start - p.base, sp.end - p.base)
}

/// Each of `toks` fits the bytes of `t` it covers, and each ends before
/// the next one starts.
pub open spec fn classified_in_order(
    t: Seq<u8>,
    p: LinePlace,
    toks: Seq<(TokenKind, Span)>,
) -> bool {
    &&& forall|k: int|
        0 <= k < toks.len() ==> kind_fits_text(
            (#[trigger] toks[k]).0,
            covered_bytes(t, p, toks[k].1),
        )
    &&& forall|k: int|
        0 <= k && k + 1 < toks.len() ==> (#[trigger] toks[k]).1.end <= toks[k + 1].1.start
}

proof fn lemma_step_classified(t: Seq<u8>, i: int, at_start: bool, p: LinePlace)
    requires
        place_fits(t, p),
        0 <= i < t.len(),
    ensures
        classified_in_order(t, p, scan_step(t, i, at_start, p).tokens),
{
    reveal(scan_step);
    lemma_raw_token_end(t, i);
    let (raw, e) = raw_token(t, i);
    let w = t.subrange(i, e);
    let st = scan_step(t, i, at_start, p);
    assert(covered_bytes(t, p, span_at(p, i, e)) =~= w);
    if raw == RawToken::Identifier {
        lemma_blanks_end_bounds(t, e);
        let s = blanks_end(t, e);
        lemma_picture_end_bounds(t, s);
        let pe = picture_end(t, s);
        assert(covered_bytes(t, p, span_at(p, s, pe)) =~= t.subrange(s, pe));
        assert(w[0] == t[i]);
        assert(word_kind(w) == TokenKind::Identifier ==> keyword_of(w) is None);
    } else if raw == RawToken::Number {
        assert(w[0] == t[i]);
    } else if raw == RawToken::DoubleString || raw == RawToken::SingleString {
        lemma_quote_stop_bounds(t, i + 1, t[i]);
        assert(w[0] == t[i]);
        assert(w.last() == t[e - 1]);
    } else if raw == RawToken::Period || raw == RawToken::LParen || raw == RawToken::RParen || raw
        == RawToken::Comma {
        assert(w =~= seq![t[i]]);
    }
}

proof fn lemma_skip_blanks(t: Seq<u8>, i: int, at_start: bool, p: LinePlace)
    requires
        0 <= i <= t.len(),
    ensures
        scan_from(t, i, at_start, p) == scan_from(t, blanks_end(t, i), at_start, p),
    decreases t.len() - i,
{
    if i < t.len() && is_blank(t[i]) {
        lemma_skip_blanks(t, i + 1, at_start, p);
    }
}

/// The scan of a line from offset `i` on yields tokens that fit the bytes
/// they cover, each ending before the next starts.
proof fn lemma_scan_classified(t: Seq<u8>, i: int, at_start: bool, p: LinePlace)
    requires
        place_fits(t, p),
        0 <= i,
    ensures
        classified_in_order(t, p, scan_from(t, i, at_start, p).0),
    decreases t.len() - i,
{
    if i < t.len() {
        let all = scan_from(t, i, at_start, p);
        if is_blank(t[i]) {
            lemma_scan_classified(t, i + 1, at_start, p);
            assert(all == scan_from(t, i + 1, at_start, p));
        } else {
            let st = scan_step(t, i, at_start, p);
            lemma_step_advances(t, i, at_start, p);
            lemma_step_classified(t, i, at_start, p);
            lemma_step_spans(t, i, at_start, p);
            lemma_scan_classified(t, st.next, false, p);
            lemma_scan_spans(t, st.next, false, p);
            let rest = scan_from(t, st.next, false, p).0;
            let n = st.tokens.len();
            assert(all.0 == st.tokens + rest);
            assert forall|k: int| 0 <= k < all.0.len() implies kind_fits_text(
                (#[trigger] all.0[k]).0,
                covered_bytes(t, p, all.0[k].1),
            ) by {
                if k < n {
                    assert(all.0[k] == st.tokens[k]);
                } else {
                    assert(all.0[k] == rest[k - n]);
                }
            }
            assert forall|k: int| 0 <= k && k + 1 < all.0.len() implies (#[trigger] all.0[k]).1.end
                <= all.0[k + 1].1.start by {
                if k + 1 < n {
                    assert(all.0[k] == st.tokens[k]);
                    assert(all.0[k + 1] == st.tokens[k + 1]);
                } else if k + 1 == n {
                    assert(all.0[k] == st.tokens[k]);
                    assert(all.0[k + 1] == rest[0]);
                    assert(span_in_line(st.tokens[k].1, p, i, st.next));
                    assert(span_in_line(rest[0].1, p, st.next, t.len() as int));
                } else {
                    assert(all.0[k] == rest[k - n]);
                    assert(all.0[k + 1] == rest[k + 1 - n]);
                }
            }
        }
    }
}

/// The first raw token of the line `t`, after its leading blanks and tabs,
/// is a two-digit number.
pub open spec fn opens_with_two_digits(t: Seq<u8>) -> bool {
    let i = blanks_end(t, 0);
    &&& i < t.len()
    &&& raw_token(t, i).0 == RawToken::Number
    &&& is_two_digit_number(t.subrange(i, raw_token(t, i).1))
}

/// What `scan_line` appends for a logical line of the source comes in
/// source order: each token ends before the next one starts. Each lies
/// inside the line's text, on the line's line, at the column of its first
/// byte, and its kind fits the source bytes it covers: an identifier spells
/// no keyword, a keyword spells itself, a level number is two digits and
/// carries their value, a string literal is quoted, punctuation is its one
/// character, and nothing is `Eof`. When the line's first item is a
/// two-digit number, the first token is a level number.
pub proof fn scanned_tokens_are_ordered_and_classified(line: LogicalLine, b: Seq<u8>)
    requires
        line_in_source(line, b),
        b.len() <= usize::MAX,
    ensures
        ({
            let t = encode_utf8(line.text@);
            let p = line_place(line);
            let toks = scan_line_spec(line).0;
            &&& forall|k: int|
                0 <= k < toks.len() ==> {
                    &&& span_in_line((#[trigger] toks[k]).1, p, 0, t.len() as int)
                    &&& kind_fits_text(
                        toks[k].0,
                        b.subrange(toks[k].1.start as int, toks[k].1.end as int),
                    )
                }
            &&& forall|k: int|
                0 <= k && k + 1 < toks.len() ==> (#[trigger] toks[k]).1.end <= toks[k + 1].1.start
            &&& opens_with_two_digits(t) ==> toks.len() > 0 && toks[0].0 == TokenKind::LevelNumber(
                two_digit_value(
                    t.subrange(blanks_end(t, 0), raw_token(t, blanks_end(t, 0)).1),
                ) as u8,
            )
        }),
{
    let t = encode_utf8(line.text@);
    let p = line_place(line);
    let base = p.base;
    let toks = scan_line_spec(line).0;
    assert(t.len() == line.segments@[0].len);
    assert(place_fits(t, p));
    lemma_scan_classified(t, 0, true, p);
    lemma_scan_spans(t, 0, true, p);
    assert forall|k: int| 0 <= k < toks.len() implies {
        &&& span_in_line((#[trigger] toks[k]).1, p, 0, t.len() as int)
        &&& kind_fits_text(toks[k].0, b.subrange(toks[k].1.start as int, toks[k].1.end as int))
    } by {
        let sp = toks[k].1;
        assert(span_in_line(sp, p, 0, t.len() as int));
        assert(covered_bytes(t, p, sp) =~= b.subrange(sp.start as int, sp.end as int));
    }
    if opens_with_two_digits(t) {
        let i = blanks_end(t, 0);
        lemma_blanks_end_bounds(t, 0);
        lemma_skip_blanks(t, 0, true, p);
        reveal(scan_step);
        lemma_step_advances(t, i, true, p);
        let st = scan_step(t, i, true, p);
        assert(scan_from(t, i, true, p).0 == st.tokens + scan_from(t, st.next, false, p).0);
        assert(toks[0] == st.tokens[0]);
    }
}

} // verus!
