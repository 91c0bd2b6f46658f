//! Scanner that turns each logical line into cooked tokens.
//!
//! The scanner runs once per logical line and recognises, by longest match,
//! these raw tokens (blanks and tabs between them are skipped):
//!
//! | raw token        | pattern                                         |
//! |------------------|-------------------------------------------------|
//! | identifier       | `[A-Za-z][A-Za-z0-9_]*(-[A-Za-z0-9_]+)*`        |
//! | number           | `[0-9]+(\.[0-9]+)?`                             |
//! | string           | `"[^"\n]*"` or `'[^'\n]*'`                      |
//! | open string      | `"[^"\n]*` or `'[^'\n]*` (no closing quote)     |
//! | punctuation      | `.` `(` `)` `,`                                 |
//! | null byte        | `\0`                                            |
//!
//! Any other character is an invalid character. It tracks two bits of
//! state besides its position:
//!
//! - `at_line_start`: true until the first raw token of the line has been
//!   handled; a two-digit number there becomes a `LevelNumber`.
//! - PICTURE capture: right after the keyword `PIC` or `PICTURE`, the next
//!   run of bytes up to a blank, tab or period (after skipping blanks) is
//!   taken whole as a `PictureString`, so `S9(4)V99` stays one token.
use crate::error::LexerError;
use crate::lexer::fixed_format::{line_in_source, LogicalLine};
use crate::lexer::token::{keyword_of, match_keyword, KeywordKind, Token, TokenKind};
use crate::span::Span;
use crate::text::{
    ascii_then_char_start, first_char, is_char_start, lemma_after_ascii, lemma_clean_start,
    str_range,
};
use vstd::prelude::*;
use vstd::string::*;
use vstd::utf8::*;

verus! {

pub open spec fn is_blank(c: u8) -> bool {
    c == 0x20 || c == 0x09
}

pub open spec fn is_alpha(c: u8) -> bool {
    (0x41 <= c <= 0x5a) || (0x61 <= c <= 0x7a)
}

pub open spec fn is_digit(c: u8) -> bool {
    0x30 <= c <= 0x39
}

pub open spec fn is_word(c: u8) -> bool {
    is_alpha(c) || is_digit(c) || c == 0x5f
}

/// End of an identifier whose bytes before `j` already match: word bytes
/// continue it, and so does a hyphen followed by a word byte.
pub open spec fn ident_end(t: Seq<u8>, j: int) -> int
    decreases t.len() - j,
{
    if 0 <= j < t.len() && is_word(t[j]) {
        ident_end(t, j + 1)
    } else if 0 <= j && j + 1 < t.len() && t[j] == 0x2d && is_word(t[j + 1]) {
        ident_end(t, j + 2)
    } else {
        j
    }
}

/// End of the run of ASCII digits starting at `j`.
pub open spec fn digits_end(t: Seq<u8>, j: int) -> int
    decreases t.len() - j,
{
    if 0 <= j < t.len() && is_digit(t[j]) {
        digits_end(t, j + 1)
    } else {
        j
    }
}

/// End of a number starting at `i`: digits, then optionally a period and
/// more digits.
pub open spec fn number_end(t: Seq<u8>, i: int) -> int {
    let e = digits_end(t, i);
    if e < t.len() && e + 1 < t.len() && t[e] == 0x2e && is_digit(t[e + 1]) {
        digits_end(t, e + 1)
    } else {
        e
    }
}

/// First offset at or after `j` holding the quote `q` or a newline, or the
/// end of `t`.
pub open spec fn quote_stop(t: Seq<u8>, j: int, q: u8) -> int
    decreases t.len() - j,
{
    if 0 <= j < t.len() && t[j] != q && t[j] != 0x0a {
        quote_stop(t, j + 1, q)
    } else {
        j
    }
}

/// First offset at or after `j` that is not a UTF-8 continuation byte.
pub open spec fn char_end(t: Seq<u8>, j: int) -> int
    decreases t.len() - j,
{
    if 0 <= j < t.len() && is_continuation_byte(t[j]) {
        char_end(t, j + 1)
    } else {
        j
    }
}

/// End of the run of blanks and tabs starting at `j`.
pub open spec fn blanks_end(t: Seq<u8>, j: int) -> int
    decreases t.len() - j,
{
    if 0 <= j < t.len() && is_blank(t[j]) {
        blanks_end(t, j + 1)
    } else {
        j
    }
}

/// End of a PICTURE string starting at `j`: it runs up to a blank, tab or
/// period.
pub open spec fn picture_end(t: Seq<u8>, j: int) -> int
    decreases t.len() - j,
{
    if 0 <= j < t.len() && !is_blank(t[j]) && t[j] != 0x2e {
        picture_end(t, j + 1)
    } else {
        j
    }
}

#[derive(Debug, Clone, Copy, PartialEq, Eq, Structural)]
pub enum RawToken {
    Identifier,
    Number,
    DoubleString,
    SingleString,
    UnterminatedDouble,
    UnterminatedSingle,
    NullByte,
    Period,
    LParen,
    RParen,
    Comma,
    /// No raw token starts here: one invalid character.
    Invalid,
}

/// The raw token that starts at `i` (which holds neither a blank nor a
/// tab), and where it ends: the longest match among the patterns.
pub open spec fn raw_token(t: Seq<u8>, i: int) -> (RawToken, int) {
    let c = t[i];
    if is_alpha(c) {
        (RawToken::Identifier, ident_end(t, i + 1))
    } else if is_digit(c) {
        (RawToken::Number, number_end(t, i))
    } else if c == 0x22 {
        let k = quote_stop(t, i + 1, c);
        if k < t.len() && t[k] == c {
            (RawToken::DoubleString, k + 1)
        } else {
            (RawToken::UnterminatedDouble, k)
        }
    } else if c == 0x27 {
        let k = quote_stop(t, i + 1, c);
        if k < t.len() && t[k] == c {
            (RawToken::SingleString, k + 1)
        } else {
            (RawToken::UnterminatedSingle, k)
        }
    } else if c == 0 {
        (RawToken::NullByte, i + 1)
    } else if c == 0x2e {
        (RawToken::Period, i + 1)
    } else if c == 0x28 {
        (RawToken::LParen, i + 1)
    } else if c == 0x29 {
        (RawToken::RParen, i + 1)
    } else if c == 0x2c {
        (RawToken::Comma, i + 1)
    } else {
        (RawToken::Invalid, char_end(t, i + 1))
    }
}

/// A two-byte run of ASCII digits.
pub open spec fn is_two_digit_number(b: Seq<u8>) -> bool {
    b.len() == 2 && is_digit(b[0]) && is_digit(b[1])
}

/// Where a line sits in the source: the source offset of its first byte,
/// its line number and the column of its first byte.
pub struct LinePlace {
    pub base: int,
    pub line: u32,
    pub col: u32,
}

/// The span of the line-local byte range `[s, e)`.
pub open spec fn span_at(p: LinePlace, s: int, e: int) -> Span {
    Span {
        start: (p.base + s) as usize,
        end: (p.base + e) as usize,
        line: p.line,
        column: (s as u32).saturating_add(p.col),
    }
}

/// What handling one raw token adds: tokens, errors, and the offset where
/// scanning resumes.
pub struct StepOut {
    pub tokens: Seq<(TokenKind, Span)>,
    pub errors: Seq<LexerError>,
    pub next: int,
}

/// The token kind of an identifier spelled by `b`.
pub open spec fn word_kind(b: Seq<u8>) -> TokenKind {
    match keyword_of(b) {
        Some(k) => TokenKind::Keyword(k),
        None => TokenKind::Identifier,
    }
}

pub open spec fn is_picture_keyword(k: TokenKind) -> bool {
    k == TokenKind::Keyword(KeywordKind::Pic) || k == TokenKind::Keyword(KeywordKind::Picture)
}

/// Handling the raw token that starts at the non-blank offset `i`.
#[verifier::opaque]
pub open spec fn scan_step(t: Seq<u8>, i: int, at_start: bool, p: LinePlace) -> StepOut {
    let (raw, e) = raw_token(t, i);
    let sp = span_at(p, i, e);
    let text = t.subrange(i, e);
    match raw {
        RawToken::Identifier => {
            let kind = word_kind(text);
            if is_picture_keyword(kind) {
                let s = blanks_end(t, e);
                let pe = picture_end(t, s);
                if pe == s {
                    StepOut { tokens: seq![(kind, sp)], errors: seq![], next: s }
                } else {
                    StepOut {
                        tokens: seq![(kind, sp), (TokenKind::PictureString, span_at(p, s, pe))],
                        errors: seq![],
                        next: pe,
                    }
                }
            } else {
                StepOut { tokens: seq![(kind, sp)], errors: seq![], next: e }
            }
        },
        RawToken::Number => {
            let kind = if at_start && is_two_digit_number(text) {
                TokenKind::LevelNumber(((text[0] - 0x30) * 10 + (text[1] - 0x30)) as u8)
            } else {
                TokenKind::NumericLiteral
            };
            StepOut { tokens: seq![(kind, sp)], errors: seq![], next: e }
        },
        RawToken::DoubleString | RawToken::SingleString => {
            StepOut { tokens: seq![(TokenKind::StringLiteral, sp)], errors: seq![], next: e }
        },
        RawToken::UnterminatedDouble | RawToken::UnterminatedSingle => {
            StepOut {
                tokens: seq![],
                errors: seq![LexerError::UnterminatedStringLiteral { span: sp }],
                next: e,
            }
        },
        RawToken::NullByte => {
            StepOut {
                tokens: seq![],
                errors: seq![LexerError::EncounteredNullByte { span: sp }],
                next: e,
            }
        },
        RawToken::Period => StepOut {
            tokens: seq![(TokenKind::Period, sp)],
            errors: seq![],
            next: e,
        },
        RawToken::LParen => StepOut {
            tokens: seq![(TokenKind::LParen, sp)],
            errors: seq![],
            next: e,
        },
        RawToken::RParen => StepOut {
            tokens: seq![(TokenKind::RParen, sp)],
            errors: seq![],
            next: e,
        },
        RawToken::Comma => StepOut {
            tokens: seq![(TokenKind::Comma, sp)],
            errors: seq![],
            next: e,
        },
        RawToken::Invalid => {
            StepOut {
                tokens: seq![],
                errors: seq![
                    LexerError::InvalidCharacter {
                        ch: decode_first_scalar(text) as char,
                        span: sp,
                    },
                ],
                next: e,
            }
        },
    }
}


/// The kind and span of each token.
pub open spec fn token_models(toks: Seq<Token>) -> Seq<(TokenKind, Span)> {
    toks.map_values(|tk: Token| (tk.kind, tk.span))
}

/// Each token's span lies inside `b`, begins and ends at character starts,
/// and its text is exactly the bytes the span covers.
#[verifier::opaque]
pub open spec fn tokens_agree(b: Seq<u8>, toks: Seq<Token>) -> bool {
    forall|k: int|
        0 <= k < toks.len() ==> {
            &&& (#[trigger] toks[k]).span.start <= toks[k].span.end <= b.len()
            &&& is_char_start(b, toks[k].span.start as int)
            &&& is_char_start(b, toks[k].span.end as int)
            &&& toks[k].text.spec_bytes() == b.subrange(
                toks[k].span.start as int,
                toks[k].span.end as int,
            )
        }
}

pub proof fn lemma_ident_end_bounds(t: Seq<u8>, j: int)
    requires
        0 <= j <= t.len(),
    ensures
        j <= ident_end(t, j) <= t.len(),
        ident_end(t, j) > j ==> ident_end(t, j) - 1 < t.len() && is_word(t[ident_end(t, j) - 1]),
    decreases t.len() - j,
{
    if 0 <= j < t.len() && is_word(t[j]) {
        lemma_ident_end_bounds(t, j + 1);
    } else if 0 <= j && j + 1 < t.len() && t[j] == 0x2d && is_word(t[j + 1]) {
        lemma_ident_end_bounds(t, j + 2);
    }
}

pub proof fn lemma_digits_end_bounds(t: Seq<u8>, j: int)
    requires
        0 <= j <= t.len(),
    ensures
        j <= digits_end(t, j) <= t.len(),
        digits_end(t, j) > j ==> is_digit(t[digits_end(t, j) - 1]),
    decreases t.len() - j,
{
    if 0 <= j < t.len() && is_digit(t[j]) {
        lemma_digits_end_bounds(t, j + 1);
    }
}

pub proof fn lemma_quote_stop_bounds(t: Seq<u8>, j: int, q: u8)
    requires
        0 <= j <= t.len(),
    ensures
        j <= quote_stop(t, j, q) <= t.len(),
        quote_stop(t, j, q) < t.len() ==> (t[quote_stop(t, j, q)] == q || t[quote_stop(
            t,
            j,
            q,
        )] == 0x0a),
    decreases t.len() - j,
{
    if 0 <= j < t.len() && t[j] != q && t[j] != 0x0a {
        lemma_quote_stop_bounds(t, j + 1, q);
    }
}

pub proof fn lemma_char_end_bounds(t: Seq<u8>, j: int)
    requires
        0 <= j <= t.len(),
    ensures
        j <= char_end(t, j) <= t.len(),
        is_char_start(t, char_end(t, j)),
    decreases t.len() - j,
{
    if 0 <= j < t.len() && is_continuation_byte(t[j]) {
        lemma_char_end_bounds(t, j + 1);
    }
}

pub proof fn lemma_blanks_end_bounds(t: Seq<u8>, j: int)
    requires
        0 <= j <= t.len(),
    ensures
        j <= blanks_end(t, j) <= t.len(),
        blanks_end(t, j) > j ==> is_blank(t[blanks_end(t, j) - 1]),
        forall|k: int| j <= k < blanks_end(t, j) ==> is_blank(#[trigger] t[k]),
    decreases t.len() - j,
{
    if 0 <= j < t.len() && is_blank(t[j]) {
        lemma_blanks_end_bounds(t, j + 1);
    }
}

pub proof fn lemma_picture_end_bounds(t: Seq<u8>, j: int)
    requires
        0 <= j <= t.len(),
    ensures
        j <= picture_end(t, j) <= t.len(),
        picture_end(t, j) < t.len() ==> (is_blank(t[picture_end(t, j)]) || t[picture_end(t, j)]
            == 0x2e),
        forall|k: int| j <= k < picture_end(t, j) ==> !is_blank(#[trigger] t[k]) && t[k] != 0x2e,
    decreases t.len() - j,
{
    if 0 <= j < t.len() && !is_blank(t[j]) && t[j] != 0x2e {
        lemma_picture_end_bounds(t, j + 1);
    }
}

/// Where a raw token ends: strictly after its start, inside `t`, and (given
/// that ASCII bytes are followed by character starts) at a character start.
#[verifier::spinoff_prover]
pub proof fn lemma_raw_token_end(t: Seq<u8>, i: int)
    requires
        0 <= i < t.len(),
    ensures
        i < raw_token(t, i).1 <= t.len(),
        ascii_then_char_start(t) ==> is_char_start(t, raw_token(t, i).1),
{
    let c = t[i];
    let e = raw_token(t, i).1;
    if is_alpha(c) {
        lemma_ident_end_bounds(t, i + 1);
        if ascii_then_char_start(t) {
            lemma_after_ascii(t, e - 1);
        }
    } else if is_digit(c) {
        lemma_digits_end_bounds(t, i + 1);
        assert(digits_end(t, i) == digits_end(t, i + 1));
        let d = digits_end(t, i);
        if d < t.len() && d + 1 < t.len() && t[d] == 0x2e && is_digit(t[d + 1]) {
            lemma_digits_end_bounds(t, d + 1);
        }
        if ascii_then_char_start(t) {
            lemma_after_ascii(t, e - 1);
        }
    } else if c == 0x22 || c == 0x27 {
        lemma_quote_stop_bounds(t, i + 1, c);
        let k = quote_stop(t, i + 1, c);
        if ascii_then_char_start(t) && k < t.len() && t[k] == c {
            lemma_after_ascii(t, k);
        }
    } else if c == 0 || c == 0x2e || c == 0x28 || c == 0x29 || c == 0x2c {
        if ascii_then_char_start(t) {
            lemma_after_ascii(t, i);
        }
    } else {
        lemma_char_end_bounds(t, i + 1);
    }
}

/// Handling a raw token moves scanning forward, to a character start.
pub proof fn lemma_step_advances(t: Seq<u8>, i: int, at_start: bool, p: LinePlace)
    requires
        0 <= i < t.len(),
    ensures
        i < scan_step(t, i, at_start, p).next <= t.len(),
        ascii_then_char_start(t) ==> is_char_start(t, scan_step(t, i, at_start, p).next),
{
    reveal(scan_step);
    lemma_raw_token_end(t, i);
    let (raw, e) = raw_token(t, i);
    if raw == RawToken::Identifier {
        lemma_blanks_end_bounds(t, e);
        let s = blanks_end(t, e);
        lemma_picture_end_bounds(t, s);
        if ascii_then_char_start(t) && s > e {
            lemma_after_ascii(t, s - 1);
        }
    }
}

/// The tokens and errors of the line-local bytes `t` from offset `i` on.
pub open spec fn scan_from(t: Seq<u8>, i: int, at_start: bool, p: LinePlace) -> (
    Seq<(TokenKind, Span)>,
    Seq<LexerError>,
)
    decreases t.len() - i,
{
    if i < 0 || i >= t.len() {
        (seq![], seq![])
    } else if is_blank(t[i]) {
        scan_from(t, i + 1, at_start, p)
    } else {
        let st = scan_step(t, i, at_start, p);
        proof {
            lemma_step_advances(t, i, at_start, p);
        }
        let rest = scan_from(t, st.next, false, p);
        (st.tokens + rest.0, st.errors + rest.1)
    }
}


fn is_blank_byte(c: u8) -> (r: bool)
    ensures
        r == is_blank(c),
{
    c == 0x20 || c == 0x09
}

fn is_alpha_byte(c: u8) -> (r: bool)
    ensures
        r == is_alpha(c),
{
    (0x41 <= c && c <= 0x5a) || (0x61 <= c && c <= 0x7a)
}

fn is_digit_byte(c: u8) -> (r: bool)
    ensures
        r == is_digit(c),
{
    0x30 <= c && c <= 0x39
}

fn is_word_byte(c: u8) -> (r: bool)
    ensures
        r == is_word(c),
{
    is_alpha_byte(c) || is_digit_byte(c) || c == 0x5f
}

fn ident_end_exec(t: &[u8], j: usize) -> (r: usize)
    requires
        j <= t@.len(),
    ensures
        r == ident_end(t@, j as int),
{
    let mut k = j;
    loop
        invariant
            j <= k <= t@.len(),
            ident_end(t@, k as int) == ident_end(t@, j as int),
        decreases t@.len() - k,
    {
        if k < t.len() && is_word_byte(t[k]) {
            k = k + 1;
        } else if k < t.len() && k + 1 < t.len() && t[k] == 0x2d && is_word_byte(t[k + 1]) {
            k = k + 2;
        } else {
            return k;
        }
    }
}

fn digits_end_exec(t: &[u8], j: usize) -> (r: usize)
    requires
        j <= t@.len(),
    ensures
        r == digits_end(t@, j as int),
{
    let mut k = j;
    while k < t.len() && is_digit_byte(t[k])
        invariant
            j <= k <= t@.len(),
            digits_end(t@, k as int) == digits_end(t@, j as int),
        decreases t@.len() - k,
    {
        k = k + 1;
    }
    k
}

fn number_end_exec(t: &[u8], i: usize) -> (r: usize)
    requires
        i <= t@.len(),
    ensures
        r == number_end(t@, i as int),
{
    let e = digits_end_exec(t, i);
    proof {
        lemma_digits_end_bounds(t@, i as int);
    }
    if e < t.len() && e + 1 < t.len() && t[e] == 0x2e && is_digit_byte(t[e + 1]) {
        digits_end_exec(t, e + 1)
    } else {
        e
    }
}

fn quote_stop_exec(t: &[u8], j: usize, q: u8) -> (r: usize)
    requires
        j <= t@.len(),
    ensures
        r == quote_stop(t@, j as int, q),
{
    let mut k = j;
    while k < t.len() && t[k] != q && t[k] != 0x0a
        invariant
            j <= k <= t@.len(),
            quote_stop(t@, k as int, q) == quote_stop(t@, j as int, q),
        decreases t@.len() - k,
    {
        k = k + 1;
    }
    k
}

fn char_end_exec(t: &[u8], j: usize) -> (r: usize)
    requires
        j <= t@.len(),
    ensures
        r == char_end(t@, j as int),
{
    let mut k = j;
    while k < t.len() && 0x80 <= t[k] && t[k] <= 0xbf
        invariant
            j <= k <= t@.len(),
            char_end(t@, k as int) == char_end(t@, j as int),
        decreases t@.len() - k,
    {
        k = k + 1;
    }
    k
}

fn blanks_end_exec(t: &[u8], j: usize) -> (r: usize)
    requires
        j <= t@.len(),
    ensures
        r == blanks_end(t@, j as int),
{
    let mut k = j;
    while k < t.len() && is_blank_byte(t[k])
        invariant
            j <= k <= t@.len(),
            blanks_end(t@, k as int) == blanks_end(t@, j as int),
        decreases t@.len() - k,
    {
        k = k + 1;
    }
    k
}

fn picture_end_exec(t: &[u8], j: usize) -> (r: usize)
    requires
        j <= t@.len(),
    ensures
        r == picture_end(t@, j as int),
{
    let mut k = j;
    while k < t.len() && !is_blank_byte(t[k]) && t[k] != 0x2e
        invariant
            j <= k <= t@.len(),
            picture_end(t@, k as int) == picture_end(t@, j as int),
        decreases t@.len() - k,
    {
        k = k + 1;
    }
    k
}

fn raw_token_exec(t: &[u8], i: usize) -> (r: (RawToken, usize))
    requires
        i < t@.len(),
    ensures
        r.0 == raw_token(t@, i as int).0,
        r.1 == raw_token(t@, i as int).1,
{
    let c = t[i];
    if is_alpha_byte(c) {
        (RawToken::Identifier, ident_end_exec(t, i + 1))
    } else if is_digit_byte(c) {
        (RawToken::Number, number_end_exec(t, i))
    } else if c == 0x22 {
        let k = quote_stop_exec(t, i + 1, c);
        if k < t.len() && t[k] == c {
            (RawToken::DoubleString, k + 1)
        } else {
            (RawToken::UnterminatedDouble, k)
        }
    } else if c == 0x27 {
        let k = quote_stop_exec(t, i + 1, c);
        if k < t.len() && t[k] == c {
            (RawToken::SingleString, k + 1)
        } else {
            (RawToken::UnterminatedSingle, k)
        }
    } else if c == 0 {
        (RawToken::NullByte, i + 1)
    } else if c == 0x2e {
        (RawToken::Period, i + 1)
    } else if c == 0x28 {
        (RawToken::LParen, i + 1)
    } else if c == 0x29 {
        (RawToken::RParen, i + 1)
    } else if c == 0x2c {
        (RawToken::Comma, i + 1)
    } else {
        (RawToken::Invalid, char_end_exec(t, i + 1))
    }
}

/// What a line scan may rely on: the line's bytes `t` are the bytes of
/// `source` from `base` on, begin and end at character starts, and have
/// ASCII bytes followed by character starts.
pub open spec fn line_bytes_in_source(t: Seq<u8>, b: Seq<u8>, base: int) -> bool {
    &&& 0 <= base
    &&& base + t.len() <= b.len()
    &&& b.len() <= usize::MAX
    &&& t == b.subrange(base, base + t.len())
    &&& is_char_start(b, base)
    &&& is_char_start(b, base + t.len())
    &&& ascii_then_char_start(t)
}

proof fn lemma_local_char_start(t: Seq<u8>, b: Seq<u8>, base: int, k: int)
    requires
        line_bytes_in_source(t, b, base),
        0 <= k <= t.len(),
        is_char_start(t, k),
    ensures
        is_char_start(b, base + k),
{
    if k < t.len() {
        assert(t[k] == b[base + k]);
    }
}

/// The span of the line-local range `[s, e)` of the line that starts at
/// source offset `base`, on line `line`, with its first byte at column `col`.
pub fn span_for(base: usize, line: u32, col: u32, s: usize, e: usize) -> (sp: Span)
    requires
        s <= e,
        base + e <= usize::MAX,
    ensures
        sp == span_at(LinePlace { base: base as int, line, col }, s as int, e as int),
{
    Span::new(base + s, base + e, line, (#[verifier::truncate] (s as u32)).saturating_add(col))
}

/// The number at `[i, e)` is two ASCII digits.
fn is_level_number(t: &[u8], i: usize, e: usize) -> (r: bool)
    requires
        i <= e <= t@.len(),
    ensures
        r == is_two_digit_number(t@.subrange(i as int, e as int)),
{
    e - i == 2 && is_digit_byte(t[i]) && is_digit_byte(t[i + 1])
}

/// Pushes the token of kind `kind` covering the line-local range `[s, e)`.
fn push_token<'a>(
    tokens: &mut Vec<Token<'a>>,
    kind: TokenKind,
    t: &[u8],
    source: &'a str,
    base: usize,
    line: u32,
    col: u32,
    s: usize,
    e: usize,
)
    requires
        line_bytes_in_source(t@, source.spec_bytes(), base as int),
        s <= e <= t@.len(),
        is_char_start(t@, s as int),
        is_char_start(t@, e as int),
        tokens_agree(source.spec_bytes(), old(tokens)@),
    ensures
        token_models(final(tokens)@) == token_models(old(tokens)@).push(
            (kind, span_at(LinePlace { base: base as int, line, col }, s as int, e as int)),
        ),
        tokens_agree(source.spec_bytes(), final(tokens)@),
{
    let ghost b = source.spec_bytes();
    proof {
        reveal(tokens_agree);
        lemma_local_char_start(t@, b, base as int, s as int);
        lemma_local_char_start(t@, b, base as int, e as int);
    }
    let span = span_for(base, line, col, s, e);
    let text = str_range(source, base + s, base + e);
    tokens.push(Token::new(kind, span, text));
    proof {
        reveal(tokens_agree);
        assert(token_models(tokens@) =~= token_models(old(tokens)@).push(
            (kind, span_at(LinePlace { base: base as int, line, col }, s as int, e as int)),
        ));
        assert forall|k: int| 0 <= k < tokens@.len() implies {
            &&& (#[trigger] tokens@[k]).span.start <= tokens@[k].span.end <= b.len()
            &&& is_char_start(b, tokens@[k].span.start as int)
            &&& is_char_start(b, tokens@[k].span.end as int)
            &&& tokens@[k].text.spec_bytes() == b.subrange(
                tokens@[k].span.start as int,
                tokens@[k].span.end as int,
            )
        } by {
            if k < old(tokens)@.len() {
                assert(tokens@[k] == old(tokens)@[k]);
            }
        }
    }
}


/// After a `PIC`/`PICTURE` keyword ending at `e`: skips blanks and tabs,
/// then takes the run up to the next blank, tab or period, if non-empty, as
/// one `PictureString` token. Returns where scanning resumes.
pub fn capture_picture_string<'a>(
    t: &[u8],
    e: usize,
    source: &'a str,
    base: usize,
    line: u32,
    col: u32,
    tokens: &mut Vec<Token<'a>>,
) -> (next: usize)
    requires
        line_bytes_in_source(t@, source.spec_bytes(), base as int),
        e <= t@.len(),
        is_char_start(t@, e as int),
        tokens_agree(source.spec_bytes(), old(tokens)@),
    ensures
        ({
            let s = blanks_end(t@, e as int);
            let pe = picture_end(t@, s);
            &&& pe == s ==> next == s && final(tokens)@ == old(tokens)@
            &&& pe != s ==> next == pe && token_models(final(tokens)@) == token_models(
                old(tokens)@,
            ).push(
                (
                    TokenKind::PictureString,
                    span_at(LinePlace { base: base as int, line, col }, s, pe),
                ),
            )
        }),
        tokens_agree(source.spec_bytes(), final(tokens)@),
{
    let s = blanks_end_exec(t, e);
    proof {
        lemma_blanks_end_bounds(t@, e as int);
        lemma_picture_end_bounds(t@, s as int);
        if s > e {
            lemma_after_ascii(t@, s - 1);
        }
    }
    let pe = picture_end_exec(t, s);
    if pe == s {
        return s;
    }
    push_token(tokens, TokenKind::PictureString, t, source, base, line, col, s, pe);
    pe
}

/// Handles the raw token at the non-blank offset `i`: pushes what
/// `scan_step` says and returns where scanning resumes.
#[verifier::spinoff_prover]
fn scan_token<'a>(
    t: &[u8],
    i: usize,
    at_start: bool,
    source: &'a str,
    base: usize,
    line: u32,
    col: u32,
    tokens: &mut Vec<Token<'a>>,
    errors: &mut Vec<LexerError>,
) -> (next: usize)
    requires
        line_bytes_in_source(t@, source.spec_bytes(), base as int),
        i < t@.len(),
        !is_blank(t@[i as int]),
        is_char_start(t@, i as int),
        tokens_agree(source.spec_bytes(), old(tokens)@),
    ensures
        ({
            let st = scan_step(t@, i as int, at_start, LinePlace { base: base as int, line, col });
            &&& next == st.next
            &&& token_models(final(tokens)@) == token_models(old(tokens)@) + st.tokens
            &&& final(errors)@ == old(errors)@ + st.errors
        }),
        is_char_start(t@, next as int),
        tokens_agree(source.spec_bytes(), final(tokens)@),
{
    let ghost p = LinePlace { base: base as int, line, col };
    let ghost b = source.spec_bytes();
    proof {
        reveal(scan_step);
        lemma_raw_token_end(t@, i as int);
        lemma_step_advances(t@, i as int, at_start, p);
    }
    let (raw, e) = raw_token_exec(t, i);
    let ghost st = scan_step(t@, i as int, at_start, p);
    let ghost sp = span_at(p, i as int, e as int);
    let ghost m0 = token_models(old(tokens)@);
    match raw {
        RawToken::Identifier => {
            proof {
                lemma_local_char_start(t@, b, base as int, i as int);
                lemma_local_char_start(t@, b, base as int, e as int);
            }
            let text = str_range(source, base + i, base + e);
            proof {
                assert(text.spec_bytes() =~= t@.subrange(i as int, e as int));
            }
            let kind = match match_keyword(text) {
                Some(k) => TokenKind::Keyword(k),
                None => TokenKind::Identifier,
            };
            push_token(tokens, kind, t, source, base, line, col, i, e);
            if matches!(kind, TokenKind::Keyword(KeywordKind::Pic)) || matches!(
                kind,
                TokenKind::Keyword(KeywordKind::Picture)
            ) {
                let next = capture_picture_string(t, e, source, base, line, col, tokens);
                assert(token_models(tokens@) =~= m0 + st.tokens);
                assert(errors@ =~= old(errors)@ + st.errors);
                next
            } else {
                assert(token_models(tokens@) =~= m0 + st.tokens);
                assert(errors@ =~= old(errors)@ + st.errors);
                e
            }
        },
        RawToken::Number => {
            let kind = if at_start && is_level_number(t, i, e) {
                proof {
                    assert(t@.subrange(i as int, e as int)[0] == t@[i as int]);
                    assert(t@.subrange(i as int, e as int)[1] == t@[i + 1]);
                }
                TokenKind::LevelNumber((t[i] - 0x30) * 10 + (t[i + 1] - 0x30))
            } else {
                TokenKind::NumericLiteral
            };
            push_token(tokens, kind, t, source, base, line, col, i, e);
            assert(token_models(tokens@) =~= m0 + st.tokens);
            assert(errors@ =~= old(errors)@ + st.errors);
            e
        },
        RawToken::DoubleString | RawToken::SingleString => {
            push_token(tokens, TokenKind::StringLiteral, t, source, base, line, col, i, e);
            assert(token_models(tokens@) =~= m0 + st.tokens);
            assert(errors@ =~= old(errors)@ + st.errors);
            e
        },
        RawToken::Period => {
            push_token(tokens, TokenKind::Period, t, source, base, line, col, i, e);
            assert(token_models(tokens@) =~= m0 + st.tokens);
            assert(errors@ =~= old(errors)@ + st.errors);
            e
        },
        RawToken::LParen => {
            push_token(tokens, TokenKind::LParen, t, source, base, line, col, i, e);
            assert(token_models(tokens@) =~= m0 + st.tokens);
            assert(errors@ =~= old(errors)@ + st.errors);
            e
        },
        RawToken::RParen => {
            push_token(tokens, TokenKind::RParen, t, source, base, line, col, i, e);
            assert(token_models(tokens@) =~= m0 + st.tokens);
            assert(errors@ =~= old(errors)@ + st.errors);
            e
        },
        RawToken::Comma => {
            push_token(tokens, TokenKind::Comma, t, source, base, line, col, i, e);
            assert(token_models(tokens@) =~= m0 + st.tokens);
            assert(errors@ =~= old(errors)@ + st.errors);
            e
        },
        RawToken::UnterminatedDouble | RawToken::UnterminatedSingle => {
            let span = span_for(base, line, col, i, e);
            errors.push(LexerError::UnterminatedStringLiteral { span });
            assert(token_models(tokens@) =~= m0 + st.tokens);
            assert(errors@ =~= old(errors)@ + st.errors);
            e
        },
        RawToken::NullByte => {
            let span = span_for(base, line, col, i, e);
            errors.push(LexerError::EncounteredNullByte { span });
            assert(token_models(tokens@) =~= m0 + st.tokens);
            assert(errors@ =~= old(errors)@ + st.errors);
            e
        },
        RawToken::Invalid => {
            proof {
                lemma_local_char_start(t@, b, base as int, i as int);
                lemma_local_char_start(t@, b, base as int, e as int);
            }
            let text = str_range(source, base + i, base + e);
            proof {
                assert(text.spec_bytes() =~= t@.subrange(i as int, e as int));
            }
            let ch = first_char(text);
            let span = span_for(base, line, col, i, e);
            errors.push(LexerError::InvalidCharacter { ch, span });
            assert(token_models(tokens@) =~= m0 + st.tokens);
            assert(errors@ =~= old(errors)@ + st.errors);
            e
        },
    }
}


/// Where the single segment of `line` places its text in the source.
pub open spec fn line_place(line: LogicalLine) -> LinePlace {
    LinePlace {
        base: line.segments@[0].source_start as int,
        line: line.start_line,
        col: line.segments@[0].source_col,
    }
}

/// The tokens and errors of one logical line.
pub open spec fn scan_line_spec(line: LogicalLine) -> (Seq<(TokenKind, Span)>, Seq<LexerError>) {
    scan_from(encode_utf8(line.text@), 0, true, line_place(line))
}

proof fn lemma_seq_assoc<A>(a: Seq<A>, b: Seq<A>, c: Seq<A>)
    ensures
        (a + b) + c == a + (b + c),
{
    assert((a + b) + c =~= a + (b + c));
}

/// `tokens_agree` holds of a concatenation when it holds of both parts.
pub proof fn lemma_tokens_agree_concat(b: Seq<u8>, a: Seq<Token>, c: Seq<Token>)
    requires
        tokens_agree(b, a),
        tokens_agree(b, c),
    ensures
        tokens_agree(b, a + c),
{
    reveal(tokens_agree);
    assert forall|k: int| 0 <= k < (a + c).len() implies {
        &&& (#[trigger] (a + c)[k]).span.start <= (a + c)[k].span.end <= b.len()
        &&& is_char_start(b, (a + c)[k].span.start as int)
        &&& is_char_start(b, (a + c)[k].span.end as int)
        &&& (a + c)[k].text.spec_bytes() == b.subrange(
            (a + c)[k].span.start as int,
            (a + c)[k].span.end as int,
        )
    } by {
        if k < a.len() {
            assert((a + c)[k] == a[k]);
        } else {
            assert((a + c)[k] == c[k - a.len()]);
        }
    }
}

/// Scans one logical line of `source`, appending its tokens and errors.
/// The tokens it appends lie inside `source` and carry the text their spans
/// cover.
pub fn scan_line<'a>(
    line: &LogicalLine,
    source: &'a str,
    tokens: &mut Vec<Token<'a>>,
    errors: &mut Vec<LexerError>,
)
    requires
        line_in_source(*line, source.spec_bytes()),
    ensures
        final(tokens)@.len() == old(tokens)@.len() + scan_line_spec(*line).0.len(),
        final(tokens)@.subrange(0, old(tokens)@.len() as int) == old(tokens)@,
        token_models(final(tokens)@) == token_models(old(tokens)@) + scan_line_spec(*line).0,
        final(errors)@ == old(errors)@ + scan_line_spec(*line).1,
        tokens_agree(
            source.spec_bytes(),
            final(tokens)@.subrange(old(tokens)@.len() as int, final(tokens)@.len() as int),
        ),
{
    let mut fresh: Vec<Token<'a>> = Vec::new();
    proof {
        reveal(tokens_agree);
    }
    scan_line_into(line, source, &mut fresh, errors);
    let ghost added = fresh@;
    tokens.append(&mut fresh);
    proof {
        assert(tokens@.subrange(0, old(tokens)@.len() as int) =~= old(tokens)@);
        assert(tokens@.subrange(old(tokens)@.len() as int, tokens@.len() as int) =~= added);
        assert(token_models(tokens@) =~= token_models(old(tokens)@) + token_models(added));
        assert(token_models(added) =~= seq![] + scan_line_spec(*line).0);
    }
}

#[verifier::spinoff_prover]
fn scan_line_into<'a>(
    line: &LogicalLine,
    source: &'a str,
    tokens: &mut Vec<Token<'a>>,
    errors: &mut Vec<LexerError>,
)
    requires
        line_in_source(*line, source.spec_bytes()),
        tokens_agree(source.spec_bytes(), old(tokens)@),
    ensures
        token_models(final(tokens)@) == token_models(old(tokens)@) + scan_line_spec(*line).0,
        final(errors)@ == old(errors)@ + scan_line_spec(*line).1,
        tokens_agree(source.spec_bytes(), final(tokens)@),
{
    let ghost b = source.spec_bytes();
    let sb = source.as_bytes();
    let _total = sb.len();
    let seg = &line.segments[0];
    let base = seg.source_start;
    let col = seg.source_col;
    let line_no = line.start_line;
    let t = line.text.as_str().as_bytes();
    let ghost p = line_place(*line);
    proof {
        crate::text::lemma_str_bytes_clean(source);
        crate::text::lemma_clean_subrange(b, base as int, base + seg.len);
        assert(t@ == b.subrange(base as int, base + seg.len));
        lemma_clean_start(t@);
    }
    let mut i: usize = 0;
    let mut at_start = true;
    while i < t.len()
        invariant
            b == source.spec_bytes(),
            line_bytes_in_source(t@, b, base as int),
            t@ == encode_utf8(line.text@),
            p == (LinePlace { base: base as int, line: line_no, col }),
            p == line_place(*line),
            i <= t@.len(),
            is_char_start(t@, i as int),
            tokens_agree(b, tokens@),
            token_models(tokens@) + scan_from(t@, i as int, at_start, p).0 == token_models(
                old(tokens)@,
            ) + scan_line_spec(*line).0,
            errors@ + scan_from(t@, i as int, at_start, p).1 == old(errors)@ + scan_line_spec(
                *line,
            ).1,
        decreases t@.len() - i,
    {
        if is_blank_byte(t[i]) {
            proof {
                lemma_after_ascii(t@, i as int);
            }
            i = i + 1;
        } else {
            let ghost m = token_models(tokens@);
            let ghost er = errors@;
            let ghost st = scan_step(t@, i as int, at_start, p);
            let next = scan_token(t, i, at_start, source, base, line_no, col, tokens, errors);
            proof {
                lemma_step_advances(t@, i as int, at_start, p);
                let rest = scan_from(t@, next as int, false, p);
                assert(scan_from(t@, i as int, at_start, p).0 == st.tokens + rest.0);
                assert(scan_from(t@, i as int, at_start, p).1 == st.errors + rest.1);
                lemma_seq_assoc(m, st.tokens, rest.0);
                lemma_seq_assoc(er, st.errors, rest.1);
            }
            i = next;
            at_start = false;
        }
    }
    proof {
        assert(token_models(tokens@) + scan_from(t@, i as int, at_start, p).0 =~= token_models(
            tokens@,
        ));
        assert(errors@ + scan_from(t@, i as int, at_start, p).1 =~= errors@);
    }
}

} // verus!
