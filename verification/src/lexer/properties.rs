//! Properties of the lexer that hold for every input.
use crate::error::LexerError;
use crate::lexer::fixed_format::{
    back_to_char_start, content_end, fixed_line, fixed_lines, fixed_lines_from,
    lemma_line_end_bounds, line_end, LineModel,
};
use crate::lexer::free_format::{
    all_white_space, code_end, comment_from, free_line, free_lines, free_lines_from, is_directive,
    lemma_comment_from_marker, unicode_white_space,
};
use crate::lexer::scanner::{
    blanks_end, lemma_blanks_end_bounds, lemma_picture_end_bounds, lemma_raw_token_end,
    lemma_step_advances, picture_end, raw_token, scan_from, scan_step, span_at, is_blank,
    is_picture_keyword, LinePlace, RawToken,
};
use crate::lexer::token::TokenKind;
use crate::lexer::{eof_token, lex_spec, scan_model, scan_models, SourceFormat};
use crate::span::Span;
use vstd::prelude::*;
use vstd::utf8::{decode_utf8, is_continuation_byte, pop_first_scalar, valid_first_scalar, valid_utf8, decode_first_scalar};

verus! {

/// Number of newline bytes at or after `pos`.
pub open spec fn newlines_from(b: Seq<u8>, pos: int) -> nat
    decreases b.len() - pos,
{
    if pos < 0 || pos >= b.len() {
        0
    } else {
        (if b[pos] == 0x0a {
            1nat
        } else {
            0nat
        }) + newlines_from(b, pos + 1)
    }
}

/// Number of physical lines of `b`: one per newline, plus a last line that
/// is not ended by a newline.
pub open spec fn physical_line_count(b: Seq<u8>) -> nat {
    newlines_from(b, 0) + if b.len() > 0 && b.last() != 0x0a {
        1nat
    } else {
        0nat
    }
}

/// `x`, capped at `u32::MAX`.
pub open spec fn cap_u32(x: int) -> u32 {
    if x > u32::MAX {
        u32::MAX
    } else {
        x as u32
    }
}

proof fn lemma_newlines_skip(b: Seq<u8>, pos: int, le: int)
    requires
        0 <= pos <= le <= b.len(),
        forall|k: int| pos <= k < le ==> b[k] != 0x0a,
    ensures
        newlines_from(b, pos) == newlines_from(b, le),
    decreases le - pos,
{
    if pos < le {
        lemma_newlines_skip(b, pos + 1, le);
    }
}

/// The count of physical lines from `pos` on, where `pos` starts a line.
pub open spec fn lines_from(b: Seq<u8>, pos: int) -> nat {
    if 0 <= pos < b.len() {
        newlines_from(b, pos) + if b.last() != 0x0a {
            1nat
        } else {
            0nat
        }
    } else {
        0
    }
}

proof fn lemma_line_step(b: Seq<u8>, pos: int)
    requires
        0 <= pos < b.len(),
    ensures
        ({
            let le = line_end(b, pos);
            lines_from(b, pos) == 1 + lines_from(b, le + 1)
        }),
{
    let le = line_end(b, pos);
    lemma_line_end_bounds(b, pos);
    lemma_newlines_skip(b, pos, le);
    if le < b.len() {
        assert(newlines_from(b, le) == 1 + newlines_from(b, le + 1));
        if le + 1 == b.len() {
            assert(b.last() == b[le]);
        }
    } else {
        assert(b.last() == b[b.len() - 1]);
    }
}

proof fn lemma_fixed_line_number(b: Seq<u8>, pos: int, n: u32)
    requires
        0 <= pos,
    ensures
        fixed_lines_from(b, pos, n).2 == cap_u32(n + lines_from(b, pos) as int),
    decreases b.len() + 1 - pos,
{
    if pos < b.len() {
        let le = line_end(b, pos);
        lemma_line_end_bounds(b, pos);
        lemma_line_step(b, pos);
        lemma_fixed_line_number(b, le + 1, n.saturating_add(1));
    }
}

proof fn lemma_free_line_number(b: Seq<u8>, pos: int, n: u32)
    requires
        0 <= pos,
    ensures
        free_lines_from(b, pos, n).1 == cap_u32(n + lines_from(b, pos) as int),
    decreases b.len() + 1 - pos,
{
    if pos < b.len() {
        let le = line_end(b, pos);
        lemma_line_end_bounds(b, pos);
        lemma_line_step(b, pos);
        lemma_free_line_number(b, le + 1, n.saturating_add(1));
    }
}

/// The lexer always ends with an `Eof` token: an empty span at the end of
/// the source, on the line after the last physical line (even when no
/// physical line carried code), column 1.
pub proof fn eof_follows_the_last_physical_line(b: Seq<u8>, format: SourceFormat)
    ensures
        lex_spec(b, format).0.len() > 0,
        lex_spec(b, format).0.last() == eof_token(b, cap_u32(1 + physical_line_count(b) as int)),
{
    match format {
        SourceFormat::Fixed => {
            lemma_fixed_line_number(b, 0, 1);
        },
        SourceFormat::Free => {
            lemma_free_line_number(b, 0, 1);
        },
    }
}


/// `sp` covers line-local bytes within `[lo, hi)` of the line placed at `p`:
/// its offsets are the line's base plus local offsets, it is on the line's
/// line, and its column is the line's column plus its local start.
pub open spec fn span_in_line(sp: Span, p: LinePlace, lo: int, hi: int) -> bool {
    &&& p.base + lo <= sp.start <= sp.end <= p.base + hi
    &&& sp.line == p.line
    &&& sp.column == ((sp.start - p.base) as u32).saturating_add(p.col)
}

/// A line placed inside the addressable range.
pub open spec fn place_fits(t: Seq<u8>, p: LinePlace) -> bool {
    0 <= p.base && p.base + t.len() <= usize::MAX
}

proof fn lemma_span_at_in_line(t: Seq<u8>, p: LinePlace, s: int, e: int, lo: int, hi: int)
    requires
        place_fits(t, p),
        0 <= lo <= s <= e <= hi <= t.len(),
    ensures
        span_in_line(span_at(p, s, e), p, lo, hi),
{
}

/// The tokens and errors of one raw token lie between its start and where
/// scanning resumes.
pub proof fn lemma_step_spans(t: Seq<u8>, i: int, at_start: bool, p: LinePlace)
    requires
        place_fits(t, p),
        0 <= i < t.len(),
    ensures
        ({
            let st = scan_step(t, i, at_start, p);
            &&& forall|k: int|
                0 <= k < st.tokens.len() ==> span_in_line(#[trigger] st.tokens[k].1, p, i, st.next)
            &&& forall|k: int|
                0 <= k < st.errors.len() ==> span_in_line(
                    (#[trigger] st.errors[k]).spec_span(),
                    p,
                    i,
                    st.next,
                )
        }),
{
    reveal(scan_step);
    lemma_raw_token_end(t, i);
    lemma_step_advances(t, i, at_start, p);
    let (raw, e) = raw_token(t, i);
    lemma_span_at_in_line(t, p, i, e, i, e);
    if raw == RawToken::Identifier {
        lemma_blanks_end_bounds(t, e);
        let s = blanks_end(t, e);
        lemma_picture_end_bounds(t, s);
        let pe = picture_end(t, s);
        lemma_span_at_in_line(t, p, s, pe, s, pe);
    }
}

/// Every token and error of a line scan from `i` on covers bytes of the
/// line at or after `i`, on the line's line, at the matching column.
pub proof fn lemma_scan_spans(t: Seq<u8>, i: int, at_start: bool, p: LinePlace)
    requires
        place_fits(t, p),
        0 <= i,
    ensures
        forall|k: int|
            0 <= k < scan_from(t, i, at_start, p).0.len() ==> span_in_line(
                #[trigger] scan_from(t, i, at_start, p).0[k].1,
                p,
                i,
                t.len() as int,
            ),
        forall|k: int|
            0 <= k < scan_from(t, i, at_start, p).1.len() ==> span_in_line(
                (#[trigger] scan_from(t, i, at_start, p).1[k]).spec_span(),
                p,
                i,
                t.len() as int,
            ),
    decreases t.len() - i,
{
    if i < t.len() {
        if crate::lexer::scanner::is_blank(t[i]) {
            lemma_scan_spans(t, i + 1, at_start, p);
            assert(scan_from(t, i, at_start, p) == scan_from(t, i + 1, at_start, p));
        } else {
            let st = scan_step(t, i, at_start, p);
            lemma_step_advances(t, i, at_start, p);
            lemma_step_spans(t, i, at_start, p);
            lemma_scan_spans(t, st.next, false, p);
            let rest = scan_from(t, st.next, false, p);
            let all = scan_from(t, i, at_start, p);
            assert(all.0 == st.tokens + rest.0);
            assert(all.1 == st.errors + rest.1);
            assert forall|k: int| 0 <= k < all.0.len() implies span_in_line(
                #[trigger] all.0[k].1,
                p,
                i,
                t.len() as int,
            ) by {
                if k < st.tokens.len() {
                    assert(all.0[k] == st.tokens[k]);
                } else {
                    assert(all.0[k] == rest.0[k - st.tokens.len()]);
                }
            }
            assert forall|k: int| 0 <= k < all.1.len() implies span_in_line(
                (#[trigger] all.1[k]).spec_span(),
                p,
                i,
                t.len() as int,
            ) by {
                if k < st.errors.len() {
                    assert(all.1[k] == st.errors[k]);
                } else {
                    assert(all.1[k] == rest.1[k - st.errors.len()]);
                }
            }
        }
    }
}


/// Where a logical line model places its text.
pub open spec fn model_place(m: LineModel) -> LinePlace {
    LinePlace { base: m.start, line: m.line, col: m.col }
}

/// Every token span of every line of `ms` satisfies `tok`, and every error
/// of every line satisfies `err`; then the same holds of the scan of all
/// of `ms`.
proof fn lemma_scan_models_all(
    b: Seq<u8>,
    ms: Seq<LineModel>,
    tok: spec_fn(Span) -> bool,
    err: spec_fn(LexerError) -> bool,
)
    requires
        forall|j: int, k: int|
            0 <= j < ms.len() && 0 <= k < scan_model(b, ms[j]).0.len() ==> tok(
                #[trigger] scan_model(b, ms[j]).0[k].1,
            ),
        forall|j: int, k: int|
            0 <= j < ms.len() && 0 <= k < scan_model(b, ms[j]).1.len() ==> err(
                #[trigger] scan_model(b, ms[j]).1[k],
            ),
    ensures
        forall|k: int| 0 <= k < scan_models(b, ms).0.len() ==> tok(#[trigger] scan_models(b, ms).0[k].1),
        forall|k: int| 0 <= k < scan_models(b, ms).1.len() ==> err(#[trigger] scan_models(b, ms).1[k]),
    decreases ms.len(),
{
    if ms.len() > 0 {
        let init = ms.drop_last();
        assert forall|j: int, k: int|
            0 <= j < init.len() && 0 <= k < scan_model(b, init[j]).0.len() implies tok(
                #[trigger] scan_model(b, init[j]).0[k].1,
            ) by {
            assert(init[j] == ms[j]);
        }
        assert forall|j: int, k: int|
            0 <= j < init.len() && 0 <= k < scan_model(b, init[j]).1.len() implies err(
                #[trigger] scan_model(b, init[j]).1[k],
            ) by {
            assert(init[j] == ms[j]);
        }
        lemma_scan_models_all(b, init, tok, err);
        let before = scan_models(b, init);
        let last = scan_model(b, ms.last());
        let all = scan_models(b, ms);
        assert forall|k: int| 0 <= k < all.0.len() implies tok(#[trigger] all.0[k].1) by {
            if k < before.0.len() {
                assert(all.0[k] == before.0[k]);
            } else {
                assert(all.0[k] == last.0[k - before.0.len()]);
                assert(tok(scan_model(b, ms[ms.len() - 1]).0[k - before.0.len()].1));
            }
        }
        assert forall|k: int| 0 <= k < all.1.len() implies err(#[trigger] all.1[k]) by {
            if k < before.1.len() {
                assert(all.1[k] == before.1[k]);
            } else {
                assert(all.1[k] == last.1[k - before.1.len()]);
                assert(err(scan_model(b, ms[ms.len() - 1]).1[k - before.1.len()]));
            }
        }
    }
}

/// Walking back to a character start stays between `lo` and `i`.
pub proof fn lemma_back_bounds(b: Seq<u8>, lo: int, i: int)
    requires
        lo <= i,
    ensures
        lo <= back_to_char_start(b, lo, i) <= i,
    decreases i - lo,
{
    if i > lo && 0 <= i < b.len() && is_continuation_byte(b[i]) {
        lemma_back_bounds(b, lo, i - 1);
    }
}

/// Fixed-format logical lines lie inside the source, start at column 8 and
/// hold at most 65 bytes (columns 8-72); the pass's errors are one-byte
/// spans at column 7 inside the source.
pub proof fn lemma_fixed_models(b: Seq<u8>, pos: int, n: u32)
    requires
        0 <= pos,
        b.len() <= usize::MAX,
    ensures
        forall|k: int|
            0 <= k < fixed_lines_from(b, pos, n).0.len() ==> {
                let m = #[trigger] fixed_lines_from(b, pos, n).0[k];
                &&& 0 <= m.start <= m.end <= b.len()
                &&& m.end - m.start <= 65
                &&& m.col == 8
                &&& m.line >= n
            },
        forall|k: int|
            0 <= k < fixed_lines_from(b, pos, n).1.len() ==> {
                let sp = (#[trigger] fixed_lines_from(b, pos, n).1[k]).spec_span();
                &&& sp.start + 1 == sp.end <= b.len()
                &&& sp.column == 7
            },
    decreases b.len() + 1 - pos,
{
    if pos < b.len() {
        let le = line_end(b, pos);
        lemma_line_end_bounds(b, pos);
        let ce = content_end(b, pos, le);
        let here = fixed_line(b, pos, ce, n);
        lemma_fixed_models(b, le + 1, n.saturating_add(1));
        if ce - pos >= 8 {
            let cut = if ce - pos < 72 {
                ce
            } else {
                pos + 72
            };
            lemma_back_bounds(b, pos + 7, cut);
        }
        let rest = fixed_lines_from(b, le + 1, n.saturating_add(1));
        let all = fixed_lines_from(b, pos, n);
        assert(all.0 == here.0 + rest.0);
        assert(all.1 == here.1 + rest.1);
        assert forall|k: int| 0 <= k < all.0.len() implies {
            let m = #[trigger] all.0[k];
            &&& 0 <= m.start <= m.end <= b.len()
            &&& m.end - m.start <= 65
            &&& m.col == 8
            &&& m.line >= n
        } by {
            if k >= here.0.len() {
                assert(all.0[k] == rest.0[k - here.0.len()]);
            }
        }
        assert forall|k: int| 0 <= k < all.1.len() implies {
            let sp = (#[trigger] all.1[k]).spec_span();
            &&& sp.start + 1 == sp.end <= b.len()
            &&& sp.column == 7
        } by {
            if k >= here.1.len() {
                assert(all.1[k] == rest.1[k - here.1.len()]);
            }
        }
    }
}

/// Free-format logical lines lie inside the source and start at column 1.
pub proof fn lemma_free_models(b: Seq<u8>, pos: int, n: u32)
    requires
        0 <= pos,
    ensures
        forall|k: int|
            0 <= k < free_lines_from(b, pos, n).0.len() ==> {
                let m = #[trigger] free_lines_from(b, pos, n).0[k];
                &&& 0 <= m.start <= m.end <= b.len()
                &&& m.col == 1
                &&& m.line >= n
            },
    decreases b.len() + 1 - pos,
{
    if pos < b.len() {
        let le = line_end(b, pos);
        lemma_line_end_bounds(b, pos);
        let ce = content_end(b, pos, le);
        let here = free_line(b, pos, ce, n);
        lemma_free_models(b, le + 1, n.saturating_add(1));
        lemma_comment_from_marker(b.subrange(pos, ce), 0, None);
        assert(pos <= code_end(b, pos, ce) <= ce);
        let rest = free_lines_from(b, le + 1, n.saturating_add(1));
        let all = free_lines_from(b, pos, n);
        assert(all.0 == here + rest.0);
        assert forall|k: int| 0 <= k < all.0.len() implies {
            let m = #[trigger] all.0[k];
            &&& 0 <= m.start <= m.end <= b.len()
            &&& m.col == 1
            &&& m.line >= n
        } by {
            if k >= here.len() {
                assert(all.0[k] == rest.0[k - here.len()]);
            }
        }
    }
}

/// The spans of tokens and errors of a logical line lie within the line.
proof fn lemma_model_scan_spans(b: Seq<u8>, m: LineModel)
    requires
        0 <= m.start <= m.end <= b.len(),
        b.len() <= usize::MAX,
    ensures
        forall|k: int|
            0 <= k < scan_model(b, m).0.len() ==> span_in_line(
                #[trigger] scan_model(b, m).0[k].1,
                model_place(m),
                0,
                m.end - m.start,
            ),
        forall|k: int|
            0 <= k < scan_model(b, m).1.len() ==> span_in_line(
                (#[trigger] scan_model(b, m).1[k]).spec_span(),
                model_place(m),
                0,
                m.end - m.start,
            ),
{
    let t = b.subrange(m.start, m.end);
    lemma_scan_spans(t, 0, true, model_place(m));
}

/// Every token and every error the lexer reports covers a range of the
/// source: its start is at most its end, and its end at most the source's
/// length.
pub proof fn spans_stay_inside_source(b: Seq<u8>, format: SourceFormat)
    requires
        b.len() <= usize::MAX,
    ensures
        forall|k: int|
            0 <= k < lex_spec(b, format).0.len() ==> (#[trigger] lex_spec(b, format).0[k]).1.start
                <= lex_spec(b, format).0[k].1.end <= b.len(),
        forall|k: int|
            0 <= k < lex_spec(b, format).1.len() ==> (#[trigger] lex_spec(
                b,
                format,
            ).1[k]).spec_span().start <= lex_spec(b, format).1[k].spec_span().end <= b.len(),
{
    let ms = match format {
        SourceFormat::Fixed => fixed_lines(b).0,
        SourceFormat::Free => free_lines(b).0,
    };
    let pre = match format {
        SourceFormat::Fixed => fixed_lines(b).1,
        SourceFormat::Free => seq![],
    };
    lemma_fixed_models(b, 0, 1);
    lemma_free_models(b, 0, 1);
    let tok = |sp: Span| sp.start <= sp.end <= b.len();
    let err = |e: LexerError| e.spec_span().start <= e.spec_span().end <= b.len();
    assert forall|j: int, k: int|
        0 <= j < ms.len() && 0 <= k < scan_model(b, ms[j]).0.len() implies tok(
            #[trigger] scan_model(b, ms[j]).0[k].1,
        ) by {
        lemma_model_scan_spans(b, ms[j]);
    }
    assert forall|j: int, k: int|
        0 <= j < ms.len() && 0 <= k < scan_model(b, ms[j]).1.len() implies err(
            #[trigger] scan_model(b, ms[j]).1[k],
        ) by {
        lemma_model_scan_spans(b, ms[j]);
    }
    lemma_scan_models_all(b, ms, tok, err);
    let s = scan_models(b, ms);
    let out = lex_spec(b, format);
    assert(out.0 == s.0.push(eof_token(b, match format {
        SourceFormat::Fixed => fixed_lines(b).2,
        SourceFormat::Free => free_lines(b).1,
    })));
    assert(out.1 == pre + s.1);
    assert forall|k: int| 0 <= k < out.0.len() implies (#[trigger] out.0[k]).1.start <= out.0[k].1.end
        <= b.len() by {
        if k < s.0.len() {
            assert(out.0[k] == s.0[k]);
            assert(tok(s.0[k].1));
        }
    }
    assert forall|k: int| 0 <= k < out.1.len() implies (#[trigger] out.1[k]).spec_span().start
        <= out.1[k].spec_span().end <= b.len() by {
        if k < pre.len() {
            assert(out.1[k] == pre[k]);
        } else {
            assert(out.1[k] == s.1[k - pre.len()]);
            assert(err(s.1[k - pre.len()]));
        }
    }
}

/// In fixed format every token other than the final `Eof` lies in the text
/// area, columns 8 to 72: its column is at least 8, and its column plus its
/// byte length is at most 73. Nothing of the sequence area (columns 1-6),
/// the indicator (column 7) or columns 73 onwards becomes a token.
pub proof fn fixed_tokens_stay_in_columns_8_to_72(b: Seq<u8>)
    requires
        b.len() <= usize::MAX,
    ensures
        forall|k: int|
            0 <= k < lex_spec(b, SourceFormat::Fixed).0.len() - 1 ==> {
                let sp = (#[trigger] lex_spec(b, SourceFormat::Fixed).0[k]).1;
                &&& 8 <= sp.column
                &&& sp.column + (sp.end - sp.start) <= 73
            },
{
    let ms = fixed_lines(b).0;
    lemma_fixed_models(b, 0, 1);
    let tok = |sp: Span| 8 <= sp.column && sp.column + (sp.end - sp.start) <= 73;
    let err = |e: LexerError| true;
    assert forall|j: int, k: int|
        0 <= j < ms.len() && 0 <= k < scan_model(b, ms[j]).0.len() implies tok(
            #[trigger] scan_model(b, ms[j]).0[k].1,
        ) by {
        lemma_model_scan_spans(b, ms[j]);
        let sp = scan_model(b, ms[j]).0[k].1;
        assert(span_in_line(sp, model_place(ms[j]), 0, ms[j].end - ms[j].start));
        assert(sp.start - ms[j].start <= 65);
        assert(((sp.start - ms[j].start) as u32) == sp.start - ms[j].start);
    }
    lemma_scan_models_all(b, ms, tok, err);
    let s = scan_models(b, ms);
    let out = lex_spec(b, SourceFormat::Fixed);
    assert(out.0 == s.0.push(eof_token(b, fixed_lines(b).2)));
    assert forall|k: int| 0 <= k < out.0.len() - 1 implies {
        let sp = (#[trigger] out.0[k]).1;
        &&& 8 <= sp.column
        &&& sp.column + (sp.end - sp.start) <= 73
    } by {
        assert(out.0[k] == s.0[k]);
        assert(tok(s.0[k].1));
    }
}

/// A token kind is a level number.
pub open spec fn is_level_number_kind(k: TokenKind) -> bool {
    k matches TokenKind::LevelNumber(_)
}

proof fn lemma_no_level_number_after_start(t: Seq<u8>, i: int, p: LinePlace)
    requires
        0 <= i,
    ensures
        forall|k: int|
            0 <= k < scan_from(t, i, false, p).0.len() ==> !is_level_number_kind(
                (#[trigger] scan_from(t, i, false, p).0[k]).0,
            ),
    decreases t.len() - i,
{
    if i < t.len() {
        if is_blank(t[i]) {
            lemma_no_level_number_after_start(t, i + 1, p);
            assert(scan_from(t, i, false, p) == scan_from(t, i + 1, false, p));
        } else {
            reveal(scan_step);
            let st = scan_step(t, i, false, p);
            lemma_step_advances(t, i, false, p);
            lemma_no_level_number_after_start(t, st.next, p);
            let rest = scan_from(t, st.next, false, p);
            let all = scan_from(t, i, false, p);
            assert(all.0 == st.tokens + rest.0);
            assert forall|k: int| 0 <= k < all.0.len() implies !is_level_number_kind(
                (#[trigger] all.0[k]).0,
            ) by {
                if k >= st.tokens.len() {
                    assert(all.0[k] == rest.0[k - st.tokens.len()]);
                } else {
                    assert(all.0[k] == st.tokens[k]);
                }
            }
        }
    }
}

/// A level number can only be the first token of a logical line: the scan
/// of a line yields `LevelNumber` at no other position.
pub proof fn level_number_only_opens_a_line(t: Seq<u8>, p: LinePlace)
    ensures
        forall|k: int|
            0 <= k < scan_from(t, 0, true, p).0.len() && is_level_number_kind(
                (#[trigger] scan_from(t, 0, true, p).0[k]).0,
            ) ==> k == 0,
{
    lemma_level_number_first(t, 0, p);
}

proof fn lemma_level_number_first(t: Seq<u8>, i: int, p: LinePlace)
    requires
        0 <= i,
    ensures
        forall|k: int|
            0 <= k < scan_from(t, i, true, p).0.len() && is_level_number_kind(
                (#[trigger] scan_from(t, i, true, p).0[k]).0,
            ) ==> k == 0,
    decreases t.len() - i,
{
    if i < t.len() {
        if is_blank(t[i]) {
            lemma_level_number_first(t, i + 1, p);
            assert(scan_from(t, i, true, p) == scan_from(t, i + 1, true, p));
        } else {
            reveal(scan_step);
            let st = scan_step(t, i, true, p);
            lemma_step_advances(t, i, true, p);
            lemma_no_level_number_after_start(t, st.next, p);
            let rest = scan_from(t, st.next, false, p);
            let all = scan_from(t, i, true, p);
            assert(all.0 == st.tokens + rest.0);
            assert forall|k: int|
                0 <= k < all.0.len() && is_level_number_kind((#[trigger] all.0[k]).0) implies k
                == 0 by {
                if k >= st.tokens.len() {
                    assert(all.0[k] == rest.0[k - st.tokens.len()]);
                } else {
                    assert(all.0[k] == st.tokens[k]);
                }
            }
        }
    }
}

/// A PICTURE string sits right after a `PIC` or `PICTURE` keyword and is a
/// non-empty run of bytes holding no blank, tab or period.
pub open spec fn pictures_atomic(t: Seq<u8>, p: LinePlace, toks: Seq<(TokenKind, Span)>) -> bool {
    forall|k: int|
        0 <= k < toks.len() && (#[trigger] toks[k]).0 == TokenKind::PictureString ==> {
            &&& k > 0
            &&& is_picture_keyword(toks[k - 1].0)
            &&& toks[k].1.start < toks[k].1.end
            &&& forall|j: int|
                toks[k].1.start - p.base <= j < toks[k].1.end - p.base ==> !is_blank(
                    #[trigger] t[j],
                ) && t[j] != 0x2e
        }
}

/// PICTURE strings come out whole: in the scan of a line every
/// `PictureString` follows a `PIC`/`PICTURE` keyword and covers a non-empty
/// run without blanks, tabs or periods.
pub proof fn picture_strings_are_atomic(t: Seq<u8>, i: int, at_start: bool, p: LinePlace)
    requires
        place_fits(t, p),
        0 <= i,
    ensures
        pictures_atomic(t, p, scan_from(t, i, at_start, p).0),
    decreases t.len() - i,
{
    if i < t.len() {
        if is_blank(t[i]) {
            picture_strings_are_atomic(t, i + 1, at_start, p);
            assert(scan_from(t, i, at_start, p) == scan_from(t, i + 1, at_start, p));
        } else {
            reveal(scan_step);
            let st = scan_step(t, i, at_start, p);
            lemma_step_advances(t, i, at_start, p);
            picture_strings_are_atomic(t, st.next, false, p);
            let rest = scan_from(t, st.next, false, p);
            let all = scan_from(t, i, at_start, p);
            assert(all.0 == st.tokens + rest.0);
            lemma_raw_token_end(t, i);
            let (raw, e) = raw_token(t, i);
            if raw == RawToken::Identifier {
                lemma_blanks_end_bounds(t, e);
                let s = blanks_end(t, e);
                lemma_picture_end_bounds(t, s);
            }
            assert forall|k: int|
                0 <= k < all.0.len() && (#[trigger] all.0[k]).0 == TokenKind::PictureString implies {
                &&& k > 0
                &&& is_picture_keyword(all.0[k - 1].0)
                &&& all.0[k].1.start < all.0[k].1.end
                &&& forall|j: int|
                    all.0[k].1.start - p.base <= j < all.0[k].1.end - p.base ==> !is_blank(
                        #[trigger] t[j],
                    ) && t[j] != 0x2e
            } by {
                if k >= st.tokens.len() {
                    let r = k - st.tokens.len();
                    assert(all.0[k] == rest.0[r]);
                    assert(rest.0[r].0 == TokenKind::PictureString);
                    assert(all.0[k - 1] == rest.0[r - 1]);
                } else {
                    assert(all.0[k] == st.tokens[k]);
                    assert(k == 1);
                    assert(all.0[0] == st.tokens[0]);
                }
            }
        }
    }
}


/// The kinds of a token sequence.
pub open spec fn kinds(toks: Seq<(TokenKind, Span)>) -> Seq<TokenKind> {
    toks.map_values(|x: (TokenKind, Span)| x.0)
}

/// What the scanner makes of a line's bytes does not depend on where the
/// line sits: the token kinds, and the number of errors, are the same for
/// any two placements.
pub proof fn scan_kinds_ignore_placement(
    t: Seq<u8>,
    i: int,
    at_start: bool,
    p1: LinePlace,
    p2: LinePlace,
)
    requires
        0 <= i,
    ensures
        kinds(scan_from(t, i, at_start, p1).0) == kinds(scan_from(t, i, at_start, p2).0),
        scan_from(t, i, at_start, p1).1.len() == scan_from(t, i, at_start, p2).1.len(),
    decreases t.len() - i,
{
    if i < t.len() {
        if is_blank(t[i]) {
            scan_kinds_ignore_placement(t, i + 1, at_start, p1, p2);
            assert(scan_from(t, i, at_start, p1) == scan_from(t, i + 1, at_start, p1));
            assert(scan_from(t, i, at_start, p2) == scan_from(t, i + 1, at_start, p2));
        } else {
            reveal(scan_step);
            let s1 = scan_step(t, i, at_start, p1);
            let s2 = scan_step(t, i, at_start, p2);
            lemma_step_advances(t, i, at_start, p1);
            assert(s1.next == s2.next);
            scan_kinds_ignore_placement(t, s1.next, false, p1, p2);
            let r1 = scan_from(t, s1.next, false, p1);
            let r2 = scan_from(t, s1.next, false, p2);
            assert(kinds(s1.tokens) =~= kinds(s2.tokens));
            assert(kinds(s1.tokens + r1.0) =~= kinds(s1.tokens) + kinds(r1.0));
            assert(kinds(s2.tokens + r2.0) =~= kinds(s2.tokens) + kinds(r2.0));
        }
    }
}

proof fn lemma_line_end_at(b: Seq<u8>, pos: int, le: int)
    requires
        0 <= pos <= le < b.len(),
        b[le] == 0x0a,
        forall|k: int| pos <= k < le ==> b[k] != 0x0a,
    ensures
        line_end(b, pos) == le,
    decreases le - pos,
{
    if pos < le {
        lemma_line_end_at(b, pos + 1, le);
    }
}

proof fn lemma_scan_has_no_eof(t: Seq<u8>, i: int, at_start: bool, p: LinePlace)
    requires
        0 <= i,
    ensures
        forall|k: int|
            0 <= k < scan_from(t, i, at_start, p).0.len() ==> (#[trigger] scan_from(
                t,
                i,
                at_start,
                p,
            ).0[k]).0 != TokenKind::Eof,
    decreases t.len() - i,
{
    if i < t.len() {
        let all = scan_from(t, i, at_start, p);
        if is_blank(t[i]) {
            lemma_scan_has_no_eof(t, i + 1, at_start, p);
            assert(all == scan_from(t, i + 1, at_start, p));
        } else {
            reveal(scan_step);
            let st = scan_step(t, i, at_start, p);
            lemma_step_advances(t, i, at_start, p);
            lemma_scan_has_no_eof(t, st.next, false, p);
            let rest = scan_from(t, st.next, false, p);
            assert(all.0 == st.tokens + rest.0);
            assert forall|k: int| 0 <= k < all.0.len() implies (#[trigger] all.0[k]).0
                != TokenKind::Eof by {
                if k >= st.tokens.len() {
                    assert(all.0[k] == rest.0[k - st.tokens.len()]);
                } else {
                    assert(all.0[k] == st.tokens[k]);
                }
            }
        }
    }
}

proof fn lemma_scan_models_no_eof(b: Seq<u8>, ms: Seq<LineModel>)
    ensures
        forall|k: int|
            0 <= k < scan_models(b, ms).0.len() ==> (#[trigger] scan_models(b, ms).0[k]).0
                != TokenKind::Eof,
    decreases ms.len(),
{
    if ms.len() > 0 {
        let init = ms.drop_last();
        lemma_scan_models_no_eof(b, init);
        let m = ms.last();
        lemma_scan_has_no_eof(b.subrange(m.start, m.end), 0, true, model_place(m));
        let before = scan_models(b, init);
        let last = scan_model(b, m);
        let all = scan_models(b, ms);
        assert forall|k: int| 0 <= k < all.0.len() implies (#[trigger] all.0[k]).0
            != TokenKind::Eof by {
            if k < before.0.len() {
                assert(all.0[k] == before.0[k]);
            } else {
                assert(all.0[k] == last.0[k - before.0.len()]);
            }
        }
    }
}

/// Every token is on a line and a column numbered from 1, and the final
/// `Eof` is the only `Eof`.
pub proof fn tokens_have_positions_and_one_eof(b: Seq<u8>, format: SourceFormat)
    requires
        b.len() <= usize::MAX,
    ensures
        forall|k: int|
            0 <= k < lex_spec(b, format).0.len() ==> (#[trigger] lex_spec(b, format).0[k]).1.line
                >= 1 && lex_spec(b, format).0[k].1.column >= 1,
        forall|k: int|
            0 <= k < lex_spec(b, format).0.len() - 1 ==> (#[trigger] lex_spec(b, format).0[k]).0
                != TokenKind::Eof,
        lex_spec(b, format).0.last().0 == TokenKind::Eof,
{
    let ms = match format {
        SourceFormat::Fixed => fixed_lines(b).0,
        SourceFormat::Free => free_lines(b).0,
    };
    lemma_fixed_models(b, 0, 1);
    lemma_free_models(b, 0, 1);
    eof_follows_the_last_physical_line(b, format);
    lemma_scan_models_no_eof(b, ms);
    let tok = |sp: Span| sp.line >= 1 && sp.column >= 1;
    let err = |e: LexerError| true;
    assert forall|j: int, k: int|
        0 <= j < ms.len() && 0 <= k < scan_model(b, ms[j]).0.len() implies tok(
            #[trigger] scan_model(b, ms[j]).0[k].1,
        ) by {
        lemma_model_scan_spans(b, ms[j]);
        assert(span_in_line(
            scan_model(b, ms[j]).0[k].1,
            model_place(ms[j]),
            0,
            ms[j].end - ms[j].start,
        ));
    }
    lemma_scan_models_all(b, ms, tok, err);
    let s = scan_models(b, ms);
    let out = lex_spec(b, format);
    let eof_line = match format {
        SourceFormat::Fixed => fixed_lines(b).2,
        SourceFormat::Free => free_lines(b).1,
    };
    assert(out.0 == s.0.push(eof_token(b, eof_line)));
    assert forall|k: int| 0 <= k < out.0.len() implies (#[trigger] out.0[k]).1.line >= 1
        && out.0[k].1.column >= 1 by {
        if k < s.0.len() {
            assert(out.0[k] == s.0[k]);
            assert(tok(s.0[k].1));
        }
    }
    assert forall|k: int| 0 <= k < out.0.len() - 1 implies (#[trigger] out.0[k]).0
        != TokenKind::Eof by {
        assert(out.0[k] == s.0[k]);
    }
}

/// The bytes of the logical lines `ms` of `b`, in order.
pub open spec fn texts_of(b: Seq<u8>, ms: Seq<LineModel>) -> Seq<Seq<u8>> {
    Seq::new(ms.len(), |k: int| b.subrange(ms[k].start, ms[k].end))
}

/// Where a line is placed when only its bytes matter.
pub open spec fn no_place() -> LinePlace {
    LinePlace { base: 0, line: 0, col: 0 }
}

/// The token kinds of the lines `ts`, scanned one after the other.
pub open spec fn text_kinds(ts: Seq<Seq<u8>>) -> Seq<TokenKind>
    decreases ts.len(),
{
    if ts.len() == 0 {
        seq![]
    } else {
        text_kinds(ts.drop_last()) + kinds(scan_from(ts.last(), 0, true, no_place()).0)
    }
}

/// The number of errors of the lines `ts`, scanned one after the other.
pub open spec fn text_error_count(ts: Seq<Seq<u8>>) -> nat
    decreases ts.len(),
{
    if ts.len() == 0 {
        0
    } else {
        text_error_count(ts.drop_last()) + scan_from(ts.last(), 0, true, no_place()).1.len()
    }
}

proof fn lemma_kinds_concat(a: Seq<(TokenKind, Span)>, c: Seq<(TokenKind, Span)>)
    ensures
        kinds(a + c) == kinds(a) + kinds(c),
{
    assert(kinds(a + c) =~= kinds(a) + kinds(c));
}

/// The kinds and error count of a scan of logical lines depend only on the
/// lines' bytes.
proof fn lemma_scan_models_texts(b: Seq<u8>, ms: Seq<LineModel>)
    ensures
        kinds(scan_models(b, ms).0) == text_kinds(texts_of(b, ms)),
        scan_models(b, ms).1.len() == text_error_count(texts_of(b, ms)),
    decreases ms.len(),
{
    if ms.len() > 0 {
        let init = ms.drop_last();
        lemma_scan_models_texts(b, init);
        assert(texts_of(b, ms).drop_last() =~= texts_of(b, init));
        let m = ms.last();
        let t = b.subrange(m.start, m.end);
        assert(texts_of(b, ms).last() == t);
        scan_kinds_ignore_placement(t, 0, true, model_place(m), no_place());
        lemma_kinds_concat(scan_models(b, init).0, scan_model(b, m).0);
    }
}

proof fn lemma_texts_of_concat(b: Seq<u8>, x: Seq<LineModel>, y: Seq<LineModel>)
    ensures
        texts_of(b, x + y) == texts_of(b, x) + texts_of(b, y),
{
    assert(texts_of(b, x + y) =~= texts_of(b, x) + texts_of(b, y));
}

proof fn lemma_line_end_shift(r: Seq<u8>, s: Seq<u8>, pos: int)
    requires
        0 <= pos <= s.len(),
    ensures
        line_end(r + s, r.len() + pos) == r.len() + line_end(s, pos),
    decreases s.len() - pos,
{
    if pos < s.len() {
        assert((r + s)[r.len() + pos] == s[pos]);
        lemma_line_end_shift(r, s, pos + 1);
    }
}

proof fn lemma_back_shift(r: Seq<u8>, s: Seq<u8>, lo: int, i: int)
    requires
        0 <= lo <= i <= s.len(),
    ensures
        back_to_char_start(r + s, r.len() + lo, r.len() + i) == r.len() + back_to_char_start(
            s,
            lo,
            i,
        ),
    decreases i - lo,
{
    if i < s.len() {
        assert((r + s)[r.len() + i] == s[i]);
    }
    if i > lo && i < s.len() && is_continuation_byte(s[i]) {
        lemma_back_shift(r, s, lo, i - 1);
    }
}

/// The fixed-format pass reads a line the same behind any prefix `r`.
proof fn lemma_fixed_shift(r: Seq<u8>, s: Seq<u8>, pos: int, n: u32)
    requires
        0 <= pos,
    ensures
        texts_of(r + s, fixed_lines_from(r + s, r.len() + pos, n).0) == texts_of(
            s,
            fixed_lines_from(s, pos, n).0,
        ),
        fixed_lines_from(r + s, r.len() + pos, n).1.len() == fixed_lines_from(s, pos, n).1.len(),
    decreases s.len() + 1 - pos,
{
    let b = r + s;
    let q = r.len() + pos;
    if pos < s.len() {
        let le = line_end(s, pos);
        lemma_line_end_bounds(s, pos);
        lemma_line_end_shift(r, s, pos);
        let ce = content_end(s, pos, le);
        if le > pos {
            assert(b[r.len() + le - 1] == s[le - 1]);
        }
        assert(content_end(b, q, r.len() + le) == r.len() + ce);
        let hs = fixed_line(s, pos, ce, n);
        let hb = fixed_line(b, q, r.len() + ce, n);
        if ce - pos >= 8 {
            assert(b[q + 6] == s[pos + 6]);
            let cut = if ce - pos < 72 {
                ce
            } else {
                pos + 72
            };
            lemma_back_shift(r, s, pos + 7, cut);
            let te = back_to_char_start(s, pos + 7, cut);
            lemma_back_bounds(s, pos + 7, cut);
            assert(b.subrange(q + 7, r.len() + te) =~= s.subrange(pos + 7, te));
        }
        assert(texts_of(b, hb.0) =~= texts_of(s, hs.0));
        lemma_fixed_shift(r, s, le + 1, n.saturating_add(1));
        let rb = fixed_lines_from(b, r.len() + (le + 1), n.saturating_add(1));
        let rs = fixed_lines_from(s, le + 1, n.saturating_add(1));
        assert(fixed_lines_from(b, q, n).0 == hb.0 + rb.0);
        assert(fixed_lines_from(s, pos, n).0 == hs.0 + rs.0);
        lemma_texts_of_concat(b, hb.0, rb.0);
        lemma_texts_of_concat(s, hs.0, rs.0);
    }
}

/// The free-format pass reads a line the same behind any prefix `r`.
proof fn lemma_free_shift(r: Seq<u8>, s: Seq<u8>, pos: int, n: u32)
    requires
        0 <= pos,
    ensures
        texts_of(r + s, free_lines_from(r + s, r.len() + pos, n).0) == texts_of(
            s,
            free_lines_from(s, pos, n).0,
        ),
    decreases s.len() + 1 - pos,
{
    let b = r + s;
    let q = r.len() + pos;
    if pos < s.len() {
        let le = line_end(s, pos);
        lemma_line_end_bounds(s, pos);
        lemma_line_end_shift(r, s, pos);
        let ce = content_end(s, pos, le);
        if le > pos {
            assert(b[r.len() + le - 1] == s[le - 1]);
        }
        assert(content_end(b, q, r.len() + le) == r.len() + ce);
        assert(b.subrange(q, r.len() + ce) =~= s.subrange(pos, ce));
        lemma_comment_from_marker(s.subrange(pos, ce), 0, None);
        let te = code_end(s, pos, ce);
        assert(code_end(b, q, r.len() + ce) == r.len() + te);
        assert(b.subrange(q, r.len() + te) =~= s.subrange(pos, te));
        let hs = free_line(s, pos, ce, n);
        let hb = free_line(b, q, r.len() + ce, n);
        assert(texts_of(b, hb) =~= texts_of(s, hs));
        lemma_free_shift(r, s, le + 1, n.saturating_add(1));
        let rb = free_lines_from(b, r.len() + (le + 1), n.saturating_add(1));
        let rs = free_lines_from(s, le + 1, n.saturating_add(1));
        assert(free_lines_from(b, q, n).0 == hb + rb.0);
        assert(free_lines_from(s, pos, n).0 == hs + rs.0);
        lemma_texts_of_concat(b, hb, rb.0);
        lemma_texts_of_concat(s, hs, rs.0);
    }
}

/// One line of a source written in both formats: a comment line, or a line
/// of code.
pub struct ParityLine {
    pub comment: bool,
    pub body: Seq<u8>,
}

/// A line of code both formats read whole: 1 to 65 bytes, no newline, not
/// ending in a carriage return, no inline comment, not a directive, not
/// white space only.
pub open spec fn code_line(c: Seq<u8>) -> bool {
    &&& 1 <= c.len() <= 65
    &&& forall|k: int| 0 <= k < c.len() ==> c[k] != 0x0a
    &&& c.last() != 0x0d
    &&& comment_from(c, 0, None) is None
    &&& !is_directive(c)
    &&& !all_white_space(decode_utf8(c))
}

/// A blank line: at most 65 bytes, each a blank or a tab (possibly none).
pub open spec fn blank_line(c: Seq<u8>) -> bool {
    &&& c.len() <= 65
    &&& forall|k: int| 0 <= k < c.len() ==> is_blank(#[trigger] c[k])
}

/// A comment line has a body without newlines; any other line is a
/// `code_line` or a `blank_line`.
pub open spec fn parity_line(l: ParityLine) -> bool {
    &&& forall|k: int| 0 <= k < l.body.len() ==> l.body[k] != 0x0a
    &&& !l.comment ==> code_line(l.body) || blank_line(l.body)
}

/// The fixed-format physical line: a blank sequence area, then `*` and the
/// body for a comment, or a blank indicator and the code.
pub open spec fn fixed_rendering(l: ParityLine) -> Seq<u8> {
    if l.comment {
        Seq::new(6, |_k: int| 0x20u8) + seq![0x2au8] + l.body + seq![0x0au8]
    } else {
        Seq::new(7, |_k: int| 0x20u8) + l.body + seq![0x0au8]
    }
}

/// The free-format physical line: `*>` and the body for a comment, or the
/// code alone.
pub open spec fn free_rendering(l: ParityLine) -> Seq<u8> {
    if l.comment {
        seq![0x2au8, 0x3eu8] + l.body + seq![0x0au8]
    } else {
        l.body + seq![0x0au8]
    }
}

pub open spec fn fixed_source_of(ls: Seq<ParityLine>) -> Seq<u8>
    decreases ls.len(),
{
    if ls.len() == 0 {
        seq![]
    } else {
        fixed_rendering(ls[0]) + fixed_source_of(ls.drop_first())
    }
}

pub open spec fn free_source_of(ls: Seq<ParityLine>) -> Seq<u8>
    decreases ls.len(),
{
    if ls.len() == 0 {
        seq![]
    } else {
        free_rendering(ls[0]) + free_source_of(ls.drop_first())
    }
}

/// The bodies of the lines of `ls` that are not comments and not blank, in
/// order.
pub open spec fn code_bodies(ls: Seq<ParityLine>) -> Seq<Seq<u8>>
    decreases ls.len(),
{
    if ls.len() == 0 {
        seq![]
    } else if ls[0].comment || blank_line(ls[0].body) {
        code_bodies(ls.drop_first())
    } else {
        seq![ls[0].body] + code_bodies(ls.drop_first())
    }
}

/// The bodies of the lines of `ls` that are not comments and not empty, in
/// order: the texts the fixed-format pass keeps.
pub open spec fn fixed_bodies(ls: Seq<ParityLine>) -> Seq<Seq<u8>>
    decreases ls.len(),
{
    if ls.len() == 0 {
        seq![]
    } else if ls[0].comment || ls[0].body.len() == 0 {
        fixed_bodies(ls.drop_first())
    } else {
        seq![ls[0].body] + fixed_bodies(ls.drop_first())
    }
}

proof fn lemma_blanks_run_to_end(t: Seq<u8>, j: int)
    requires
        0 <= j <= t.len(),
        forall|k: int| 0 <= k < t.len() ==> is_blank(#[trigger] t[k]),
    ensures
        blanks_end(t, j) == t.len(),
    decreases t.len() - j,
{
    if j < t.len() {
        assert(is_blank(t[j]));
        lemma_blanks_run_to_end(t, j + 1);
    }
}

/// Blanks and tabs decode to white space.
proof fn lemma_blank_decodes(c: Seq<u8>)
    requires
        forall|k: int| 0 <= k < c.len() ==> is_blank(#[trigger] c[k]),
    ensures
        valid_utf8(c),
        all_white_space(decode_utf8(c)),
    decreases c.len(),
{
    if c.len() > 0 {
        let x = c[0];
        assert(is_blank(x));
        assert(x & 0x7f == x) by (bit_vector)
            requires
                x == 0x20 || x == 0x09,
        ;
        let rest = pop_first_scalar(c);
        assert(rest =~= c.subrange(1, c.len() as int));
        assert forall|k: int| 0 <= k < rest.len() implies is_blank(#[trigger] rest[k]) by {
            assert(rest[k] == c[k + 1]);
        }
        lemma_blank_decodes(rest);
        assert(valid_first_scalar(c));
        let d = decode_utf8(c);
        assert(d == seq![decode_first_scalar(c) as char] + decode_utf8(rest));
        assert forall|k: int| 0 <= k < d.len() implies unicode_white_space(#[trigger] d[k]) by {
            if k > 0 {
                assert(d[k] == decode_utf8(rest)[k - 1]);
            }
        }
    }
}

/// A line of blanks and tabs scans to nothing.
proof fn lemma_blank_scans_empty(t: Seq<u8>, i: int, at_start: bool, p: LinePlace)
    requires
        0 <= i,
        forall|k: int| 0 <= k < t.len() ==> is_blank(#[trigger] t[k]),
    ensures
        scan_from(t, i, at_start, p).0.len() == 0,
        scan_from(t, i, at_start, p).1.len() == 0,
    decreases t.len() - i,
{
    if i < t.len() {
        assert(is_blank(t[i]));
        lemma_blank_scans_empty(t, i + 1, at_start, p);
    }
}

proof fn lemma_text_kinds_concat(a: Seq<Seq<u8>>, c: Seq<Seq<u8>>)
    ensures
        text_kinds(a + c) == text_kinds(a) + text_kinds(c),
        text_error_count(a + c) == text_error_count(a) + text_error_count(c),
    decreases c.len(),
{
    if c.len() == 0 {
        assert(a + c =~= a);
        assert(text_kinds(a) + text_kinds(c) =~= text_kinds(a));
    } else {
        lemma_text_kinds_concat(a, c.drop_last());
        assert((a + c).drop_last() =~= a + c.drop_last());
        assert((a + c).last() == c.last());
        let k = kinds(scan_from(c.last(), 0, true, no_place()).0);
        assert(text_kinds(a) + text_kinds(c.drop_last()) + k =~= text_kinds(a) + (text_kinds(
            c.drop_last(),
        ) + k));
    }
}

/// Blank lines add no token and no error: the fixed-format texts, which
/// keep them, scan like the free-format texts, which drop them.
proof fn lemma_blank_texts_add_nothing(ls: Seq<ParityLine>)
    requires
        forall|j: int| 0 <= j < ls.len() ==> parity_line(#[trigger] ls[j]),
    ensures
        text_kinds(fixed_bodies(ls)) == text_kinds(code_bodies(ls)),
        text_error_count(fixed_bodies(ls)) == text_error_count(code_bodies(ls)),
    decreases ls.len(),
{
    if ls.len() > 0 {
        let l = ls[0];
        let rest = ls.drop_first();
        assert forall|j: int| 0 <= j < rest.len() implies parity_line(#[trigger] rest[j]) by {
            assert(rest[j] == ls[j + 1]);
        }
        lemma_blank_texts_add_nothing(rest);
        let one = seq![l.body];
        lemma_text_kinds_concat(one, fixed_bodies(rest));
        lemma_text_kinds_concat(one, code_bodies(rest));
        assert(one.drop_last() =~= Seq::<Seq<u8>>::empty());
        if !l.comment && blank_line(l.body) {
            lemma_blank_scans_empty(l.body, 0, true, no_place());
            assert(kinds(scan_from(l.body, 0, true, no_place()).0) =~= Seq::<TokenKind>::empty());
            assert(one.last() == l.body);
            assert(text_kinds(one.drop_last()) =~= Seq::<TokenKind>::empty());
            assert(text_error_count(one.drop_last()) == 0);
            assert(text_kinds(one) =~= Seq::<TokenKind>::empty());
            assert(text_error_count(one) == 0);
            assert(text_kinds(one) + text_kinds(fixed_bodies(rest)) =~= text_kinds(
                fixed_bodies(rest),
            ));
        }
    }
}

proof fn lemma_fixed_parity_source(ls: Seq<ParityLine>, n: u32)
    requires
        forall|j: int| 0 <= j < ls.len() ==> parity_line(#[trigger] ls[j]),
    ensures
        texts_of(fixed_source_of(ls), fixed_lines_from(fixed_source_of(ls), 0, n).0)
            == fixed_bodies(ls),
        fixed_lines_from(fixed_source_of(ls), 0, n).1.len() == 0,
    decreases ls.len(),
{
    if ls.len() > 0 {
        let l = ls[0];
        let rest = ls.drop_first();
        assert forall|j: int| 0 <= j < rest.len() implies parity_line(#[trigger] rest[j]) by {
            assert(rest[j] == ls[j + 1]);
        }
        assert(parity_line(ls[0]));
        lemma_fixed_parity_source(rest, n.saturating_add(1));
        let r = fixed_rendering(l);
        let s = fixed_source_of(rest);
        let b = fixed_source_of(ls);
        assert(b == r + s);
        let m = l.body.len() as int;
        let le = r.len() - 1;
        assert forall|k: int| 0 <= k < le implies b[k] != 0x0a by {
            assert(b[k] == r[k]);
            if l.comment {
                if k >= 7 {
                    assert(r[k] == l.body[k - 7]);
                }
            } else {
                if k >= 7 {
                    assert(r[k] == l.body[k - 7]);
                }
            }
        }
        assert(b[le] == r[le]);
        lemma_line_end_at(b, 0, le);
        let ce = content_end(b, 0, le);
        let here = fixed_line(b, 0, ce, n);
        if l.comment {
            assert(b[6] == 0x2au8);
            assert(here.0.len() == 0);
            assert(here.1.len() == 0);
        } else if m == 0 {
            assert(b[le - 1] == 0x20u8);
            assert(ce == 7);
            assert(here.0.len() == 0);
            assert(here.1.len() == 0);
        } else {
            assert(b[le - 1] == l.body.last());
            assert(l.body.last() == l.body[m - 1]);
            assert(ce == 7 + m);
            assert(b[6] == 0x20u8);
            assert(back_to_char_start(b, 7, 7 + m) == 7 + m);
            assert(here.0 == seq![LineModel { start: 7, end: 7 + m, line: n, col: 8 }]);
            assert(here.1.len() == 0);
            assert(b.subrange(7, 7 + m) =~= l.body);
            assert(texts_of(b, here.0) =~= seq![l.body]);
        }
        lemma_fixed_shift(r, s, 0, n.saturating_add(1));
        assert(r.len() + 0 == le + 1);
        let rb = fixed_lines_from(b, le + 1, n.saturating_add(1));
        assert(fixed_lines_from(b, 0, n).0 == here.0 + rb.0);
        assert(fixed_lines_from(b, 0, n).1 == here.1 + rb.1);
        lemma_texts_of_concat(b, here.0, rb.0);
        if l.comment || m == 0 {
            assert(texts_of(b, here.0) =~= Seq::<Seq<u8>>::empty());
            assert(texts_of(b, fixed_lines_from(b, 0, n).0) =~= fixed_bodies(ls));
        } else {
            assert(texts_of(b, fixed_lines_from(b, 0, n).0) =~= fixed_bodies(ls));
        }
    }
}

proof fn lemma_free_parity_source(ls: Seq<ParityLine>, n: u32)
    requires
        forall|j: int| 0 <= j < ls.len() ==> parity_line(#[trigger] ls[j]),
    ensures
        texts_of(free_source_of(ls), free_lines_from(free_source_of(ls), 0, n).0)
            == code_bodies(ls),
    decreases ls.len(),
{
    if ls.len() > 0 {
        let l = ls[0];
        let rest = ls.drop_first();
        assert forall|j: int| 0 <= j < rest.len() implies parity_line(#[trigger] rest[j]) by {
            assert(rest[j] == ls[j + 1]);
        }
        assert(parity_line(ls[0]));
        lemma_free_parity_source(rest, n.saturating_add(1));
        let r = free_rendering(l);
        let s = free_source_of(rest);
        let b = free_source_of(ls);
        assert(b == r + s);
        let m = l.body.len() as int;
        let le = r.len() - 1;
        assert forall|k: int| 0 <= k < le implies b[k] != 0x0a by {
            assert(b[k] == r[k]);
            if l.comment {
                if k >= 2 {
                    assert(r[k] == l.body[k - 2]);
                }
            } else {
                assert(r[k] == l.body[k]);
            }
        }
        assert(b[le] == r[le]);
        lemma_line_end_at(b, 0, le);
        let ce = content_end(b, 0, le);
        let here = free_line(b, 0, ce, n);
        if l.comment {
            let phys = b.subrange(0, ce);
            assert(ce >= 2);
            assert(phys[0] == 0x2au8);
            assert(phys[1] == 0x3eu8);
            assert(blanks_end(phys, 0) == 0);
            assert(!is_directive(phys));
            assert(comment_from(phys, 0, None) == Some(0int));
            assert(code_end(b, 0, ce) == 0);
            assert(b.subrange(0, 0) =~= Seq::<u8>::empty());
            assert(decode_utf8(Seq::<u8>::empty()) =~= Seq::<char>::empty());
            assert(here.len() == 0);
        } else if blank_line(l.body) {
            if m > 0 {
                assert(b[le - 1] == l.body[m - 1]);
            }
            assert(ce == m);
            let phys = b.subrange(0, ce);
            assert(phys =~= l.body);
            lemma_blanks_run_to_end(phys, 0);
            assert(!is_directive(phys));
            lemma_comment_without_quotes_from(phys, 0);
            if comment_from(phys, 0, None) is Some {
                let k = comment_from(phys, 0, None)->0;
                assert(is_blank(phys[k]));
            }
            assert(code_end(b, 0, ce) == m);
            lemma_blank_decodes(l.body);
            assert(here.len() == 0);
        } else {
            assert(b[le - 1] == l.body.last());
            assert(ce == m);
            assert(b.subrange(0, m) =~= l.body);
            assert(code_end(b, 0, m) == m);
            assert(here == seq![LineModel { start: 0, end: m, line: n, col: 1 }]);
            assert(texts_of(b, here) =~= seq![l.body]);
        }
        lemma_free_shift(r, s, 0, n.saturating_add(1));
        let rb = free_lines_from(b, le + 1, n.saturating_add(1));
        assert(free_lines_from(b, 0, n).0 == here + rb.0);
        lemma_texts_of_concat(b, here, rb.0);
        if l.comment || blank_line(l.body) {
            assert(texts_of(b, here) =~= Seq::<Seq<u8>>::empty());
            assert(texts_of(b, free_lines_from(b, 0, n).0) =~= code_bodies(ls));
        } else {
            assert(texts_of(b, free_lines_from(b, 0, n).0) =~= code_bodies(ls));
        }
    }
}

/// The same copybook reads the same in both formats. Write each line either
/// as a comment (`*` in the indicator column in fixed format, `*>` in free
/// format) or as a line of code (behind a blank sequence area and a blank
/// indicator in fixed format, alone in free format). A line of code has at
/// most 65 bytes and is either blank (empty, or only blanks and tabs) or
/// neither a directive, nor white space only, nor holding an inline
/// comment. Then both formats give the same token kinds, `Eof` included,
/// and the same number of errors; only the spans differ.
pub proof fn fixed_and_free_agree(ls: Seq<ParityLine>)
    requires
        forall|j: int| 0 <= j < ls.len() ==> parity_line(#[trigger] ls[j]),
    ensures
        kinds(lex_spec(fixed_source_of(ls), SourceFormat::Fixed).0) == kinds(
            lex_spec(free_source_of(ls), SourceFormat::Free).0,
        ),
        lex_spec(fixed_source_of(ls), SourceFormat::Fixed).1.len() == lex_spec(
            free_source_of(ls),
            SourceFormat::Free,
        ).1.len(),
{
    let fb = fixed_source_of(ls);
    let rb = free_source_of(ls);
    lemma_fixed_parity_source(ls, 1);
    lemma_free_parity_source(ls, 1);
    lemma_blank_texts_add_nothing(ls);
    lemma_scan_models_texts(fb, fixed_lines(fb).0);
    lemma_scan_models_texts(rb, free_lines(rb).0);
    let sf = scan_models(fb, fixed_lines(fb).0);
    let sr = scan_models(rb, free_lines(rb).0);
    let ef = eof_token(fb, fixed_lines(fb).2);
    let er = eof_token(rb, free_lines(rb).1);
    assert(kinds(sf.0.push(ef)) =~= kinds(sf.0).push(ef.0));
    assert(kinds(sr.0.push(er)) =~= kinds(sr.0).push(er.0));
}

/// A `*>` marker starts at offset `k` of `t`.
pub open spec fn has_marker_at(t: Seq<u8>, k: int) -> bool {
    0 <= k && k + 1 < t.len() && t[k] == 0x2a && t[k + 1] == 0x3e
}

proof fn lemma_comment_without_quotes_from(t: Seq<u8>, i: int)
    requires
        0 <= i,
        forall|k: int| 0 <= k < t.len() ==> t[k] != 0x27 && t[k] != 0x22,
    ensures
        comment_from(t, i, None) matches Some(k) ==> has_marker_at(t, k) && forall|j: int|
            i <= j < k ==> !has_marker_at(t, j),
        comment_from(t, i, None) is None ==> forall|j: int| i <= j ==> !has_marker_at(t, j),
    decreases t.len() - i,
{
    if i < t.len() {
        lemma_comment_without_quotes_from(t, i + 1);
    }
}

/// On a line without quote characters, the inline comment starts at the
/// first `*>`, and there is none when the line holds no `*>`.
pub proof fn comment_start_without_quotes_is_first_marker(t: Seq<u8>)
    requires
        forall|k: int| 0 <= k < t.len() ==> t[k] != 0x27 && t[k] != 0x22,
    ensures
        comment_from(t, 0, None) matches Some(k) ==> has_marker_at(t, k) && forall|j: int|
            0 <= j < k ==> !has_marker_at(t, j),
        comment_from(t, 0, None) is None ==> forall|j: int| !has_marker_at(t, j),
{
    lemma_comment_without_quotes_from(t, 0);
}

/// `pos` is the first offset of a physical line of `b`.
pub open spec fn starts_line(b: Seq<u8>, pos: int) -> bool {
    0 <= pos < b.len() && (pos == 0 || b[pos - 1] == 0x0a)
}

proof fn lemma_short_lines_from(b: Seq<u8>, pos: int, n: u32)
    requires
        0 <= pos,
        pos < b.len() ==> starts_line(b, pos),
        forall|q: int| #[trigger]
            starts_line(b, q) ==> content_end(b, q, line_end(b, q)) - q < 8,
    ensures
        fixed_lines_from(b, pos, n).0.len() == 0,
        fixed_lines_from(b, pos, n).1.len() == 0,
    decreases b.len() + 1 - pos,
{
    if pos < b.len() {
        let le = line_end(b, pos);
        lemma_line_end_bounds(b, pos);
        assert(starts_line(b, pos));
        if le + 1 < b.len() {
            assert(b[le] == 0x0a);
            assert(starts_line(b, le + 1));
        }
        lemma_short_lines_from(b, le + 1, n.saturating_add(1));
    }
}

/// Lines shorter than 8 bytes cannot carry code: a fixed-format source
/// whose physical lines are all shorter than that yields no logical line
/// and no error.
pub proof fn short_lines_are_skipped(b: Seq<u8>)
    requires
        forall|q: int| #[trigger]
            starts_line(b, q) ==> content_end(b, q, line_end(b, q)) - q < 8,
    ensures
        fixed_lines(b).0.len() == 0,
        fixed_lines(b).1.len() == 0,
{
    lemma_short_lines_from(b, 0, 1);
}


/// The line-local offset `j` lies inside the span of one of `toks` or of
/// one of `errs`.
pub open spec fn covered(
    toks: Seq<(TokenKind, Span)>,
    errs: Seq<LexerError>,
    p: LinePlace,
    j: int,
) -> bool {
    ||| exists|k: int|
        0 <= k < toks.len() && (#[trigger] toks[k]).1.start - p.base <= j < toks[k].1.end - p.base
    ||| exists|k: int|
        0 <= k < errs.len() && (#[trigger] errs[k]).spec_span().start - p.base <= j
            < errs[k].spec_span().end - p.base
}

proof fn lemma_covered_shift(
    a: Seq<(TokenKind, Span)>,
    ae: Seq<LexerError>,
    r: Seq<(TokenKind, Span)>,
    re: Seq<LexerError>,
    p: LinePlace,
    j: int,
)
    requires
        covered(r, re, p, j),
    ensures
        covered(a + r, ae + re, p, j),
{
    if exists|k: int|
        0 <= k < r.len() && (#[trigger] r[k]).1.start - p.base <= j < r[k].1.end - p.base {
        let k = choose|k: int|
            0 <= k < r.len() && (#[trigger] r[k]).1.start - p.base <= j < r[k].1.end - p.base;
        assert((a + r)[a.len() + k] == r[k]);
    } else {
        let k = choose|k: int|
            0 <= k < re.len() && (#[trigger] re[k]).spec_span().start - p.base <= j
                < re[k].spec_span().end - p.base;
        assert((ae + re)[ae.len() + k] == re[k]);
    }
}

/// Scanning never stops early: every byte of a line from `i` on that is
/// not a blank or a tab lies inside the span of a token or of an error.
pub proof fn every_non_blank_byte_is_covered(t: Seq<u8>, i: int, at_start: bool, p: LinePlace)
    requires
        place_fits(t, p),
        0 <= i,
    ensures
        forall|j: int|
            i <= j < t.len() && !is_blank(#[trigger] t[j]) ==> covered(
                scan_from(t, i, at_start, p).0,
                scan_from(t, i, at_start, p).1,
                p,
                j,
            ),
    decreases t.len() - i,
{
    if i < t.len() {
        let all = scan_from(t, i, at_start, p);
        if is_blank(t[i]) {
            every_non_blank_byte_is_covered(t, i + 1, at_start, p);
            assert(all == scan_from(t, i + 1, at_start, p));
        } else {
            reveal(scan_step);
            let st = scan_step(t, i, at_start, p);
            lemma_step_advances(t, i, at_start, p);
            lemma_raw_token_end(t, i);
            every_non_blank_byte_is_covered(t, st.next, false, p);
            let rest = scan_from(t, st.next, false, p);
            assert(all.0 == st.tokens + rest.0);
            assert(all.1 == st.errors + rest.1);
            let (raw, e) = raw_token(t, i);
            lemma_span_at_in_line(t, p, i, e, i, e);
            if raw == RawToken::Identifier {
                lemma_blanks_end_bounds(t, e);
                let s = blanks_end(t, e);
                lemma_picture_end_bounds(t, s);
                let pe = picture_end(t, s);
                lemma_span_at_in_line(t, p, s, pe, s, pe);
            }
            assert forall|j: int| i <= j < t.len() && !is_blank(#[trigger] t[j]) implies covered(
                all.0,
                all.1,
                p,
                j,
            ) by {
                if j >= st.next {
                    lemma_covered_shift(st.tokens, st.errors, rest.0, rest.1, p, j);
                } else if j < e {
                    if st.tokens.len() > 0 {
                        assert(all.0[0] == st.tokens[0]);
                    } else {
                        assert(all.1[0] == st.errors[0]);
                    }
                } else {
                    let s = blanks_end(t, e);
                    assert(all.0[1] == st.tokens[1]);
                }
            }
        }
    }
}

} // verus!
