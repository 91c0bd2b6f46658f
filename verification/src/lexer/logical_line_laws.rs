//! Properties of the two passes from physical to logical lines.
use crate::lexer::fixed_format::{
    back_to_char_start, content_end, fixed_line, fixed_lines, fixed_lines_from, lemma_line_end_bounds, line_end,
    LineModel,
};
use crate::error::LexerError;
use crate::lexer::free_format::{
    all_white_space, code_end, free_line, free_lines, free_lines_from, is_directive,
    lemma_comment_from_marker,
};
use crate::lexer::properties::{lemma_back_bounds, lemma_fixed_models, lemma_free_models, starts_line};
use crate::lexer::scanner::{blanks_end, is_blank, lemma_blanks_end_bounds};
use crate::span::Span;
use vstd::prelude::*;
use vstd::utf8::{decode_utf8, is_continuation_byte};

verus! {

/// Each line of `ms` ends before the next one starts, and has a smaller
/// line number.
pub open spec fn models_in_order(ms: Seq<LineModel>) -> bool {
    forall|k: int|
        0 <= k && k + 1 < ms.len() ==> (#[trigger] ms[k]).end <= ms[k + 1].start && ms[k].line
            < ms[k + 1].line
}

/// Every line of `ms` starts at or after `pos` and is numbered `n` or more.
pub open spec fn models_from(ms: Seq<LineModel>, pos: int, n: u32) -> bool {
    forall|k: int| 0 <= k < ms.len() ==> (#[trigger] ms[k]).start >= pos && ms[k].line >= n
}

proof fn lemma_join_in_order(a: Seq<LineModel>, c: Seq<LineModel>, pos: int, n: u32, le: int)
    requires
        a.len() <= 1,
        a.len() == 1 ==> a[0].start >= pos && a[0].end <= le && a[0].line == n,
        models_from(c, le + 1, (n + 1) as u32),
        n < u32::MAX,
        models_in_order(c),
        pos <= le,
    ensures
        models_in_order(a + c),
        models_from(a + c, pos, n),
{
    let all = a + c;
    assert forall|k: int| 0 <= k && k + 1 < all.len() implies (#[trigger] all[k]).end
        <= all[k + 1].start && all[k].line < all[k + 1].line by {
        if k + 1 < a.len() {
        } else if k + 1 == a.len() {
            assert(all[k] == a[k]);
            assert(all[k + 1] == c[0]);
        } else {
            assert(all[k] == c[k - a.len()]);
            assert(all[k + 1] == c[k + 1 - a.len()]);
        }
    }
    assert forall|k: int| 0 <= k < all.len() implies (#[trigger] all[k]).start >= pos
        && all[k].line >= n by {
        if k >= a.len() {
            assert(all[k] == c[k - a.len()]);
        }
    }
}

proof fn lemma_fixed_order(b: Seq<u8>, pos: int, n: u32)
    requires
        0 <= pos,
        n <= pos + 1,
        b.len() < u32::MAX,
    ensures
        models_in_order(fixed_lines_from(b, pos, n).0),
        models_from(fixed_lines_from(b, pos, n).0, pos, n),
    decreases b.len() + 1 - pos,
{
    if pos < b.len() {
        let le = line_end(b, pos);
        lemma_line_end_bounds(b, pos);
        let ce = content_end(b, pos, le);
        let here = fixed_line(b, pos, ce, n);
        lemma_fixed_order(b, le + 1, n.saturating_add(1));
        if ce - pos >= 8 {
            let cut = if ce - pos < 72 {
                ce
            } else {
                pos + 72
            };
            lemma_back_bounds(b, pos + 7, cut);
        }
        let rest = fixed_lines_from(b, le + 1, n.saturating_add(1));
        assert(fixed_lines_from(b, pos, n).0 == here.0 + rest.0);
        lemma_join_in_order(here.0, rest.0, pos, n, le);
    }
}

proof fn lemma_free_order(b: Seq<u8>, pos: int, n: u32)
    requires
        0 <= pos,
        n <= pos + 1,
        b.len() < u32::MAX,
    ensures
        models_in_order(free_lines_from(b, pos, n).0),
        models_from(free_lines_from(b, pos, n).0, pos, n),
    decreases b.len() + 1 - pos,
{
    if pos < b.len() {
        let le = line_end(b, pos);
        lemma_line_end_bounds(b, pos);
        let ce = content_end(b, pos, le);
        let here = free_line(b, pos, ce, n);
        lemma_free_order(b, le + 1, n.saturating_add(1));
        lemma_comment_from_marker(b.subrange(pos, ce), 0, None);
        assert(pos <= code_end(b, pos, ce) <= ce);
        let rest = free_lines_from(b, le + 1, n.saturating_add(1));
        assert(free_lines_from(b, pos, n).0 == here + rest.0);
        lemma_join_in_order(here, rest.0, pos, n, le);
    }
}

/// Both passes give their logical lines in source order: each line's text
/// ends before the next one's begins, and line numbers strictly increase.
/// A fixed-format line is the text of columns 8 to 72 of its physical line:
/// it starts at column 8 and holds at most 65 bytes. A free-format line
/// starts at column 1. (Line numbers are `u32`: the order holds for sources
/// shorter than `u32::MAX` bytes, where they cannot saturate.)
pub proof fn logical_lines_in_source_order(b: Seq<u8>)
    requires
        b.len() < u32::MAX,
    ensures
        models_in_order(fixed_lines(b).0),
        models_in_order(free_lines(b).0),
        forall|k: int|
            0 <= k < fixed_lines(b).0.len() ==> {
                let m = #[trigger] fixed_lines(b).0[k];
                &&& 0 <= m.start <= m.end <= b.len()
                &&& m.end - m.start <= 65
                &&& m.col == 8
            },
        forall|k: int|
            0 <= k < free_lines(b).0.len() ==> {
                let m = #[trigger] free_lines(b).0[k];
                &&& 0 <= m.start <= m.end <= b.len()
                &&& m.col == 1
            },
{
    lemma_fixed_order(b, 0, 1);
    lemma_free_order(b, 0, 1);
    lemma_fixed_models(b, 0, 1);
    lemma_free_models(b, 0, 1);
}

/// End of the content of the physical line that starts at `q`: before its
/// newline, and before a carriage return just ahead of that newline.
pub open spec fn physical_content_end(b: Seq<u8>, q: int) -> int {
    content_end(b, q, line_end(b, q))
}

/// No newline lies in `[lo, hi)`.
pub open spec fn no_newline(b: Seq<u8>, lo: int, hi: int) -> bool {
    forall|k: int| lo <= k < hi ==> b[k] != 0x0a
}

/// A fixed-format logical line is the text of a physical line behind its
/// indicator: that line starts 7 bytes before it, the indicator (column 7)
/// is a blank, `D` or `d`, and the text stays within the line's content and
/// within column 72. It reaches as far as it can: past its end, up to the
/// end of the content or column 72, lie only bytes inside the character it
/// would have split.
pub open spec fn fixed_line_read(b: Seq<u8>, m: LineModel) -> bool {
    let q = m.start - 7;
    let ce = physical_content_end(b, q);
    let cut = if ce < q + 72 {
        ce
    } else {
        q + 72
    };
    &&& starts_line(b, q)
    &&& b[q + 6] == 0x20 || b[q + 6] == 0x44 || b[q + 6] == 0x64
    &&& m.start <= m.end <= cut
    &&& forall|j: int| m.end < j <= cut ==> j < b.len() && is_continuation_byte(#[trigger] b[j])
    &&& no_newline(b, q, ce)
}

proof fn lemma_back_exact(b: Seq<u8>, lo: int, i: int)
    requires
        0 <= lo <= i,
    ensures
        lo <= back_to_char_start(b, lo, i) <= i,
        forall|j: int|
            back_to_char_start(b, lo, i) < j <= i ==> 0 <= j < b.len() && is_continuation_byte(
                #[trigger] b[j],
            ),
    decreases i - lo,
{
    if i > lo && 0 <= i < b.len() && is_continuation_byte(b[i]) {
        lemma_back_exact(b, lo, i - 1);
        let r = back_to_char_start(b, lo, i);
        assert(r == back_to_char_start(b, lo, i - 1));
        assert forall|j: int| r < j <= i implies 0 <= j < b.len() && is_continuation_byte(
            #[trigger] b[j],
        ) by {
            if j < i {
                assert(r < j <= i - 1);
                assert(0 <= j < b.len() && is_continuation_byte(b[j]));
            } else {
                assert(j == i);
            }
        }
    }
}

/// A fixed-format error marks the indicator (column 7) of a physical line
/// when it is none of blank, `D`, `d`, `*` and `/`: a null byte there is
/// `EncounteredNullByte`, any other byte `InvalidCharacter` with that byte
/// as its character; the span covers just that byte.
pub open spec fn fixed_error_read(b: Seq<u8>, e: LexerError) -> bool {
    let sp = e.spec_span();
    let q = sp.start - 6;
    let ind = b[sp.start as int];
    &&& starts_line(b, q)
    &&& physical_content_end(b, q) - q >= 8
    &&& no_newline(b, q, physical_content_end(b, q))
    &&& sp.end == sp.start + 1
    &&& sp.column == 7
    &&& ind != 0x20 && ind != 0x44 && ind != 0x64 && ind != 0x2a && ind != 0x2f
    &&& e == (if ind == 0 {
        LexerError::EncounteredNullByte { span: sp }
    } else {
        LexerError::InvalidCharacter { ch: ind as char, span: sp }
    })
}

/// A free-format logical line is a physical line up to its inline comment:
/// it starts a physical line, ends where the comment starts (or where the
/// content ends), and that line is neither a directive nor white space only.
pub open spec fn free_line_read(b: Seq<u8>, m: LineModel) -> bool {
    let ce = physical_content_end(b, m.start);
    &&& starts_line(b, m.start)
    &&& m.end == code_end(b, m.start, ce)
    &&& no_newline(b, m.start, ce)
    &&& !is_directive(b.subrange(m.start, ce))
    &&& !all_white_space(decode_utf8(b.subrange(m.start, m.end)))
}

proof fn lemma_next_line_start(b: Seq<u8>, pos: int)
    requires
        0 <= pos < b.len(),
    ensures
        line_end(b, pos) + 1 < b.len() ==> starts_line(b, line_end(b, pos) + 1),
        no_newline(b, pos, line_end(b, pos)),
        pos <= physical_content_end(b, pos) <= line_end(b, pos),
{
    lemma_line_end_bounds(b, pos);
}

proof fn lemma_fixed_read(b: Seq<u8>, pos: int, n: u32)
    requires
        0 <= pos,
        b.len() <= usize::MAX,
        pos < b.len() ==> starts_line(b, pos),
    ensures
        forall|k: int|
            0 <= k < fixed_lines_from(b, pos, n).0.len() ==> fixed_line_read(
                b,
                #[trigger] fixed_lines_from(b, pos, n).0[k],
            ),
        forall|k: int|
            0 <= k < fixed_lines_from(b, pos, n).1.len() ==> fixed_error_read(
                b,
                #[trigger] fixed_lines_from(b, pos, n).1[k],
            ),
    decreases b.len() + 1 - pos,
{
    if pos < b.len() {
        let le = line_end(b, pos);
        lemma_line_end_bounds(b, pos);
        lemma_next_line_start(b, pos);
        let ce = content_end(b, pos, le);
        let here = fixed_line(b, pos, ce, n);
        lemma_fixed_read(b, le + 1, n.saturating_add(1));
        if ce - pos >= 8 {
            let cut = if ce - pos < 72 {
                ce
            } else {
                pos + 72
            };
            lemma_back_exact(b, pos + 7, cut);
        }
        let rest = fixed_lines_from(b, le + 1, n.saturating_add(1));
        let all = fixed_lines_from(b, pos, n);
        assert(all.0 == here.0 + rest.0);
        assert(all.1 == here.1 + rest.1);
        assert forall|k: int| 0 <= k < all.0.len() implies fixed_line_read(
            b,
            #[trigger] all.0[k],
        ) by {
            if k >= here.0.len() {
                assert(all.0[k] == rest.0[k - here.0.len()]);
            }
        }
        assert forall|k: int| 0 <= k < all.1.len() implies fixed_error_read(
            b,
            #[trigger] all.1[k],
        ) by {
            if k >= here.1.len() {
                assert(all.1[k] == rest.1[k - here.1.len()]);
            }
        }
    }
}

proof fn lemma_free_read(b: Seq<u8>, pos: int, n: u32)
    requires
        0 <= pos,
        pos < b.len() ==> starts_line(b, pos),
    ensures
        forall|k: int|
            0 <= k < free_lines_from(b, pos, n).0.len() ==> free_line_read(
                b,
                #[trigger] free_lines_from(b, pos, n).0[k],
            ),
    decreases b.len() + 1 - pos,
{
    if pos < b.len() {
        let le = line_end(b, pos);
        lemma_line_end_bounds(b, pos);
        lemma_next_line_start(b, pos);
        let ce = content_end(b, pos, le);
        let here = free_line(b, pos, ce, n);
        lemma_free_read(b, le + 1, n.saturating_add(1));
        let rest = free_lines_from(b, le + 1, n.saturating_add(1));
        let all = free_lines_from(b, pos, n);
        assert(all.0 == here + rest.0);
        assert forall|k: int| 0 <= k < all.0.len() implies free_line_read(
            b,
            #[trigger] all.0[k],
        ) by {
            if k >= here.len() {
                assert(all.0[k] == rest.0[k - here.len()]);
            }
        }
    }
}

/// How each pass reads a physical line. Every fixed-format logical line is
/// the text behind a blank, `D` or `d` indicator of a physical line, within
/// column 72 and the line's content; every fixed-format error marks an
/// indicator that is none of blank, `D`, `d`, `*` and `/` on a line of at
/// least 8 bytes, as `EncounteredNullByte` for a null byte and as
/// `InvalidCharacter` with that byte otherwise. Every free-format logical
/// line is a physical line up to its inline comment, on a line that is
/// neither a directive nor white space only.
pub proof fn passes_read_physical_lines(b: Seq<u8>)
    requires
        b.len() <= usize::MAX,
    ensures
        forall|k: int|
            0 <= k < fixed_lines(b).0.len() ==> fixed_line_read(b, #[trigger] fixed_lines(b).0[k]),
        forall|k: int|
            0 <= k < fixed_lines(b).1.len() ==> fixed_error_read(b, #[trigger] fixed_lines(b).1[k]),
        forall|k: int|
            0 <= k < free_lines(b).0.len() ==> free_line_read(b, #[trigger] free_lines(b).0[k]),
{
    lemma_fixed_read(b, 0, 1);
    lemma_free_read(b, 0, 1);
}

/// The physical line at `q` has at least 8 bytes of content, so column 7
/// is its indicator.
pub open spec fn has_indicator(b: Seq<u8>, q: int) -> bool {
    starts_line(b, q) && physical_content_end(b, q) - q >= 8
}

/// An indicator byte that is none of blank, `D`, `d`, `*` and `/`.
pub open spec fn bad_indicator(c: u8) -> bool {
    c != 0x20 && c != 0x44 && c != 0x64 && c != 0x2a && c != 0x2f
}

/// The error for the bad indicator `c`: `EncounteredNullByte` for a null
/// byte, `InvalidCharacter` with `c` otherwise.
pub open spec fn indicator_error(c: u8, sp: Span) -> LexerError {
    if c == 0 {
        LexerError::EncounteredNullByte { span: sp }
    } else {
        LexerError::InvalidCharacter { ch: c as char, span: sp }
    }
}

/// Some error of `errs` is the one for the bad indicator at offset `q + 6`.
pub open spec fn reports_indicator(errs: Seq<LexerError>, b: Seq<u8>, q: int) -> bool {
    exists|k: int|
        0 <= k < errs.len() && (#[trigger] errs[k]) == indicator_error(
            b[q + 6],
            errs[k].spec_span(),
        ) && errs[k].spec_span().start == q + 6 && errs[k].spec_span().end == q + 7
            && errs[k].spec_span().column == 7
}

/// Some line of `ms` is the text behind the indicator of the line at `q`.
pub open spec fn keeps_line(ms: Seq<LineModel>, q: int) -> bool {
    exists|k: int| 0 <= k < ms.len() && (#[trigger] ms[k]).start == q + 7 && ms[k].col == 8
}

proof fn lemma_fixed_complete(b: Seq<u8>, pos: int, n: u32)
    requires
        0 <= pos,
        b.len() <= usize::MAX,
        pos < b.len() ==> starts_line(b, pos),
    ensures
        forall|q: int|
            pos <= q && #[trigger] has_indicator(b, q) && bad_indicator(b[q + 6])
                ==> reports_indicator(fixed_lines_from(b, pos, n).1, b, q),
        forall|q: int|
            pos <= q && #[trigger] has_indicator(b, q) && !bad_indicator(b[q + 6]) && b[q + 6]
                != 0x2a && b[q + 6] != 0x2f ==> keeps_line(fixed_lines_from(b, pos, n).0, q),
    decreases b.len() + 1 - pos,
{
    if pos < b.len() {
        let le = line_end(b, pos);
        lemma_line_end_bounds(b, pos);
        lemma_next_line_start(b, pos);
        let ce = content_end(b, pos, le);
        let here = fixed_line(b, pos, ce, n);
        lemma_fixed_complete(b, le + 1, n.saturating_add(1));
        let rest = fixed_lines_from(b, le + 1, n.saturating_add(1));
        let all = fixed_lines_from(b, pos, n);
        assert(all.0 == here.0 + rest.0);
        assert(all.1 == here.1 + rest.1);
        assert forall|q: int|
            pos <= q && #[trigger] has_indicator(b, q) && bad_indicator(b[q + 6])
                implies reports_indicator(all.1, b, q) by {
            if q == pos {
                assert(all.1[0] == here.1[0]);
            } else {
                assert(b[q - 1] == 0x0a);
                assert(q - 1 >= le);
                if q == le + 1 {
                    assert(starts_line(b, le + 1));
                }
                let k = choose|k: int|
                    0 <= k < rest.1.len() && (#[trigger] rest.1[k]) == indicator_error(
                        b[q + 6],
                        rest.1[k].spec_span(),
                    ) && rest.1[k].spec_span().start == q + 6 && rest.1[k].spec_span().end == q
                        + 7 && rest.1[k].spec_span().column == 7;
                assert(all.1[k + here.1.len()] == rest.1[k]);
            }
        }
        assert forall|q: int|
            pos <= q && #[trigger] has_indicator(b, q) && !bad_indicator(b[q + 6]) && b[q + 6]
                != 0x2a && b[q + 6] != 0x2f implies keeps_line(all.0, q) by {
            if q == pos {
                assert(all.0[0] == here.0[0]);
            } else {
                assert(b[q - 1] == 0x0a);
                assert(q - 1 >= le);
                let k = choose|k: int|
                    0 <= k < rest.0.len() && (#[trigger] rest.0[k]).start == q + 7
                        && rest.0[k].col == 8;
                assert(all.0[k + here.0.len()] == rest.0[k]);
            }
        }
    }
}

/// No physical line is dropped in silence. Every physical line with at
/// least 8 bytes of content whose indicator (column 7) is none of blank,
/// `D`, `d`, `*` and `/` yields an error on that byte: `EncounteredNullByte`
/// for a null byte, `InvalidCharacter` with that byte otherwise, spanning
/// just that byte at column 7. And every such line whose indicator is a
/// blank, `D` or `d` yields a logical line: the text from column 8.
pub proof fn fixed_pass_reports_every_indicator(b: Seq<u8>)
    requires
        b.len() <= usize::MAX,
    ensures
        forall|q: int|
            #[trigger] has_indicator(b, q) && bad_indicator(b[q + 6]) ==> reports_indicator(
                fixed_lines(b).1,
                b,
                q,
            ),
        forall|q: int|
            #[trigger] has_indicator(b, q) && (b[q + 6] == 0x20 || b[q + 6] == 0x44 || b[q + 6]
                == 0x64) ==> keeps_line(fixed_lines(b).0, q),
{
    lemma_fixed_complete(b, 0, 1);
    assert forall|q: int|
        #[trigger] has_indicator(b, q) && bad_indicator(b[q + 6]) implies reports_indicator(
            fixed_lines(b).1,
            b,
            q,
        ) by {
        assert(0 <= q);
    }
    assert forall|q: int|
        #[trigger] has_indicator(b, q) && (b[q + 6] == 0x20 || b[q + 6] == 0x44 || b[q + 6]
            == 0x64) implies keeps_line(fixed_lines(b).0, q) by {
        assert(0 <= q);
    }
}

/// The physical line content `phys` has `>>` at `k`, after only blanks and
/// tabs.
pub open spec fn directive_at(phys: Seq<u8>, k: int) -> bool {
    &&& 0 <= k && k + 1 < phys.len()
    &&& phys[k] == 0x3e && phys[k + 1] == 0x3e
    &&& forall|j: int| 0 <= j < k ==> is_blank(#[trigger] phys[j])
}

proof fn lemma_blanks_end_stops(t: Seq<u8>, j: int)
    requires
        0 <= j <= t.len(),
    ensures
        blanks_end(t, j) < t.len() ==> !is_blank(t[blanks_end(t, j)]),
    decreases t.len() - j,
{
    if j < t.len() && is_blank(t[j]) {
        lemma_blanks_end_stops(t, j + 1);
    }
}

/// A line is a directive exactly when its first non-blank bytes are `>>`.
proof fn lemma_directive_iff(phys: Seq<u8>)
    ensures
        is_directive(phys) <==> exists|k: int| #[trigger] directive_at(phys, k),
{
    lemma_blanks_end_bounds(phys, 0);
    lemma_blanks_end_stops(phys, 0);
    let be = blanks_end(phys, 0);
    if is_directive(phys) {
        assert(directive_at(phys, be));
    }
    if exists|k: int| #[trigger] directive_at(phys, k) {
        let k = choose|k: int| #[trigger] directive_at(phys, k);
        if be < k {
            assert(is_blank(phys[be]));
        } else if be > k {
            assert(is_blank(phys[k]));
        }
    }
}

/// The physical line at `q` is neither a directive (`>>` after only blanks
/// and tabs) nor white space only before its inline comment.
pub open spec fn free_code_line_at(b: Seq<u8>, q: int) -> bool {
    let ce = physical_content_end(b, q);
    &&& starts_line(b, q)
    &&& !(exists|k: int| #[trigger] directive_at(b.subrange(q, ce), k))
    &&& !all_white_space(decode_utf8(b.subrange(q, code_end(b, q, ce))))
}

/// Some line of `ms` is the physical line at `q` up to its inline comment.
pub open spec fn keeps_free_line(b: Seq<u8>, ms: Seq<LineModel>, q: int) -> bool {
    exists|k: int|
        0 <= k < ms.len() && (#[trigger] ms[k]).start == q && ms[k].end == code_end(
            b,
            q,
            physical_content_end(b, q),
        ) && ms[k].col == 1
}

proof fn lemma_free_complete(b: Seq<u8>, pos: int, n: u32)
    requires
        0 <= pos,
        pos < b.len() ==> starts_line(b, pos),
    ensures
        forall|q: int|
            pos <= q && #[trigger] free_code_line_at(b, q) ==> keeps_free_line(
                b,
                free_lines_from(b, pos, n).0,
                q,
            ),
    decreases b.len() + 1 - pos,
{
    if pos < b.len() {
        let le = line_end(b, pos);
        lemma_line_end_bounds(b, pos);
        lemma_next_line_start(b, pos);
        let ce = content_end(b, pos, le);
        let here = free_line(b, pos, ce, n);
        lemma_free_complete(b, le + 1, n.saturating_add(1));
        let rest = free_lines_from(b, le + 1, n.saturating_add(1));
        let all = free_lines_from(b, pos, n);
        assert(all.0 == here + rest.0);
        assert forall|q: int| pos <= q && #[trigger] free_code_line_at(b, q) implies keeps_free_line(
            b,
            all.0,
            q,
        ) by {
            if q == pos {
                lemma_directive_iff(b.subrange(pos, ce));
                assert(all.0[0] == here[0]);
            } else {
                assert(b[q - 1] == 0x0a);
                assert(q - 1 >= le);
                let k = choose|k: int|
                    0 <= k < rest.0.len() && (#[trigger] rest.0[k]).start == q && rest.0[k].end
                        == code_end(b, q, physical_content_end(b, q)) && rest.0[k].col == 1;
                assert(all.0[k + here.len()] == rest.0[k]);
            }
        }
    }
}

/// No line of code is dropped in free format, and every directive is. Every
/// physical line that is not a directive (first non-blank bytes `>>`) and
/// holds more than white space before its inline comment yields a logical
/// line: from the line's start up to the comment, at column 1. And no
/// logical line starts on a directive line.
pub proof fn free_pass_keeps_every_code_line(b: Seq<u8>)
    ensures
        forall|q: int|
            #[trigger] free_code_line_at(b, q) ==> keeps_free_line(b, free_lines(b).0, q),
        forall|k: int, d: int|
            0 <= k < free_lines(b).0.len() ==> !#[trigger] directive_at(
                b.subrange(
                    (#[trigger] free_lines(b).0[k]).start,
                    physical_content_end(b, free_lines(b).0[k].start),
                ),
                d,
            ),
{
    lemma_free_complete(b, 0, 1);
    assert forall|q: int| #[trigger] free_code_line_at(b, q) implies keeps_free_line(
        b,
        free_lines(b).0,
        q,
    ) by {
        assert(0 <= q);
    }
    lemma_free_read(b, 0, 1);
    assert forall|k: int, d: int| 0 <= k < free_lines(b).0.len() implies !#[trigger] directive_at(
        b.subrange(
            (#[trigger] free_lines(b).0[k]).start,
            physical_content_end(b, free_lines(b).0[k].start),
        ),
        d,
    ) by {
        let m = free_lines(b).0[k];
        assert(free_line_read(b, m));
        lemma_directive_iff(b.subrange(m.start, physical_content_end(b, m.start)));
    }
}

} // verus!
