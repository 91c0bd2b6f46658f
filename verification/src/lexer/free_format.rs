//! Pre-scanning pass for free-format source.
//!
//! Free format drops the card-image rules: every byte of a physical line is
//! code (no sequence area, no indicator column, no column-72 cutoff) and
//! inline comments start with `*>` and run to the end of the line. Lines
//! that hold only white space, and compiler-directing lines (first
//! non-blank bytes `>>`, such as `>>SOURCE FORMAT IS FREE` or `>>D`), give
//! no logical line. Free format does not support continuation.
use crate::error::LexerError;
use crate::lexer::fixed_format::{
    content_end, find_content_end, find_line_end, lemma_line_end_bounds,
    lemma_lines_match_concat, line_end, lines_match, make_line, LineModel, LogicalLine,
};
use crate::lexer::scanner::blanks_end;
use crate::text::{
    ascii_then_char_start, is_char_start, lemma_after_ascii, lemma_clean_start,
    lemma_str_bytes_clean, str_range,
};
use vstd::prelude::*;
use vstd::std_specs::iter::IteratorSpec;
use vstd::string::*;
use vstd::utf8::*;

verus! {

/// The quote-tracking search for `*>` from offset `i`, where `inside` is the
/// quote of the literal being read (if any). A doubled quote inside a
/// literal is an embedded quote; a lone one closes the literal; a literal
/// left open runs to the end of the line.
pub open spec fn comment_from(t: Seq<u8>, i: int, inside: Option<u8>) -> Option<int>
    decreases t.len() - i,
{
    if i < 0 || i >= t.len() {
        None
    } else {
        match inside {
            None => {
                if t[i] == 0x2a && i + 1 < t.len() && t[i + 1] == 0x3e {
                    Some(i)
                } else if t[i] == 0x27 || t[i] == 0x22 {
                    comment_from(t, i + 1, Some(t[i]))
                } else {
                    comment_from(t, i + 1, None)
                }
            },
            Some(q) => {
                if t[i] == q {
                    if i + 1 < t.len() && t[i + 1] == q {
                        comment_from(t, i + 2, Some(q))
                    } else {
                        comment_from(t, i + 1, None)
                    }
                } else {
                    comment_from(t, i + 1, Some(q))
                }
            },
        }
    }
}

/// Returns the byte offset of the `*>` that opens an inline comment on
/// `line`, or `None` if no such marker stands outside a string literal.
pub fn find_comment_start(line: &str) -> (r: Option<usize>)
    ensures
        r matches Some(k) ==> comment_from(line.spec_bytes(), 0, None) == Some(k as int),
        r is None ==> comment_from(line.spec_bytes(), 0, None) is None,
        r matches Some(k) ==> k + 1 < line.spec_bytes().len() && line.spec_bytes()[k as int]
            == 0x2a && line.spec_bytes()[k + 1] == 0x3e,
{
    proof {
        lemma_comment_from_marker(line.spec_bytes(), 0, None);
    }
    let bytes = line.as_bytes();
    let mut i: usize = 0;
    let mut inside: Option<u8> = None;
    while i < bytes.len()
        invariant
            bytes@ == line.spec_bytes(),
            i <= bytes@.len(),
            comment_from(bytes@, i as int, inside) == comment_from(bytes@, 0, None),
        decreases bytes@.len() - i,
    {
        let b = bytes[i];
        match inside {
            None => {
                if b == 0x2a && i + 1 < bytes.len() && bytes[i + 1] == 0x3e {
                    return Some(i);
                }
                if b == 0x27 || b == 0x22 {
                    inside = Some(b);
                }
                i = i + 1;
            },
            Some(q) => {
                if b == q {
                    if i + 1 < bytes.len() && bytes[i + 1] == q {
                        i = i + 2;
                    } else {
                        inside = None;
                        i = i + 1;
                    }
                } else {
                    i = i + 1;
                }
            },
        }
    }
    None
}

/// Whether `c` has the Unicode White_Space property (what `str::trim`
/// removes): tab through carriage return, space, next line, no-break space,
/// ogham space mark, en quad through hair space, line and paragraph
/// separator, narrow no-break space, medium mathematical space and
/// ideographic space.
pub open spec fn unicode_white_space(c: char) -> bool {
    let v = c as u32;
    ||| (0x09 <= v && v <= 0x0d)
    ||| v == 0x20
    ||| v == 0x85
    ||| v == 0xa0
    ||| v == 0x1680
    ||| (0x2000 <= v && v <= 0x200a)
    ||| v == 0x2028
    ||| v == 0x2029
    ||| v == 0x202f
    ||| v == 0x205f
    ||| v == 0x3000
}

/// True when `c` has the Unicode White_Space property.
pub fn char_is_white_space(c: char) -> (r: bool)
    ensures
        r == unicode_white_space(c),
{
    let v = c as u32;
    (0x09 <= v && v <= 0x0d) || v == 0x20 || v == 0x85 || v == 0xa0 || v == 0x1680 || (0x2000
        <= v && v <= 0x200a) || v == 0x2028 || v == 0x2029 || v == 0x202f || v == 0x205f || v
        == 0x3000
}

/// Every character of `s` is white space.
pub open spec fn all_white_space(s: Seq<char>) -> bool {
    forall|k: int| 0 <= k < s.len() ==> unicode_white_space(#[trigger] s[k])
}

/// True when `s` holds only white space (what `str::trim` removes).
fn is_white_space_text(s: &str) -> (r: bool)
    ensures
        r == all_white_space(s@),
{
    broadcast use {axiom_spec_iter, next_postcondition};

    let mut chars = s.chars();
    let ghost mut k: int = 0;
    loop
        invariant
            0 <= k <= s@.len(),
            chars.remaining() == s@.skip(k),
            forall|j: int| 0 <= j < k ==> unicode_white_space(#[trigger] s@[j]),
        decreases s@.len() - k,
    {
        let ghost before = chars.remaining();
        match chars.next() {
            Some(c) => {
                proof {
                    assert(before.len() > 0);
                    assert(c == s@[k]);
                }
                if !char_is_white_space(c) {
                    return false;
                }
                proof {
                    assert(s@.skip(k).drop_first() =~= s@.skip(k + 1));
                    k = k + 1;
                }
            },
            None => {
                proof {
                    assert(s@.skip(k).len() == 0);
                }
                return true;
            },
        }
    }
}

/// A compiler-directing line: its first non-blank bytes are `>>`.
pub open spec fn is_directive(phys: Seq<u8>) -> bool {
    let k = blanks_end(phys, 0);
    k + 1 < phys.len() && phys[k] == 0x3e && phys[k + 1] == 0x3e
}

/// End of the code on the physical line with content `[pos, ce)`: the
/// start of its inline comment, or `ce`.
pub open spec fn code_end(b: Seq<u8>, pos: int, ce: int) -> int {
    match comment_from(b.subrange(pos, ce), 0, None) {
        Some(off) => pos + off,
        None => ce,
    }
}

/// What the free-format pass makes of the physical line with content
/// `[pos, ce)` and number `line_no`: a logical line of the bytes before its
/// inline comment, unless the line is a directive or that text is all white
/// space.
pub open spec fn free_line(b: Seq<u8>, pos: int, ce: int, line_no: u32) -> Seq<LineModel> {
    let te = code_end(b, pos, ce);
    if is_directive(b.subrange(pos, ce)) {
        seq![]
    } else if all_white_space(decode_utf8(b.subrange(pos, te))) {
        seq![]
    } else {
        seq![LineModel { start: pos, end: te, line: line_no, col: 1 }]
    }
}

/// The free-format logical lines of `b` from offset `pos` on, and the
/// number the physical line after the last one would get.
pub open spec fn free_lines_from(b: Seq<u8>, pos: int, line_no: u32) -> (Seq<LineModel>, u32)
    decreases b.len() + 1 - pos,
{
    if pos < 0 || pos >= b.len() {
        (seq![], line_no)
    } else {
        let le = line_end(b, pos);
        let ce = content_end(b, pos, le);
        proof {
            lemma_line_end_bounds(b, pos);
        }
        let rest = free_lines_from(b, le + 1, line_no.saturating_add(1));
        (free_line(b, pos, ce, line_no) + rest.0, rest.1)
    }
}

/// The free-format pass over the whole source.
pub open spec fn free_lines(b: Seq<u8>) -> (Seq<LineModel>, u32) {
    free_lines_from(b, 0, 1)
}

pub proof fn lemma_comment_from_marker(t: Seq<u8>, i: int, inside: Option<u8>)
    ensures
        comment_from(t, i, inside) matches Some(k) ==> i <= k && k + 1 < t.len() && t[k] == 0x2a
            && t[k + 1] == 0x3e,
    decreases t.len() - i,
{
    if i < 0 || i >= t.len() {
    } else {
        match inside {
            None => {
                if t[i] == 0x2a && i + 1 < t.len() && t[i + 1] == 0x3e {
                } else if t[i] == 0x27 || t[i] == 0x22 {
                    lemma_comment_from_marker(t, i + 1, Some(t[i]));
                } else {
                    lemma_comment_from_marker(t, i + 1, None);
                }
            },
            Some(q) => {
                if t[i] == q {
                    if i + 1 < t.len() && t[i + 1] == q {
                        lemma_comment_from_marker(t, i + 2, Some(q));
                    } else {
                        lemma_comment_from_marker(t, i + 1, None);
                    }
                } else {
                    lemma_comment_from_marker(t, i + 1, Some(q));
                }
            },
        }
    }
}

fn is_directive_exec(phys: &[u8]) -> (r: bool)
    ensures
        r == is_directive(phys@),
{
    let mut k: usize = 0;
    while k < phys.len() && (phys[k] == 0x20 || phys[k] == 0x09)
        invariant
            k <= phys@.len(),
            blanks_end(phys@, k as int) == blanks_end(phys@, 0),
        decreases phys@.len() - k,
    {
        k = k + 1;
    }
    k < phys.len() && k + 1 < phys.len() && phys[k] == 0x3e && phys[k + 1] == 0x3e
}

/// Appends what the free-format pass makes of the physical line with
/// content `[pos, ce)`.
fn free_line_exec(
    source: &str,
    bytes: &[u8],
    pos: usize,
    ce: usize,
    line_no: u32,
    lines: &mut Vec<LogicalLine>,
)
    requires
        bytes@ == source.spec_bytes(),
        pos <= ce <= bytes@.len(),
        is_char_start(bytes@, pos as int),
        is_char_start(bytes@, ce as int),
        ascii_then_char_start(bytes@),
    ensures
        ({
            let here = free_line(bytes@, pos as int, ce as int, line_no);
            &&& final(lines)@.len() == old(lines)@.len() + here.len()
            &&& final(lines)@.subrange(0, old(lines)@.len() as int) == old(lines)@
            &&& lines_match(
                final(lines)@.subrange(old(lines)@.len() as int, final(lines)@.len() as int),
                here,
                bytes@,
            )
        }),
{
    let ghost b = bytes@;
    let ghost here = free_line(b, pos as int, ce as int, line_no);
    let physical = str_range(source, pos, ce);
    let pb = physical.as_bytes();
    proof {
        assert(pb@ =~= b.subrange(pos as int, ce as int));
    }
    let keep = if is_directive_exec(pb) {
        false
    } else {
        let text_end = match find_comment_start(physical) {
            Some(off) => {
                proof {
                    lemma_comment_from_marker(pb@, 0, None);
                    assert(b[pos + off] == 0x2a);
                }
                pos + off
            },
            None => ce,
        };
        let text = str_range(source, pos, text_end);
        proof {
            encode_utf8_decode_utf8(text@);
            assert(text@ == decode_utf8(b.subrange(pos as int, text_end as int)));
        }
        if is_white_space_text(text) {
            false
        } else {
            let line = make_line(source, pos, text_end, line_no, 1);
            lines.push(line);
            true
        }
    };
    proof {
        let n = old(lines)@.len() as int;
        assert(lines@.subrange(0, n) =~= old(lines)@);
        if keep {
            assert(lines@.subrange(n, lines@.len() as int) =~= seq![lines@[n]]);
        } else {
            assert(lines@.subrange(n, lines@.len() as int) =~= seq![]);
        }
    }
}

/// The free-format pass, also returning the number that the physical line
/// after the last one would get.
pub(crate) fn preprocess_counted(source: &str) -> (r: (Vec<LogicalLine>, u32))
    ensures
        lines_match(r.0@, free_lines(source.spec_bytes()).0, source.spec_bytes()),
        r.1 == free_lines(source.spec_bytes()).1,
{
    let mut lines: Vec<LogicalLine> = Vec::new();
    let bytes = source.as_bytes();
    let ghost b = bytes@;
    let mut pos: usize = 0;
    let mut line_no: u32 = 1;
    let ghost mut models: Seq<LineModel> = seq![];
    proof {
        lemma_str_bytes_clean(source);
        lemma_clean_start(b);
    }
    while pos < bytes.len()
        invariant
            b == bytes@,
            b == source.spec_bytes(),
            ascii_then_char_start(b),
            pos <= b.len(),
            is_char_start(b, pos as int),
            lines_match(lines@, models, b),
            free_lines(b).0 == models + free_lines_from(b, pos as int, line_no).0,
            free_lines(b).1 == free_lines_from(b, pos as int, line_no).1,
        decreases b.len() - pos,
    {
        let le = find_line_end(bytes, pos);
        proof {
            lemma_line_end_bounds(b, pos as int);
        }
        let ce = find_content_end(bytes, pos, le);
        proof {
            if le < b.len() {
                assert(b[le as int] == 0x0a);
            }
            if ce < le {
                assert(b[ce as int] == 0x0d);
            }
        }
        let ghost here = free_line(b, pos as int, ce as int, line_no);
        let ghost rest = free_lines_from(b, le + 1, line_no.saturating_add(1));
        let ghost old_lines = lines@;
        free_line_exec(source, bytes, pos, ce, line_no, &mut lines);
        proof {
            let new_lines = lines@.subrange(old_lines.len() as int, lines@.len() as int);
            assert(lines@ =~= old_lines + new_lines);
            lemma_lines_match_concat(old_lines, models, new_lines, here, b);
            assert(models + (here + rest.0) =~= (models + here) + rest.0);
            models = models + here;
        }
        line_no = line_no.saturating_add(1);
        if le < bytes.len() {
            proof {
                lemma_after_ascii(b, le as int);
            }
            pos = le + 1;
        } else {
            pos = le;
        }
    }
    proof {
        assert(models + free_lines_from(b, pos as int, line_no).0 =~= models);
    }
    (lines, line_no)
}

/// Splits free-format source into logical lines. Free format has no
/// preprocessor errors: there is no indicator column to reject.
pub fn preprocess(source: &str) -> (r: (Vec<LogicalLine>, Vec<LexerError>))
    ensures
        lines_match(r.0@, free_lines(source.spec_bytes()).0, source.spec_bytes()),
        r.1@ == Seq::<LexerError>::empty(),
{
    let (lines, _) = preprocess_counted(source);
    (lines, Vec::new())
}

} // verus!
