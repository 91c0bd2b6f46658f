//! Pre-scanning pass that converts raw fixed-format source into logical
//! lines containing only the cols 8-72 text area.
use crate::error::LexerError;
use crate::span::Span;
use crate::text::{
    ascii_then_char_start, is_char_start, lemma_after_ascii, lemma_char_start_is_boundary,
    lemma_valid_utf8_ascii_then_char_start, str_range,
};
use vstd::prelude::*;
use vstd::string::*;
use vstd::utf8::*;

verus! {

/// A single logical line of text ready for tokenisation.
///
/// `text` is the text area of one physical line; `segments` records where
/// each piece of `text` lives in the source text, so that a token can
/// be mapped back to an accurate span.
#[derive(Debug, Clone)]
pub struct LogicalLine {
    pub text: String,
    pub segments: Vec<Segment>,
    pub start_line: u32,
}

/// Maps a contiguous region of `LogicalLine.text` back to its
/// position in the source file.
#[derive(Debug, Clone, Copy, PartialEq, Eq, Structural)]
pub struct Segment {
    /// Byte offset within `LogicalLine.text` where this segment starts.
    pub logical_start: usize,
    /// Byte offset within the source text where this segment's
    /// first character lives.
    pub source_start: usize,
    /// Byte length of the segment (same in both logical and source
    /// coordinates).
    pub len: usize,
    /// 1-indexed physical line number of this segment's first character.
    pub source_line: u32,
    /// 1-indexed physical column of this segment's first character.
    pub source_col: u32,
}

/// A logical line made of one segment of the source bytes `b`: its text is
/// exactly the bytes `[source_start, source_start + len)` of `b`, which
/// begin and end at character starts.
pub open spec fn line_in_source(line: LogicalLine, b: Seq<u8>) -> bool {
    &&& line.segments@.len() == 1
    &&& line.segments@[0].logical_start == 0
    &&& line.segments@[0].source_line == line.start_line
    &&& line.segments@[0].source_start + line.segments@[0].len <= b.len()
    &&& encode_utf8(line.text@) == b.subrange(
        line.segments@[0].source_start as int,
        line.segments@[0].source_start + line.segments@[0].len,
    )
    &&& is_char_start(b, line.segments@[0].source_start as int)
    &&& is_char_start(b, line.segments@[0].source_start + line.segments@[0].len)
}


/// Where a logical line's text lies in the source: the byte range
/// `[start, end)`, its line number and the column of its first byte.
pub struct LineModel {
    pub start: int,
    pub end: int,
    pub line: u32,
    pub col: u32,
}

/// `line` is the logical line that `m` describes within the source bytes `b`.
pub open spec fn line_matches(line: LogicalLine, m: LineModel, b: Seq<u8>) -> bool {
    &&& 0 <= m.start <= m.end <= b.len()
    &&& encode_utf8(line.text@) == b.subrange(m.start, m.end)
    &&& line.segments@ == seq![
        Segment {
            logical_start: 0,
            source_start: m.start as usize,
            len: (m.end - m.start) as usize,
            source_line: m.line,
            source_col: m.col,
        },
    ]
    &&& line.start_line == m.line
}

/// `lines` are, one for one, the logical lines that `models` describe, and
/// each begins and ends at a character start.
pub open spec fn lines_match(lines: Seq<LogicalLine>, models: Seq<LineModel>, b: Seq<u8>) -> bool {
    &&& lines.len() == models.len()
    &&& forall|k: int|
        0 <= k < lines.len() ==> {
            &&& line_matches(#[trigger] lines[k], models[k], b)
            &&& is_char_start(b, models[k].start)
            &&& is_char_start(b, models[k].end)
        }
}

/// First offset at or after `pos` holding a newline, or the end of `b`.
pub open spec fn line_end(b: Seq<u8>, pos: int) -> int
    decreases b.len() - pos,
{
    if 0 <= pos < b.len() && b[pos] != 0x0a {
        line_end(b, pos + 1)
    } else {
        pos
    }
}

/// End of a physical line's content: the newline offset `le`, less one
/// for a carriage return just before it.
pub open spec fn content_end(b: Seq<u8>, pos: int, le: int) -> int {
    if le > pos && b[le - 1] == 0x0d {
        le - 1
    } else {
        le
    }
}

/// Walks `i` back to a character start, but not below `lo`.
pub open spec fn back_to_char_start(b: Seq<u8>, lo: int, i: int) -> int
    decreases i - lo,
{
    if i > lo && 0 <= i < b.len() && is_continuation_byte(b[i]) {
        back_to_char_start(b, lo, i - 1)
    } else {
        i
    }
}

/// What the fixed-format pass makes of the physical line whose content is
/// `[pos, ce)` with number `line_no`. Lines shorter than 8 bytes carry no
/// code. Otherwise column 7 (offset 6) is the indicator: blank, `D` or `d`
/// make the text of columns 8-72 a logical line (cut back so that no
/// character is split); `*` and `/` drop the line; a null byte or any other
/// byte is an error on column 7 and the line is dropped.
pub open spec fn fixed_line(b: Seq<u8>, pos: int, ce: int, line_no: u32) -> (
    Seq<LineModel>,
    Seq<LexerError>,
) {
    if ce - pos < 8 {
        (seq![], seq![])
    } else {
        let ind = b[pos + 6];
        let ts = pos + 7;
        let cut = if ce - pos < 72 {
            ce
        } else {
            pos + 72
        };
        let te = back_to_char_start(b, ts, cut);
        let sp = Span {
            start: (pos + 6) as usize,
            end: (pos + 7) as usize,
            line: line_no,
            column: 7,
        };
        if ind == 0x20 || ind == 0x44 || ind == 0x64 {
            (seq![LineModel { start: ts, end: te, line: line_no, col: 8 }], seq![])
        } else if ind == 0x2a || ind == 0x2f {
            (seq![], seq![])
        } else if ind == 0 {
            (seq![], seq![LexerError::EncounteredNullByte { span: sp }])
        } else {
            (seq![], seq![LexerError::InvalidCharacter { ch: ind as char, span: sp }])
        }
    }
}

pub proof fn lemma_line_end_bounds(b: Seq<u8>, pos: int)
    requires
        0 <= pos <= b.len(),
    ensures
        pos <= line_end(b, pos) <= b.len(),
        line_end(b, pos) < b.len() ==> b[line_end(b, pos)] == 0x0a,
        forall|k: int| pos <= k < line_end(b, pos) ==> b[k] != 0x0a,
    decreases b.len() - pos,
{
    if 0 <= pos < b.len() && b[pos] != 0x0a {
        lemma_line_end_bounds(b, pos + 1);
    }
}

/// The fixed-format logical lines and errors of `b` from offset `pos` on,
/// where `line_no` numbers the physical line at `pos`, and the number the
/// physical line after the last one would get.
pub open spec fn fixed_lines_from(b: Seq<u8>, pos: int, line_no: u32) -> (
    Seq<LineModel>,
    Seq<LexerError>,
    u32,
)
    decreases b.len() + 1 - pos,
{
    if pos < 0 || pos >= b.len() {
        (seq![], seq![], line_no)
    } else {
        let le = line_end(b, pos);
        let ce = content_end(b, pos, le);
        let here = fixed_line(b, pos, ce, line_no);
        proof {
            lemma_line_end_bounds(b, pos);
        }
        let rest = fixed_lines_from(b, le + 1, line_no.saturating_add(1));
        (here.0 + rest.0, here.1 + rest.1, rest.2)
    }
}

/// The fixed-format pass over the whole source.
pub open spec fn fixed_lines(b: Seq<u8>) -> (Seq<LineModel>, Seq<LexerError>, u32) {
    fixed_lines_from(b, 0, 1)
}


pub(crate) fn find_line_end(bytes: &[u8], pos: usize) -> (r: usize)
    requires
        pos <= bytes@.len(),
    ensures
        r == line_end(bytes@, pos as int),
{
    let mut k = pos;
    while k < bytes.len() && bytes[k] != 0x0a
        invariant
            pos <= k <= bytes@.len(),
            line_end(bytes@, k as int) == line_end(bytes@, pos as int),
        decreases bytes@.len() - k,
    {
        k = k + 1;
    }
    k
}

pub(crate) fn find_content_end(bytes: &[u8], pos: usize, le: usize) -> (r: usize)
    requires
        pos <= le <= bytes@.len(),
    ensures
        r == content_end(bytes@, pos as int, le as int),
{
    if le > pos && bytes[le - 1] == 0x0d {
        le - 1
    } else {
        le
    }
}

/// Builds the logical line for the byte range `[start, end)` of `source`.
pub(crate) fn make_line(
    source: &str,
    start: usize,
    end: usize,
    line_no: u32,
    col: u32,
) -> (line: LogicalLine)
    requires
        start <= end <= source.spec_bytes().len(),
        is_char_start(source.spec_bytes(), start as int),
        is_char_start(source.spec_bytes(), end as int),
    ensures
        line_matches(
            line,
            LineModel { start: start as int, end: end as int, line: line_no, col },
            source.spec_bytes(),
        ),
{
    let text = str_range(source, start, end);
    let segment = Segment {
        logical_start: 0,
        source_start: start,
        len: end - start,
        source_line: line_no,
        source_col: col,
    };
    let mut segments: Vec<Segment> = Vec::new();
    segments.push(segment);
    let line = LogicalLine { text: text.to_owned(), segments, start_line: line_no };
    proof {
        assert(line.segments@ =~= seq![segment]);
    }
    line
}

pub proof fn lemma_back_to_char_start(b: Seq<u8>, lo: int, i: int)
    requires
        0 <= lo <= i <= b.len(),
        is_char_start(b, lo),
    ensures
        lo <= back_to_char_start(b, lo, i) <= i,
        is_char_start(b, back_to_char_start(b, lo, i)),
    decreases i - lo,
{
    if i > lo && 0 <= i < b.len() && is_continuation_byte(b[i]) {
        lemma_back_to_char_start(b, lo, i - 1);
    }
}

/// Appends what the fixed-format pass makes of the physical line with
/// content `[pos, ce)`.
fn fixed_line_exec(
    source: &str,
    bytes: &[u8],
    pos: usize,
    ce: usize,
    line_no: u32,
    lines: &mut Vec<LogicalLine>,
    errors: &mut Vec<LexerError>,
)
    requires
        bytes@ == source.spec_bytes(),
        pos <= ce <= bytes@.len(),
        is_char_start(bytes@, pos as int),
        ascii_then_char_start(bytes@),
        valid_utf8(bytes@),
    ensures
        ({
            let here = fixed_line(bytes@, pos as int, ce as int, line_no);
            &&& final(lines)@.len() == old(lines)@.len() + here.0.len()
            &&& final(lines)@.subrange(0, old(lines)@.len() as int) == old(lines)@
            &&& lines_match(
                final(lines)@.subrange(old(lines)@.len() as int, final(lines)@.len() as int),
                here.0,
                bytes@,
            )
            &&& final(errors)@ == old(errors)@ + here.1
        }),
{
    let ghost here = fixed_line(bytes@, pos as int, ce as int, line_no);
    let line_len = ce - pos;
    if line_len >= 8 {
        let indicator = bytes[pos + 6];
        let text_start = pos + 7;
        let cut = if line_len < 72 {
            ce
        } else {
            pos + 72
        };
        let mut text_end = cut;
        proof {
            lemma_valid_utf8_ascii_then_char_start(bytes@);
        }
        while text_end > text_start && !source.is_char_boundary(text_end)
            invariant
                bytes@ == source.spec_bytes(),
                valid_utf8(bytes@),
                text_start <= text_end <= cut <= bytes@.len(),
                back_to_char_start(bytes@, text_start as int, text_end as int)
                    == back_to_char_start(bytes@, text_start as int, cut as int),
            decreases text_end,
        {
            proof {
                lemma_char_start_is_boundary(bytes@, text_end as int);
            }
            text_end = text_end - 1;
        }
        proof {
            lemma_char_start_is_boundary(bytes@, text_end as int);
        }
        let span = Span::new(pos + 6, pos + 7, line_no, 7);
        if indicator == 0x20 || indicator == 0x44 || indicator == 0x64 {
            proof {
                lemma_after_ascii(bytes@, pos + 6);
                lemma_back_to_char_start(bytes@, text_start as int, cut as int);
            }
            let line = make_line(source, text_start, text_end, line_no, 8);
            let ghost before = lines@;
            lines.push(line);
            proof {
                assert(lines@.subrange(0, before.len() as int) =~= before);
                assert(lines@.subrange(before.len() as int, lines@.len() as int) =~= seq![line]);
                assert(errors@ =~= old(errors)@ + here.1);
            }
        } else if indicator == 0x2a || indicator == 0x2f {
            proof {
                assert(lines@.subrange(0, lines@.len() as int) =~= lines@);
                assert(lines@.subrange(lines@.len() as int, lines@.len() as int) =~= seq![]);
                assert(errors@ =~= old(errors)@ + here.1);
            }
        } else if indicator == 0 {
            errors.push(LexerError::EncounteredNullByte { span });
            proof {
                assert(lines@.subrange(0, lines@.len() as int) =~= lines@);
                assert(lines@.subrange(lines@.len() as int, lines@.len() as int) =~= seq![]);
                assert(errors@ =~= old(errors)@ + here.1);
            }
        } else {
            errors.push(LexerError::InvalidCharacter { ch: indicator as char, span });
            proof {
                assert(lines@.subrange(0, lines@.len() as int) =~= lines@);
                assert(lines@.subrange(lines@.len() as int, lines@.len() as int) =~= seq![]);
                assert(errors@ =~= old(errors)@ + here.1);
            }
        }
    } else {
        proof {
            assert(lines@.subrange(0, lines@.len() as int) =~= lines@);
            assert(lines@.subrange(lines@.len() as int, lines@.len() as int) =~= seq![]);
            assert(errors@ =~= old(errors)@ + here.1);
        }
    }
}


pub proof fn lemma_lines_match_concat(
    a: Seq<LogicalLine>,
    ma: Seq<LineModel>,
    c: Seq<LogicalLine>,
    mc: Seq<LineModel>,
    b: Seq<u8>,
)
    requires
        lines_match(a, ma, b),
        lines_match(c, mc, b),
    ensures
        lines_match(a + c, ma + mc, b),
{
    assert forall|k: int| 0 <= k < (a + c).len() implies {
        &&& line_matches(#[trigger] (a + c)[k], (ma + mc)[k], b)
        &&& is_char_start(b, (ma + mc)[k].start)
        &&& is_char_start(b, (ma + mc)[k].end)
    } by {
        if k < a.len() {
            assert((a + c)[k] == a[k]);
            assert((ma + mc)[k] == ma[k]);
        } else {
            assert((a + c)[k] == c[k - a.len()]);
            assert((ma + mc)[k] == mc[k - a.len()]);
        }
    }
}

/// The fixed-format pass, also returning the number that the physical
/// line after the last one would get.
pub(crate) fn preprocess_counted(source: &str) -> (r: (Vec<LogicalLine>, Vec<LexerError>, u32))
    ensures
        lines_match(r.0@, fixed_lines(source.spec_bytes()).0, source.spec_bytes()),
        r.1@ == fixed_lines(source.spec_bytes()).1,
        r.2 == fixed_lines(source.spec_bytes()).2,
{
    let mut lines: Vec<LogicalLine> = Vec::new();
    let mut errors: Vec<LexerError> = Vec::new();
    let bytes = source.as_bytes();
    let ghost b = bytes@;
    let mut pos: usize = 0;
    let mut line_no: u32 = 1;
    let ghost mut models: Seq<LineModel> = seq![];
    proof {
        crate::text::lemma_str_bytes_clean(source);
        crate::text::lemma_clean_start(b);
    }
    while pos < bytes.len()
        invariant
            b == bytes@,
            b == source.spec_bytes(),
            valid_utf8(b),
            ascii_then_char_start(b),
            pos <= b.len(),
            is_char_start(b, pos as int),
            lines_match(lines@, models, b),
            fixed_lines(b).0 == models + fixed_lines_from(b, pos as int, line_no).0,
            fixed_lines(b).1 == errors@ + fixed_lines_from(b, pos as int, line_no).1,
            fixed_lines(b).2 == fixed_lines_from(b, pos as int, line_no).2,
        decreases b.len() - pos,
    {
        let le = find_line_end(bytes, pos);
        proof {
            lemma_line_end_bounds(b, pos as int);
        }
        let ce = find_content_end(bytes, pos, le);
        let ghost here = fixed_line(b, pos as int, ce as int, line_no);
        let ghost rest = fixed_lines_from(b, le + 1, line_no.saturating_add(1));
        let ghost old_lines = lines@;
        let ghost old_errors = errors@;
        fixed_line_exec(source, bytes, pos, ce, line_no, &mut lines, &mut errors);
        proof {
            let new_lines = lines@.subrange(old_lines.len() as int, lines@.len() as int);
            assert(lines@ =~= old_lines + new_lines);
            lemma_lines_match_concat(old_lines, models, new_lines, here.0, b);
            assert(models + (here.0 + rest.0) =~= (models + here.0) + rest.0);
            assert(old_errors + (here.1 + rest.1) =~= (old_errors + here.1) + rest.1);
            models = models + here.0;
        }
        line_no = line_no.saturating_add(1);
        if le < bytes.len() {
            proof {
                lemma_after_ascii(b, le as int);
            }
            pos = le + 1;
        } else {
            pos = le;
        }
    }
    proof {
        assert(models + fixed_lines_from(b, pos as int, line_no).0 =~= models);
        assert(errors@ + fixed_lines_from(b, pos as int, line_no).1 =~= errors@);
    }
    (lines, errors, line_no)
}

/// Splits fixed-format source into logical lines (the text areas of its
/// code lines) and the errors found in indicator columns.
pub fn preprocess(source: &str) -> (r: (Vec<LogicalLine>, Vec<LexerError>))
    ensures
        lines_match(r.0@, fixed_lines(source.spec_bytes()).0, source.spec_bytes()),
        r.1@ == fixed_lines(source.spec_bytes()).1,
{
    let (lines, errors, _) = preprocess_counted(source);
    (lines, errors)
}

} // verus!
