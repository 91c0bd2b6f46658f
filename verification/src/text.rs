//! Byte-level view of source text.
//!
//! The lexer works on the UTF-8 bytes of its input. This module holds the
//! facts about those bytes that the scanners rely on (where a character
//! starts, what a lone character decodes to) and the few operations that
//! turn byte offsets back into string slices.
use vstd::prelude::*;
use vstd::string::*;
use vstd::utf8::*;

verus! {

/// `i` is the offset of the first byte of a character, or the end of `b`.
pub open spec fn is_char_start(b: Seq<u8>, i: int) -> bool {
    i == b.len() || (0 <= i < b.len() && !is_continuation_byte(b[i]))
}

/// Every ASCII byte of `b` is followed by the start of a character, and `b`
/// does not begin in the middle of one.
#[verifier::opaque]
pub open spec fn ascii_then_char_start(b: Seq<u8>) -> bool {
    &&& is_char_start(b, 0)
    &&& forall|i: int| 0 <= i < b.len() && #[trigger] b[i] < 0x80 ==> is_char_start(b, i + 1)
}

/// Under `ascii_then_char_start`, the offset after an ASCII byte starts a
/// character.
pub proof fn lemma_after_ascii(b: Seq<u8>, i: int)
    requires
        ascii_then_char_start(b),
        0 <= i < b.len(),
        b[i] < 0x80,
    ensures
        is_char_start(b, i + 1),
{
    reveal(ascii_then_char_start);
}

/// Under `ascii_then_char_start`, offset 0 starts a character.
pub proof fn lemma_clean_start(b: Seq<u8>)
    requires
        ascii_then_char_start(b),
    ensures
        is_char_start(b, 0),
{
    reveal(ascii_then_char_start);
}

/// In valid UTF-8, a character starts exactly where no continuation byte stands.
pub proof fn lemma_char_start_is_boundary(b: Seq<u8>, i: int)
    requires
        valid_utf8(b),
        0 <= i <= b.len(),
    ensures
        is_char_start(b, i) <==> is_char_boundary(b, i),
{
    is_char_boundary_start_end_of_seq(b);
    if i < b.len() {
        is_char_boundary_iff_not_is_continuation_byte(b, i);
    }
}

/// An ASCII byte in valid UTF-8 is a one-byte character, so the next
/// offset starts a character too.
pub proof fn lemma_ascii_then_char_start(b: Seq<u8>, i: int)
    requires
        valid_utf8(b),
        0 <= i < b.len(),
        b[i] < 0x80,
    ensures
        is_char_start(b, i + 1),
{
    is_char_boundary_iff_not_is_continuation_byte(b, i);
    valid_utf8_split(b, i);
    let suffix = b.subrange(i, b.len() as int);
    assert(suffix[0] == b[i]);
    assert(valid_first_scalar(suffix));
    let rest = pop_first_scalar(suffix);
    assert(length_of_first_scalar(suffix) == 1);
    assert(valid_utf8(rest));
    if i + 1 < b.len() {
        assert(rest.len() > 0);
        assert(rest[0] == b[i + 1]);
        assert(valid_first_scalar(rest));
    }
}

/// Valid UTF-8 satisfies `ascii_then_char_start`.
pub proof fn lemma_valid_utf8_ascii_then_char_start(b: Seq<u8>)
    requires
        valid_utf8(b),
    ensures
        ascii_then_char_start(b),
{
    reveal(ascii_then_char_start);
    if b.len() > 0 {
        assert(valid_first_scalar(b));
    }
    assert forall|i: int| 0 <= i < b.len() && #[trigger] b[i] < 0x80 implies is_char_start(
        b,
        i + 1,
    ) by {
        lemma_ascii_then_char_start(b, i);
    }
}

/// The bytes of a string slice satisfy `ascii_then_char_start`.
pub proof fn lemma_str_bytes_clean(s: &str)
    ensures
        valid_utf8(s.spec_bytes()),
        ascii_then_char_start(s.spec_bytes()),
{
    encode_utf8_valid_utf8(s@);
    lemma_valid_utf8_ascii_then_char_start(s.spec_bytes());
}

/// `ascii_then_char_start` carries over to a range that starts and ends at
/// character starts.
pub proof fn lemma_clean_subrange(b: Seq<u8>, lo: int, hi: int)
    requires
        ascii_then_char_start(b),
        0 <= lo <= hi <= b.len(),
        is_char_start(b, lo),
        is_char_start(b, hi),
    ensures
        ascii_then_char_start(b.subrange(lo, hi)),
{
    reveal(ascii_then_char_start);
    let t = b.subrange(lo, hi);
    if lo < hi {
        assert(t[0] == b[lo]);
    }
    assert forall|i: int| 0 <= i < t.len() && #[trigger] t[i] < 0x80 implies is_char_start(
        t,
        i + 1,
    ) by {
        assert(t[i] == b[lo + i]);
        assert(b[lo + i] < 0x80);
        assert(is_char_start(b, lo + i + 1));
        if i + 1 < t.len() {
            assert(t[i + 1] == b[lo + i + 1]);
        }
    }
}

/// The slice of `s` between byte offsets `start` and `end`, both of which
/// start a character (or are the end of `s`).
pub fn str_range<'a>(s: &'a str, start: usize, end: usize) -> (r: &'a str)
    requires
        start <= end <= s.spec_bytes().len(),
        is_char_start(s.spec_bytes(), start as int),
        is_char_start(s.spec_bytes(), end as int),
    ensures
        r.spec_bytes() == s.spec_bytes().subrange(start as int, end as int),
{
    let ghost b = s.spec_bytes();
    proof {
        encode_utf8_valid_utf8(s@);
        lemma_char_start_is_boundary(b, start as int);
    }
    let (_, rest) = s.split_at(start);
    let ghost rb = rest.spec_bytes();
    proof {
        assert(rb =~= b.subrange(start as int, b.len() as int));
        if end < b.len() {
            assert(rb[end - start] == b[end as int]);
        }
        encode_utf8_valid_utf8(rest@);
        lemma_char_start_is_boundary(rb, (end - start) as int);
    }
    let (mid, _) = rest.split_at(end - start);
    proof {
        assert(mid.spec_bytes() =~= b.subrange(start as int, end as int));
    }
    mid
}

/// The character that a string slice begins with, read off its bytes.
pub fn first_char(s: &str) -> (c: char)
    requires
        s.spec_bytes().len() > 0,
    ensures
        c == decode_first_scalar(s.spec_bytes()) as char,
{
    proof {
        encode_utf8_decode_utf8(s@);
        encode_utf8_valid_utf8(s@);
        let b = s.spec_bytes();
        assert(valid_utf8(b));
        assert(decode_utf8(b) == seq![decode_first_scalar(b) as char] + decode_utf8(
            pop_first_scalar(b),
        ));
        assert(s@.len() > 0);
    }
    s.get_char(0)
}

} // verus!
