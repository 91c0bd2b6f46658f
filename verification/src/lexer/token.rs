//! Cooked tokens emitted by the lexer and consumed by the parser.
use crate::span::Span;
use vstd::prelude::*;
use vstd::string::*;
use vstd::utf8::{is_ascii_chars, is_ascii_chars_encode_utf8};

verus! {

#[derive(Debug, Clone, Copy, PartialEq, Eq)]
pub struct Token<'a> {
    pub kind: TokenKind,
    pub span: Span,
    pub text: &'a str,
}

impl<'a> Token<'a> {
    pub fn new(kind: TokenKind, span: Span, text: &'a str) -> (t: Self)
        ensures
            t.kind == kind,
            t.span == span,
            t.text == text,
    {
        Token { kind, span, text }
    }
}

#[derive(Debug, Clone, Copy, PartialEq, Eq, Structural)]
pub enum TokenKind {
    LevelNumber(u8),
    Identifier,
    Keyword(KeywordKind),
    PictureString,
    StringLiteral,
    NumericLiteral,
    Period,
    LParen,
    RParen,
    Comma,
    Eof,
}

#[derive(Debug, Clone, Copy, PartialEq, Eq, Hash, Structural)]
pub enum KeywordKind {
    Pic,
    Picture,
    Occurs,
    Redefines,
    Usage,
    Comp,
    Comp3,
    Comp4,
    Comp5,
    Binary,
    Display,
    PackedDecimal,
    Value,
    Times,
    Filler,
    To,
    Is,
    Are,
}

/// ASCII lower-casing of one byte; every other byte is left alone.
pub open spec fn ascii_lower(c: u8) -> u8 {
    if 0x41 <= c <= 0x5a {
        (c + 0x20) as u8
    } else {
        c
    }
}

/// ASCII lower-casing of a byte string.
pub open spec fn ascii_lower_seq(b: Seq<u8>) -> Seq<u8> {
    Seq::new(b.len(), |i: int| ascii_lower(b[i]))
}

/// The keyword spelled by a byte string, ignoring ASCII case. Inputs longer
/// than 16 bytes are never keywords.
pub open spec fn keyword_of(b: Seq<u8>) -> Option<KeywordKind> {
    let l = ascii_lower_seq(b);
    if b.len() > 16 {
        None
    } else if l == "pic".spec_bytes() {
        Some(KeywordKind::Pic)
    } else if l == "picture".spec_bytes() {
        Some(KeywordKind::Picture)
    } else if l == "occurs".spec_bytes() {
        Some(KeywordKind::Occurs)
    } else if l == "redefines".spec_bytes() {
        Some(KeywordKind::Redefines)
    } else if l == "usage".spec_bytes() {
        Some(KeywordKind::Usage)
    } else if l == "comp".spec_bytes() {
        Some(KeywordKind::Comp)
    } else if l == "comp-3".spec_bytes() {
        Some(KeywordKind::Comp3)
    } else if l == "comp-4".spec_bytes() {
        Some(KeywordKind::Comp4)
    } else if l == "comp-5".spec_bytes() {
        Some(KeywordKind::Comp5)
    } else if l == "binary".spec_bytes() {
        Some(KeywordKind::Binary)
    } else if l == "display".spec_bytes() {
        Some(KeywordKind::Display)
    } else if l == "packed-decimal".spec_bytes() {
        Some(KeywordKind::PackedDecimal)
    } else if l == "value".spec_bytes() {
        Some(KeywordKind::Value)
    } else if l == "times".spec_bytes() {
        Some(KeywordKind::Times)
    } else if l == "filler".spec_bytes() {
        Some(KeywordKind::Filler)
    } else if l == "to".spec_bytes() {
        Some(KeywordKind::To)
    } else if l == "is".spec_bytes() {
        Some(KeywordKind::Is)
    } else if l == "are".spec_bytes() {
        Some(KeywordKind::Are)
    } else {
        None
    }
}

/// The lower-case spelling of each keyword.
pub open spec fn keyword_spelling(k: KeywordKind) -> Seq<u8> {
    match k {
        KeywordKind::Pic => "pic".spec_bytes(),
        KeywordKind::Picture => "picture".spec_bytes(),
        KeywordKind::Occurs => "occurs".spec_bytes(),
        KeywordKind::Redefines => "redefines".spec_bytes(),
        KeywordKind::Usage => "usage".spec_bytes(),
        KeywordKind::Comp => "comp".spec_bytes(),
        KeywordKind::Comp3 => "comp-3".spec_bytes(),
        KeywordKind::Comp4 => "comp-4".spec_bytes(),
        KeywordKind::Comp5 => "comp-5".spec_bytes(),
        KeywordKind::Binary => "binary".spec_bytes(),
        KeywordKind::Display => "display".spec_bytes(),
        KeywordKind::PackedDecimal => "packed-decimal".spec_bytes(),
        KeywordKind::Value => "value".spec_bytes(),
        KeywordKind::Times => "times".spec_bytes(),
        KeywordKind::Filler => "filler".spec_bytes(),
        KeywordKind::To => "to".spec_bytes(),
        KeywordKind::Is => "is".spec_bytes(),
        KeywordKind::Are => "are".spec_bytes(),
    }
}

/// The keyword table: a byte string names the keyword `k` exactly when,
/// ASCII-lower-cased, it is `k`'s spelling. Since the spellings are lower
/// case, this is `eq_ignore_ascii_case` against the spelling.
pub proof fn keyword_table(b: Seq<u8>, k: KeywordKind)
    ensures
        keyword_of(b) == Some(k) <==> ascii_lower_seq(b) == keyword_spelling(k),
{
    reveal_strlit("pic");
    assert(is_ascii_chars("pic"@));
    lemma_ascii_spelling("pic");
    reveal_strlit("picture");
    assert(is_ascii_chars("picture"@));
    lemma_ascii_spelling("picture");
    reveal_strlit("occurs");
    assert(is_ascii_chars("occurs"@));
    lemma_ascii_spelling("occurs");
    reveal_strlit("redefines");
    assert(is_ascii_chars("redefines"@));
    lemma_ascii_spelling("redefines");
    reveal_strlit("usage");
    assert(is_ascii_chars("usage"@));
    lemma_ascii_spelling("usage");
    reveal_strlit("comp");
    assert(is_ascii_chars("comp"@));
    lemma_ascii_spelling("comp");
    reveal_strlit("comp-3");
    assert(is_ascii_chars("comp-3"@));
    lemma_ascii_spelling("comp-3");
    reveal_strlit("comp-4");
    assert(is_ascii_chars("comp-4"@));
    lemma_ascii_spelling("comp-4");
    reveal_strlit("comp-5");
    assert(is_ascii_chars("comp-5"@));
    lemma_ascii_spelling("comp-5");
    reveal_strlit("binary");
    assert(is_ascii_chars("binary"@));
    lemma_ascii_spelling("binary");
    reveal_strlit("display");
    assert(is_ascii_chars("display"@));
    lemma_ascii_spelling("display");
    reveal_strlit("packed-decimal");
    assert(is_ascii_chars("packed-decimal"@));
    lemma_ascii_spelling("packed-decimal");
    reveal_strlit("value");
    assert(is_ascii_chars("value"@));
    lemma_ascii_spelling("value");
    reveal_strlit("times");
    assert(is_ascii_chars("times"@));
    lemma_ascii_spelling("times");
    reveal_strlit("filler");
    assert(is_ascii_chars("filler"@));
    lemma_ascii_spelling("filler");
    reveal_strlit("to");
    assert(is_ascii_chars("to"@));
    lemma_ascii_spelling("to");
    reveal_strlit("is");
    assert(is_ascii_chars("is"@));
    lemma_ascii_spelling("is");
    reveal_strlit("are");
    assert(is_ascii_chars("are"@));
    lemma_ascii_spelling("are");
    let l = ascii_lower_seq(b);
    assert(l.len() == b.len());
    let w = keyword_spelling(k);
    if l == w {
        assert(w.len() > 0 ==> l[0] == w[0]);
        assert(w.len() > 5 ==> l[5] == w[5]);
    }
}

/// An ASCII literal's bytes are its characters.
proof fn lemma_ascii_spelling(s: &str)
    ensures
        is_ascii_chars(s@) ==> s.spec_bytes() == Seq::new(s@.len(), |i: int| s@[i] as u8),
{
    if is_ascii_chars(s@) {
        is_ascii_chars_encode_utf8(s@);
        assert(s.spec_bytes() =~= Seq::new(s@.len(), |i: int| s@[i] as u8));
    }
}

/// Two spellings that agree up to ASCII case name the same keyword (or both
/// name none).
pub proof fn keyword_lookup_ignores_ascii_case(a: Seq<u8>, b: Seq<u8>)
    requires
        ascii_lower_seq(a) == ascii_lower_seq(b),
    ensures
        keyword_of(a) == keyword_of(b),
{
    assert(a.len() == ascii_lower_seq(a).len());
    assert(b.len() == ascii_lower_seq(b).len());
}

fn bytes_equal(a: &[u8], b: &[u8]) -> (r: bool)
    ensures
        r == (a@ == b@),
{
    if a.len() != b.len() {
        return false;
    }
    let mut i: usize = 0;
    while i < a.len()
        invariant
            a.len() == b.len(),
            i <= a.len(),
            forall|k: int| 0 <= k < i ==> a@[k] == b@[k],
        decreases a.len() - i,
    {
        if a[i] != b[i] {
            return false;
        }
        i = i + 1;
    }
    assert(a@ =~= b@);
    true
}

/// Case-insensitive keyword lookup: `ident`'s bytes, lower-cased in ASCII,
/// against the keyword spellings.
pub fn match_keyword(ident: &str) -> (r: Option<KeywordKind>)
    ensures
        r == keyword_of(ident.spec_bytes()),
{
    let bytes = ident.as_bytes();
    if bytes.len() > 16 {
        return None;
    }
    let mut lower: Vec<u8> = Vec::new();
    let mut i: usize = 0;
    while i < bytes.len()
        invariant
            i <= bytes.len(),
            lower@.len() == i,
            forall|k: int| 0 <= k < i ==> lower@[k] == ascii_lower(bytes@[k]),
        decreases bytes.len() - i,
    {
        let b = bytes[i];
        let l = if 0x41 <= b && b <= 0x5a {
            b + 0x20
        } else {
            b
        };
        lower.push(l);
        i = i + 1;
    }
    assert(lower@ =~= ascii_lower_seq(bytes@));
    let l = lower.as_slice();
    if bytes_equal(l, "pic".as_bytes()) {
        Some(KeywordKind::Pic)
    } else if bytes_equal(l, "picture".as_bytes()) {
        Some(KeywordKind::Picture)
    } else if bytes_equal(l, "occurs".as_bytes()) {
        Some(KeywordKind::Occurs)
    } else if bytes_equal(l, "redefines".as_bytes()) {
        Some(KeywordKind::Redefines)
    } else if bytes_equal(l, "usage".as_bytes()) {
        Some(KeywordKind::Usage)
    } else if bytes_equal(l, "comp".as_bytes()) {
        Some(KeywordKind::Comp)
    } else if bytes_equal(l, "comp-3".as_bytes()) {
        Some(KeywordKind::Comp3)
    } else if bytes_equal(l, "comp-4".as_bytes()) {
        Some(KeywordKind::Comp4)
    } else if bytes_equal(l, "comp-5".as_bytes()) {
        Some(KeywordKind::Comp5)
    } else if bytes_equal(l, "binary".as_bytes()) {
        Some(KeywordKind::Binary)
    } else if bytes_equal(l, "display".as_bytes()) {
        Some(KeywordKind::Display)
    } else if bytes_equal(l, "packed-decimal".as_bytes()) {
        Some(KeywordKind::PackedDecimal)
    } else if bytes_equal(l, "value".as_bytes()) {
        Some(KeywordKind::Value)
    } else if bytes_equal(l, "times".as_bytes()) {
        Some(KeywordKind::Times)
    } else if bytes_equal(l, "filler".as_bytes()) {
        Some(KeywordKind::Filler)
    } else if bytes_equal(l, "to".as_bytes()) {
        Some(KeywordKind::To)
    } else if bytes_equal(l, "is".as_bytes()) {
        Some(KeywordKind::Is)
    } else if bytes_equal(l, "are".as_bytes()) {
        Some(KeywordKind::Are)
    } else {
        None
    }
}

} // verus!
