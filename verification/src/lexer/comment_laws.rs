//! How the search for an inline comment treats string literals.
use crate::lexer::free_format::comment_from;
use vstd::prelude::*;

verus! {

/// `r` moved right by `d`.
pub open spec fn shifted(r: Option<int>, d: int) -> Option<int> {
    match r {
        Some(k) => Some(k + d),
        None => None,
    }
}

/// A quote byte: `"` or `'`.
pub open spec fn is_quote(q: u8) -> bool {
    q == 0x22 || q == 0x27
}

/// The search reads `c` the same behind any prefix `x`.
proof fn lemma_comment_shift(x: Seq<u8>, c: Seq<u8>, i: int, st: Option<u8>)
    requires
        0 <= i,
    ensures
        comment_from(x + c, x.len() + i, st) == shifted(comment_from(c, i, st), x.len() as int),
    decreases c.len() - i,
{
    let t = x + c;
    let n = x.len() as int;
    if i < c.len() {
        assert(t[n + i] == c[i]);
        if i + 1 < c.len() {
            assert(t[n + i + 1] == c[i + 1]);
        }
        lemma_comment_shift(x, c, i + 1, st);
        lemma_comment_shift(x, c, i + 1, None);
        lemma_comment_shift(x, c, i + 1, Some(c[i]));
        if i + 2 <= c.len() {
            lemma_comment_shift(x, c, i + 2, st);
        }
    }
}

proof fn lemma_comment_skips_plain(t: Seq<u8>, a: Seq<u8>, i: int)
    requires
        0 <= i <= a.len() < t.len(),
        t.subrange(0, a.len() as int) == a,
        forall|k: int| 0 <= k < a.len() ==> !is_quote(#[trigger] a[k]),
        forall|k: int| 0 <= k < a.len() ==> !(#[trigger] a[k] == 0x2a && t[k + 1] == 0x3e),
    ensures
        comment_from(t, i, None) == comment_from(t, a.len() as int, None),
    decreases a.len() - i,
{
    if i < a.len() {
        assert(t[i] == a[i]);
        assert(!is_quote(a[i]));
        lemma_comment_skips_plain(t, a, i + 1);
    }
}

proof fn lemma_comment_inside(t: Seq<u8>, q: u8, lo: int, hi: int, i: int)
    requires
        0 <= lo <= i <= hi < t.len(),
        forall|k: int| lo <= k < hi ==> #[trigger] t[k] != q,
    ensures
        comment_from(t, i, Some(q)) == comment_from(t, hi, Some(q)),
    decreases hi - i,
{
    if i < hi {
        lemma_comment_inside(t, q, lo, hi, i + 1);
    }
}

/// A string literal hides what it holds from the comment search, and only
/// its own quote closes it. Take a line made of a prefix `a` with no quote
/// and no `*>`, then a literal opened by the quote `q` whose body holds no
/// `q` (it may hold the other quote, `*>`, anything), closed by `q`, then
/// the rest `c` (which does not begin with a second `q`, since `qq` is an
/// embedded quote). Then the inline comment of the line is that of `c`,
/// moved to its place: nothing in `a` or in the literal starts one.
pub proof fn comment_search_skips_literals(a: Seq<u8>, q: u8, body: Seq<u8>, c: Seq<u8>)
    requires
        is_quote(q),
        forall|k: int| 0 <= k < a.len() ==> !is_quote(#[trigger] a[k]),
        forall|k: int| 0 <= k && k + 1 < a.len() ==> !(#[trigger] a[k] == 0x2a && a[k + 1] == 0x3e),
        forall|k: int| 0 <= k < body.len() ==> #[trigger] body[k] != q,
        c.len() == 0 || c[0] != q,
    ensures
        comment_from(a + seq![q] + body + seq![q] + c, 0, None) == shifted(
            comment_from(c, 0, None),
            (a.len() + body.len() + 2) as int,
        ),
{
    let x = a + seq![q] + body + seq![q];
    let t = x + c;
    let n = a.len() as int;
    let close = n + 1 + body.len();
    assert(t =~= a + seq![q] + body + seq![q] + c);
    assert(t.subrange(0, n) =~= a);
    assert forall|k: int| 0 <= k < a.len() implies !(#[trigger] a[k] == 0x2a && t[k + 1] == 0x3e) by {
        if k + 1 < a.len() {
            assert(t[k + 1] == a[k + 1]);
        } else {
            assert(t[k + 1] == q);
        }
    }
    lemma_comment_skips_plain(t, a, 0);
    assert(t[n] == q);
    assert(comment_from(t, n, None) == comment_from(t, n + 1, Some(q)));
    assert forall|k: int| n + 1 <= k < close implies #[trigger] t[k] != q by {
        assert(t[k] == body[k - n - 1]);
    }
    lemma_comment_inside(t, q, n + 1, close, n + 1);
    assert(t[close] == q);
    if close + 1 < t.len() {
        assert(t[close + 1] == c[0]);
    }
    assert(comment_from(t, close, Some(q)) == comment_from(t, close + 1, None));
    assert(x.len() == close + 1);
    lemma_comment_shift(x, c, 0, None);
}

} // verus!
