//! Facts about UTF-8 text that the layout code relies on.

use vstd::prelude::*;
use vstd::utf8::*;
use crate::text::{lines, NEWLINE};

verus! {

/// Encoding distributes over concatenation.
pub proof fn lemma_encode_concat(a: Seq<char>, b: Seq<char>)
    ensures
        encode_utf8(a + b) == encode_utf8(a) + encode_utf8(b),
    decreases a.len(),
{
    if a.len() == 0 {
        assert(a + b =~= b);
        assert(encode_utf8(a) =~= Seq::<u8>::empty());
        assert(encode_utf8(a) + encode_utf8(b) =~= encode_utf8(b));
    } else {
        assert((a + b).drop_first() =~= a.drop_first() + b);
        assert((a + b)[0] == a[0]);
        lemma_encode_concat(a.drop_first(), b);
        assert(encode_utf8(a + b) =~= encode_scalar(a[0] as u32) + (encode_utf8(a.drop_first()) + encode_utf8(b)));
    }
}

/// In valid UTF-8, the byte after a one-byte character starts a new character.
pub proof fn lemma_boundary_after_ascii(b: Seq<u8>, k: int)
    requires
        valid_utf8(b),
        0 <= k < b.len(),
        is_char_boundary(b, k),
        is_leading_byte_width_1(b[k]),
    ensures
        is_char_boundary(b, k + 1),
    decreases b.len(),
{
    let l = length_of_first_scalar(b);
    let p = pop_first_scalar(b);
    if k == 0 {
        assert(l == 1);
        assert(is_char_boundary(p, 0));
    } else {
        assert(is_char_boundary(p, k - l));
        assert(k - l >= 0);
        assert(p.len() == b.len() - l);
        assert(p[k - l] == b[k]);
        lemma_boundary_after_ascii(p, k - l);
    }
}

/// A boundary before the end of a prefix is a boundary of the prefix.
pub proof fn lemma_boundary_in_prefix(b: Seq<u8>, e: int, s: int)
    requires
        valid_utf8(b),
        0 <= s <= e <= b.len(),
        is_char_boundary(b, e),
        is_char_boundary(b, s),
    ensures
        valid_utf8(b.subrange(0, e)),
        is_char_boundary(b.subrange(0, e), s),
{
    valid_utf8_split(b, e);
    let pre = b.subrange(0, e);
    if s == e {
        is_char_boundary_start_end_of_seq(pre);
    } else {
        is_char_boundary_iff_not_is_continuation_byte(b, s);
        is_char_boundary_iff_not_is_continuation_byte(pre, s);
    }
}

/// Boundaries of valid text stay boundaries when more valid text follows.
pub proof fn lemma_boundary_concat_left(a: Seq<u8>, t: Seq<u8>, s: int)
    requires
        valid_utf8(a),
        valid_utf8(t),
        is_char_boundary(a, s),
    ensures
        valid_utf8(a + t),
        is_char_boundary(a + t, s),
{
    valid_utf8_concat(a, t);
    lemma_boundary_range(a, s);
    if s < a.len() {
        is_char_boundary_iff_not_is_continuation_byte(a, s);
        is_char_boundary_iff_not_is_continuation_byte(a + t, s);
    } else {
        lemma_boundary_concat_right(a, t, 0);
        assert(a.len() + 0 == s);
    }
}

/// Boundaries of valid text stay boundaries when valid text comes before it.
pub proof fn lemma_boundary_concat_right(a: Seq<u8>, t: Seq<u8>, s: int)
    requires
        valid_utf8(a),
        valid_utf8(t),
        is_char_boundary(t, s),
    ensures
        valid_utf8(a + t),
        is_char_boundary(a + t, a.len() + s),
{
    valid_utf8_concat(a, t);
    lemma_boundary_range(t, s);
    is_char_boundary_start_end_of_seq(a + t);
    if s < t.len() {
        is_char_boundary_iff_not_is_continuation_byte(t, s);
        is_char_boundary_iff_not_is_continuation_byte(a + t, a.len() + s);
    } else {
        assert(a.len() + s == (a + t).len());
    }
}

/// Boundaries lie inside the text or at its end.
pub proof fn lemma_boundary_range(b: Seq<u8>, s: int)
    requires
        valid_utf8(b),
        is_char_boundary(b, s),
    ensures
        0 <= s <= b.len(),
    decreases b.len(),
{
    if s != 0 {
        let p = pop_first_scalar(b);
        lemma_boundary_range(p, s - length_of_first_scalar(b));
    }
}

/// The text between two boundaries of valid text is valid.
pub proof fn lemma_valid_between(b: Seq<u8>, s: int, e: int)
    requires
        valid_utf8(b),
        0 <= s <= e <= b.len(),
        is_char_boundary(b, s),
        is_char_boundary(b, e),
    ensures
        valid_utf8(b.subrange(s, e)),
{
    lemma_boundary_in_prefix(b, e, s);
    let pre = b.subrange(0, e);
    valid_utf8_split(pre, s);
    assert(pre.subrange(s, pre.len() as int) =~= b.subrange(s, e));
}

/// Valid pieces read one after another are valid.
pub proof fn lemma_flatten_valid(ts: Seq<Seq<u8>>)
    requires
        forall|i: int| 0 <= i < ts.len() ==> valid_utf8(#[trigger] ts[i]),
    ensures
        valid_utf8(ts.flatten()),
    decreases ts.len(),
{
    if ts.len() > 0 {
        lemma_flatten_valid(ts.drop_first());
        valid_utf8_concat(ts.first(), ts.drop_first().flatten());
    }
}

/// A prefix of valid text that is itself valid ends between characters.
pub proof fn lemma_valid_prefix_boundary(b: Seq<u8>, p: int)
    requires
        valid_utf8(b),
        0 <= p <= b.len(),
        valid_utf8(b.take(p)),
    ensures
        is_char_boundary(b, p),
    decreases p,
{
    if p > 0 {
        let t = b.take(p);
        let l = length_of_first_scalar(t);
        assert(t[0] == b[0]);
        assert(length_of_first_scalar(b) == l);
        assert(valid_first_scalar(t));
        assert(l <= p);
        let pb = pop_first_scalar(b);
        let pt = pop_first_scalar(t);
        assert(pt =~= pb.take(p - l));
        lemma_valid_prefix_boundary(pb, p - l);
    }
}

/// A line break is a character of its own.
pub proof fn lemma_newline_boundaries(b: Seq<u8>, k: int)
    requires
        valid_utf8(b),
        0 <= k < b.len(),
        b[k] == NEWLINE,
    ensures
        is_char_boundary(b, k),
        is_char_boundary(b, k + 1),
{
    is_char_boundary_iff_not_is_continuation_byte(b, k);
    lemma_boundary_after_ascii(b, k);
}

/// Text without line breaks is a single line.
pub proof fn lemma_lines_no_newline(b: Seq<u8>)
    requires
        forall|i: int| 0 <= i < b.len() ==> b[i] != NEWLINE,
    ensures
        lines(b) == seq![b],
    decreases b.len(),
{
    if b.len() == 0 {
        assert(b =~= Seq::<u8>::empty());
    } else {
        let d = b.drop_last();
        lemma_lines_no_newline(d);
        assert(d.push(b.last()) =~= b);
        assert(lines(b) =~= seq![b]);
    }
}

/// The lines of a text are the lines up to its last line break, followed by
/// everything after it.
pub proof fn lemma_lines_split_last(b: Seq<u8>, k: int)
    requires
        0 <= k < b.len(),
        b[k] == NEWLINE,
        forall|i: int| k < i < b.len() ==> b[i] != NEWLINE,
    ensures
        lines(b) == lines(b.take(k)).push(b.skip(k + 1)),
    decreases b.len(),
{
    let d = b.drop_last();
    if b.len() == k + 1 {
        assert(d =~= b.take(k));
        assert(b.skip(k + 1) =~= Seq::<u8>::empty());
    } else {
        assert(d.take(k) =~= b.take(k));
        lemma_lines_split_last(d, k);
        assert(d.skip(k + 1).push(b.last()) =~= b.skip(k + 1));
        crate::text::lemma_lines_nonempty(b.take(k));
        assert(lines(b) =~= lines(b.take(k)).push(b.skip(k + 1)));
    }
}

/// Every line of valid UTF-8 text is valid UTF-8.
pub proof fn lemma_lines_valid(b: Seq<u8>)
    requires
        valid_utf8(b),
    ensures
        forall|j: int| 0 <= j < lines(b).len() ==> valid_utf8(#[trigger] lines(b)[j]),
    decreases b.len(),
{
    let k = last_newline(b);
    lemma_last_newline(b);
    if k < 0 {
        lemma_lines_no_newline(b);
    } else {
        lemma_lines_split_last(b, k);
        lemma_newline_boundaries(b, k);
        valid_utf8_split(b, k);
        valid_utf8_split(b, k + 1);
        assert(b.subrange(0, k) =~= b.take(k));
        assert(b.subrange(k + 1, b.len() as int) =~= b.skip(k + 1));
        lemma_lines_valid(b.take(k));
    }
}

/// The index of the last line break of `b`, or -1 when there is none.
pub open spec fn last_newline(b: Seq<u8>) -> int
    decreases b.len(),
{
    if b.len() == 0 {
        -1
    } else if b.last() == NEWLINE {
        b.len() - 1
    } else {
        last_newline(b.drop_last())
    }
}

pub proof fn lemma_last_newline(b: Seq<u8>)
    ensures
        -1 <= last_newline(b) < b.len(),
        last_newline(b) >= 0 ==> b[last_newline(b)] == NEWLINE,
        forall|i: int| last_newline(b) < i < b.len() ==> b[i] != NEWLINE,
    decreases b.len(),
{
    if b.len() > 0 && b.last() != NEWLINE {
        let d = b.drop_last();
        lemma_last_newline(d);
        assert forall|i: int| last_newline(b) < i < b.len() implies b[i] != NEWLINE by {
            if i < b.len() - 1 {
                assert(b[i] == d[i]);
            }
        }
    }
}

} // verus!
