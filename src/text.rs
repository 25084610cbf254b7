//! Where a byte sequence may be cut without splitting a character.
use vstd::prelude::*;
use vstd::utf8::{
    is_char_boundary_iff_not_is_continuation_byte, is_char_boundary_start_end_of_seq,
    is_continuation_byte, length_of_first_scalar, pop_first_scalar, valid_utf8,
};

verus! {

/// `i` is a cut point of `s`: the start, the end, or a position whose byte
/// is not a UTF-8 continuation byte.
pub open spec fn is_cut_point(s: Seq<u8>, i: int) -> bool {
    0 <= i <= s.len() && (i == 0 || i == s.len() || !is_continuation_byte(s[i]))
}

/// The largest cut point of `s` at or below `n`.
pub open spec fn cut_at_or_below(s: Seq<u8>, n: int) -> int
    decreases n,
{
    if n <= 0 {
        0
    } else if is_cut_point(s, n) {
        n
    } else {
        cut_at_or_below(s, n - 1)
    }
}

/// What `cut_at_or_below` returns is a cut point, no higher than `n`, and
/// no position between it and `n` is one.
pub proof fn lemma_cut_at_or_below(s: Seq<u8>, n: int)
    requires
        0 <= n <= s.len(),
    ensures
        0 <= cut_at_or_below(s, n) <= n,
        is_cut_point(s, cut_at_or_below(s, n)),
        forall|j: int| cut_at_or_below(s, n) < j <= n ==> !is_cut_point(s, j),
    decreases n,
{
    if n > 0 && !is_cut_point(s, n) {
        lemma_cut_at_or_below(s, n - 1);
    }
}

/// Every cut point at or below `n` is at or below `cut_at_or_below(s, n)`.
pub proof fn lemma_cut_at_or_below_is_largest(s: Seq<u8>, n: int, j: int)
    requires
        0 <= j <= n <= s.len(),
        is_cut_point(s, j),
    ensures
        j <= cut_at_or_below(s, n),
{
    lemma_cut_at_or_below(s, n);
}

/// In valid UTF-8 text the cut points are exactly the character boundaries.
pub proof fn lemma_cut_point_is_char_boundary(s: Seq<u8>, i: int)
    requires
        valid_utf8(s),
        0 <= i <= s.len(),
    ensures
        is_cut_point(s, i) == vstd::utf8::is_char_boundary(s, i),
{
    is_char_boundary_start_end_of_seq(s);
    if 0 < i < s.len() {
        is_char_boundary_iff_not_is_continuation_byte(s, i);
    }
}

/// In valid UTF-8 text a character boundary lies at most three bytes below
/// any position.
proof fn lemma_boundary_near(s: Seq<u8>, i: int) -> (j: int)
    requires
        valid_utf8(s),
        0 <= i <= s.len(),
    ensures
        i - 3 <= j <= i,
        0 <= j,
        vstd::utf8::is_char_boundary(s, j),
    decreases s.len(),
{
    if i == 0 {
        0
    } else {
        let w = length_of_first_scalar(s);
        let tail = pop_first_scalar(s);
        if i < w {
            0
        } else {
            let k = lemma_boundary_near(tail, i - w);
            k + w
        }
    }
}

/// In valid UTF-8 text longer than three bytes, the largest cut point at
/// or below `n` lies at most three bytes below it.
pub proof fn lemma_cut_near(s: Seq<u8>, n: int)
    requires
        valid_utf8(s),
        0 <= n <= s.len(),
    ensures
        n - 3 <= cut_at_or_below(s, n),
{
    let j = lemma_boundary_near(s, n);
    lemma_cut_point_is_char_boundary(s, j);
    lemma_cut_at_or_below_is_largest(s, n, j);
}

/// Tells whether `idx` is a cut point of `text`.
pub fn is_char_boundary(text: &[u8], idx: usize) -> (r: bool)
    ensures
        r == is_cut_point(text@, idx as int),
{
    if idx == 0 {
        return true;
    }
    if idx < text.len() {
        let byte = text[idx];
        assert((byte & 0xc0 != 0x80) == !is_continuation_byte(byte)) by (bit_vector);
        byte & 0xc0 != 0x80
    } else {
        idx == text.len()
    }
}

/// Walks down from `size` to the nearest cut point of `text`.
pub fn shift_by_char_boundary(text: &[u8], size: usize) -> (r: usize)
    requires
        size <= text@.len(),
    ensures
        r as int == cut_at_or_below(text@, size as int),
{
    let ghost start = size as int;
    let mut size = size;
    while !is_char_boundary(text, size)
        invariant
            size <= text@.len(),
            cut_at_or_below(text@, size as int) == cut_at_or_below(text@, start),
        decreases size,
    {
        size -= 1;
    }
    size
}

} // verus!
