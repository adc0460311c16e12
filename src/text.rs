use vstd::prelude::*;
use vstd::utf8::*;

verus! {

broadcast use vstd::seq::group_seq_axioms;

/// A byte of the ASCII range.
pub open spec fn is_ascii_byte(b: u8) -> bool {
    b < 0x80
}

/// Index `i` of `bs` sits next to an ASCII byte (or at an end), which makes it
/// a character boundary of any valid UTF-8 sequence.
pub open spec fn ascii_edge(bs: Seq<u8>, i: int) -> bool {
    ||| i == 0
    ||| i == bs.len()
    ||| (0 <= i < bs.len() && is_ascii_byte(bs[i]))
    ||| (0 < i <= bs.len() && is_ascii_byte(bs[i - 1]))
}

/// After a one-byte scalar that starts on a boundary, the next index is a
/// boundary too.
proof fn lemma_boundary_after_ascii(bs: Seq<u8>, i: int)
    requires
        valid_utf8(bs),
        0 <= i < bs.len(),
        is_ascii_byte(bs[i]),
        is_char_boundary(bs, i),
    ensures
        is_char_boundary(bs, i + 1),
    decreases bs.len(),
{
    reveal_with_fuel(is_char_boundary, 2);
    if i > 0 {
        let tail = pop_first_scalar(bs);
        let l = length_of_first_scalar(bs);
        assert(tail[i - l] == bs[i]);
        lemma_boundary_after_ascii(tail, i - l);
    }
}

/// Every index next to an ASCII byte of a valid UTF-8 sequence is a
/// character boundary.
pub proof fn lemma_ascii_edge_is_boundary(bs: Seq<u8>, i: int)
    requires
        valid_utf8(bs),
        0 <= i <= bs.len(),
        ascii_edge(bs, i),
    ensures
        is_char_boundary(bs, i),
{
    is_char_boundary_start_end_of_seq(bs);
    if 0 <= i < bs.len() && is_ascii_byte(bs[i]) {
        is_char_boundary_iff_not_is_continuation_byte(bs, i);
    } else if 0 < i < bs.len() && is_ascii_byte(bs[i - 1]) {
        is_char_boundary_iff_not_is_continuation_byte(bs, i - 1);
        lemma_boundary_after_ascii(bs, i - 1);
    }
}

} // verus!
