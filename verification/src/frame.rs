//! Message framing: the final one or two blocks of a message.

use vstd::prelude::*;
use crate::model::{le64, padding, zero_fill, lemma_padding_len};

verus! {

/// Writes the last partial block of a message of `total` bytes, `tail`,
/// followed by the padding, into `pad`, and returns how many 64-byte blocks
/// that takes: one for a tail of 0 to 55 bytes, two for 56 to 63.
pub fn build_final_blocks(total: u64, tail: &[u8], pad: &mut [u8; 128]) -> (r: usize)
    requires
        tail@.len() == total % 64,
    ensures
        r == 1 || r == 2,
        r == 1 <==> tail@.len() < 56,
        64 * r == tail@.len() + padding(total).len(),
        final(pad)@.subrange(0, 64 * r as int) == tail@ + padding(total),
{
    proof {
        lemma_padding_len(total);
        reveal(padding);
    }
    let tl = tail.len();
    let mut i: usize = 0;
    while i < tl
        invariant
            i <= tl,
            tl == tail@.len(),
            tl < 64,
            forall|j: int| 0 <= j < i ==> pad@[j] == tail@[j],
        decreases tl - i,
    {
        pad[i] = tail[i];
        i = i + 1;
    }
    pad[tl] = 0x80u8;
    let nb: usize = if tl < 56 {
        1
    } else {
        2
    };
    let end = 64 * nb - 8;
    assert(end == tl + 1 + zero_fill(total));
    let mut i: usize = tl + 1;
    while i < end
        invariant
            tl + 1 <= i <= end,
            end == 64 * nb - 8,
            nb == 1 || nb == 2,
            tl == tail@.len(),
            forall|j: int| 0 <= j < tl ==> pad@[j] == tail@[j],
            pad@[tl as int] == 0x80u8,
            forall|j: int| tl + 1 <= j < i ==> pad@[j] == 0u8,
        decreases end - i,
    {
        pad[i] = 0u8;
        i = i + 1;
    }
    let bits = total.wrapping_mul(8);
    pad[end] = bits as u8;
    pad[end + 1] = (bits >> 8u64) as u8;
    pad[end + 2] = (bits >> 16u64) as u8;
    pad[end + 3] = (bits >> 24u64) as u8;
    pad[end + 4] = (bits >> 32u64) as u8;
    pad[end + 5] = (bits >> 40u64) as u8;
    pad[end + 6] = (bits >> 48u64) as u8;
    pad[end + 7] = (bits >> 56u64) as u8;
    let ghost want = tail@ + padding(total);
    assert(want.len() == 64 * nb);
    assert forall|j: int| 0 <= j < 64 * nb implies pad@[j] == want[j] by {
        if j >= end {
            assert(want[j] == le64(bits)[j - end]);
        }
    }
    assert(pad@.subrange(0, 64 * nb as int) =~= want);
    nb
}

} // verus!
