//! The single-stream backend: one message at a time.

use vstd::prelude::*;
use crate::compress::{compress_blocks, state_to_bytes};
use crate::frame::build_final_blocks;
use crate::model::{
    full_len, iv, lemma_blocks_chain_prefix, lemma_md5_split, md5, padding, Chain,
};

verus! {

/// The MD5 digest of `data`: its whole blocks straight from the input, then
/// the last partial block with its padding.
pub fn digest(data: &[u8]) -> (r: [u8; 16])
    ensures
        r@ == md5(data@),
{
    let len = data.len();
    let n = len / 64;
    let full = 64 * n;
    let iv_chain = Chain { a: 0x67452301u32, b: 0xefcdab89u32, c: 0x98badcfeu32, d: 0x10325476u32 };
    assert(iv_chain == iv());
    let c = compress_blocks(iv_chain, data, 0, n);
    let mut pad = [0u8; 128];
    let nb = build_final_blocks(len as u64, &data[full..len], &mut pad);
    let c2 = compress_blocks(c, &pad, 0, nb);
    proof {
        lemma_md5_split(data@);
        assert(full == full_len(data@.len()));
        lemma_blocks_chain_prefix(iv(), data@.skip(0), data@, n as nat);
        let t = data@.skip(full as int) + padding(len as u64);
        assert(data@.subrange(full as int, len as int) =~= data@.skip(full as int));
        assert(t.len() / 64 == nb);
        lemma_blocks_chain_prefix(c, pad@.skip(0), t, nb as nat);
    }
    state_to_bytes(c2)
}

} // verus!
