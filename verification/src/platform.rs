//! The multi-buffer kernels: several independent streams advanced block by
//! block in lockstep, one lane per stream.
//!
//! The kernel is portable Rust: within each block step it compresses the
//! lanes one after another. `LANES` is the group width the schedulers plan
//! with; `name` reports it.

use vstd::prelude::*;
use crate::compress::{compress_block, compress_blocks, state_to_bytes};
use crate::frame::build_final_blocks;
use crate::model::{
    blocks_chain, full_len, iv, lemma_md5_from_tail, md5, Chain,
};

verus! {

/// The lane width of the multi-buffer kernel.
pub const LANES: usize = 8;

/// The lane width of the multi-buffer kernel on this process.
pub fn lanes() -> (r: usize)
    ensures
        r == LANES,
{
    LANES
}

/// A label for the multi-buffer kernel.
pub fn name() -> (r: &'static str)
    ensures
        r@ == "portable-x8"@,
{
    "portable-x8"
}

/// Advances the first `n` chaining values by `nblocks` blocks each, lane `i`
/// reading the blocks of `blocks[i]`; block `k` of every lane is compressed
/// before block `k + 1` of any.
pub fn update_equal_n(chain: &mut [Chain; 64], blocks: &[&[u8]; 64], n: usize, nblocks: usize)
    requires
        n <= 64,
        forall|i: int| 0 <= i < n ==> #[trigger] blocks@[i]@.len() >= 64 * nblocks,
    ensures
        forall|i: int|
            0 <= i < n ==> #[trigger] final(chain)@[i] == blocks_chain(
                old(chain)@[i],
                blocks@[i]@,
                nblocks as nat,
            ),
        forall|i: int| n <= i < 64 ==> #[trigger] final(chain)@[i] == old(chain)@[i],
{
    let ghost c0 = chain@;
    let mut k: usize = 0;
    while k < nblocks
        invariant
            k <= nblocks,
            n <= 64,
            forall|i: int| 0 <= i < n ==> #[trigger] blocks@[i]@.len() >= 64 * nblocks,
            forall|i: int|
                0 <= i < n ==> #[trigger] chain@[i] == blocks_chain(c0[i], blocks@[i]@, k as nat),
            forall|i: int| n <= i < 64 ==> #[trigger] chain@[i] == c0[i],
        decreases nblocks - k,
    {
        let mut i: usize = 0;
        while i < n
            invariant
                i <= n,
                k < nblocks,
                n <= 64,
                forall|j: int| 0 <= j < n ==> #[trigger] blocks@[j]@.len() >= 64 * nblocks,
                forall|j: int|
                    0 <= j < i ==> #[trigger] chain@[j] == blocks_chain(
                        c0[j],
                        blocks@[j]@,
                        (k + 1) as nat,
                    ),
                forall|j: int|
                    i <= j < n ==> #[trigger] chain@[j] == blocks_chain(c0[j], blocks@[j]@, k as nat),
                forall|j: int| n <= j < 64 ==> #[trigger] chain@[j] == c0[j],
            decreases n - i,
        {
            let b = blocks[i];
            let l = b.len();
            assert(b@.len() >= 64 * nblocks);
            let at = 64 * k;
            let c = compress_block(chain[i], b, at);
            assert(b@.subrange(at as int, at + 64) =~= b@.subrange(
                64 * (k as int),
                64 * (k as int + 1),
            ));
            chain[i] = c;
            i = i + 1;
        }
        k = k + 1;
    }
}

/// Hashes the `batch` equal-length messages `inputs[start..start + batch]`
/// into `outputs[start..start + batch]`: their whole blocks in lockstep, then
/// each one's final blocks.
pub fn hash_equal_n(inputs: &[&[u8]], start: usize, batch: usize, outputs: &mut [[u8; 16]])
    requires
        batch <= 64,
        start + batch <= inputs@.len(),
        start + batch <= old(outputs)@.len(),
        forall|j: int|
            start <= j < start + batch ==> #[trigger] inputs@[j]@.len() == inputs@[start as int]@.len(),
    ensures
        final(outputs)@.len() == old(outputs)@.len(),
        forall|j: int|
            start <= j < start + batch ==> #[trigger] final(outputs)@[j]@ == md5(inputs@[j]@),
        forall|j: int|
            0 <= j < old(outputs)@.len() && !(start <= j < start + batch) ==> #[trigger] final(outputs)@[j]
                == old(outputs)@[j],
{
    if batch == 0 {
        return;
    }
    let total = inputs.len();
    let len = inputs[start].len();
    let n = len / 64;
    let full = 64 * n;
    let iv_chain = Chain { a: 0x67452301u32, b: 0xefcdab89u32, c: 0x98badcfeu32, d: 0x10325476u32 };
    assert(iv_chain == iv());
    let mut chain = [iv_chain; 64];
    let empty: &[u8] = &[];
    let mut blocks: [&[u8]; 64] = [empty; 64];
    let mut j: usize = 0;
    while j < batch
        invariant
            j <= batch <= 64,
            start + batch <= inputs@.len(),
            total == inputs@.len(),
            forall|i: int| 0 <= i < j ==> #[trigger] blocks@[i] == inputs@[start + i],
        decreases batch - j,
    {
        blocks[j] = inputs[start + j];
        j = j + 1;
    }
    assert(forall|i: int| 0 <= i < batch ==> #[trigger] blocks@[i]@.len() == len);
    assert(forall|i: int| 0 <= i < 64 ==> #[trigger] chain@[i] == iv());
    update_equal_n(&mut chain, &blocks, batch, n);
    let ghost o0 = outputs@;
    let mut j: usize = 0;
    while j < batch
        invariant
            j <= batch <= 64,
            start + batch <= inputs@.len(),
            start + batch <= o0.len(),
            total == inputs@.len(),
            len == inputs@[start as int]@.len(),
            n == len / 64,
            full == 64 * n,
            outputs@.len() == o0.len(),
            forall|i: int|
                start <= i < start + batch ==> #[trigger] inputs@[i]@.len() == inputs@[start as int]@.len(),
            forall|i: int|
                0 <= i < batch ==> #[trigger] chain@[i] == blocks_chain(
                    iv(),
                    inputs@[start + i]@,
                    n as nat,
                ),
            forall|i: int| start <= i < start + j ==> #[trigger] outputs@[i]@ == md5(inputs@[i]@),
            forall|i: int|
                0 <= i < o0.len() && !(start <= i < start + j) ==> #[trigger] outputs@[i] == o0[i],
        decreases batch - j,
    {
        let msg = inputs[start + j];
        let ml = msg.len();
        let mut pad = [0u8; 128];
        let nb = build_final_blocks(len as u64, &msg[full..len], &mut pad);
        let c = compress_blocks(chain[j], &pad, 0, nb);
        proof {
            assert(msg@.subrange(full as int, len as int) =~= msg@.skip(full_len(msg@.len()) as int));
            assert(pad@.skip(0) =~= pad@);
            lemma_md5_from_tail(msg@, pad@, nb as nat);
        }
        outputs[start + j] = state_to_bytes(c);
        j = j + 1;
    }
}

} // verus!
