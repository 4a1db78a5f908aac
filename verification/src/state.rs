//! The copyable incremental MD5 state.

use vstd::prelude::*;
use crate::compress::{compress_block, compress_blocks, state_to_bytes};
use crate::frame::build_final_blocks;
use crate::model::{
    absorb, add_count, blocks_chain, fresh, law_absorb_concat, lemma_absorb_pending,
    lemma_absorb_wf, lemma_add_count_assoc, lemma_blocks_chain_prefix, snapshot, stream_wf, Chain,
    StreamModel,
};

verus! {

/// An incremental MD5 state: chaining words, a partial block and a byte count.
#[derive(Clone, Copy)]
pub struct Md5State {
    chain: Chain,
    buf: [u8; 64],
    buf_len: usize,
    count: u64,
}

impl View for Md5State {
    type V = StreamModel;

    closed spec fn view(&self) -> StreamModel {
        StreamModel {
            chain: self.chain,
            pending: self.buf@.take(self.buf_len as int),
            count: self.count,
        }
    }
}

impl Md5State {
    #[verifier::type_invariant]
    spec fn inv(self) -> bool {
        &&& self.buf_len < 64
        &&& self.count % 64 == self.buf_len
    }

    /// A state with nothing absorbed.
    pub fn new() -> (r: Md5State)
        ensures
            r@ == fresh(),
    {
        let r = Md5State {
            chain: Chain { a: 0x67452301u32, b: 0xefcdab89u32, c: 0x98badcfeu32, d: 0x10325476u32 },
            buf: [0u8; 64],
            buf_len: 0,
            count: 0,
        };
        assert(r@.pending =~= Seq::<u8>::empty());
        r
    }

    /// A state resumed at a block boundary from its chaining value and byte count.
    pub fn from_parts(chain: Chain, count: u64) -> (r: Md5State)
        requires
            count % 64 == 0,
        ensures
            r@ == (StreamModel { chain, pending: Seq::empty(), count }),
    {
        let r = Md5State { chain, buf: [0u8; 64], buf_len: 0, count };
        assert(r@.pending =~= Seq::<u8>::empty());
        r
    }

    /// The chaining value after the whole blocks absorbed so far.
    pub fn chain(&self) -> (r: Chain)
        ensures
            r == self@.chain,
    {
        self.chain
    }

    /// How many bytes of a partial block are buffered.
    pub fn buffered(&self) -> (r: usize)
        ensures
            r == self@.pending.len(),
            r < 64,
    {
        proof {
            use_type_invariant(self);
        }
        self.buf_len
    }

    /// Records that whole blocks were compressed elsewhere: a state with an
    /// empty buffer takes the chaining value `chain` and counts `advanced` more bytes.
    pub(crate) fn set_blocks(&mut self, chain: Chain, advanced: usize)
        requires
            old(self)@.pending.len() == 0,
            advanced % 64 == 0,
        ensures
            final(self)@ == (StreamModel {
                chain,
                pending: Seq::empty(),
                count: add_count(old(self)@.count, advanced as nat),
            }),
            stream_wf(final(self)@),
    {
        proof {
            use_type_invariant(&*self);
            lemma_add_count_assoc(self.count, advanced as nat, 0);
        }
        let count = self.count.wrapping_add(advanced as u64);
        assert(count == add_count(self.count, advanced as nat));
        *self = Md5State { chain, buf: self.buf, buf_len: 0, count };
        assert(self@.pending =~= Seq::<u8>::empty());
    }

    /// Appends `input[from..to]` when it fits in the partial block; a block
    /// that becomes full is compressed.
    fn absorb_partial(&mut self, input: &[u8], from: usize, to: usize)
        requires
            from <= to <= input@.len(),
            old(self)@.pending.len() + (to - from) <= 64,
        ensures
            final(self)@ == absorb(old(self)@, input@.subrange(from as int, to as int)),
    {
        reveal(absorb);
        proof {
            use_type_invariant(&*self);
        }
        let ghost s0 = self@;
        let ghost chunk = input@.subrange(from as int, to as int);
        let ghost data = s0.pending + chunk;
        let mut buf = self.buf;
        let bl = self.buf_len;
        let k = to - from;
        let mut j: usize = 0;
        while j < k
            invariant
                j <= k,
                k == to - from,
                to <= input@.len(),
                bl + k <= 64,
                bl == s0.pending.len(),
                chunk == input@.subrange(from as int, to as int),
                forall|i: int| 0 <= i < bl ==> buf@[i] == s0.pending[i],
                forall|i: int| bl <= i < bl + j ==> buf@[i] == chunk[i - bl],
            decreases k - j,
        {
            buf[bl + j] = input[from + j];
            j = j + 1;
        }
        assert(buf@.take((bl + k) as int) =~= data);
        proof {
            lemma_absorb_wf(s0, chunk);
            lemma_add_count_assoc(self.count, k as nat, 0);
        }
        let count = self.count.wrapping_add(k as u64);
        assert(count == add_count(self.count, k as nat));
        if bl + k == 64 {
            assert(buf@.subrange(0, 64) =~= data.subrange(0, 64));
            let chain = compress_block(self.chain, buf.as_slice(), 0);
            assert(blocks_chain(s0.chain, data, 0) == s0.chain);
            assert(chain == blocks_chain(s0.chain, data, 1));
            assert(data.skip(64) =~= Seq::<u8>::empty());
            *self = Md5State { chain, buf, buf_len: 0, count };
            assert(self@.pending =~= Seq::<u8>::empty());
        } else {
            assert(data.len() / 64 == 0);
            assert(data.skip(0) =~= data);
            *self = Md5State { chain: self.chain, buf, buf_len: bl + k, count };
        }
    }

    /// Appends the `n` whole blocks of `input` that start at `from` to a state
    /// with an empty partial block.
    fn absorb_whole_blocks(&mut self, input: &[u8], from: usize, n: usize)
        requires
            from + 64 * n <= input@.len(),
            n == 0 || old(self)@.pending.len() == 0,
        ensures
            final(self)@ == absorb(
                old(self)@,
                input@.subrange(from as int, from + 64 * n),
            ),
    {
        reveal(absorb);
        proof {
            use_type_invariant(&*self);
        }
        let ghost s0 = self@;
        let ghost chunk = input@.subrange(from as int, from + 64 * n);
        if n == 0 {
            assert(s0.pending + chunk =~= s0.pending);
            assert(s0.pending.len() / 64 == 0);
            assert(s0.pending.skip(0) =~= s0.pending);
            assert(add_count(s0.count, 0) == s0.count) by {
                vstd::arithmetic::div_mod::lemma_small_mod(
                    s0.count as nat,
                    0x1_0000_0000_0000_0000,
                );
            }
            return;
        }
        let l = input.len();
        assert(64 * n <= l);
        let chain = compress_blocks(self.chain, input, from, n);
        proof {
            assert(s0.pending + chunk =~= chunk);
            lemma_blocks_chain_prefix(s0.chain, input@.skip(from as int), chunk, n as nat);
            assert(chunk.len() / 64 == n);
            assert(chunk.skip(64 * (n as int)) =~= Seq::<u8>::empty());
        }
        self.set_blocks(chain, 64 * n);
    }

    /// Appends `input` to the stream.
    pub fn update(&mut self, input: &[u8])
        ensures
            final(self)@ == absorb(old(self)@, input@),
            stream_wf(final(self)@),
    {
        proof {
            use_type_invariant(&*self);
        }
        assert(stream_wf(self@));
        let ghost s0 = self@;
        let len = input.len();
        let bl = self.buffered();
        let head: usize = if bl == 0 {
            0
        } else if 64 - bl < len {
            64 - bl
        } else {
            len
        };
        self.absorb_partial(input, 0, head);
        let ghost s1 = self@;
        proof {
            lemma_absorb_pending(s0, input@.subrange(0, head as int));
        }
        let n = (len - head) / 64;
        proof {
            vstd::arithmetic::div_mod::lemma_fundamental_div_mod((len - head) as int, 64);
        }
        let mid = head + 64 * n;
        assert(len - mid < 64);
        assert(n > 0 ==> s1.pending.len() == 0);
        self.absorb_whole_blocks(input, head, n);
        let ghost s2 = self@;
        proof {
            lemma_absorb_pending(s1, input@.subrange(head as int, mid as int));
            vstd::arithmetic::div_mod::lemma_mod_multiples_vanish(n as int, s1.pending.len() as int, 64);
        }
        assert(s2.pending.len() > 0 ==> mid == len);
        self.absorb_partial(input, mid, len);
        proof {
            lemma_absorb_three(s0, input@, head as int, mid as int);
        }
    }

    /// The digest of everything absorbed so far; the state is unchanged.
    pub fn finalize(&self) -> (r: [u8; 16])
        ensures
            r@ == snapshot(self@),
    {
        proof {
            use_type_invariant(self);
        }
        let mut pad = [0u8; 128];
        let nb = build_final_blocks(self.count, &self.buf[0..self.buf_len], &mut pad);
        let c = compress_blocks(self.chain, &pad, 0, nb);
        proof {
            let t = self@.pending + crate::model::padding(self.count);
            assert(t.len() / 64 == nb);
            lemma_blocks_chain_prefix(self.chain, pad@.skip(0), t, nb as nat);
        }
        state_to_bytes(c)
    }
}

/// Appending a sequence in three consecutive pieces is appending it whole.
proof fn lemma_absorb_three(s: StreamModel, x: Seq<u8>, i: int, j: int)
    requires
        0 <= i <= j <= x.len(),
        stream_wf(s),
    ensures
        absorb(absorb(absorb(s, x.subrange(0, i)), x.subrange(i, j)), x.subrange(j, x.len() as int))
            == absorb(s, x),
        stream_wf(absorb(s, x)),
{
    let a = x.subrange(0, i);
    let b = x.subrange(i, j);
    let c = x.subrange(j, x.len() as int);
    law_absorb_concat(s, a, b);
    law_absorb_concat(s, a + b, c);
    assert(a + b + c =~= x);
    lemma_absorb_wf(s, x);
}

} // verus!
