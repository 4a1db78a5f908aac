//! Multi-message scheduling: `hash_many` over independent messages and
//! `update_many` over live streams, sharing the multi-buffer kernel.

use vstd::prelude::*;
use crate::backend::digest;
use crate::compress::{compress_blocks, state_to_bytes};
use crate::frame::build_final_blocks;
use crate::model::{
    absorb, blocks_chain, full_len, iv, law_absorb_concat, lemma_absorb_pending, lemma_absorb_whole,
    lemma_blocks_chain_prefix, lemma_blocks_chain_split, lemma_md5_from_tail,
    lemma_resume_snapshot, md5, padding, Chain,
};
use crate::platform;
use crate::state::Md5State;

verus! {

/// SIMD groups per kernel call.
pub const MAX_GROUPS: usize = 4;

/// Most streams one kernel call accepts (widest register times `MAX_GROUPS`).
pub const MAX_BATCH: usize = 16 * MAX_GROUPS;

/// The widest lane count this build can select.
pub fn simd_lanes() -> (r: usize)
    ensures
        r == platform::LANES,
{
    platform::LANES
}

/// The batch width usable on this process.
pub fn runtime_lanes() -> (r: usize)
    ensures
        r == platform::LANES,
        r == 1 || r == 4 || r == 8 || r == 16,
{
    platform::lanes()
}

/// Whether the multi-buffer kernel can run on this process.
pub fn simd_active() -> (r: bool)
    ensures
        r == (platform::LANES > 1),
{
    platform::lanes() > 1
}

/// A label of the multi-buffer kernel for reports.
pub fn simd_name() -> (r: &'static str)
    ensures
        r@ == "portable-x8"@,
{
    platform::name()
}

/// The size of the batch handed to one kernel call when `left` streams of
/// `msg_len` bytes wait and the kernel is `max` lanes wide; `0` sends the
/// next stream to the single-stream path.
pub open spec fn batch_rule(left: int, max: int, msg_len: int) -> int {
    if left < 4 || max < 4 || msg_len < 32 {
        0
    } else if left < 8 && msg_len < 64 {
        0
    } else if left < max * MAX_GROUPS {
        left
    } else {
        max * MAX_GROUPS
    }
}

/// Equal-run size handed to one fused kernel call: short messages and small
/// runs stay on the single-stream path, others fill up to `MAX_GROUPS` groups.
pub fn pick_batch(left: usize, max: usize, msg_len: usize) -> (r: usize)
    ensures
        r == batch_rule(left as int, max as int, msg_len as int),
{
    if left < 4 || max < 4 || msg_len < 32 {
        return 0;
    }
    if left < 8 && msg_len < 64 {
        return 0;
    }
    if left / MAX_GROUPS < max {
        left
    } else {
        max * MAX_GROUPS
    }
}

/// One lane of the refill scheduler: where a message is in its whole blocks,
/// or in its one or two padding blocks.
#[derive(Clone, Copy)]
struct Lane {
    live: bool,
    index: usize,
    offset: usize,
    chain: Chain,
    pad: [u8; 128],
    pad_blocks: usize,
    pad_done: usize,
}

/// The final blocks of a message of `len` bytes: its last partial block and
/// the padding fill one block while that part is under 56 bytes, else two.
spec fn tail_blocks(len: int) -> int {
    if len % 64 < 56 {
        1
    } else {
        2
    }
}

/// A live lane holds message `index` of `inputs`: while `pad_blocks == 0`, the
/// chaining value after its first `offset` bytes, at least a block before its
/// end; then the chaining value after its whole blocks and the first
/// `pad_done` of its `pad_blocks` final blocks, which `pad` holds.
spec fn lane_wf(l: Lane, inputs: Seq<&[u8]>) -> bool {
    let m = inputs[l.index as int]@;
    &&& l.index < inputs.len()
    &&& m.len() <= u64::MAX
    &&& l.offset % 64 == 0
    &&& l.offset <= m.len()
    &&& l.pad_blocks == 0 ==> {
        &&& l.pad_done == 0
        &&& l.offset + 64 <= m.len()
        &&& l.chain == blocks_chain(iv(), m, (l.offset / 64) as nat)
    }
    &&& l.pad_blocks != 0 ==> {
        &&& l.pad_blocks == tail_blocks(m.len() as int)
        &&& m.len() - l.offset < 64
        &&& l.pad@.subrange(0, 64 * l.pad_blocks) == m.skip(l.offset as int) + padding(
            m.len() as u64,
        )
        &&& l.pad_done < l.pad_blocks
        &&& l.chain == blocks_chain(
            blocks_chain(iv(), m, (l.offset / 64) as nat),
            l.pad@,
            l.pad_done as nat,
        )
    }
}

/// The bytes a lane has still to compress: message blocks, then padding blocks.
spec fn lane_data(l: Lane, inputs: Seq<&[u8]>) -> Seq<u8> {
    if l.pad_blocks == 0 {
        inputs[l.index as int]@.skip(l.offset as int)
    } else {
        l.pad@.subrange(64 * l.pad_done, 64 * l.pad_blocks)
    }
}


/// The blocks a lane has still to compress: the whole blocks left of its
/// message and its final blocks, or the padding blocks it has not done yet.
spec fn lane_work(l: Lane, inputs: Seq<&[u8]>) -> nat {
    let len = inputs[l.index as int]@.len();
    if !l.live {
        0
    } else if l.pad_blocks == 0 {
        ((len - l.offset) / 64 + tail_blocks(len as int)) as nat
    } else {
        (l.pad_blocks - l.pad_done) as nat
    }
}

impl Lane {
    fn free() -> (r: Lane)
        ensures
            !r.live,
            r.pad_blocks == 0,
            r.pad_done == 0,
            r.offset == 0,
            r.chain == iv(),
    {
        Lane {
            live: false,
            index: 0,
            offset: 0,
            chain: Chain { a: 0x67452301u32, b: 0xefcdab89u32, c: 0x98badcfeu32, d: 0x10325476u32 },
            pad: [0u8; 128],
            pad_blocks: 0,
            pad_done: 0,
        }
    }

    /// The bytes still to be compressed: message blocks, then padding blocks.
    fn data<'a>(&'a self, inputs: &[&'a [u8]]) -> (r: &'a [u8])
        requires
            lane_wf(*self, inputs@),
        ensures
            r@ == lane_data(*self, inputs@),
            r@.len() >= 64,
    {
        if self.pad_blocks == 0 {
            let m = inputs[self.index];
            let r = &m[self.offset..m.len()];
            assert(r@ =~= m@.skip(self.offset as int));
            r
        } else {
            vstd::slice::slice_subrange(self.pad.as_slice(), self.pad_done * 64, self.pad_blocks * 64)
        }
    }

    /// Once fewer than 64 message bytes remain, builds the padding blocks.
    /// A lane it leaves has its padding or a whole message block ahead, so a
    /// second call changes nothing.
    fn enter_padding_if_short(&mut self, inputs: &[&[u8]])
        requires
            old(self).index < inputs@.len(),
            inputs@[old(self).index as int]@.len() <= u64::MAX,
            old(self).pad_done == 0,
            old(self).offset % 64 == 0,
            old(self).offset <= inputs@[old(self).index as int]@.len(),
            old(self).pad_blocks == 0 ==> old(self).chain == blocks_chain(
                iv(),
                inputs@[old(self).index as int]@,
                (old(self).offset / 64) as nat,
            ),
            old(self).pad_blocks != 0 ==> lane_wf(*old(self), inputs@),
        ensures
            lane_wf(*final(self), inputs@),
            final(self).live == old(self).live,
            final(self).index == old(self).index,
            final(self).offset == old(self).offset,
            final(self).chain == old(self).chain,
            final(self).pad_done == 0,
            (old(self).pad_blocks != 0 || inputs@[old(self).index as int]@.len() - old(self).offset
                >= 64) ==> *final(self) == *old(self),
            (final(self).pad_blocks != 0) <==> (old(self).pad_blocks != 0
                || inputs@[old(self).index as int]@.len() - old(self).offset < 64),
    {
        let input = inputs[self.index];
        if self.pad_blocks == 0 && input.len() - self.offset < 64 {
            let mut pad = self.pad;
            let tail = &input[self.offset..input.len()];
            proof {
                assert(tail@ =~= input@.skip(self.offset as int));
                vstd::arithmetic::div_mod::lemma_fundamental_div_mod(input@.len() as int, 64);
            }
            let nb = build_final_blocks(input.len() as u64, tail, &mut pad);
            self.pad = pad;
            self.pad_blocks = nb;
            assert(blocks_chain(blocks_chain(iv(), input@, (self.offset / 64) as nat), pad@, 0)
                == blocks_chain(iv(), input@, (self.offset / 64) as nat));
        }
    }
}

/// Dividing by 64 the bytes left before and after `nblocks` whole blocks.
proof fn lemma_blocks_left(len: int, off: int, nblocks: int)
    requires
        0 <= off,
        0 <= nblocks,
        off + 64 * nblocks <= len,
    ensures
        (len - off) / 64 == (len - off - 64 * nblocks) / 64 + nblocks,
{
    vstd::arithmetic::div_mod::lemma_hoist_over_denominator(len - off - 64 * nblocks, nblocks, 64);
}

impl Lane {
    /// Takes the chaining value `c` the kernel computed over the next `nblocks`
    /// blocks of a live lane: moves its position on, enters the padding when
    /// its message runs short, and writes the digest and frees the lane when
    /// the padding is done. No other output changes.
    fn settle(&mut self, c: Chain, nblocks: usize, inputs: &[&[u8]], outputs: &mut [[u8; 16]])
        requires
            old(self).live,
            lane_wf(*old(self), inputs@),
            1 <= nblocks,
            64 * nblocks <= lane_data(*old(self), inputs@).len(),
            c == blocks_chain(old(self).chain, lane_data(*old(self), inputs@), nblocks as nat),
            old(outputs)@.len() >= inputs@.len(),
        ensures
            final(self).index == old(self).index,
            final(self).live ==> lane_wf(*final(self), inputs@),
            lane_work(*final(self), inputs@) + nblocks == lane_work(*old(self), inputs@),
            final(outputs)@.len() == old(outputs)@.len(),
            forall|k: int|
                0 <= k < old(outputs)@.len() && k != old(self).index ==> #[trigger] final(outputs)@[k] == old(outputs)@[k],
            final(self).live ==> final(outputs)@ == old(outputs)@,
            !final(self).live ==> done(inputs@, final(outputs)@, old(self).index as int),
    {
        if self.pad_blocks == 0 {
            self.settle_message(c, nblocks, inputs);
        } else {
            self.settle_padding(c, nblocks, inputs, outputs);
        }
    }

    fn settle_message(&mut self, c: Chain, nblocks: usize, inputs: &[&[u8]])
        requires
            old(self).live,
            old(self).pad_blocks == 0,
            lane_wf(*old(self), inputs@),
            1 <= nblocks,
            64 * nblocks <= lane_data(*old(self), inputs@).len(),
            c == blocks_chain(old(self).chain, lane_data(*old(self), inputs@), nblocks as nat),
        ensures
            final(self).index == old(self).index,
            final(self).live,
            lane_wf(*final(self), inputs@),
            lane_work(*final(self), inputs@) + nblocks == lane_work(*old(self), inputs@),
    {
        let ghost m = inputs@[self.index as int]@;
        let ghost q = (self.offset / 64) as nat;
        let ghost o0 = self.offset as int;
        let ml = inputs[self.index].len();
        assert(self.offset + 64 * nblocks <= ml);
        proof {
            assert(64 * q == self.offset);
            lemma_blocks_chain_split(iv(), m, q, nblocks as nat);
            lemma_blocks_left(m.len() as int, o0, nblocks as int);
        }
        self.chain = c;
        self.offset = self.offset + nblocks * 64;
        assert((self.offset / 64) as nat == q + nblocks);
        self.enter_padding_if_short(inputs);
    }

    fn settle_padding(&mut self, c: Chain, nblocks: usize, inputs: &[&[u8]], outputs: &mut [[u8; 16]])
        requires
            old(self).live,
            old(self).pad_blocks != 0,
            lane_wf(*old(self), inputs@),
            1 <= nblocks,
            64 * nblocks <= lane_data(*old(self), inputs@).len(),
            c == blocks_chain(old(self).chain, lane_data(*old(self), inputs@), nblocks as nat),
            old(outputs)@.len() >= inputs@.len(),
        ensures
            final(self).index == old(self).index,
            final(self).live ==> lane_wf(*final(self), inputs@),
            lane_work(*final(self), inputs@) + nblocks == lane_work(*old(self), inputs@),
            final(outputs)@.len() == old(outputs)@.len(),
            forall|k: int|
                0 <= k < old(outputs)@.len() && k != old(self).index ==> #[trigger] final(outputs)@[k] == old(outputs)@[k],
            final(self).live ==> final(outputs)@ == old(outputs)@,
            !final(self).live ==> done(inputs@, final(outputs)@, old(self).index as int),
    {
        let ghost l0 = *self;
        let ghost m = inputs@[self.index as int]@;
        let ghost q = (self.offset / 64) as nat;
        let ghost base = blocks_chain(iv(), m, q);
        proof {
            let pd = l0.pad_done as nat;
            lemma_blocks_chain_split(base, l0.pad@, pd, nblocks as nat);
            lemma_blocks_chain_prefix(
                blocks_chain(base, l0.pad@, pd),
                l0.pad@.skip(64 * (pd as int)),
                lane_data(l0, inputs@),
                nblocks as nat,
            );
        }
        self.chain = c;
        self.pad_done = self.pad_done + nblocks;
        if self.pad_done == self.pad_blocks {
            proof {
                assert(full_len(m.len()) == l0.offset);
                assert(m.len() / 64 == q);
                lemma_md5_from_tail(m, l0.pad@, l0.pad_blocks as nat);
            }
            outputs[self.index] = state_to_bytes(self.chain);
            self.live = false;
        }
    }
}

/// Each output either keeps its value or holds the digest of its message.
pub open spec fn writes_digests(
    inputs: Seq<&[u8]>,
    before: Seq<[u8; 16]>,
    after: Seq<[u8; 16]>,
) -> bool {
    &&& after.len() == before.len()
    &&& forall|j: int|
        0 <= j < after.len() ==> #[trigger] after[j] == before[j] || (j < inputs.len()
            && after[j]@ == md5(inputs[j]@))
}

/// Output `j` holds the digest of message `j`.
pub open spec fn done(inputs: Seq<&[u8]>, outputs: Seq<[u8; 16]>, j: int) -> bool {
    0 <= j < inputs.len() && j < outputs.len() && outputs[j]@ == md5(inputs[j]@)
}

/// Some lane below `width` holds message `j`.
spec fn covers(lanes: Seq<Lane>, width: int, j: int) -> bool {
    exists|s: int| 0 <= s < width && #[trigger] lanes[s].live && lanes[s].index == j
}

/// No message sits in two lanes below `width`.
spec fn distinct_lanes(lanes: Seq<Lane>, width: int) -> bool {
    forall|s: int, t: int|
        0 <= s < width && 0 <= t < width && s != t && #[trigger] lanes[s].live
            && #[trigger] lanes[t].live ==> lanes[s].index != lanes[t].index
}

/// The number of occupied lanes among the first `k`.
spec fn live_count(lanes: Seq<Lane>, k: int) -> int
    decreases k,
{
    if k <= 0 {
        0
    } else {
        live_count(lanes, k - 1) + if lanes[k - 1].live {
            1int
        } else {
            0int
        }
    }
}

/// The blocks still to compress in lanes `0..k`.
spec fn work_upto(lanes: Seq<Lane>, inputs: Seq<&[u8]>, k: int) -> nat
    decreases k,
{
    if k <= 0 {
        0
    } else {
        work_upto(lanes, inputs, k - 1) + lane_work(lanes[k - 1], inputs)
    }
}

/// Message `j` sat in a lane below `width` that no longer holds it.
spec fn retired(before: Seq<Lane>, after: Seq<Lane>, width: int, j: int) -> bool {
    exists|s: int|
        0 <= s < width && #[trigger] before[s].live && before[s].index == j && !(after[s].live
            && after[s].index == j)
}

/// Every occupied lane below `width` keeps its message or has its digest
/// written, and only the outputs of messages that left a lane change.
spec fn kept_or_done(
    before: Seq<Lane>,
    after: Seq<Lane>,
    width: int,
    inputs: Seq<&[u8]>,
    ob: Seq<[u8; 16]>,
    oa: Seq<[u8; 16]>,
) -> bool {
    &&& oa.len() == ob.len()
    &&& forall|s: int|
        0 <= s < width && #[trigger] before[s].live ==> (after[s].live && after[s].index
            == before[s].index) || done(inputs, oa, before[s].index as int)
    &&& forall|j: int|
        0 <= j < oa.len() && !retired(before, after, width, j) ==> #[trigger] oa[j] == ob[j]
}

/// No lane below `width` takes up a message: an occupied lane was occupied
/// before, by the same message.
spec fn no_new_lanes(before: Seq<Lane>, after: Seq<Lane>, width: int) -> bool {
    forall|s: int|
        0 <= s < width && #[trigger] after[s].live ==> before[s].live && after[s].index
            == before[s].index
}

/// Each lane occupied below `width` is `nb` blocks further on.
spec fn advanced_by(before: Seq<Lane>, after: Seq<Lane>, width: int, inputs: Seq<&[u8]>, nb: int) -> bool {
    forall|s: int|
        0 <= s < width && #[trigger] before[s].live ==> lane_work(after[s], inputs) + nb
            == lane_work(before[s], inputs)
}

/// One of the lanes listed in `live[..n]` holds fewer than `nb + 1` blocks.
spec fn min_listed(lanes: Seq<Lane>, inputs: Seq<&[u8]>, live: Seq<usize>, n: int, nb: int) -> bool {
    exists|a: int|
        0 <= a < n && lane_data(lanes[#[trigger] live[a] as int], inputs).len() < 64 * (nb + 1)
}

/// `nb` is the block count all occupied lanes below `width` still hold:
/// each holds at least `nb` whole blocks, and one of them no more.
spec fn common_blocks(lanes: Seq<Lane>, width: int, inputs: Seq<&[u8]>, nb: int) -> bool {
    &&& forall|s: int|
        0 <= s < width && #[trigger] lanes[s].live ==> 64 * nb <= lane_data(lanes[s], inputs).len()
    &&& exists|s: int|
        0 <= s < width && #[trigger] lanes[s].live && lane_data(lanes[s], inputs).len() < 64 * (nb
            + 1)
}

/// When every occupied lane moves on by `nb` blocks and the others stay, the
/// work left drops by `nb` for each occupied lane.
proof fn lemma_work_advanced(before: Seq<Lane>, after: Seq<Lane>, inputs: Seq<&[u8]>, k: int, nb: int)
    requires
        advanced_by(before, after, k, inputs, nb),
        forall|s: int| 0 <= s < k && !before[s].live ==> #[trigger] after[s] == before[s],
    ensures
        work_upto(after, inputs, k) + nb * live_count(before, k) == work_upto(before, inputs, k),
    decreases k,
{
    if k > 0 {
        lemma_work_advanced(before, after, inputs, k - 1, nb);
        let lc = live_count(before, k - 1);
        assert(nb * (lc + 1) == nb * lc + nb) by (nonlinear_arith);
        if before[k - 1].live {
        } else {
            assert(after[k - 1] == before[k - 1]);
        }
    }
}

/// A message that has just taken a lane: at its start, from the initial
/// chaining value, in its padding already when it is under a block long.
spec fn fresh_lane(l: Lane, index: int, inputs: Seq<&[u8]>) -> bool {
    &&& l.live
    &&& l.index == index
    &&& l.offset == 0
    &&& l.pad_done == 0
    &&& l.chain == iv()
    &&& (l.pad_blocks != 0 <==> inputs[index]@.len() < 64)
}

proof fn lemma_work_upto_le(a: Seq<Lane>, b: Seq<Lane>, inputs: Seq<&[u8]>, k: int)
    requires
        forall|s: int| 0 <= s < k ==> lane_work(#[trigger] a[s], inputs) <= lane_work(b[s], inputs),
    ensures
        work_upto(a, inputs, k) <= work_upto(b, inputs, k),
    decreases k,
{
    if k > 0 {
        lemma_work_upto_le(a, b, inputs, k - 1);
    }
}

proof fn lemma_work_upto_lt(a: Seq<Lane>, b: Seq<Lane>, inputs: Seq<&[u8]>, k: int, s0: int)
    requires
        0 <= s0 < k,
        lane_work(a[s0], inputs) < lane_work(b[s0], inputs),
        forall|s: int| 0 <= s < k ==> lane_work(#[trigger] a[s], inputs) <= lane_work(b[s], inputs),
    ensures
        work_upto(a, inputs, k) < work_upto(b, inputs, k),
    decreases k,
{
    if k - 1 == s0 {
        lemma_work_upto_le(a, b, inputs, k - 1);
    } else {
        lemma_work_upto_lt(a, b, inputs, k - 1, s0);
    }
}

/// A digest that is written stays written.
proof fn lemma_done_stays(
    before: Seq<Lane>,
    after: Seq<Lane>,
    width: int,
    inputs: Seq<&[u8]>,
    ob: Seq<[u8; 16]>,
    oa: Seq<[u8; 16]>,
    j: int,
)
    requires
        kept_or_done(before, after, width, inputs, ob, oa),
        done(inputs, ob, j),
    ensures
        done(inputs, oa, j),
{
    if retired(before, after, width, j) {
        let t = choose|t: int|
            0 <= t < width && #[trigger] before[t].live && before[t].index == j && !(after[t].live
                && after[t].index == j);
        assert(before[t].live);
    } else {
        assert(oa[j] == ob[j]);
    }
}

/// Outputs only change to the digests of their messages.
proof fn lemma_kept_writes(
    before: Seq<Lane>,
    after: Seq<Lane>,
    width: int,
    inputs: Seq<&[u8]>,
    ob: Seq<[u8; 16]>,
    oa: Seq<[u8; 16]>,
)
    requires
        kept_or_done(before, after, width, inputs, ob, oa),
    ensures
        writes_digests(inputs, ob, oa),
{
    assert forall|j: int| 0 <= j < oa.len() implies #[trigger] oa[j] == ob[j] || (j < inputs.len()
        && oa[j]@ == md5(inputs[j]@)) by {
        if retired(before, after, width, j) {
            let t = choose|t: int|
                0 <= t < width && #[trigger] before[t].live && before[t].index == j && !(
                after[t].live && after[t].index == j);
            assert(before[t].live);
        }
    }
}

/// Steps that only keep lanes or free them compose.
proof fn lemma_kept_trans(
    a: Seq<Lane>,
    b: Seq<Lane>,
    c: Seq<Lane>,
    width: int,
    inputs: Seq<&[u8]>,
    o1: Seq<[u8; 16]>,
    o2: Seq<[u8; 16]>,
    o3: Seq<[u8; 16]>,
)
    requires
        kept_or_done(a, b, width, inputs, o1, o2),
        no_new_lanes(a, b, width),
        kept_or_done(b, c, width, inputs, o2, o3),
        no_new_lanes(b, c, width),
    ensures
        kept_or_done(a, c, width, inputs, o1, o3),
        no_new_lanes(a, c, width),
{
    assert forall|s: int| 0 <= s < width && #[trigger] a[s].live implies (c[s].live && c[s].index
        == a[s].index) || done(inputs, o3, a[s].index as int) by {
        if b[s].live && b[s].index == a[s].index {
            assert(b[s].live);
        } else {
            lemma_done_stays(b, c, width, inputs, o2, o3, a[s].index as int);
        }
    }
    assert forall|j: int| 0 <= j < o3.len() && !retired(a, c, width, j) implies #[trigger] o3[j]
        == o1[j] by {
        if retired(b, c, width, j) {
            let t = choose|t: int|
                0 <= t < width && #[trigger] b[t].live && b[t].index == j && !(c[t].live
                    && c[t].index == j);
            assert(a[t].live);
        }
        if retired(a, b, width, j) {
            let s = choose|s: int|
                0 <= s < width && #[trigger] a[s].live && a[s].index == j && !(b[s].live
                    && b[s].index == j);
            if c[s].live {
                assert(b[s].live);
            }
            assert(a[s].live);
        }
        assert(o2[j] == o1[j]);
    }
    assert forall|s: int| 0 <= s < width && #[trigger] c[s].live implies a[s].live && c[s].index
        == a[s].index by {
        assert(b[s].live);
    }
}

/// Coverage moves along with lanes that go on; the others are done.
proof fn lemma_cover_step(
    before: Seq<Lane>,
    after: Seq<Lane>,
    width: int,
    inputs: Seq<&[u8]>,
    ob: Seq<[u8; 16]>,
    oa: Seq<[u8; 16]>,
)
    requires
        kept_or_done(before, after, width, inputs, ob, oa),
    ensures
        forall|j: int|
            covers(before, width, j) ==> covers(after, width, j) || done(inputs, oa, j),
{
    assert forall|j: int| covers(before, width, j) implies covers(after, width, j) || done(
        inputs,
        oa,
        j,
    ) by {
        let s = choose|s: int| 0 <= s < width && #[trigger] before[s].live && before[s].index == j;
        if after[s].live && after[s].index == before[s].index {
            assert(covers(after, width, j));
        }
    }
}

/// Outputs that hold their digests keep them.
proof fn lemma_writes_digests_trans(
    inputs: Seq<&[u8]>,
    o1: Seq<[u8; 16]>,
    o2: Seq<[u8; 16]>,
    o3: Seq<[u8; 16]>,
)
    requires
        writes_digests(inputs, o1, o2),
        writes_digests(inputs, o2, o3),
    ensures
        writes_digests(inputs, o1, o3),
        forall|j: int| done(inputs, o2, j) ==> done(inputs, o3, j),
{
    assert forall|j: int| 0 <= j < o3.len() implies #[trigger] o3[j] == o1[j] || (j < inputs.len()
        && o3[j]@ == md5(inputs[j]@)) by {
        assert(o2[j] == o1[j] || (j < inputs.len() && o2[j]@ == md5(inputs[j]@)));
    }
    assert forall|j: int| done(inputs, o2, j) implies done(inputs, o3, j) by {
        assert(o3[j] == o2[j] || (j < inputs.len() && o3[j]@ == md5(inputs[j]@)));
    }
}

/// Lanes that take up no message keep theirs apart.
proof fn lemma_distinct_step(before: Seq<Lane>, after: Seq<Lane>, width: int)
    requires
        distinct_lanes(before, width),
        no_new_lanes(before, after, width),
    ensures
        distinct_lanes(after, width),
{
    assert forall|s: int, t: int|
        0 <= s < width && 0 <= t < width && s != t && #[trigger] after[s].live
            && #[trigger] after[t].live implies after[s].index != after[t].index by {
        assert(before[s].live && before[t].live);
    }
}

/// A message that left a lane stays retired while another lane changes.
proof fn lemma_retired_grow(
    lanes0: Seq<Lane>,
    prev: Seq<Lane>,
    next: Seq<Lane>,
    width: int,
    slot: int,
)
    requires
        0 <= slot < width,
        prev[slot] == lanes0[slot],
        forall|s: int| 0 <= s < width && s != slot ==> #[trigger] next[s] == prev[s],
    ensures
        forall|j: int| retired(lanes0, prev, width, j) ==> retired(lanes0, next, width, j),
{
    assert forall|j: int| retired(lanes0, prev, width, j) implies retired(lanes0, next, width, j) by {
        let s = choose|s: int|
            0 <= s < width && #[trigger] lanes0[s].live && lanes0[s].index == j && !(prev[s].live
                && prev[s].index == j);
        assert(s != slot);
        assert(next[s] == prev[s]);
        assert(lanes0[s].live);
    }
}

/// Shares the lanes of the multi-buffer kernel between messages of unequal
/// lengths.
///
/// Up to one window of lanes each hold a message. Every round compresses the
/// number of blocks all occupied lanes still have in common; a lane whose
/// message runs out goes through its padding blocks the same way and then
/// takes the next message. Messages left in fewer than four lanes at the end
/// are finished on the single-stream path.
struct Refill<'a> {
    inputs: &'a [&'a [u8]],
    lanes: [Lane; MAX_BATCH],
    width: usize,
    max: usize,
}

impl<'a> Refill<'a> {
    spec fn wf(&self) -> bool {
        &&& self.width == self.max
        &&& self.width <= MAX_BATCH
        &&& forall|s: int|
            0 <= s < self.width && #[trigger] self.lanes@[s].live ==> lane_wf(
                self.lanes@[s],
                self.inputs@,
            )
        &&& distinct_lanes(self.lanes@, self.width as int)
    }

    spec fn rem(&self) -> nat {
        work_upto(self.lanes@, self.inputs@, self.width as int)
    }

    /// A scheduler for a kernel of `max` lanes with every lane free; its
    /// window of `max * update_groups_per_window()` lanes fits in `MAX_BATCH`.
    fn new(inputs: &'a [&'a [u8]], max: usize) -> (r: Self)
        requires
            max <= MAX_BATCH,
        ensures
            r.wf(),
            r.inputs == inputs,
            r.max == max,
            r.width == max,
            forall|s: int| 0 <= s < 64 ==> !(#[trigger] r.lanes@[s]).live,
    {
        let free = Lane::free();
        let width = max * update_groups_per_window();
        let r = Refill { inputs, lanes: [free; MAX_BATCH], width, max };
        assert(forall|s: int| 0 <= s < 64 ==> #[trigger] r.lanes@[s] == free);
        r
    }

    /// The first free lane, or `width` when all are occupied.
    fn free_slot(&self) -> (r: usize)
        requires
            self.wf(),
        ensures
            r <= self.width,
            r < self.width ==> !self.lanes@[r as int].live,
            r == self.width ==> forall|s: int| 0 <= s < self.width ==> #[trigger] self.lanes@[s].live,
    {
        let mut slot: usize = 0;
        while slot < self.width
            invariant
                slot <= self.width,
                self.width <= 64,
                forall|s: int| 0 <= s < slot ==> #[trigger] self.lanes@[s].live,
            decreases self.width - slot,
        {
            if !self.lanes[slot].live {
                return slot;
            }
            slot = slot + 1;
        }
        slot
    }

    /// The occupied lanes in slot order, their number, and the most blocks
    /// all of them hold; `pos` maps each occupied slot to its place in the list.
    fn collect(&self) -> (r: ([usize; MAX_BATCH], usize, usize, Ghost<Seq<int>>))
        requires
            self.wf(),
        ensures
            ({
                let (live, n, nblocks, pos) = r;
                &&& n <= self.width
                &&& n == live_count(self.lanes@, self.width as int)
                &&& pos@.len() == 64
                &&& forall|a: int|
                    0 <= a < n ==> #[trigger] live@[a] < self.width && self.lanes@[live@[a] as int].live
                        && pos@[live@[a] as int] == a
                &&& forall|s: int|
                    0 <= s < self.width ==> (#[trigger] self.lanes@[s].live <==> 0 <= pos@[s] < n)
                &&& forall|s: int|
                    0 <= s < self.width && #[trigger] self.lanes@[s].live ==> live@[pos@[s]] == s
                &&& forall|a: int|
                    0 <= a < n ==> lane_data(self.lanes@[#[trigger] live@[a] as int], self.inputs@).len()
                        >= 64 * nblocks
                &&& n > 0 ==> nblocks >= 1
                &&& n > 0 ==> min_listed(self.lanes@, self.inputs@, live@, n as int, nblocks as int)
                &&& (forall|s: int| 0 <= s < self.width ==> #[trigger] self.lanes@[s].live) ==> n
                    == self.width
            }),
    {
        let ghost lanes0 = self.lanes@;
        let ghost inputs = self.inputs@;
        let width = self.width;
        let mut live = [0usize; MAX_BATCH];
        let mut n: usize = 0;
        let mut nblocks: usize = usize::MAX;
        let ghost mut pos: Seq<int> = Seq::new(64, |i: int| -1);
        let mut slot: usize = 0;
        while slot < width
            invariant
                self.wf(),
                lanes0 == self.lanes@,
                inputs == self.inputs@,
                width == self.width,
                slot <= width <= 64,
                n <= slot,
                n == live_count(lanes0, slot as int),
                pos.len() == 64,
                forall|a: int|
                    0 <= a < n ==> #[trigger] live@[a] < slot && lanes0[live@[a] as int].live
                        && pos[live@[a] as int] == a,
                forall|s: int| 0 <= s < slot && #[trigger] lanes0[s].live ==> 0 <= pos[s] < n,
                forall|s: int| 0 <= s < slot && !(#[trigger] lanes0[s]).live ==> pos[s] == -1,
                forall|s: int| 0 <= s < slot && #[trigger] lanes0[s].live ==> live@[pos[s]] == s,
                n == 0 ==> nblocks == usize::MAX,
                forall|s: int| slot <= s < 64 ==> #[trigger] pos[s] == -1,
                forall|a: int|
                    0 <= a < n ==> lane_data(lanes0[#[trigger] live@[a] as int], inputs).len() >= 64
                        * nblocks,
                n > 0 ==> nblocks >= 1,
                n > 0 ==> min_listed(lanes0, inputs, live@, n as int, nblocks as int),
                (forall|s: int| 0 <= s < slot ==> #[trigger] lanes0[s].live) ==> n == slot,
            decreases width - slot,
        {
            let ghost pos_before = pos;
            let ghost n_before = n;
            let ghost nb_before = nblocks;
            assert(pos[slot as int] == -1);
            assert(live_count(lanes0, slot + 1) == live_count(lanes0, slot as int) + if lanes0[slot as int].live {
                1int
            } else {
                0int
            });
            if self.lanes[slot].live {
                let dl = self.lanes[slot].data(self.inputs).len();
                let d = dl / 64;
                proof {
                    vstd::arithmetic::div_mod::lemma_fundamental_div_mod(dl as int, 64);
                }
                assert(d >= 1);
                assert(64 * d <= dl);
                assert(dl < 64 * (d + 1));
                let ghost wit: int = if n_before > 0 {
                    choose|a: int|
                        0 <= a < n_before && lane_data(lanes0[#[trigger] live@[a] as int], inputs).len()
                            < 64 * (nb_before + 1)
                } else {
                    0
                };
                live[n] = slot;
                proof {
                    pos = pos.update(slot as int, n as int);
                }
                n = n + 1;
                if d < nblocks {
                    nblocks = d;
                }
                assert(nblocks >= 1);
                assert(lane_data(lanes0[live@[n_before as int] as int], inputs).len() == dl);
                proof {
                    if d < nb_before {
                        assert(lane_data(lanes0[live@[n_before as int] as int], inputs).len() < 64 * (
                        nblocks + 1));
                    } else {
                        assert(n_before > 0);
                        assert(lane_data(lanes0[live@[wit] as int], inputs).len() < 64 * (nblocks
                            + 1));
                    }
                }
                assert forall|a: int| 0 <= a < n implies lane_data(
                    lanes0[#[trigger] live@[a] as int],
                    inputs,
                ).len() >= 64 * nblocks by {
                    if a < n_before {
                        assert(lane_data(lanes0[live@[a] as int], inputs).len() >= 64 * nb_before);
                    }
                }
            }
            slot = slot + 1;
        }
        (live, n, nblocks, Ghost(pos))
    }

    /// One kernel round over the occupied lanes, run exactly when enough of
    /// them are occupied for a kernel batch: each occupied lane advances by
    /// the block count they all still hold. `false` leaves everything as it
    /// was.
    fn round(&mut self, outputs: &mut [[u8; 16]]) -> (r: bool)
        requires
            old(self).wf(),
            old(outputs)@.len() >= old(self).inputs@.len(),
        ensures
            final(self).wf(),
            final(self).inputs == old(self).inputs,
            final(self).width == old(self).width,
            final(self).max == old(self).max,
            r == (batch_rule(
                live_count(old(self).lanes@, old(self).width as int),
                old(self).max as int,
                64,
            ) != 0),
            !r ==> *final(self) == *old(self) && final(outputs)@ == old(outputs)@,
            r ==> exists|nb: int|
                1 <= nb && common_blocks(
                    old(self).lanes@,
                    old(self).width as int,
                    old(self).inputs@,
                    nb,
                ) && #[trigger] advanced_by(
                    old(self).lanes@,
                    final(self).lanes@,
                    old(self).width as int,
                    old(self).inputs@,
                    nb,
                ),
            forall|s: int|
                0 <= s < 64 && !(s < old(self).width && old(self).lanes@[s].live)
                    ==> #[trigger] final(self).lanes@[s] == old(self).lanes@[s],
            no_new_lanes(old(self).lanes@, final(self).lanes@, old(self).width as int),
            kept_or_done(
                old(self).lanes@,
                final(self).lanes@,
                old(self).width as int,
                old(self).inputs@,
                old(outputs)@,
                final(outputs)@,
            ),
            old(self).max >= 4 && (forall|s: int|
                0 <= s < old(self).width ==> #[trigger] old(self).lanes@[s].live) ==> r,
            r ==> final(self).rem() + 4 <= old(self).rem(),
    {
        let ghost lanes0 = self.lanes@;
        let ghost inputs = self.inputs@;
        let ghost o0 = outputs@;
        let width = self.width;
        let (live, n, nblocks, Ghost(pos)) = self.collect();
        if pick_batch(n, self.max, 64) == 0 {
            assert(kept_or_done(lanes0, lanes0, width as int, inputs, o0, o0));
            return false;
        }
        let iv_chain = Lane::free().chain;
        let mut chain = [iv_chain; MAX_BATCH];
        let empty: &[u8] = &[];
        let mut blocks: [&[u8]; MAX_BATCH] = [empty; MAX_BATCH];
        let mut a: usize = 0;
        while a < n
            invariant
                a <= n <= width <= 64,
                self.wf(),
                self.lanes@ == lanes0,
                self.inputs@ == inputs,
                width == self.width,
                forall|b: int|
                    0 <= b < n ==> #[trigger] live@[b] < width && lanes0[live@[b] as int].live,
                forall|b: int|
                    0 <= b < a ==> #[trigger] chain@[b] == lanes0[live@[b] as int].chain,
                forall|b: int|
                    0 <= b < a ==> #[trigger] blocks@[b]@ == lane_data(lanes0[live@[b] as int], inputs),
            decreases n - a,
        {
            let slot = live[a];
            chain[a] = self.lanes[slot].chain;
            blocks[a] = self.lanes[slot].data(self.inputs);
            a = a + 1;
        }
        assert forall|b: int| 0 <= b < n implies #[trigger] blocks@[b]@.len() >= 64 * nblocks by {
            assert(blocks@[b]@ == lane_data(lanes0[live@[b] as int], inputs));
        }
        platform::update_equal_n(&mut chain, &blocks, n, nblocks);
        self.settle_all(&live, n, nblocks, &chain, outputs, Ghost(pos));
        proof {
            assert(advanced_by(lanes0, self.lanes@, width as int, inputs, nblocks as int));
            let wit = choose|a: int|
                0 <= a < n && lane_data(lanes0[#[trigger] live@[a] as int], inputs).len() < 64 * (
                nblocks + 1);
            assert(lanes0[live@[wit] as int].live);
            assert forall|s: int| 0 <= s < width && #[trigger] lanes0[s].live implies 64 * nblocks
                <= lane_data(lanes0[s], inputs).len() by {
                assert(live@[pos[s]] == s);
            }
            assert(common_blocks(lanes0, width as int, inputs, nblocks as int));
            lemma_work_advanced(lanes0, self.lanes@, inputs, width as int, nblocks as int);
            let lc = live_count(lanes0, width as int);
            assert(lc >= 4);
            assert(nblocks * lc >= 4) by (nonlinear_arith)
                requires
                    nblocks >= 1,
                    lc >= 4,
            ;
        }
        true
    }

    /// Takes the chaining values the kernel computed for the lanes listed in
    /// `live[..n]` into those lanes.
    fn settle_all(
        &mut self,
        live: &[usize; MAX_BATCH],
        n: usize,
        nblocks: usize,
        chain: &[Chain; MAX_BATCH],
        outputs: &mut [[u8; 16]],
        pos: Ghost<Seq<int>>,
    )
        requires
            old(self).wf(),
            1 <= n <= old(self).width,
            1 <= nblocks,
            old(outputs)@.len() >= old(self).inputs@.len(),
            pos@.len() == 64,
            forall|b: int|
                0 <= b < n ==> #[trigger] live@[b] < old(self).width && old(self).lanes@[live@[b] as int].live
                    && pos@[live@[b] as int] == b,
            forall|s: int|
                0 <= s < old(self).width ==> (#[trigger] old(self).lanes@[s].live <==> 0 <= pos@[s] < n),
            forall|s: int|
                0 <= s < old(self).width && #[trigger] old(self).lanes@[s].live ==> live@[pos@[s]] == s,
            forall|b: int|
                0 <= b < n ==> #[trigger] chain@[b] == blocks_chain(
                    old(self).lanes@[live@[b] as int].chain,
                    lane_data(old(self).lanes@[live@[b] as int], old(self).inputs@),
                    nblocks as nat,
                ),
            forall|b: int|
                0 <= b < n ==> lane_data(old(self).lanes@[#[trigger] live@[b] as int], old(self).inputs@).len()
                    >= 64 * nblocks,
        ensures
            final(self).wf(),
            final(self).inputs == old(self).inputs,
            final(self).width == old(self).width,
            final(self).max == old(self).max,
            advanced_by(
                old(self).lanes@,
                final(self).lanes@,
                old(self).width as int,
                old(self).inputs@,
                nblocks as int,
            ),
            forall|s: int|
                0 <= s < 64 && !(s < old(self).width && old(self).lanes@[s].live)
                    ==> #[trigger] final(self).lanes@[s] == old(self).lanes@[s],
            no_new_lanes(old(self).lanes@, final(self).lanes@, old(self).width as int),
            kept_or_done(
                old(self).lanes@,
                final(self).lanes@,
                old(self).width as int,
                old(self).inputs@,
                old(outputs)@,
                final(outputs)@,
            ),
            final(self).rem() < old(self).rem(),
    {
        let ghost lanes0 = self.lanes@;
        let ghost inputs = self.inputs@;
        let ghost o0 = outputs@;
        let ghost pos = pos@;
        let width = self.width;
        let mut a: usize = 0;
        while a < n
            invariant
                a <= n <= width <= 64,
                1 <= nblocks,
                self.inputs@ == inputs,
                width == self.width,
                self.width <= MAX_BATCH,
                self.width == self.max,
                outputs@.len() == o0.len(),
                o0.len() >= inputs.len(),
                distinct_lanes(lanes0, width as int),
                forall|b: int|
                    0 <= b < n ==> #[trigger] live@[b] < width && lanes0[live@[b] as int].live
                        && pos[live@[b] as int] == b,
                forall|s: int| 0 <= s < width ==> (#[trigger] lanes0[s].live <==> 0 <= pos[s] < n),
                forall|s: int| 0 <= s < width && #[trigger] lanes0[s].live ==> live@[pos[s]] == s,
                forall|s: int|
                    0 <= s < width && #[trigger] lanes0[s].live ==> lane_wf(lanes0[s], inputs),
                forall|b: int|
                    0 <= b < n ==> #[trigger] chain@[b] == blocks_chain(
                        lanes0[live@[b] as int].chain,
                        lane_data(lanes0[live@[b] as int], inputs),
                        nblocks as nat,
                    ),
                forall|b: int|
                    0 <= b < n ==> lane_data(lanes0[#[trigger] live@[b] as int], inputs).len() >= 64
                        * nblocks,
                forall|s: int|
                    0 <= s < 64 && !(s < width && lanes0[s].live && pos[s] < a)
                        ==> #[trigger] self.lanes@[s] == lanes0[s],
                forall|s: int|
                    0 <= s < width && lanes0[s].live && pos[s] < a ==> #[trigger] self.lanes@[s].index
                        == lanes0[s].index,
                forall|s: int|
                    0 <= s < width && lanes0[s].live && pos[s] < a && #[trigger] self.lanes@[s].live
                        ==> lane_wf(self.lanes@[s], inputs),
                forall|s: int|
                    0 <= s < width && lanes0[s].live && pos[s] < a && !(#[trigger] self.lanes@[s]).live
                        ==> done(inputs, outputs@, lanes0[s].index as int),
                forall|s: int|
                    0 <= s < width && lanes0[s].live && pos[s] < a ==> lane_work(
                        #[trigger] self.lanes@[s],
                        inputs,
                    ) + nblocks == lane_work(lanes0[s], inputs),
                forall|j: int|
                    0 <= j < o0.len() && !retired(lanes0, self.lanes@, width as int, j)
                        ==> #[trigger] outputs@[j] == o0[j],
            decreases n - a,
        {
            let slot = live[a];
            assert(pos[slot as int] == a);
            let mut lane = self.lanes[slot];
            let ghost before = outputs@;
            let ghost lanes_before = self.lanes@;
            assert(lanes_before[slot as int] == lanes0[slot as int]);
            assert(lane == lanes0[slot as int]);
            let ghost lane0 = lane;
            let ghost idx = lane0.index as int;
            lane.settle(chain[a], nblocks, self.inputs, outputs);
            self.lanes[slot] = lane;
            assert(self.lanes@[slot as int] == lane);
            proof {
                assert forall|s: int| 0 <= s < width && s != slot implies #[trigger] self.lanes@[s]
                    == lanes_before[s] by {}
                lemma_retired_grow(lanes0, lanes_before, self.lanes@, width as int, slot as int);
                if !lane.live {
                    assert(lanes0[slot as int].live);
                    assert(retired(lanes0, self.lanes@, width as int, idx));
                }
                assert forall|j: int|
                    0 <= j < o0.len() && !retired(lanes0, self.lanes@, width as int, j) implies #[trigger] outputs@[j]
                    == o0[j] by {
                    assert(!retired(lanes0, lanes_before, width as int, j));
                    assert(before[j] == o0[j]);
                }
                assert forall|s: int|
                    0 <= s < width && lanes0[s].live && pos[s] < a + 1 && !(
                    #[trigger] self.lanes@[s]).live implies done(
                    inputs,
                    outputs@,
                    lanes0[s].index as int,
                ) by {
                    if s != slot {
                        assert(self.lanes@[s] == lanes_before[s]);
                        assert(done(inputs, before, lanes0[s].index as int));
                        assert(lanes0[s].index != idx);
                        assert(outputs@[lanes0[s].index as int] == before[lanes0[s].index as int]);
                    }
                }
            }
            a = a + 1;
        }
        proof {
            let s0 = live@[0] as int;
            assert forall|s: int| 0 <= s < width implies lane_work(#[trigger] self.lanes@[s], inputs)
                <= lane_work(lanes0[s], inputs) by {
                if lanes0[s].live && pos[s] < n {
                } else {
                    assert(self.lanes@[s] == lanes0[s]);
                }
            }
            assert(pos[s0] == 0);
            lemma_work_upto_lt(self.lanes@, lanes0, inputs, width as int, s0);
            assert forall|s: int| 0 <= s < width && #[trigger] self.lanes@[s].live implies lanes0[s].live
                && self.lanes@[s].index == lanes0[s].index by {
                if !(lanes0[s].live && pos[s] < n) {
                    assert(self.lanes@[s] == lanes0[s]);
                }
            }
            lemma_distinct_step(lanes0, self.lanes@, width as int);
            assert forall|s: int| 0 <= s < width && #[trigger] self.lanes@[s].live implies lane_wf(
                self.lanes@[s],
                inputs,
            ) by {
                if !(lanes0[s].live && pos[s] < n) {
                    assert(self.lanes@[s] == lanes0[s]);
                }
            }
        }
    }

    /// Finishes the message in lane `slot` on the single-stream path and
    /// frees the lane; only that message's output changes.
    fn finish_scalar(&mut self, slot: usize, outputs: &mut [[u8; 16]])
        requires
            old(self).wf(),
            slot < old(self).width,
            old(self).lanes@[slot as int].live,
            old(outputs)@.len() >= old(self).inputs@.len(),
        ensures
            final(self).wf(),
            final(self).inputs == old(self).inputs,
            final(self).width == old(self).width,
            final(self).max == old(self).max,
            forall|s: int| 0 <= s < 64 && s != slot ==> #[trigger] final(self).lanes@[s] == old(self).lanes@[s],
            !final(self).lanes@[slot as int].live,
            final(outputs)@.len() == old(outputs)@.len(),
            done(old(self).inputs@, final(outputs)@, old(self).lanes@[slot as int].index as int),
            forall|k: int|
                0 <= k < old(outputs)@.len() && k != old(self).lanes@[slot as int].index
                    ==> #[trigger] final(outputs)@[k] == old(outputs)@[k],
            no_new_lanes(old(self).lanes@, final(self).lanes@, old(self).width as int),
            kept_or_done(
                old(self).lanes@,
                final(self).lanes@,
                old(self).width as int,
                old(self).inputs@,
                old(outputs)@,
                final(outputs)@,
            ),
    {
        let ghost lanes0 = self.lanes@;
        let ghost o0 = outputs@;
        let ghost inputs = self.inputs@;
        let ghost width = self.width as int;
        let mut lane = self.lanes[slot];
        let ghost m = self.inputs@[lane.index as int]@;
        let ghost q = (lane.offset / 64) as nat;
        let digest = if lane.pad_blocks == 0 {
            let input = self.inputs[lane.index];
            let mut raw = Md5State::from_parts(lane.chain, lane.offset as u64);
            let rest = &input[lane.offset..input.len()];
            assert(rest@ =~= m.skip(lane.offset as int));
            raw.update(rest);
            proof {
                lemma_resume_snapshot(m, lane.offset as nat);
            }
            raw.finalize()
        } else {
            let c = compress_blocks(
                lane.chain,
                lane.pad.as_slice(),
                lane.pad_done * 64,
                lane.pad_blocks - lane.pad_done,
            );
            proof {
                let base = blocks_chain(iv(), m, q);
                lemma_blocks_chain_split(
                    base,
                    lane.pad@,
                    lane.pad_done as nat,
                    (lane.pad_blocks - lane.pad_done) as nat,
                );
                assert(full_len(m.len()) == lane.offset);
                assert(m.len() / 64 == q);
                lemma_md5_from_tail(m, lane.pad@, lane.pad_blocks as nat);
            }
            state_to_bytes(c)
        };
        outputs[lane.index] = digest;
        lane.live = false;
        self.lanes[slot] = lane;
        proof {
            let idx = lanes0[slot as int].index as int;
            assert(lanes0[slot as int].live);
            assert(retired(lanes0, self.lanes@, width, idx));
            assert forall|j: int|
                0 <= j < outputs@.len() && !retired(lanes0, self.lanes@, width, j) implies #[trigger] outputs@[j]
                == o0[j] by {}
            assert forall|s: int| 0 <= s < width && #[trigger] lanes0[s].live implies (
            self.lanes@[s].live && self.lanes@[s].index == lanes0[s].index) || done(
                inputs,
                outputs@,
                lanes0[s].index as int,
            ) by {
                if s != slot {
                    assert(self.lanes@[s] == lanes0[s]);
                }
            }
            assert forall|s: int| 0 <= s < width && #[trigger] self.lanes@[s].live implies lanes0[s].live
                && self.lanes@[s].index == lanes0[s].index by {
                assert(self.lanes@[s] == lanes0[s]);
            }
            lemma_distinct_step(lanes0, self.lanes@, width);
        }
    }

    /// Gives message `index` a lane, running rounds until one is free. The
    /// lane it takes starts the message afresh; every other occupied lane
    /// held its message before.
    fn push(&mut self, index: usize, outputs: &mut [[u8; 16]])
        requires
            old(self).wf(),
            old(self).max >= 4,
            index < old(self).inputs@.len(),
            !covers(old(self).lanes@, old(self).width as int, index as int),
            old(outputs)@.len() >= old(self).inputs@.len(),
        ensures
            final(self).wf(),
            final(self).inputs == old(self).inputs,
            final(self).width == old(self).width,
            final(self).max == old(self).max,
            exists|slot: int|
                0 <= slot < old(self).width && #[trigger] fresh_lane(
                    final(self).lanes@[slot],
                    index as int,
                    old(self).inputs@,
                ) && forall|s: int|
                    0 <= s < old(self).width && s != slot && #[trigger] final(self).lanes@[s].live
                        ==> old(self).lanes@[s].live && final(self).lanes@[s].index == old(self).lanes@[s].index,
            kept_or_done(
                old(self).lanes@,
                final(self).lanes@,
                old(self).width as int,
                old(self).inputs@,
                old(outputs)@,
                final(outputs)@,
            ),
            writes_digests(old(self).inputs@, old(outputs)@, final(outputs)@),
            covers(final(self).lanes@, final(self).width as int, index as int),
            forall|j: int|
                covers(final(self).lanes@, final(self).width as int, j) ==> j == index || covers(
                    old(self).lanes@,
                    old(self).width as int,
                    j,
                ),
            forall|j: int|
                covers(old(self).lanes@, old(self).width as int, j) ==> covers(
                    final(self).lanes@,
                    final(self).width as int,
                    j,
                ) || done(old(self).inputs@, final(outputs)@, j),
    {
        let ghost lanes0 = self.lanes@;
        let ghost inputs = self.inputs@;
        let ghost o0 = outputs@;
        let ghost inputs_ref = self.inputs;
        let ghost width = self.width;
        let ghost max = self.max;
        let mut slot = self.free_slot();
        assert(kept_or_done(lanes0, lanes0, width as int, inputs, o0, o0));
        while slot == self.width
            invariant
                self.wf(),
                self.inputs == inputs_ref,
                self.inputs@ == inputs,
                self.width == width,
                self.max == max,
                max >= 4,
                slot <= self.width,
                slot < self.width ==> !self.lanes@[slot as int].live,
                slot == self.width ==> forall|s: int|
                    0 <= s < self.width ==> #[trigger] self.lanes@[s].live,
                o0.len() >= inputs.len(),
                kept_or_done(lanes0, self.lanes@, width as int, inputs, o0, outputs@),
                no_new_lanes(lanes0, self.lanes@, width as int),
            decreases self.rem(),
        {
            let ghost lanes1 = self.lanes@;
            let ghost o1 = outputs@;
            let progressed = self.round(outputs);
            assert(progressed);
            proof {
                lemma_kept_trans(lanes0, lanes1, self.lanes@, width as int, inputs, o0, o1, outputs@);
            }
            slot = self.free_slot();
        }
        let ghost lanes2 = self.lanes@;
        let ml = self.inputs[index].len();
        let mut lane = Lane { live: true, index, ..Lane::free() };
        assert(blocks_chain(iv(), inputs[index as int]@, 0) == iv());
        lane.enter_padding_if_short(self.inputs);
        self.lanes[slot] = lane;
        proof {
            let fin = self.lanes@;
            let w = width as int;
            assert(fin[slot as int] == lane);
            assert(fresh_lane(fin[slot as int], index as int, inputs));
            assert forall|s: int| 0 <= s < w && s != slot && #[trigger] fin[s].live implies lanes0[s].live
                && fin[s].index == lanes0[s].index by {
                assert(fin[s] == lanes2[s]);
                assert(lanes2[s].live);
            }
            assert forall|s: int| 0 <= s < w && #[trigger] fin[s].live implies lane_wf(fin[s], inputs) by {
                if s != slot {
                    assert(fin[s] == lanes2[s]);
                }
            }
            assert forall|s: int, t: int|
                0 <= s < w && 0 <= t < w && s != t && #[trigger] fin[s].live
                    && #[trigger] fin[t].live implies fin[s].index != fin[t].index by {
                if s == slot {
                    assert(lanes0[t].live);
                } else if t == slot {
                    assert(lanes0[s].live);
                } else {
                    assert(fin[s] == lanes2[s] && fin[t] == lanes2[t]);
                }
            }
            assert forall|s: int| 0 <= s < w && #[trigger] lanes0[s].live implies (fin[s].live
                && fin[s].index == lanes0[s].index) || done(inputs, outputs@, lanes0[s].index as int) by {
                if s != slot {
                    assert(fin[s] == lanes2[s]);
                } else {
                    assert(!lanes2[s].live);
                }
            }
            assert forall|j: int| 0 <= j < outputs@.len() && !retired(lanes0, fin, w, j) implies #[trigger] outputs@[j]
                == o0[j] by {
                if retired(lanes0, lanes2, w, j) {
                    let s = choose|s: int|
                        0 <= s < w && #[trigger] lanes0[s].live && lanes0[s].index == j && !(
                        lanes2[s].live && lanes2[s].index == j);
                    assert(lanes0[s].live);
                    if s != slot {
                        assert(fin[s] == lanes2[s]);
                    }
                }
            }
            assert(kept_or_done(lanes0, fin, w, inputs, o0, outputs@));
            lemma_kept_writes(lanes0, fin, w, inputs, o0, outputs@);
            lemma_cover_step(lanes0, fin, w, inputs, o0, outputs@);
            assert(covers(fin, w, index as int)) by {
                assert(fin[slot as int].live);
            }
            assert forall|j: int| covers(fin, w, j) implies j == index || covers(lanes0, w, j) by {
                let s = choose|s: int| 0 <= s < w && #[trigger] fin[s].live && fin[s].index == j;
                if s != slot {
                    assert(lanes0[s].live);
                }
            }
        }
    }

    /// Hashes whatever is still in the lanes, leaving every lane free; only
    /// the outputs of messages that were in a lane change.
    fn drain(&mut self, outputs: &mut [[u8; 16]])
        requires
            old(self).wf(),
            old(outputs)@.len() >= old(self).inputs@.len(),
        ensures
            final(self).wf(),
            final(self).inputs == old(self).inputs,
            final(self).width == old(self).width,
            forall|s: int| 0 <= s < old(self).width ==> !(#[trigger] final(self).lanes@[s]).live,
            kept_or_done(
                old(self).lanes@,
                final(self).lanes@,
                old(self).width as int,
                old(self).inputs@,
                old(outputs)@,
                final(outputs)@,
            ),
            writes_digests(old(self).inputs@, old(outputs)@, final(outputs)@),
            forall|j: int|
                covers(old(self).lanes@, old(self).width as int, j) ==> done(
                    old(self).inputs@,
                    final(outputs)@,
                    j,
                ),
    {
        let ghost lanes0 = self.lanes@;
        let ghost inputs = self.inputs@;
        let ghost o0 = outputs@;
        let ghost inputs_ref = self.inputs;
        let ghost width = self.width;
        let ghost max = self.max;
        assert(kept_or_done(lanes0, lanes0, width as int, inputs, o0, o0));
        while self.any_live()
            invariant
                self.wf(),
                self.inputs == inputs_ref,
                self.inputs@ == inputs,
                self.width == width,
                self.max == max,
                o0.len() >= inputs.len(),
                kept_or_done(lanes0, self.lanes@, width as int, inputs, o0, outputs@),
                no_new_lanes(lanes0, self.lanes@, width as int),
            decreases self.rem(),
        {
            let ghost lanes1 = self.lanes@;
            let ghost o1 = outputs@;
            let ghost s0 = choose|s: int| 0 <= s < width && #[trigger] lanes1[s].live;
            if !self.round(outputs) {
                assert(kept_or_done(lanes1, lanes1, width as int, inputs, o1, o1));
                let mut slot: usize = 0;
                while slot < self.width
                    invariant
                        self.wf(),
                        self.inputs == inputs_ref,
                        self.inputs@ == inputs,
                        self.width == width,
                        self.max == max,
                        slot <= width,
                        o0.len() >= inputs.len(),
                        outputs@.len() == o0.len(),
                        kept_or_done(lanes1, self.lanes@, width as int, inputs, o1, outputs@),
                        no_new_lanes(lanes1, self.lanes@, width as int),
                        forall|s: int| 0 <= s < slot ==> !(#[trigger] self.lanes@[s]).live,
                        forall|s: int| slot <= s < 64 ==> #[trigger] self.lanes@[s] == lanes1[s],
                    decreases width - slot,
                {
                    if self.lanes[slot].live {
                        let ghost l2 = self.lanes@;
                        let ghost o2 = outputs@;
                        self.finish_scalar(slot, outputs);
                        proof {
                            lemma_kept_trans(lanes1, l2, self.lanes@, width as int, inputs, o1, o2, outputs@);
                        }
                    }
                    slot = slot + 1;
                }
                proof {
                    assert(lane_work(lanes1[s0], inputs) > 0);
                    assert forall|s: int| 0 <= s < width implies lane_work(
                        #[trigger] self.lanes@[s],
                        inputs,
                    ) <= lane_work(lanes1[s], inputs) by {}
                    lemma_work_upto_lt(self.lanes@, lanes1, inputs, width as int, s0);
                }
            }
            proof {
                lemma_kept_trans(lanes0, lanes1, self.lanes@, width as int, inputs, o0, o1, outputs@);
            }
        }
        proof {
            lemma_kept_writes(lanes0, self.lanes@, width as int, inputs, o0, outputs@);
            assert forall|j: int| covers(lanes0, width as int, j) implies done(inputs, outputs@, j) by {
                let s = choose|s: int|
                    0 <= s < width && #[trigger] lanes0[s].live && lanes0[s].index == j;
                assert(lanes0[s].live);
                assert(!self.lanes@[s].live);
            }
        }
    }

    /// Whether some lane is occupied.
    fn any_live(&self) -> (r: bool)
        requires
            self.wf(),
        ensures
            r == exists|s: int| 0 <= s < self.width && #[trigger] self.lanes@[s].live,
    {
        let mut slot: usize = 0;
        while slot < self.width
            invariant
                slot <= self.width,
                self.width <= 64,
                forall|s: int| 0 <= s < slot ==> !(#[trigger] self.lanes@[s]).live,
            decreases self.width - slot,
        {
            if self.lanes[slot].live {
                return true;
            }
            slot = slot + 1;
        }
        false
    }
}

/// More streams waiting, a wider kernel or longer messages never make the
/// batch handed to one kernel call smaller.
pub proof fn law_batch_monotone(
    left1: int,
    left2: int,
    max1: int,
    max2: int,
    len1: int,
    len2: int,
)
    requires
        0 <= left1 <= left2,
        0 <= max1 <= max2,
        0 <= len1 <= len2,
    ensures
        batch_rule(left1, max1, len1) <= batch_rule(left2, max2, len2),
{
}

/// The refill scheduler, once built, works for `inputs` with `max` lanes.
spec fn refill_ok(refill: Option<Refill>, inputs: &[&[u8]], max: usize) -> bool {
    match refill {
        Some(r) => r.wf() && r.inputs == inputs && r.max == max,
        None => true,
    }
}

/// Message `j` waits in a lane of the refill scheduler.
spec fn queued(refill: Option<Refill>, j: int) -> bool {
    match refill {
        Some(r) => covers(r.lanes@, r.width as int, j),
        None => false,
    }
}

/// Hashes `inputs[i]` into `outputs[i]` for every `i`; outputs past the
/// inputs are left as they are.
///
/// Adjacent equal-length runs go through the fused kernel in batches that
/// `pick_batch` sizes; every other message shares kernel lanes with others
/// through the refill scheduler, which is built on first use only.
///
/// The caller provides at least as many outputs as inputs.
pub fn hash_many_dispatch(inputs: &[&[u8]], outputs: &mut [[u8; 16]])
    requires
        old(outputs)@.len() >= inputs@.len(),
    ensures
        final(outputs)@.len() == old(outputs)@.len(),
        forall|j: int| 0 <= j < inputs@.len() ==> #[trigger] final(outputs)@[j]@ == md5(inputs@[j]@),
        forall|j: int|
            inputs@.len() <= j < old(outputs)@.len() ==> #[trigger] final(outputs)@[j] == old(outputs)@[j],
{
    let max = platform::lanes();
    hash_many_lanes(inputs, outputs, max);
}

/// `hash_many_dispatch` for a kernel of `max` lanes.
fn hash_many_lanes(inputs: &[&[u8]], outputs: &mut [[u8; 16]], max: usize)
    requires
        old(outputs)@.len() >= inputs@.len(),
        max == 1 || 4 <= max <= 16,
    ensures
        final(outputs)@.len() == old(outputs)@.len(),
        forall|j: int| 0 <= j < inputs@.len() ==> #[trigger] final(outputs)@[j]@ == md5(inputs@[j]@),
        forall|j: int|
            inputs@.len() <= j < old(outputs)@.len() ==> #[trigger] final(outputs)@[j] == old(outputs)@[j],
{
    let ghost o0 = outputs@;
    let n = inputs.len();
    if max <= 1 {
        let mut j: usize = 0;
        while j < n
            invariant
                j <= n,
                n == inputs@.len(),
                outputs@.len() == o0.len(),
                o0.len() >= n,
                forall|k: int| 0 <= k < j ==> #[trigger] outputs@[k]@ == md5(inputs@[k]@),
                forall|k: int| j <= k < o0.len() ==> #[trigger] outputs@[k] == o0[k],
            decreases n - j,
        {
            outputs[j] = digest(inputs[j]);
            j = j + 1;
        }
        return;
    }
    let mut refill: Option<Refill> = None;
    let mut i: usize = 0;
    while i < n
        invariant
            i <= n,
            n == inputs@.len(),
            4 <= max <= 16,
            outputs@.len() == o0.len(),
            o0.len() >= n,
            writes_digests(inputs@, o0, outputs@),
            refill_ok(refill, inputs, max),
            forall|j: int| 0 <= j < i ==> done(inputs@, outputs@, j) || queued(refill, j),
            forall|j: int| queued(refill, j) ==> j < i,
        decreases n - i,
    {
        let len0 = inputs[i].len();
        let mut run: usize = 1;
        while i + run < n && inputs[i + run].len() == len0
            invariant
                i < n,
                1 <= run,
                i + run <= n,
                n == inputs@.len(),
                len0 == inputs@[i as int]@.len(),
                forall|k: int| i <= k < i + run ==> #[trigger] inputs@[k]@.len() == len0,
            decreases n - i - run,
        {
            run = run + 1;
        }
        let mut done_: usize = 0;
        while done_ < run
            invariant
                done_ <= run,
                i + run <= n,
                n == inputs@.len(),
                4 <= max <= 16,
                len0 == inputs@[i as int]@.len(),
                forall|k: int| i <= k < i + run ==> #[trigger] inputs@[k]@.len() == len0,
                outputs@.len() == o0.len(),
                o0.len() >= n,
                writes_digests(inputs@, o0, outputs@),
                refill_ok(refill, inputs, max),
                forall|j: int| 0 <= j < i + done_ ==> done(inputs@, outputs@, j) || queued(refill, j),
                forall|j: int| queued(refill, j) ==> j < i + done_,
            decreases run - done_,
        {
            let left = run - done_;
            let batch = pick_batch(left, max, len0);
            let ghost o1 = outputs@;
            let ghost r1 = refill;
            if batch == 0 {
                if refill.is_none() {
                    refill = Some(Refill::new(inputs, max));
                    assert forall|j: int| 0 <= j < i + done_ implies done(inputs@, outputs@, j) || queued(refill, j) by {
                        assert(!queued(r1, j));
                    }
                    assert forall|j: int| !queued(refill, j) by {
                        assert(!queued(r1, j));
                    }
                }
                let ghost r2 = refill;
                assert(!queued(refill, (i + done_) as int));
                match &mut refill {
                    Some(r) => {
                        r.push(i + done_, outputs);
                    },
                    None => {},
                }
                proof {
                    lemma_writes_digests_trans(inputs@, o0, o1, outputs@);
                    assert forall|j: int| 0 <= j < i + done_ + 1 implies done(inputs@, outputs@, j) || queued(refill, j) by {
                        if j < i + done_ {
                            assert(done(inputs@, o1, j) || queued(r2, j));
                        }
                    }
                    assert forall|j: int| queued(refill, j) implies j < i + done_ + 1 by {
                        assert(j == i + done_ || queued(r2, j));
                    }
                }
                done_ = done_ + 1;
            } else {
                platform::hash_equal_n(inputs, i + done_, batch, outputs);
                proof {
                    assert(writes_digests(inputs@, o1, outputs@));
                    lemma_writes_digests_trans(inputs@, o0, o1, outputs@);
                    assert forall|j: int| 0 <= j < i + done_ + batch implies done(inputs@, outputs@, j) || queued(refill, j) by {
                        if j < i + done_ {
                            assert(done(inputs@, o1, j) || queued(r1, j));
                        }
                    }
                }
                done_ = done_ + batch;
            }
        }
        i = i + run;
    }
    let ghost o2 = outputs@;
    let ghost r2 = refill;
    match &mut refill {
        Some(r) => {
            r.drain(outputs);
        },
        None => {},
    }
    proof {
        lemma_writes_digests_trans(inputs@, o0, o2, outputs@);
        assert forall|j: int| 0 <= j < n implies #[trigger] outputs@[j]@ == md5(inputs@[j]@) by {
            assert(done(inputs@, o2, j) || queued(r2, j));
        }
    }
}


/// SIMD groups one incremental window, and one refill window, spans.
///
/// The kernel compresses the lanes of a block one after another, so a window
/// wider than one group buys nothing over separate calls and makes every
/// block touch more streams; a window spans one group. The kernel is the same
/// portable one on every target, so this value does not follow the target:
/// a kernel that interleaves several groups would want `MAX_GROUPS` here.
fn update_groups_per_window() -> (r: usize)
    ensures
        r == 1,
{
    1
}

/// The bytes streams `start..start + k` have still to take.
spec fn rest_upto(inputs: Seq<&[u8]>, start: int, off: Seq<usize>, k: int) -> nat
    decreases k,
{
    if k <= 0 {
        0
    } else {
        rest_upto(inputs, start, off, k - 1) + (inputs[start + k - 1]@.len() - off[k - 1]) as nat
    }
}

proof fn lemma_rest_upto_lt(
    inputs: Seq<&[u8]>,
    start: int,
    a: Seq<usize>,
    b: Seq<usize>,
    k: int,
    i0: int,
)
    requires
        0 <= i0 < k,
        a[i0] > b[i0],
        forall|i: int| 0 <= i < k ==> #[trigger] a[i] >= b[i],
        forall|i: int| 0 <= i < k ==> #[trigger] a[i] <= inputs[start + i]@.len(),
    ensures
        rest_upto(inputs, start, a, k) < rest_upto(inputs, start, b, k),
    decreases k,
{
    if k - 1 > i0 {
        lemma_rest_upto_lt(inputs, start, a, b, k - 1, i0);
    } else {
        lemma_rest_upto_le(inputs, start, a, b, k - 1);
    }
}

proof fn lemma_rest_upto_le(inputs: Seq<&[u8]>, start: int, a: Seq<usize>, b: Seq<usize>, k: int)
    requires
        forall|i: int| 0 <= i < k ==> #[trigger] a[i] >= b[i],
        forall|i: int| 0 <= i < k ==> #[trigger] a[i] <= inputs[start + i]@.len(),
    ensures
        rest_upto(inputs, start, a, k) <= rest_upto(inputs, start, b, k),
    decreases k,
{
    if k > 0 {
        lemma_rest_upto_le(inputs, start, a, b, k - 1);
    }
}

/// Stream `k` of a window has taken `inputs[start + k][..off[k]]`, and if it
/// has more to take, its partial block is empty.
spec fn window_progress(
    s0: Seq<Md5State>,
    states: Seq<Md5State>,
    inputs: Seq<&[u8]>,
    start: int,
    n: int,
    off: Seq<usize>,
) -> bool {
    forall|k: int|
        0 <= k < n ==> {
            &&& #[trigger] off[k] <= inputs[start + k]@.len()
            &&& states[start + k]@ == absorb(
                s0[start + k]@,
                inputs[start + k]@.take(off[k] as int),
            )
            &&& off[k] < inputs[start + k]@.len() ==> states[start + k]@.pending.len() == 0
        }
}

/// Appends `inputs[i]` to `states[i]` for the streams `start..end` of one
/// window, sharing the multi-buffer kernel among the streams that hold whole
/// blocks.
fn update_window(states: &mut [Md5State], inputs: &[&[u8]], start: usize, end: usize, max: usize)
    requires
        start <= end <= old(states)@.len(),
        old(states)@.len() == inputs@.len(),
        end - start <= MAX_BATCH,
        4 <= max,
    ensures
        final(states)@.len() == old(states)@.len(),
        forall|i: int|
            start <= i < end ==> #[trigger] final(states)@[i]@ == absorb(
                old(states)@[i]@,
                inputs@[i]@,
            ),
        forall|i: int|
            0 <= i < old(states)@.len() && !(start <= i < end) ==> #[trigger] final(states)@[i]
                == old(states)@[i],
{
    let ghost s0 = states@;
    let n = end - start;
    // Bring every stream to a block boundary. A stream whose partial block is
    // still not full afterwards has no input left.
    let mut off = [0usize; MAX_BATCH];
    let mut k: usize = 0;
    while k < n
        invariant
            k <= n,
            n == end - start,
            n <= 64,
            end <= states@.len(),
            states@.len() == s0.len(),
            s0.len() == inputs@.len(),
            window_progress(s0, states@, inputs@, start as int, k as int, off@),
            forall|i: int|
                0 <= i < states@.len() && !(start <= i < start + k) ==> #[trigger] states@[i]
                    == s0[i],
        decreases n - k,
    {
        let input = inputs[start + k];
        let mut st = states[start + k];
        let bl = st.buffered();
        let head: usize = if bl == 0 {
            0
        } else if 64 - bl < input.len() {
            64 - bl
        } else {
            input.len()
        };
        let ghost st0 = st@;
        st.update(&input[0..head]);
        proof {
            assert(input@.subrange(0, head as int) =~= input@.take(head as int));
            lemma_absorb_pending(st0, input@.take(head as int));
        }
        states[start + k] = st;
        off[k] = head;
        k = k + 1;
    }
    let iv_chain = Lane::free().chain;
    let mut chain = [iv_chain; MAX_BATCH];
    let mut live = [0usize; MAX_BATCH];
    loop
        invariant
            n == end - start,
            n <= 64,
            4 <= max,
            end <= states@.len(),
            states@.len() == s0.len(),
            s0.len() == inputs@.len(),
            window_progress(s0, states@, inputs@, start as int, n as int, off@),
            forall|i: int|
                0 <= i < states@.len() && !(start <= i < end) ==> #[trigger] states@[i] == s0[i],
        decreases rest_upto(inputs@, start as int, off@, n as int),
    {
        let mut n_live: usize = 0;
        let mut nblocks: usize = usize::MAX;
        let mut k: usize = 0;
        while k < n
            invariant
                k <= n <= 64,
                n == end - start,
                end <= inputs@.len(),
                n_live <= k,
                forall|a: int, b: int| 0 <= a < b < n_live ==> live@[a] < live@[b],
                window_progress(s0, states@, inputs@, start as int, n as int, off@),
                forall|a: int|
                    0 <= a < n_live ==> #[trigger] live@[a] < k && inputs@[start + live@[a]]@.len()
                        - off@[live@[a] as int] >= 64 * nblocks,
                n_live > 0 ==> nblocks >= 1,
                n_live == 0 ==> nblocks == usize::MAX,
            decreases n - k,
        {
            let blocks = (inputs[start + k].len() - off[k]) / 64;
            if blocks != 0 {
                live[n_live] = k;
                n_live = n_live + 1;
                if blocks < nblocks {
                    nblocks = blocks;
                }
            }
            k = k + 1;
        }
        let batch = pick_batch(n_live, max, 64);
        if batch == 0 {
            break;
        }
        let empty: &[u8] = &[];
        let mut blocks: [&[u8]; MAX_BATCH] = [empty; MAX_BATCH];
        let mut slot: usize = 0;
        while slot < batch
            invariant
                slot <= batch <= n_live <= n <= 64,
                n == end - start,
                end <= states@.len(),
                states@.len() == inputs@.len(),
                window_progress(s0, states@, inputs@, start as int, n as int, off@),
                forall|a: int|
                    0 <= a < n_live ==> #[trigger] live@[a] < n && inputs@[start + live@[a]]@.len()
                        - off@[live@[a] as int] >= 64 * nblocks,
                forall|a: int|
                    0 <= a < slot ==> #[trigger] blocks@[a]@ == inputs@[start
                        + live@[a]]@.skip(off@[live@[a] as int] as int),
                forall|a: int|
                    0 <= a < slot ==> #[trigger] chain@[a] == states@[start + live@[a]]@.chain,
            decreases batch - slot,
        {
            let i = live[slot];
            let input = inputs[start + i];
            let b = &input[off[i]..input.len()];
            assert(b@ =~= input@.skip(off@[i as int] as int));
            blocks[slot] = b;
            chain[slot] = states[start + i].chain();
            slot = slot + 1;
        }
        assert(forall|a: int| 0 <= a < batch ==> #[trigger] blocks@[a]@.len() >= 64 * nblocks);
        platform::update_equal_n(&mut chain, &blocks, batch, nblocks);
        let l0 = inputs[start + live[0]].len();
        assert(64 * nblocks <= l0);
        let advanced = nblocks * 64;
        let ghost off0 = off@;
        let mut slot: usize = 0;
        while slot < batch
            invariant
                slot <= batch <= n_live <= n <= 64,
                n == end - start,
                end <= states@.len(),
                states@.len() == s0.len(),
                s0.len() == inputs@.len(),
                advanced == 64 * nblocks,
                1 <= nblocks,
                forall|a: int|
                    0 <= a < n_live ==> #[trigger] live@[a] < n && inputs@[start + live@[a]]@.len()
                        - off0[live@[a] as int] >= 64 * nblocks,
                forall|a: int, b: int| 0 <= a < b < n_live ==> live@[a] < live@[b],
                window_progress(s0, states@, inputs@, start as int, n as int, off@),
                forall|a: int|
                    slot <= a < batch ==> #[trigger] chain@[a] == blocks_chain(
                        states@[start + live@[a]]@.chain,
                        inputs@[start + live@[a]]@.skip(off0[live@[a] as int] as int),
                        nblocks as nat,
                    ),
                forall|a: int| slot <= a < batch ==> #[trigger] off@[live@[a] as int] == off0[live@[a] as int],
                forall|i: int| 0 <= i < n ==> #[trigger] off@[i] >= off0[i],
                forall|a: int| 0 <= a < slot ==> #[trigger] off@[live@[a] as int] > off0[live@[a] as int],
                forall|i: int|
                    0 <= i < states@.len() && !(start <= i < end) ==> #[trigger] states@[i] == s0[i],
            decreases batch - slot,
        {
            let i = live[slot];
            let mut st = states[start + i];
            let ghost st0 = st@;
            let ghost m = inputs@[start + i]@;
            let ghost o = off@[i as int] as int;
            let li = inputs[start + i].len();
            assert(off@[i as int] + advanced <= li);
            st.set_blocks(chain[slot], advanced);
            proof {
                let x = m.subrange(o, o + advanced);
                lemma_blocks_chain_prefix(st0.chain, m.skip(o), x, nblocks as nat);
                lemma_absorb_whole(st0, x, nblocks as nat);
                law_absorb_concat(s0[start + i]@, m.take(o), x);
                assert(m.take(o) + x =~= m.take(o + advanced));
            }
            states[start + i] = st;
            off[i] = off[i] + advanced;
            slot = slot + 1;
        }
        proof {
            lemma_rest_upto_lt(inputs@, start as int, off@, off0, n as int, live@[0] as int);
        }
    }
    // Whatever is left goes through the single-stream path.
    let mut k: usize = 0;
    while k < n
        invariant
            k <= n <= 64,
            n == end - start,
            end <= states@.len(),
            states@.len() == s0.len(),
            s0.len() == inputs@.len(),
            window_progress(s0, states@, inputs@, start as int, n as int, off@),
            forall|i: int|
                0 <= i < k ==> #[trigger] states@[start + i]@ == absorb(
                    s0[start + i]@,
                    inputs@[start + i]@,
                ),
            forall|i: int|
                0 <= i < states@.len() && !(start <= i < end) ==> #[trigger] states@[i] == s0[i],
        decreases n - k,
    {
        let input = inputs[start + k];
        if off[k] < input.len() {
            let mut st = states[start + k];
            let ghost st0 = st@;
            st.update(&input[off[k]..input.len()]);
            proof {
                let o = off@[k as int] as int;
                law_absorb_concat(s0[start + k]@, input@.take(o), input@.subrange(o, input@.len() as int));
                assert(input@.take(o) + input@.subrange(o, input@.len() as int) =~= input@);
            }
            states[start + k] = st;
            off[k] = input.len();
        }
        assert(input@.take(off@[k as int] as int) =~= input@);
        k = k + 1;
    }
    assert forall|i: int| start <= i < end implies #[trigger] states@[i]@ == absorb(
        s0[i]@,
        inputs@[i]@,
    ) by {
        let k = i - start;
        assert(states@[start + k]@ == absorb(s0[start + k]@, inputs@[start + k]@));
    }
}

/// Appends `inputs[i]` to `states[i]` for every `i`, sharing the multi-buffer
/// kernel between streams.
///
/// Streams need not be aligned, equally long, or all have data. In windows of
/// `lanes * update_groups_per_window()` streams, each stream is first brought to a block
/// boundary on the single-stream path; then, while at least four streams still
/// hold a whole block, those streams advance together over the block count
/// they have in common. Tails, and fewer than four streams, go through the
/// single-stream path.
///
/// The caller provides as many states as inputs.
pub fn update_many_dispatch(states: &mut [Md5State], inputs: &[&[u8]])
    requires
        old(states)@.len() == inputs@.len(),
    ensures
        final(states)@.len() == old(states)@.len(),
        forall|i: int|
            0 <= i < inputs@.len() ==> #[trigger] final(states)@[i]@ == absorb(
                old(states)@[i]@,
                inputs@[i]@,
            ),
{
    let ghost s0 = states@;
    let max = platform::lanes();
    let n = states.len();
    if pick_batch(n, max, 64) == 0 {
        let mut i: usize = 0;
        while i < n
            invariant
                i <= n,
                n == s0.len(),
                states@.len() == n,
                inputs@.len() == n,
                forall|k: int| 0 <= k < i ==> #[trigger] states@[k]@ == absorb(s0[k]@, inputs@[k]@),
                forall|k: int| i <= k < n ==> #[trigger] states@[k] == s0[k],
            decreases n - i,
        {
            let mut st = states[i];
            st.update(inputs[i]);
            states[i] = st;
            i = i + 1;
        }
        return;
    }
    let window = max * update_groups_per_window();
    let mut start: usize = 0;
    while start < n
        invariant
            start <= n,
            n == s0.len(),
            states@.len() == n,
            inputs@.len() == n,
            window == max,
            max == platform::LANES,
            forall|k: int| 0 <= k < start ==> #[trigger] states@[k]@ == absorb(s0[k]@, inputs@[k]@),
            forall|k: int| start <= k < n ==> #[trigger] states@[k] == s0[k],
        decreases n - start,
    {
        let end = if n - start > window {
            start + window
        } else {
            n
        };
        update_window(states, inputs, start, end, max);
        start = end;
    }
}

} // verus!
