//! The mathematical model of MD5 (RFC 1321): the compression function, the
//! padding rule and the digest of a whole message, as spec functions.

use vstd::prelude::*;

verus! {

/// The four 32-bit chaining words of an MD5 computation (A, B, C, D).
#[derive(Clone, Copy, PartialEq, Eq, Structural, Debug)]
pub struct Chain {
    pub a: u32,
    pub b: u32,
    pub c: u32,
    pub d: u32,
}

/// The initial chaining value of RFC 1321.
pub open spec fn iv() -> Chain {
    Chain { a: 0x67452301u32, b: 0xefcdab89u32, c: 0x98badcfeu32, d: 0x10325476u32 }
}

/// The 64 additive constants `T[i] = floor(2^32 * |sin(i + 1)|)`.
pub open spec fn k_table() -> Seq<u32> {
    seq![
        0xd76aa478u32, 0xe8c7b756u32, 0x242070dbu32, 0xc1bdceeeu32,
        0xf57c0fafu32, 0x4787c62au32, 0xa8304613u32, 0xfd469501u32,
        0x698098d8u32, 0x8b44f7afu32, 0xffff5bb1u32, 0x895cd7beu32,
        0x6b901122u32, 0xfd987193u32, 0xa679438eu32, 0x49b40821u32,
        0xf61e2562u32, 0xc040b340u32, 0x265e5a51u32, 0xe9b6c7aau32,
        0xd62f105du32, 0x02441453u32, 0xd8a1e681u32, 0xe7d3fbc8u32,
        0x21e1cde6u32, 0xc33707d6u32, 0xf4d50d87u32, 0x455a14edu32,
        0xa9e3e905u32, 0xfcefa3f8u32, 0x676f02d9u32, 0x8d2a4c8au32,
        0xfffa3942u32, 0x8771f681u32, 0x6d9d6122u32, 0xfde5380cu32,
        0xa4beea44u32, 0x4bdecfa9u32, 0xf6bb4b60u32, 0xbebfbc70u32,
        0x289b7ec6u32, 0xeaa127fau32, 0xd4ef3085u32, 0x04881d05u32,
        0xd9d4d039u32, 0xe6db99e5u32, 0x1fa27cf8u32, 0xc4ac5665u32,
        0xf4292244u32, 0x432aff97u32, 0xab9423a7u32, 0xfc93a039u32,
        0x655b59c3u32, 0x8f0ccc92u32, 0xffeff47du32, 0x85845dd1u32,
        0x6fa87e4fu32, 0xfe2ce6e0u32, 0xa3014314u32, 0x4e0811a1u32,
        0xf7537e82u32, 0xbd3af235u32, 0x2ad7d2bbu32, 0xeb86d391u32,
    ]
}

/// The per-step left-rotation amounts.
pub open spec fn s_table() -> Seq<u32> {
    seq![
        7u32, 12, 17, 22, 7, 12, 17, 22, 7, 12, 17, 22, 7, 12, 17, 22,
        5u32, 9, 14, 20, 5, 9, 14, 20, 5, 9, 14, 20, 5, 9, 14, 20,
        4u32, 11, 16, 23, 4, 11, 16, 23, 4, 11, 16, 23, 4, 11, 16, 23,
        6u32, 10, 15, 21, 6, 10, 15, 21, 6, 10, 15, 21, 6, 10, 15, 21,
    ]
}

/// The message word that step `i` reads.
pub open spec fn msg_index(i: int) -> int {
    if i < 16 {
        i
    } else if i < 32 {
        (5 * i + 1) % 16
    } else if i < 48 {
        (3 * i + 5) % 16
    } else {
        (7 * i) % 16
    }
}

/// The auxiliary functions F, G, H, I of the four rounds.
pub open spec fn round_fn(i: int, b: u32, c: u32, d: u32) -> u32 {
    if i < 16 {
        (b & c) | (!b & d)
    } else if i < 32 {
        (d & b) | (!d & c)
    } else if i < 48 {
        b ^ c ^ d
    } else {
        c ^ (b | !d)
    }
}

/// Little-endian 32-bit word `j` of a block.
pub open spec fn word(block: Seq<u8>, j: int) -> u32 {
    (block[4 * j] as u32) | ((block[4 * j + 1] as u32) << 8u32) | ((block[4 * j + 2] as u32)
        << 16u32) | ((block[4 * j + 3] as u32) << 24u32)
}

/// Left rotation of a 32-bit word by `s` bits, `0 < s < 32`.
pub open spec fn rotl(x: u32, s: u32) -> u32 {
    (x << s) | (x >> ((32 - s) as u32))
}

/// Step `i` of the compression function.
pub open spec fn step(st: Chain, block: Seq<u8>, i: int) -> Chain {
    let f = round_fn(i, st.b, st.c, st.d);
    let sum = st.a.wrapping_add(f).wrapping_add(k_table()[i]).wrapping_add(
        word(block, msg_index(i)),
    );
    Chain { a: st.d, b: st.b.wrapping_add(rotl(sum, s_table()[i])), c: st.b, d: st.c }
}

/// The first `n` steps of the compression function.
pub open spec fn steps(st: Chain, block: Seq<u8>, n: nat) -> Chain
    decreases n,
{
    if n == 0 {
        st
    } else {
        step(steps(st, block, (n - 1) as nat), block, n - 1)
    }
}

/// The MD5 compression function on one 64-byte block.
pub open spec fn compress(c: Chain, block: Seq<u8>) -> Chain {
    let r = steps(c, block, 64);
    Chain {
        a: c.a.wrapping_add(r.a),
        b: c.b.wrapping_add(r.b),
        c: c.c.wrapping_add(r.c),
        d: c.d.wrapping_add(r.d),
    }
}


/// The chaining value after compressing the first `n` 64-byte blocks of
/// `data` into `c`, in order.
pub open spec fn blocks_chain(c: Chain, data: Seq<u8>, n: nat) -> Chain
    decreases n,
{
    if n == 0 {
        c
    } else {
        compress(blocks_chain(c, data, (n - 1) as nat), data.subrange(64 * (n - 1), 64 * (n as int)))
    }
}

/// The little-endian bytes of a 32-bit word.
pub open spec fn le32(x: u32) -> Seq<u8> {
    seq![x as u8, (x >> 8u32) as u8, (x >> 16u32) as u8, (x >> 24u32) as u8]
}

/// The little-endian bytes of a 64-bit word.
pub open spec fn le64(x: u64) -> Seq<u8> {
    seq![
        x as u8,
        (x >> 8u64) as u8,
        (x >> 16u64) as u8,
        (x >> 24u64) as u8,
        (x >> 32u64) as u8,
        (x >> 40u64) as u8,
        (x >> 48u64) as u8,
        (x >> 56u64) as u8,
    ]
}

/// The 16 digest bytes of a chaining value: A, B, C, D, each little-endian.
pub open spec fn chain_bytes(c: Chain) -> Seq<u8> {
    le32(c.a) + le32(c.b) + le32(c.c) + le32(c.d)
}

/// The number of zero bytes between `0x80` and the length field for a
/// message of `total` bytes.
pub open spec fn zero_fill(total: u64) -> nat {
    ((119 - (total % 64)) % 64) as nat
}

/// What RFC 1321 appends to a message of `total` bytes: `0x80`, zeros up to
/// 56 bytes modulo 64, and the bit length modulo 2^64, little-endian.
#[verifier::opaque]
pub open spec fn padding(total: u64) -> Seq<u8> {
    seq![0x80u8] + Seq::new(zero_fill(total), |i: int| 0u8) + le64(total.wrapping_mul(8))
}

/// A message followed by its padding.
pub open spec fn padded(m: Seq<u8>) -> Seq<u8> {
    m + padding(m.len() as u64)
}

/// The MD5 digest of a message.
#[verifier::opaque]
pub open spec fn md5(m: Seq<u8>) -> Seq<u8> {
    let p = padded(m);
    chain_bytes(blocks_chain(iv(), p, p.len() / 64))
}

/// The offset of the last partial block of a message of `len` bytes.
pub open spec fn full_len(len: nat) -> nat {
    (len - len % 64) as nat
}

/// Compression reads only the first `64 * n` bytes.
pub proof fn lemma_blocks_chain_prefix(c: Chain, d1: Seq<u8>, d2: Seq<u8>, n: nat)
    requires
        d1.len() >= 64 * n,
        d2.len() >= 64 * n,
        forall|i: int| 0 <= i < 64 * n ==> d1[i] == d2[i],
    ensures
        blocks_chain(c, d1, n) == blocks_chain(c, d2, n),
    decreases n,
{
    if n > 0 {
        lemma_blocks_chain_prefix(c, d1, d2, (n - 1) as nat);
        assert(d1.subrange(64 * (n - 1), 64 * (n as int)) =~= d2.subrange(64 * (n - 1), 64 * (n as int)));
    }
}

/// Compressing `n + m` blocks is compressing `n`, then the next `m`.
pub proof fn lemma_blocks_chain_split(c: Chain, data: Seq<u8>, n: nat, m: nat)
    requires
        data.len() >= 64 * (n + m),
    ensures
        blocks_chain(c, data, n + m) == blocks_chain(
            blocks_chain(c, data, n),
            data.skip(64 * (n as int)),
            m,
        ),
    decreases m,
{
    if m > 0 {
        lemma_blocks_chain_split(c, data, n, (m - 1) as nat);
        let k = (n + m - 1) as nat;
        assert(data.subrange(64 * (k as int), 64 * (k as int + 1)) =~= data.skip(64 * (n as int)).subrange(
            64 * (m - 1),
            64 * (m as int),
        ));
        assert((n + m - 1) as nat + 1 == n + m);
    }
}

/// The padding of a message of `total` bytes fills its last partial block up to
/// one or two whole blocks.
pub proof fn lemma_padding_len(total: u64)
    ensures
        padding(total).len() == 9 + zero_fill(total),
        (total % 64) + padding(total).len() == 64 || (total % 64) + padding(total).len() == 128,
        total % 64 < 56 ==> (total % 64) + padding(total).len() == 64,
        total % 64 >= 56 ==> (total % 64) + padding(total).len() == 128,
{
    reveal(padding);
}

/// What RFC 1321 appends to a message of `total` bytes: one `0x80` byte, zero
/// bytes up to 56 modulo 64, then the message's length in bits modulo 2^64
/// as eight bytes, least significant first; message and padding together
/// fill whole 64-byte blocks.
pub proof fn law_padding_rfc1321(total: u64)
    ensures
        ({
            let p = padding(total);
            let n = p.len() as int;
            let bits = (total as int * 8) % 0x1_0000_0000_0000_0000;
            &&& 9 <= n <= 72
            &&& (total as int + n) % 64 == 0
            &&& p[0] == 0x80u8
            &&& forall|i: int| 1 <= i < n - 8 ==> #[trigger] p[i] == 0u8
            &&& p[n - 8] as int == bits % 0x100
            &&& p[n - 7] as int == bits / 0x100 % 0x100
            &&& p[n - 6] as int == bits / 0x1_0000 % 0x100
            &&& p[n - 5] as int == bits / 0x100_0000 % 0x100
            &&& p[n - 4] as int == bits / 0x1_0000_0000 % 0x100
            &&& p[n - 3] as int == bits / 0x100_0000_0000 % 0x100
            &&& p[n - 2] as int == bits / 0x1_0000_0000_0000 % 0x100
            &&& p[n - 1] as int == bits / 0x100_0000_0000_0000 % 0x100
        }),
{
    reveal(padding);
    lemma_padding_len(total);
    let p = padding(total);
    let n = p.len() as int;
    let w: u64 = total.wrapping_mul(8);
    let bits = (total as int * 8) % 0x1_0000_0000_0000_0000;
    assert(w as int == bits);
    assert(p.subrange(n - 8, n) =~= le64(w));
    assert(p[n - 8] == le64(w)[0]);
    assert(p[n - 7] == le64(w)[1]);
    assert(p[n - 6] == le64(w)[2]);
    assert(p[n - 5] == le64(w)[3]);
    assert(p[n - 4] == le64(w)[4]);
    assert(p[n - 3] == le64(w)[5]);
    assert(p[n - 2] == le64(w)[6]);
    assert(p[n - 1] == le64(w)[7]);
    assert({
        &&& (w as u8) as int == w as int % 0x100
        &&& ((w >> 8u64) as u8) as int == w as int / 0x100 % 0x100
        &&& ((w >> 16u64) as u8) as int == w as int / 0x1_0000 % 0x100
        &&& ((w >> 24u64) as u8) as int == w as int / 0x100_0000 % 0x100
        &&& ((w >> 32u64) as u8) as int == w as int / 0x1_0000_0000 % 0x100
        &&& ((w >> 40u64) as u8) as int == w as int / 0x100_0000_0000 % 0x100
        &&& ((w >> 48u64) as u8) as int == w as int / 0x1_0000_0000_0000 % 0x100
        &&& ((w >> 56u64) as u8) as int == w as int / 0x100_0000_0000_0000 % 0x100
    }) by (bit_vector);
    assert forall|i: int| 1 <= i < n - 8 implies #[trigger] p[i] == 0u8 by {
        assert(p[i] == Seq::new(zero_fill(total), |k: int| 0u8)[i - 1]);
    }
}

/// The digest is the compression of the message's whole blocks, then of its
/// last partial block followed by the padding.
pub proof fn lemma_md5_split(m: Seq<u8>)
    requires
        m.len() <= u64::MAX,
    ensures
        ({
            let f = full_len(m.len());
            let t = m.skip(f as int) + padding(m.len() as u64);
            &&& t.len() == 64 || t.len() == 128
            &&& md5(m) == chain_bytes(
                blocks_chain(blocks_chain(iv(), m, m.len() / 64), t, t.len() / 64),
            )
        }),
{
    reveal(md5);
    let len = m.len();
    let f = full_len(len);
    let q = len / 64;
    let t = m.skip(f as int) + padding(len as u64);
    let p = padded(m);
    lemma_padding_len(len as u64);
    assert((len as u64) % 64 == len % 64);
    assert(f == 64 * q);
    let k = t.len() / 64;
    assert(p.len() == 64 * (q + k));
    lemma_blocks_chain_split(iv(), p, q, k);
    lemma_blocks_chain_prefix(iv(), p, m, q);
    assert(p.skip(64 * (q as int)) =~= t);
    assert(p.len() / 64 == q + k);
}


/// The digest from the chaining value after a message's whole blocks and a
/// buffer that starts with its last partial block and the padding.
pub proof fn lemma_md5_from_tail(m: Seq<u8>, pad: Seq<u8>, nb: nat)
    requires
        m.len() <= u64::MAX,
        pad.len() >= 64 * nb,
        pad.subrange(0, 64 * (nb as int)) == m.skip(full_len(m.len()) as int) + padding(
            m.len() as u64,
        ),
    ensures
        md5(m) == chain_bytes(blocks_chain(blocks_chain(iv(), m, m.len() / 64), pad, nb)),
{
    lemma_md5_split(m);
    let t = m.skip(full_len(m.len()) as int) + padding(m.len() as u64);
    assert(t.len() == 64 * nb);
    lemma_blocks_chain_prefix(blocks_chain(iv(), m, m.len() / 64), pad, t, nb);
}

/// A byte counter of `count` advanced by `n`, modulo 2^64.
pub open spec fn add_count(count: u64, n: nat) -> u64 {
    ((count + n) % 0x1_0000_0000_0000_0000) as u64
}

/// What an incremental MD5 state stands for: the chaining value after its
/// whole blocks, the bytes of the current partial block, and the number of
/// bytes absorbed so far modulo 2^64.
pub struct StreamModel {
    pub chain: Chain,
    pub pending: Seq<u8>,
    pub count: u64,
}

/// A state that a stream can reach: less than a block pending, and the
/// pending bytes are the tail of what was counted.
pub open spec fn stream_wf(s: StreamModel) -> bool {
    s.pending.len() < 64 && s.count % 64 == s.pending.len()
}

/// The state of a new stream.
pub open spec fn fresh() -> StreamModel {
    StreamModel { chain: iv(), pending: Seq::empty(), count: 0 }
}

/// The state after appending `input` to a stream.
#[verifier::opaque]
pub open spec fn absorb(s: StreamModel, input: Seq<u8>) -> StreamModel {
    let data = s.pending + input;
    let n = data.len() / 64;
    StreamModel {
        chain: blocks_chain(s.chain, data, n),
        pending: data.skip(64 * (n as int)),
        count: add_count(s.count, input.len()),
    }
}

/// The digest of what a stream has absorbed so far, when it ends here.
pub open spec fn snapshot(s: StreamModel) -> Seq<u8> {
    let t = s.pending + padding(s.count);
    chain_bytes(blocks_chain(s.chain, t, t.len() / 64))
}

/// Counting modulo 2^64 is associative.
pub proof fn lemma_add_count_assoc(c: u64, a: nat, b: nat)
    ensures
        add_count(add_count(c, a), b) == add_count(c, a + b),
        add_count(c, a) % 64 == (c + a) % 64,
{
    let m: int = 0x1_0000_0000_0000_0000;
    vstd::arithmetic::div_mod::lemma_add_mod_noop((c + a) as int, b as int, m);
    vstd::arithmetic::div_mod::lemma_mod_twice(b as int, m);
    vstd::arithmetic::div_mod::lemma_add_mod_noop((c + a) as int, b as int, m);
    vstd::arithmetic::div_mod::lemma_mod_mod((c + a) as int, 64, 0x400_0000_0000_0000);
    assert(add_count(add_count(c, a), b) == (((c + a) % m) + b) % m);
    vstd::arithmetic::div_mod::lemma_add_mod_noop((c + a) as int, b as int, m);
    vstd::arithmetic::div_mod::lemma_mod_twice((c + a) as int, m);
    vstd::arithmetic::div_mod::lemma_add_mod_noop(((c + a) % m) as int, b as int, m);
}

/// Appending `a` and then `b` to a stream is appending `a + b`.
pub proof fn law_absorb_concat(s: StreamModel, a: Seq<u8>, b: Seq<u8>)
    ensures
        absorb(absorb(s, a), b) == absorb(s, a + b),
{
    reveal(absorb);
    let d1 = s.pending + a;
    let n1 = d1.len() / 64;
    let p1 = d1.skip(64 * (n1 as int));
    let d2 = p1 + b;
    let n2 = d2.len() / 64;
    let d = s.pending + (a + b);
    assert(d.len() == 64 * n1 + d2.len());
    vstd::arithmetic::div_mod::lemma_div_multiples_vanish_fancy(n1 as int, d2.len() as int % 64, 64);
    assert(d2.len() == 64 * n2 + d2.len() % 64);
    assert(d.len() == 64 * (n1 + n2) + d2.len() % 64);
    vstd::arithmetic::div_mod::lemma_div_multiples_vanish_fancy((n1 + n2) as int, d2.len() as int % 64, 64);
    assert(d.len() / 64 == n1 + n2);
    lemma_blocks_chain_split(s.chain, d, n1, n2);
    lemma_blocks_chain_prefix(s.chain, d, d1, n1);
    assert(d.skip(64 * (n1 as int)) =~= d2);
    assert(d.skip(64 * ((n1 + n2) as int)) =~= d2.skip(64 * (n2 as int)));
    lemma_add_count_assoc(s.count, a.len(), b.len());
    assert((a + b).len() == a.len() + b.len());
}

/// The bytes left pending after appending.
pub proof fn lemma_absorb_pending(s: StreamModel, input: Seq<u8>)
    ensures
        absorb(s, input).pending.len() == (s.pending.len() + input.len()) % 64,
        absorb(s, input).count == add_count(s.count, input.len()),
{
    reveal(absorb);
    let data = s.pending + input;
    vstd::arithmetic::div_mod::lemma_fundamental_div_mod(data.len() as int, 64);
}

/// Appending keeps a stream well formed.
pub proof fn lemma_absorb_wf(s: StreamModel, input: Seq<u8>)
    requires
        stream_wf(s),
    ensures
        stream_wf(absorb(s, input)),
{
    reveal(absorb);
    let data = s.pending + input;
    let n = data.len() / 64;
    lemma_add_count_assoc(s.count, input.len(), 0);
    vstd::arithmetic::div_mod::lemma_add_mod_noop(s.count as int, input.len() as int, 64);
    vstd::arithmetic::div_mod::lemma_add_mod_noop(s.pending.len() as int, input.len() as int, 64);
    vstd::arithmetic::div_mod::lemma_fundamental_div_mod(data.len() as int, 64);
}

/// A new stream that absorbs a message, in any number of pieces, ends with
/// the message's MD5 digest.
pub proof fn law_stream_digest(m: Seq<u8>)
    requires
        m.len() <= u64::MAX,
    ensures
        snapshot(absorb(fresh(), m)) == md5(m),
{
    reveal(absorb);
    lemma_md5_split(m);
    assert(fresh().pending + m =~= m);
    assert(add_count(0, m.len()) == m.len() as u64) by {
        vstd::arithmetic::div_mod::lemma_small_mod(m.len(), 0x1_0000_0000_0000_0000);
    }
    assert(64 * ((m.len() / 64) as int) == full_len(m.len()));
}


/// A stream resumed at block boundary `off` of a message, with the chaining
/// value after the message's first `off` bytes, ends with the message's digest
/// once it absorbs the rest.
pub proof fn lemma_resume_snapshot(m: Seq<u8>, off: nat)
    requires
        m.len() <= u64::MAX,
        off % 64 == 0,
        off <= m.len(),
    ensures
        snapshot(
            absorb(
                StreamModel {
                    chain: blocks_chain(iv(), m, off / 64),
                    pending: Seq::empty(),
                    count: off as u64,
                },
                m.skip(off as int),
            ),
        ) == md5(m),
{
    let a = m.take(off as int);
    let b = m.skip(off as int);
    let q = off / 64;
    assert(absorb(fresh(), a) == StreamModel {
        chain: blocks_chain(iv(), m, q),
        pending: Seq::empty(),
        count: off as u64,
    }) by {
        reveal(absorb);
        assert(fresh().pending + a =~= a);
        assert(a.len() / 64 == q);
        lemma_blocks_chain_prefix(iv(), a, m, q);
        assert(a.skip(64 * (q as int)) =~= Seq::<u8>::empty());
        vstd::arithmetic::div_mod::lemma_small_mod(off, 0x1_0000_0000_0000_0000);
    }
    law_absorb_concat(fresh(), a, b);
    assert(a + b =~= m);
    law_stream_digest(m);
}


/// Appending whole blocks to a stream with an empty partial block compresses
/// them and counts their bytes.
pub proof fn lemma_absorb_whole(s: StreamModel, x: Seq<u8>, nb: nat)
    requires
        s.pending.len() == 0,
        x.len() == 64 * nb,
    ensures
        absorb(s, x) == (StreamModel {
            chain: blocks_chain(s.chain, x, nb),
            pending: Seq::empty(),
            count: add_count(s.count, 64 * nb),
        }),
{
    reveal(absorb);
    assert(s.pending + x =~= x);
    assert(x.len() / 64 == nb);
    assert(x.skip(64 * (nb as int)) =~= Seq::<u8>::empty());
}


/// The state after appending each of `chunks` in turn.
pub open spec fn absorb_all(s: StreamModel, chunks: Seq<Seq<u8>>) -> StreamModel
    decreases chunks.len(),
{
    if chunks.len() == 0 {
        s
    } else {
        absorb_all(absorb(s, chunks[0]), chunks.drop_first())
    }
}

/// Appending nothing leaves a well-formed stream as it is.
pub proof fn law_absorb_empty(s: StreamModel)
    requires
        stream_wf(s),
    ensures
        absorb(s, Seq::empty()) == s,
{
    reveal(absorb);
    assert(s.pending + Seq::<u8>::empty() =~= s.pending);
    assert(s.pending.skip(0) =~= s.pending);
    vstd::arithmetic::div_mod::lemma_small_mod(s.count as nat, 0x1_0000_0000_0000_0000);
}

/// Appending pieces one after another is appending their concatenation: how
/// an input is split between updates does not matter.
pub proof fn law_absorb_chunks(s: StreamModel, chunks: Seq<Seq<u8>>)
    requires
        stream_wf(s),
    ensures
        absorb_all(s, chunks) == absorb(s, chunks.flatten()),
    decreases chunks.len(),
{
    if chunks.len() == 0 {
        law_absorb_empty(s);
    } else {
        lemma_absorb_wf(s, chunks[0]);
        law_absorb_chunks(absorb(s, chunks[0]), chunks.drop_first());
        law_absorb_concat(s, chunks[0], chunks.drop_first().flatten());
    }
}

/// A new stream that takes a message in any number of pieces ends with the
/// message's MD5 digest.
pub proof fn law_chunked_digest(chunks: Seq<Seq<u8>>)
    requires
        chunks.flatten().len() <= u64::MAX,
    ensures
        snapshot(absorb_all(fresh(), chunks)) == md5(chunks.flatten()),
{
    law_absorb_chunks(fresh(), chunks);
    law_stream_digest(chunks.flatten());
}

} // verus!
