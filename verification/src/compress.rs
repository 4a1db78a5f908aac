//! The single-stream MD5 compressor.

use vstd::prelude::*;
use crate::model::{
    blocks_chain, chain_bytes, compress, k_table, msg_index, s_table, steps, word, Chain,
};

verus! {

/// Compresses the 64 bytes of `data` that start at `at` into `c`.
pub fn compress_block(c: Chain, data: &[u8], at: usize) -> (r: Chain)
    requires
        at + 64 <= data@.len(),
    ensures
        r == compress(c, data@.subrange(at as int, at + 64)),
{
    let ghost blk = data@.subrange(at as int, at + 64);
    let k: [u32; 64] = [
        0xd76aa478, 0xe8c7b756, 0x242070db, 0xc1bdceee, 0xf57c0faf, 0x4787c62a, 0xa8304613, 0xfd469501,
        0x698098d8, 0x8b44f7af, 0xffff5bb1, 0x895cd7be, 0x6b901122, 0xfd987193, 0xa679438e, 0x49b40821,
        0xf61e2562, 0xc040b340, 0x265e5a51, 0xe9b6c7aa, 0xd62f105d, 0x02441453, 0xd8a1e681, 0xe7d3fbc8,
        0x21e1cde6, 0xc33707d6, 0xf4d50d87, 0x455a14ed, 0xa9e3e905, 0xfcefa3f8, 0x676f02d9, 0x8d2a4c8a,
        0xfffa3942, 0x8771f681, 0x6d9d6122, 0xfde5380c, 0xa4beea44, 0x4bdecfa9, 0xf6bb4b60, 0xbebfbc70,
        0x289b7ec6, 0xeaa127fa, 0xd4ef3085, 0x04881d05, 0xd9d4d039, 0xe6db99e5, 0x1fa27cf8, 0xc4ac5665,
        0xf4292244, 0x432aff97, 0xab9423a7, 0xfc93a039, 0x655b59c3, 0x8f0ccc92, 0xffeff47d, 0x85845dd1,
        0x6fa87e4f, 0xfe2ce6e0, 0xa3014314, 0x4e0811a1, 0xf7537e82, 0xbd3af235, 0x2ad7d2bb, 0xeb86d391,
    ];
    let s: [u32; 64] = [
        7, 12, 17, 22, 7, 12, 17, 22, 7, 12, 17, 22, 7, 12, 17, 22,
        5, 9, 14, 20, 5, 9, 14, 20, 5, 9, 14, 20, 5, 9, 14, 20,
        4, 11, 16, 23, 4, 11, 16, 23, 4, 11, 16, 23, 4, 11, 16, 23,
        6, 10, 15, 21, 6, 10, 15, 21, 6, 10, 15, 21, 6, 10, 15, 21,
    ];
    assert(k@ =~= k_table());
    assert(s@ =~= s_table());
    let len = data.len();
    let mut st = c;
    let mut i: usize = 0;
    while i < 64
        invariant
            i <= 64,
            at + 64 <= data@.len(),
            len == data@.len(),
            blk == data@.subrange(at as int, at + 64),
            k@ == k_table(),
            s@ == s_table(),
            st == steps(c, blk, i as nat),
        decreases 64 - i,
    {
        let g: usize = if i < 16 {
            i
        } else if i < 32 {
            (5 * i + 1) % 16
        } else if i < 48 {
            (3 * i + 5) % 16
        } else {
            (7 * i) % 16
        };
        let f: u32 = if i < 16 {
            (st.b & st.c) | (!st.b & st.d)
        } else if i < 32 {
            (st.d & st.b) | (!st.d & st.c)
        } else if i < 48 {
            st.b ^ st.c ^ st.d
        } else {
            st.c ^ (st.b | !st.d)
        };
        assert(g < 16 && g == msg_index(i as int));
        let p = at + 4 * g;
        let w: u32 = (data[p] as u32) | ((data[p + 1] as u32) << 8u32) | ((data[p + 2] as u32)
            << 16u32) | ((data[p + 3] as u32) << 24u32);
        assert(w == word(blk, msg_index(i as int)));
        let sum = st.a.wrapping_add(f).wrapping_add(k[i]).wrapping_add(w);
        let r = s[i];
        assert(0 < r < 32);
        let rot = (sum << r) | (sum >> (32 - r));
        st = Chain { a: st.d, b: st.b.wrapping_add(rot), c: st.b, d: st.c };
        i = i + 1;
    }
    Chain {
        a: c.a.wrapping_add(st.a),
        b: c.b.wrapping_add(st.b),
        c: c.c.wrapping_add(st.c),
        d: c.d.wrapping_add(st.d),
    }
}


/// Compresses the `n` whole blocks of `data` that start at `at` into `c`.
pub fn compress_blocks(c: Chain, data: &[u8], at: usize, n: usize) -> (r: Chain)
    requires
        at + 64 * n <= data@.len(),
    ensures
        r == blocks_chain(c, data@.skip(at as int), n as nat),
{
    let len = data.len();
    let mut cur = c;
    let mut k: usize = 0;
    let ghost rest = data@.skip(at as int);
    while k < n
        invariant
            k <= n,
            at + 64 * n <= data@.len(),
            rest == data@.skip(at as int),
            len == data@.len(),
            cur == blocks_chain(c, rest, k as nat),
        decreases n - k,
    {
        assert(rest.subrange(64 * (k as int), 64 * (k as int + 1)) =~= data@.subrange(
            at + 64 * k,
            at + 64 * k + 64,
        ));
        cur = compress_block(cur, data, at + 64 * k);
        k = k + 1;
    }
    cur
}

/// The 16 digest bytes of a chaining value.
pub fn state_to_bytes(c: Chain) -> (r: [u8; 16])
    ensures
        r@ == chain_bytes(c),
{
    let r: [u8; 16] = [
        c.a as u8,
        (c.a >> 8u32) as u8,
        (c.a >> 16u32) as u8,
        (c.a >> 24u32) as u8,
        c.b as u8,
        (c.b >> 8u32) as u8,
        (c.b >> 16u32) as u8,
        (c.b >> 24u32) as u8,
        c.c as u8,
        (c.c >> 8u32) as u8,
        (c.c >> 16u32) as u8,
        (c.c >> 24u32) as u8,
        c.d as u8,
        (c.d >> 8u32) as u8,
        (c.d >> 16u32) as u8,
        (c.d >> 24u32) as u8,
    ];
    assert(r@ =~= chain_bytes(c));
    r
}

} // verus!
