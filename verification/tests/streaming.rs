use md5::Digest;
use md5_simd::backend::digest;
use md5_simd::compress::{compress_block, state_to_bytes};
use md5_simd::frame::build_final_blocks;
use md5_simd::simd::update_many_dispatch;
use md5_simd::{Chain, Md5State};

fn oracle(data: &[u8]) -> [u8; 16] {
    md5::Md5::digest(data).into()
}

fn hex(d: &[u8; 16]) -> String {
    d.iter().map(|b| format!("{b:02x}")).collect()
}

#[test]
fn rfc1321_test_suite() {
    let cases: [(&[u8], &str); 7] = [
        (b"", "d41d8cd98f00b204e9800998ecf8427e"),
        (b"a", "0cc175b9c0f1b6a831c399e269772661"),
        (b"abc", "900150983cd24fb0d6963f7d28e17f72"),
        (b"message digest", "f96b697d7cb7938d525a2f31aaf161d0"),
        (b"abcdefghijklmnopqrstuvwxyz", "c3fcd3d76192e4007dfb496cca67e13b"),
        (
            b"ABCDEFGHIJKLMNOPQRSTUVWXYZabcdefghijklmnopqrstuvwxyz0123456789",
            "d174ab98d277d9f5a5611c2c9f419d9f",
        ),
        (
            b"12345678901234567890123456789012345678901234567890123456789012345678901234567890",
            "57edf4a22be3c955ac49da2e2107b67a",
        ),
    ];
    for (msg, want) in cases {
        assert_eq!(hex(&digest(msg)), want);
        let mut s = Md5State::new();
        s.update(msg);
        assert_eq!(hex(&s.finalize()), want);
    }
}

#[test]
fn million_a() {
    let data = vec![b'a'; 1_000_000];
    assert_eq!(hex(&digest(&data)), "7707d6ae4e027c70eea2a935c2296f21");
}

#[test]
fn digest_matches_oracle_across_padding_boundaries() {
    for len in 0..300usize {
        let data: Vec<u8> = (0..len).map(|i| (i * 7 + 3) as u8).collect();
        assert_eq!(digest(&data), oracle(&data), "len {len}");
    }
}

#[test]
fn stream_splits_do_not_matter() {
    let data: Vec<u8> = (0..1000usize).map(|i| (i * 31 + 7) as u8).collect();
    let want = oracle(&data);
    for chunk in [1usize, 3, 55, 56, 63, 64, 65, 127, 999, 1000] {
        let mut s = Md5State::new();
        for piece in data.chunks(chunk) {
            s.update(piece);
        }
        assert_eq!(s.finalize(), want, "chunk {chunk}");
    }
}

#[test]
fn finalize_is_a_snapshot() {
    let mut s = Md5State::new();
    s.update(b"a");
    assert_eq!(s.finalize(), digest(b"a"));
    assert_eq!(s.finalize(), digest(b"a"));
    s.update(b"bc");
    assert_eq!(s.finalize(), digest(b"abc"));
}

#[test]
fn buffered_counts_the_partial_block() {
    let mut s = Md5State::new();
    assert_eq!(s.buffered(), 0);
    s.update(&[0u8; 70]);
    assert_eq!(s.buffered(), 6);
    s.update(&[0u8; 58]);
    assert_eq!(s.buffered(), 0);
}

#[test]
fn resumed_state_continues_the_message() {
    let data: Vec<u8> = (0..300usize).map(|i| i as u8).collect();
    let mut s = Md5State::new();
    s.update(&data[..128]);
    let mut r = Md5State::from_parts(s.chain(), 128);
    r.update(&data[128..]);
    assert_eq!(r.finalize(), oracle(&data));
}

#[test]
fn update_many_matches_one_by_one() {
    // Unequal, unaligned and idle streams, more than one window.
    let count = 40usize;
    let uploads: Vec<Vec<u8>> = (0..count)
        .map(|k| (0..(k * 97 + 5)).map(|i| (i ^ k) as u8).collect())
        .collect();
    let mut states = vec![Md5State::new(); count];
    let mut pos = vec![0usize; count];
    for round in 0..8usize {
        let chunks: Vec<&[u8]> = (0..count)
            .map(|k| {
                let take = if (k + round) % 5 == 0 { 0 } else { 17 + 53 * ((k + round) % 7) };
                let end = (pos[k] + take).min(uploads[k].len());
                let c = &uploads[k][pos[k]..end];
                pos[k] = end;
                c
            })
            .collect();
        update_many_dispatch(&mut states, &chunks);
    }
    for k in 0..count {
        let mut s = Md5State::new();
        s.update(&uploads[k][..pos[k]]);
        assert_eq!(states[k].finalize(), s.finalize(), "stream {k}");
        assert_eq!(states[k].finalize(), oracle(&uploads[k][..pos[k]]), "stream {k}");
    }
}

#[test]
fn update_many_streaming_uploads() {
    let uploads = [[0x5au8; 4096]; 8];
    let mut states = [Md5State::new(); 8];
    for round in 0..4 {
        let chunks: Vec<&[u8]> = uploads
            .iter()
            .map(|u| &u[round * 1024..(round + 1) * 1024])
            .collect();
        update_many_dispatch(&mut states, &chunks);
    }
    assert!(states.iter().all(|s| s.finalize() == digest(&uploads[0])));
}

#[test]
fn update_many_with_few_streams_uses_single_stream_path() {
    let mut states = [Md5State::new(); 3];
    let inputs: [&[u8]; 3] = [b"a", b"abc", b""];
    update_many_dispatch(&mut states, &inputs);
    assert_eq!(states[0].finalize(), digest(b"a"));
    assert_eq!(states[1].finalize(), digest(b"abc"));
    assert_eq!(states[2].finalize(), digest(b""));
}

#[test]
fn final_blocks_take_one_or_two_blocks() {
    for tail_len in 0..64usize {
        let tail = vec![0xEEu8; tail_len];
        let mut pad = [0u8; 128];
        let total = 64 * 3 + tail_len as u64;
        let nb = build_final_blocks(total, &tail, &mut pad);
        assert_eq!(nb, if tail_len < 56 { 1 } else { 2 });
        assert_eq!(&pad[..tail_len], &tail[..]);
        assert_eq!(pad[tail_len], 0x80);
        assert!(pad[tail_len + 1..64 * nb - 8].iter().all(|b| *b == 0));
        assert_eq!(&pad[64 * nb - 8..64 * nb], &(total * 8).to_le_bytes());
    }
}

#[test]
fn length_field_wraps_modulo_two_to_the_64() {
    let mut pad = [0u8; 128];
    let total = u64::MAX - 20; // bit length wraps; 43 tail bytes
    let tail = vec![1u8; (total % 64) as usize];
    let nb = build_final_blocks(total, &tail, &mut pad);
    assert_eq!(nb, 1);
    assert_eq!(&pad[56..64], &total.wrapping_mul(8).to_le_bytes());
}

#[test]
fn compress_one_block_of_empty_message_padding() {
    let iv = Chain { a: 0x67452301, b: 0xefcdab89, c: 0x98badcfe, d: 0x10325476 };
    let mut block = [0u8; 64];
    block[0] = 0x80;
    let c = compress_block(iv, &block, 0);
    assert_eq!(hex(&state_to_bytes(c)), "d41d8cd98f00b204e9800998ecf8427e");
}

#[test]
fn state_to_bytes_is_little_endian() {
    let c = Chain { a: 0x04030201, b: 0x08070605, c: 0x0c0b0a09, d: 0x100f0e0d };
    assert_eq!(state_to_bytes(c), [1, 2, 3, 4, 5, 6, 7, 8, 9, 10, 11, 12, 13, 14, 15, 16]);
}

#[test]
fn empty_update_leaves_state() {
    let mut s = Md5State::new();
    s.update(b"hello ");
    let before = s.finalize();
    let buffered = s.buffered();
    s.update(b"");
    assert_eq!(s.finalize(), before);
    assert_eq!(s.buffered(), buffered);
    let mut states = [s; 5];
    let inputs: [&[u8]; 5] = [b"", b"", b"", b"", b""];
    update_many_dispatch(&mut states, &inputs);
    assert!(states.iter().all(|t| t.finalize() == before));
}
