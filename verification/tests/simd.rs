use md5_simd::backend::digest;
use md5_simd::simd::{
    hash_many_dispatch, pick_batch, runtime_lanes, simd_active, simd_lanes, simd_name,
};

#[test]
fn runtime_lanes_valid() {
    let l = runtime_lanes();
    assert!(l == 1 || l == 4 || l == 8 || l == 16, "lanes={l}");
    let _ = simd_name();
    let _ = simd_lanes();
    let _ = simd_active();
}

#[test]
fn pick_batch_policy() {
    assert_eq!(pick_batch(3, 8, 1024), 0);
    assert_eq!(pick_batch(8, 8, 16), 0);
    assert_eq!(pick_batch(4, 8, 32), 0); // small n × short msg: scalar
    assert_eq!(pick_batch(4, 8, 63), 0);
    assert_eq!(pick_batch(4, 8, 64), 4);
    assert_eq!(pick_batch(8, 8, 32), 8); // larger n may use 32-byte SIMD
    assert_eq!(pick_batch(8, 8, 4096), 8);
    assert_eq!(pick_batch(9, 8, 1024), 9);
    assert_eq!(pick_batch(32, 8, 1024), 32);
    assert_eq!(pick_batch(40, 8, 1024), 32); // 8 * MAX_GROUPS
    assert_eq!(pick_batch(8, 16, 1024), 8);
    assert_eq!(pick_batch(32, 16, 1024), 32);
    assert_eq!(pick_batch(80, 16, 1024), 64); // 16 * MAX_GROUPS
    assert_eq!(pick_batch(8, 1, 1024), 0);
}

#[test]
fn mixed_lengths_match_backend() {
    let storage: Vec<Vec<u8>> = vec![
        Vec::new(),
        vec![1u8; 3],
        vec![2u8; 64],
        vec![3u8; 65],
        vec![4u8; 256],
        vec![5u8; 128],
    ];
    let inputs: Vec<&[u8]> = storage.iter().map(|v| v.as_slice()).collect();
    let mut outputs = vec![[0u8; 16]; inputs.len()];
    hash_many_dispatch(&inputs, &mut outputs);
    for (msg, out) in storage.iter().zip(outputs.iter()) {
        assert_eq!(*out, digest(msg));
    }
}

#[test]
fn simd_reports_are_consistent() {
    assert_eq!(simd_lanes(), 8);
    assert_eq!(runtime_lanes(), simd_lanes());
    assert!(simd_active());
    assert_eq!(simd_name(), "portable-x8");
}

#[test]
fn pick_batch_caps_at_groups_and_refuses_small_kernels() {
    assert_eq!(pick_batch(100, 4, 1024), 16);
    assert_eq!(pick_batch(100, 3, 1024), 0);
    assert_eq!(pick_batch(7, 8, 64), 7);
    assert_eq!(pick_batch(0, 8, 1024), 0);
}

#[test]
fn batch_never_shrinks_with_more_streams_wider_kernels_or_longer_messages() {
    let lefts = [0usize, 3, 4, 7, 8, 9, 31, 32, 33, 64, 100];
    let maxes = [1usize, 3, 4, 8, 16];
    let lens = [0usize, 31, 32, 63, 64, 1024];
    for &l1 in &lefts {
        for &l2 in lefts.iter().filter(|&&l| l >= l1) {
            for &m1 in &maxes {
                for &m2 in maxes.iter().filter(|&&m| m >= m1) {
                    for &n1 in &lens {
                        for &n2 in lens.iter().filter(|&&n| n >= n1) {
                            assert!(pick_batch(l1, m1, n1) <= pick_batch(l2, m2, n2));
                        }
                    }
                }
            }
        }
    }
    assert_eq!(pick_batch(7, 8, 63), 0);
    assert_eq!(pick_batch(8, 8, 63), 8);
    assert_eq!(pick_batch(8, 8, 64), 8);
    assert_eq!(pick_batch(3, usize::MAX, 1024), 0);
    assert_eq!(pick_batch(100, usize::MAX, 1024), 100);
    assert_eq!(pick_batch(usize::MAX, usize::MAX / 4, 1024), usize::MAX / 4 * 4);
}

fn pattern_messages(count: usize, len: usize) -> Vec<Vec<u8>> {
    (0..count)
        .map(|lane| {
            (0..len)
                .map(|i| (i as u8).wrapping_add((lane as u8).wrapping_mul(17)))
                .collect()
        })
        .collect()
}

#[test]
fn equal_runs_of_every_batch_size_match_backend() {
    for count in [1usize, 2, 3, 4, 5, 7, 8, 9, 15, 16, 17, 24, 32, 33, 65] {
        for len in [0usize, 1, 31, 32, 55, 56, 63, 64, 65, 256, 1024] {
            let storage = pattern_messages(count, len);
            let inputs: Vec<&[u8]> = storage.iter().map(|v| v.as_slice()).collect();
            let mut outputs = vec![[0u8; 16]; count];
            hash_many_dispatch(&inputs, &mut outputs);
            for (msg, out) in storage.iter().zip(outputs.iter()) {
                assert_eq!(*out, digest(msg), "count={count} len={len}");
            }
        }
    }
}

#[test]
fn refill_lanes_cover_more_messages_than_one_window() {
    // 70 messages of distinct lengths: no equal-length run, more messages than
    // the 32 lanes of one refill window.
    let storage: Vec<Vec<u8>> = (0..70)
        .map(|i| (0..(3 * i + 40)).map(|b| (b as u8) ^ (i as u8)).collect())
        .collect();
    let inputs: Vec<&[u8]> = storage.iter().map(|v| v.as_slice()).collect();
    let mut outputs = vec![[0u8; 16]; inputs.len()];
    hash_many_dispatch(&inputs, &mut outputs);
    for (msg, out) in storage.iter().zip(outputs.iter()) {
        assert_eq!(*out, digest(msg));
    }
}

#[test]
fn empty_batch_leaves_outputs() {
    let inputs: Vec<&[u8]> = Vec::new();
    let mut outputs = vec![[7u8; 16]; 3];
    hash_many_dispatch(&inputs, &mut outputs);
    assert!(outputs.iter().all(|o| *o == [7u8; 16]));
}

#[test]
fn batch_digest_of_abc_is_known() {
    let inputs: Vec<&[u8]> = vec![b"abc"; 5];
    let mut outputs = vec![[0u8; 16]; 5];
    hash_many_dispatch(&inputs, &mut outputs);
    let want = [
        0x90, 0x01, 0x50, 0x98, 0x3c, 0xd2, 0x4f, 0xb0, 0xd6, 0x96, 0x3f, 0x7d, 0x28, 0xe1, 0x7f,
        0x72,
    ];
    assert!(outputs.iter().all(|o| *o == want));
}

#[test]
fn simd_hash_many_matches_backend() {
    for count in [1usize, 2, 3, 4, 5, 7, 8, 9, 15, 16, 17, 24, 32] {
        for len in [0usize, 1, 55, 64, 65, 256, 1024] {
            let storage = pattern_messages(count, len);
            let inputs: Vec<&[u8]> = storage.iter().map(|v| v.as_slice()).collect();
            let mut outputs = vec![[0u8; 16]; count];
            hash_many_dispatch(&inputs, &mut outputs);
            for (msg, out) in storage.iter().zip(outputs.iter()) {
                assert_eq!(*out, digest(msg), "count={count} len={len}");
            }
        }
    }
}

#[test]
fn opt_profile_batch_matches_single_stream() {
    let count = runtime_lanes().max(4);
    let len = 200usize;
    let storage: Vec<Vec<u8>> = (0..count)
        .map(|l| (0..len).map(|i| (i as u8).wrapping_add(l as u8)).collect())
        .collect();
    let inputs: Vec<&[u8]> = storage.iter().map(|v| v.as_slice()).collect();
    let mut outputs = vec![[0u8; 16]; count];
    hash_many_dispatch(&inputs, &mut outputs);
    for (msg, out) in storage.iter().zip(outputs.iter()) {
        assert_eq!(*out, digest(msg));
    }
}
