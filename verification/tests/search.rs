//! Top-5 scans and the fraud score.

use fraud_knn::search::{knn5_avx2, knn5_naive_f32, knn5_naive_i32, occupied_score};
use fraud_knn::{fraud_score, knn5, quantize, Single, Top5, DIMS, PAD, SENTINEL_I8};

/// Uniform numbers of the unit interval, deterministic.
fn xorshift_f32(state: &mut u64) -> f32 {
    let mut x = *state;
    x ^= x << 13;
    x ^= x >> 7;
    x ^= x << 17;
    *state = x;
    ((x >> 11) as f32) / ((1_u64 << 53) as f32)
}

fn random_query(seed: &mut u64) -> [i8; PAD] {
    let mut v = [Single { bits: 0 }; DIMS];
    for slot in &mut v {
        *slot = Single { bits: xorshift_f32(seed).to_bits() };
    }
    quantize(&v)
}

fn quantize_random_refs(n: usize, mut seed: u64) -> Vec<i8> {
    let mut buf = Vec::with_capacity(n * PAD);
    for _ in 0..n {
        buf.extend_from_slice(&random_query(&mut seed));
    }
    buf
}

/// All distances, sorted by distance and index.
fn by_sorting(query: &[i8; PAD], refs: &[i8]) -> Vec<(i32, u32)> {
    let mut all: Vec<(i32, u32)> = refs
        .chunks_exact(PAD)
        .enumerate()
        .map(|(i, row)| {
            let mut d = 0;
            for k in 0..PAD {
                let diff = i32::from(query[k]) - i32::from(row[k]);
                d += diff * diff;
            }
            (d, i as u32)
        })
        .collect();
    all.sort_unstable();
    all.truncate(5);
    all
}

fn entries(top: &Top5) -> Vec<(i32, u32)> {
    top.dist.iter().copied().zip(top.idx.iter().copied()).collect()
}

#[test]
fn top5_initialized_to_max() {
    let t = Top5::new();
    assert_eq!(t.dist, [i32::MAX; 5]);
    assert_eq!(t.idx, [u32::MAX; 5]);
}

#[test]
fn top5_insertion_stable_on_ties() {
    // Six entries at distance 100; the lowest five indices stay.
    let mut t = Top5::new();
    for i in (0..6_u32).rev() {
        t.try_insert(100, i);
    }
    assert_eq!(t.idx, [0, 1, 2, 3, 4]);
    assert_eq!(t.dist, [100; 5]);
}

#[test]
fn top5_orders_by_distance_then_index() {
    let mut t = Top5::new();
    t.try_insert(50, 9);
    t.try_insert(10, 3);
    t.try_insert(50, 2);
    t.try_insert(20, 7);
    t.try_insert(10, 1);
    t.try_insert(50, 4);
    assert_eq!(t.dist, [10, 10, 20, 50, 50]);
    assert_eq!(t.idx, [1, 3, 7, 2, 4]);
}

#[test]
fn top5_rejects_above_worst() {
    let mut t = Top5::new();
    for i in 0..5_u32 {
        t.try_insert(1, i);
    }
    t.try_insert(2, 0);
    assert_eq!(t.dist, [1, 1, 1, 1, 1]);
    assert_eq!(t.idx, [0, 1, 2, 3, 4]);
}

#[test]
fn naive_i32_matches_naive_f32_on_random() {
    let refs = quantize_random_refs(2_000, 0xDEAD_BEEF);
    let mut q_seed = 0x1234_5678_u64;
    for _ in 0..10 {
        let q = random_query(&mut q_seed);
        let a = knn5_naive_i32(&q, &refs);
        let b = knn5_naive_f32(&q, &refs);
        assert_eq!(a.idx, b.idx);
        assert_eq!(a.dist, b.dist);
    }
}

#[test]
fn fraud_score_counts_set_bits() {
    // labels: bits 0..5 = 1 0 1 1 0
    let labels = [0b0000_1101_u8];
    let mut top = Top5::new();
    for (slot, idx) in [0, 1, 2, 3, 4].iter().enumerate() {
        top.dist[slot] = (slot as i32) + 1;
        top.idx[slot] = *idx;
    }
    // Three of five.
    let s = f32::from_bits(fraud_score(&top, &labels).bits);
    assert!((s - 0.6).abs() < 1e-6);
}

#[test]
fn naive_handles_sentinel_dimensions() {
    let mut refs = vec![0_i8; 2 * PAD];
    refs[5] = SENTINEL_I8;
    refs[6] = SENTINEL_I8;
    let mut q_arr = [0_i8; PAD];
    q_arr[5] = SENTINEL_I8;
    q_arr[6] = SENTINEL_I8;
    let top = knn5_naive_i32(&q_arr, &refs);
    assert_eq!(top.idx[0], 0);
    assert_eq!(top.dist[0], 0);
    assert_eq!(top.idx[1], 1);
    assert_eq!(top.dist[1], 2);
}

#[test]
fn avx2_matches_naive_on_100k_refs() {
    let refs = quantize_random_refs(100_000, 0x1357_9BDF);
    let mut q_seed = 0xCAFE_BABE_u64;
    let mut mismatches = 0_u32;
    let total = 32_u32;
    for _ in 0..total {
        let q = random_query(&mut q_seed);
        let a = knn5_naive_i32(&q, &refs);
        let b = knn5_avx2(&q, &refs);
        if a.idx != b.idx || a.dist != b.dist {
            mismatches += 1;
        }
    }
    assert_eq!(
        mismatches, 0,
        "knn5_avx2 diverges from naive on {mismatches}/{total} queries",
    );
}

#[test]
fn avx2_tail_lengths_are_correct() {
    // Four vectors per step: cover all four remainders.
    for n in 1..=11 {
        let refs = quantize_random_refs(n, 0xABCD);
        let mut q_arr = [0_i8; PAD];
        q_arr[0] = 50;
        let a = knn5_naive_i32(&q_arr, &refs);
        let b = knn5_avx2(&q_arr, &refs);
        assert_eq!(a.idx, b.idx, "n={n}");
        assert_eq!(a.dist, b.dist, "n={n}");
    }
}

#[test]
fn scans_find_the_five_nearest() {
    for n in [5_usize, 6, 7, 64, 513] {
        let refs = quantize_random_refs(n, 77 + n as u64);
        let mut seed = 42_u64;
        for _ in 0..5 {
            let q = random_query(&mut seed);
            let expected = by_sorting(&q, &refs);
            assert_eq!(entries(&knn5_naive_i32(&q, &refs)), expected);
            assert_eq!(entries(&knn5_naive_f32(&q, &refs)), expected);
            assert_eq!(entries(&knn5_avx2(&q, &refs)), expected);
            assert_eq!(entries(&knn5(&q, &refs, true)), expected);
            assert_eq!(entries(&knn5(&q, &refs, false)), expected);
        }
    }
}

#[test]
fn small_datasets_leave_vacant_slots() {
    let refs = vec![0_i8; 2 * PAD + 7];
    let q = [1_i8; PAD];
    for top in [knn5(&q, &refs, false), knn5(&q, &refs, true)] {
        assert_eq!(top.dist, [16, 16, i32::MAX, i32::MAX, i32::MAX]);
        assert_eq!(top.idx, [0, 1, u32::MAX, u32::MAX, u32::MAX]);
    }
    assert_eq!(knn5(&q, &[], true).dist, Top5::default().dist);
}

#[test]
fn batched_differences_wrap_at_eight_bits() {
    // Unquantized lanes: 127 - (-128) is 255, and -1 in eight bits.
    let q = [127_i8; PAD];
    let refs = vec![-128_i8; PAD];
    assert_eq!(knn5_naive_i32(&q, &refs).dist[0], 16 * 255 * 255);
    assert_eq!(knn5_naive_f32(&q, &refs).dist[0], 16 * 255 * 255);
    assert_eq!(knn5_avx2(&q, &refs).dist[0], 16);
}

#[test]
fn scores_are_fifths() {
    let patterns = [0_u32, 0x3E4C_CCCD, 0x3ECC_CCCD, 0x3F19_999A, 0x3F4C_CCCD, 0x3F80_0000];
    for (count, pattern) in patterns.iter().enumerate() {
        let labels = [((1_u32 << count) - 1) as u8];
        let mut top = Top5::new();
        for k in 0..5_u32 {
            top.try_insert(k as i32, k);
        }
        let s = fraud_score(&top, &labels);
        assert_eq!(s.bits, *pattern);
        assert_eq!(f32::from_bits(s.bits), count as f32 / 5.0);
        assert_eq!(f32::from_bits(s.bits) < 0.6, count <= 2);
    }
}

#[test]
fn equal_padding_adds_nothing() {
    let mut q = [3_i8; PAD];
    let mut refs = vec![1_i8; PAD];
    for pad in [0_i8, 9, -128] {
        for k in DIMS..PAD {
            q[k] = pad;
            refs[k] = pad;
        }
        assert_eq!(knn5(&q, &refs, false).dist[0], 14 * 4);
        assert_eq!(knn5(&q, &refs, true).dist[0], 14 * 4);
    }
}

#[test]
fn quantized_distances_stay_below_their_bound() {
    let mut q = [100_i8; PAD];
    let mut refs = vec![SENTINEL_I8; PAD];
    for k in DIMS..PAD {
        q[k] = 0;
        refs[k] = 0;
    }
    for top in [knn5(&q, &refs, false), knn5(&q, &refs, true), knn5_naive_f32(&q, &refs)] {
        assert_eq!(top.dist[0], 14 * 101 * 101);
        assert!(top.dist[0] < 1 << 18);
    }
}

#[test]
fn fewer_than_five_vectors_fill_the_first_slots() {
    for n in 0..5_usize {
        let refs = quantize_random_refs(n, 31 + n as u64);
        let mut seed = 8_u64;
        let q = random_query(&mut seed);
        let mut expected = by_sorting(&q, &refs);
        expected.resize(5, (i32::MAX, u32::MAX));
        assert_eq!(entries(&knn5(&q, &refs, false)), expected);
        assert_eq!(entries(&knn5(&q, &refs, true)), expected);
    }
}

#[test]
fn vacant_slots_carry_no_label() {
    let mut top = Top5::new();
    top.try_insert(4, 1);
    top.try_insert(9, 0);
    let labels = [0b01_u8];
    assert_eq!(occupied_score(&top, 0, &labels).bits, 0.0_f32.to_bits());
    assert_eq!(occupied_score(&top, 1, &labels).bits, 0.0_f32.to_bits());
    assert_eq!(occupied_score(&top, 2, &labels).bits, 0.2_f32.to_bits());
}
