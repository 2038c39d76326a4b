//! Quantization to signed bytes.

use fraud_knn::{quantize, Single, DIMS, PAD, SENTINEL_I8};

fn bits(v: &[f32; DIMS]) -> [Single; DIMS] {
    v.map(|x| Single { bits: x.to_bits() })
}

/// One dimension, the way hardware computes it.
fn by_hardware(x: f32) -> i8 {
    if x.is_nan() {
        SENTINEL_I8
    } else {
        (x.clamp(0.0, 1.0) * 100.0).round() as i8
    }
}

fn first(x: f32) -> i8 {
    let mut v = [0.0_f32; DIMS];
    v[0] = x;
    quantize(&bits(&v))[0]
}

#[test]
fn clamps_to_zero_one_hundred() {
    let v = [
        -10.0, 0.0, 0.005, 0.5, 1.0, 1.5, 0.999, 0.1, 0.25, 0.33, 0.66, 0.9, 0.123, 1.0,
    ];
    let q = quantize(&bits(&v));
    assert_eq!(q[0], 0, "negative clamps to 0");
    assert_eq!(q[1], 0);
    assert_eq!(q[2], 1, "0.005 rounds to 1");
    assert_eq!(q[3], 50);
    assert_eq!(q[4], 100);
    assert_eq!(q[5], 100, "above-1.0 clamps to 100");
    assert_eq!(q[6], 100, "0.999*100 rounds to 100");
    assert_eq!(q[14], 0);
    assert_eq!(q[15], 0);
}

#[test]
fn nan_becomes_sentinel() {
    let mut v = [0.0_f32; DIMS];
    v[5] = f32::NAN;
    v[6] = f32::NAN;
    let q = quantize(&bits(&v));
    assert_eq!(q[5], SENTINEL_I8);
    assert_eq!(q[6], SENTINEL_I8);
    for (i, byte) in q.iter().enumerate().take(DIMS) {
        if i != 5 && i != 6 {
            assert_eq!(*byte, 0, "unexpected non-zero at idx {i}");
        }
    }
}

#[test]
fn idempotent_under_quantize_dequantize() {
    let cases: [f32; DIMS] = [
        0.0, 0.01, 0.05, 0.5, 0.99, 1.0, 0.123, 0.456, 0.789, 0.111, 0.222, 0.333, 0.444, 0.555,
    ];
    let q1 = quantize(&bits(&cases));
    let mut deq = [0_f32; DIMS];
    for (slot, q) in deq.iter_mut().zip(q1.iter().take(DIMS)) {
        *slot = f32::from(*q) / 100.0;
    }
    let q2 = quantize(&bits(&deq));
    assert_eq!(q1, q2);
}

#[test]
fn sentinel_survives_roundtrip() {
    let mut v = [0.5_f32; DIMS];
    v[5] = f32::NAN;
    v[6] = f32::NAN;
    let q1 = quantize(&bits(&v));
    let mut deq = [0_f32; DIMS];
    for (slot, q) in deq.iter_mut().zip(q1.iter().take(DIMS)) {
        *slot = if *q == SENTINEL_I8 {
            f32::NAN
        } else {
            f32::from(*q) / 100.0
        };
    }
    let q2 = quantize(&bits(&deq));
    assert_eq!(q1, q2);
}

#[test]
fn padding_is_zero() {
    let v = [1.0_f32; DIMS];
    let q = quantize(&bits(&v));
    assert_eq!(q[14], 0);
    assert_eq!(q[15], 0);
}

#[test]
fn every_hundredth_reads_back() {
    for q in 0..=100_i8 {
        assert_eq!(first(f32::from(q) / 100.0), q);
    }
}

#[test]
fn agrees_with_hardware_on_special_values() {
    let cases = [
        -0.0_f32,
        f32::MIN_POSITIVE,
        f32::from_bits(1),
        f32::from_bits(0x8000_0001),
        f32::INFINITY,
        f32::NEG_INFINITY,
        f32::from_bits(0xFFC0_0000),
        f32::from_bits(0x7F80_0001),
        f32::MAX,
        0.005,
        0.004_999_999,
        0.014_999_999,
        0.015,
        0.994_999_9,
        0.995,
        0.999_999_94,
        1.000_000_1,
    ];
    for x in cases {
        assert_eq!(first(x), by_hardware(x), "{x:?}");
    }
}

#[test]
fn grows_with_the_value() {
    let mut previous = 0_i8;
    for i in 0..=20_000_u32 {
        let x = i as f32 / 20_000.0;
        let q = first(x);
        assert_eq!(q, by_hardware(x), "{x}");
        assert!(previous <= q);
        // Off by at most one half and a little.
        assert!((f64::from(q) - 100.0 * f64::from(x)).abs() <= 0.5 + 1.0 / 262_144.0, "{x}");
        previous = q;
    }
    assert_eq!(previous, 100);
    assert_eq!(PAD, 16);
}

#[test]
fn distances_are_hardly_distorted() {
    let mut seed = 0x5EED_u64;
    let mut random = || {
        let mut v = [0.0_f32; DIMS];
        for slot in &mut v {
            seed ^= seed << 13;
            seed ^= seed >> 7;
            seed ^= seed << 17;
            *slot = (seed >> 40) as f32 / 16_777_216.0;
        }
        v
    };
    for _ in 0..500 {
        let (x, y) = (random(), random());
        let (p, q) = (quantize(&bits(&x)), quantize(&bits(&y)));
        let mut exact = 0.0_f64;
        let mut stored = 0.0_f64;
        for i in 0..DIMS {
            exact += (f64::from(x[i]) - f64::from(y[i])).powi(2);
            stored += ((f64::from(p[i]) - f64::from(q[i])) / 100.0).powi(2);
        }
        assert!((exact.sqrt() - stored.sqrt()).abs() <= 0.040_001);
    }
}
