//! Exact single-precision arithmetic, held against the hardware's.

use fraud_knn::Single;

fn of(x: f32) -> Single {
    Single { bits: x.to_bits() }
}

fn next(state: &mut u64) -> u64 {
    let mut x = *state;
    x ^= x << 13;
    x ^= x >> 7;
    x ^= x << 17;
    *state = x;
    x
}

fn special() -> Vec<f32> {
    let mut v = vec![
        0.0,
        1.0,
        0.5,
        2.0,
        3.0,
        5.0,
        23.0,
        60.0,
        100.0,
        0.1,
        0.6,
        16_777_216.0,
        16_777_215.0,
        8_388_607.5,
        0.499_999_97,
        2_147_483_600.0,
        f32::MAX,
        f32::MIN_POSITIVE,
        f32::INFINITY,
        f32::NAN,
        f32::from_bits(1),
        f32::from_bits(2),
        f32::from_bits(0x007F_FFFF),
        f32::from_bits(0x0080_0001),
        f32::from_bits(0x3F80_0001),
        f32::from_bits(0x3F7F_FFFF),
    ];
    for i in 0..v.len() {
        v.push(-v[i]);
    }
    v
}

/// Pairs of operands: all special values, and random patterns, near each other and far apart.
fn pairs() -> Vec<(f32, f32)> {
    let mut out = Vec::new();
    for a in special() {
        for b in special() {
            out.push((a, b));
        }
    }
    let mut seed = 0x9E37_79B9_7F4A_7C15_u64;
    for _ in 0..6_000 {
        let r = next(&mut seed);
        let a = r as u32;
        let b = (r >> 32) as u32;
        out.push((f32::from_bits(a), f32::from_bits(b)));
        // A similar exponent.
        let near = (a & 0x7F80_0000).wrapping_add((b & 0x03FF_FFFF) | (b & 0x8000_0000));
        out.push((f32::from_bits(a), f32::from_bits(near)));
        out.push((f32::from_bits(near & 0x80FF_FFFF), f32::from_bits(a)));
    }
    out
}

fn check(name: &str, a: f32, b: f32, ours: Single, hardware: f32) {
    if hardware.is_nan() {
        assert!(ours.is_nan(), "{a:?} {name} {b:?}: {:#x}", ours.bits);
    } else {
        assert_eq!(ours.bits, hardware.to_bits(), "{a:?} {name} {b:?}");
    }
}

#[test]
fn division_rounds_as_hardware() {
    for (a, b) in pairs() {
        check("/", a, b, of(a).div(of(b)), a / b);
    }
}

#[test]
fn multiplication_rounds_as_hardware() {
    for (a, b) in pairs() {
        check("*", a, b, of(a).mul(of(b)), a * b);
    }
}

#[test]
fn addition_rounds_as_hardware() {
    for (a, b) in pairs() {
        check("+", a, b, of(a).add(of(b)), a + b);
        check("-", a, b, of(a).sub(of(b)), a - b);
        check("negated", a, b, of(a).neg(), -a);
    }
}

#[test]
fn comparison_is_that_of_hardware() {
    for (a, b) in pairs() {
        assert_eq!(of(a).lt(of(b)), a < b, "{a:?} {b:?}");
        assert_eq!(of(a).is_nan(), a.is_nan());
    }
}

#[test]
fn conversions_match_hardware() {
    let mut seed = 0x1234_5678_9ABC_DEF1_u64;
    let mut integers = vec![0, 1, -1, i64::MAX, i64::MIN, 16_777_217, -16_777_219, 33_554_435];
    for shift in 0..63 {
        integers.push(1 << shift);
        integers.push((1 << shift) - 1);
        integers.push(-(1 << shift) - 1);
    }
    for _ in 0..4_000 {
        integers.push(next(&mut seed) as i64);
        integers.push((next(&mut seed) >> 30) as i64);
    }
    for v in integers {
        assert_eq!(Single::from_i64(v).bits, (v as f32).to_bits(), "{v}");
        assert_eq!(Single::from_u32(v as u32).bits, (v as u32 as f32).to_bits(), "{v}");
    }
    for (a, b) in pairs() {
        for x in [a, b] {
            assert_eq!(of(x).to_i32(), x as i32, "{x:?}");
            assert_eq!(of(x).round_to_i8(), x.round() as i8, "{x:?}");
            check("clamped", x, x, of(x).clamp_unit(), x.clamp(0.0, 1.0));
        }
    }
}

#[test]
fn halves_round_away_from_zero() {
    for i in -200..200_i32 {
        let x = i as f32 / 2.0;
        assert_eq!(of(x).round_to_i8(), x.round() as i8, "{x}");
    }
    assert_eq!(of(2.5).round_to_i8(), 3);
    assert_eq!(of(-2.5).round_to_i8(), -3);
    assert_eq!(of(1e9).round_to_i8(), 127);
    assert_eq!(of(f32::NEG_INFINITY).round_to_i8(), -128);
    assert_eq!(of(f32::NAN).round_to_i8(), 0);
}

#[test]
fn whole_numbers_are_exact() {
    for a in -300..300_i64 {
        for b in [-255_i64, -17, 0, 1, 254] {
            let (x, y) = (Single::from_i64(a), Single::from_i64(b));
            assert_eq!(x.sub(y), Single::from_i64(a - b));
            assert_eq!(x.add(y), Single::from_i64(a + b));
        }
        let d = Single::from_i64(a);
        assert_eq!(i64::from(d.mul(d).to_i32()), a * a);
    }
}
