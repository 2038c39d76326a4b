//! Rounding to single-precision magnitudes.
//!
//! A finite magnitude is a whole number of *units* of 2^-149, the smallest positive subnormal. A
//! ratio of integers, in units, rounds to the nearest representable magnitude, ties to the even
//! pattern.

use vstd::arithmetic::power2::{
    lemma2_to64, lemma_pow2_adds, lemma_pow2_pos, lemma_pow2_strictly_increases, lemma_pow2_unfold,
    pow2,
};
use vstd::prelude::*;

verus! {


/// Magnitude pattern of infinity; larger magnitudes are NaN.
pub const INFINITY_BITS: u32 = 0x7F80_0000;

/// Weight of the lowest exponent bit.
pub const EXPONENT_STEP: u32 = 0x0080_0000;

/// The value of a magnitude pattern in units of 2^-149. Infinity counts as the power of two that
/// follows the largest finite value.
pub open spec fn units(m: int) -> int {
    let e = m / EXPONENT_STEP as int;
    let f = m % EXPONENT_STEP as int;
    if e == 0 {
        f
    } else {
        (EXPONENT_STEP + f) * pow2((e - 1) as nat)
    }
}

/// `num / den` units do not lie below the middle of magnitude `m` and its predecessor; on the
/// middle, the even pattern wins.
pub open spec fn not_nearer_below(num: int, den: int, m: int) -> bool {
    let middle = den * (units(m - 1) + units(m));
    2 * num > middle || (2 * num == middle && m % 2 == 0)
}

/// `num / den` units do not lie above the middle of magnitude `m` and its successor; on the
/// middle, the even pattern wins.
pub open spec fn not_nearer_above(num: int, den: int, m: int) -> bool {
    let middle = den * (units(m) + units(m + 1));
    2 * num < middle || (2 * num == middle && m % 2 == 0)
}

/// Magnitude `m` is `num / den` units rounded to nearest, ties to even.
pub open spec fn nearest(num: int, den: int, m: int) -> bool {
    &&& 0 <= m <= INFINITY_BITS
    &&& m > 0 ==> not_nearer_below(num, den, m)
    &&& m < INFINITY_BITS ==> not_nearer_above(num, den, m)
}

/// The magnitude nearest to `num / den` units.
pub open spec fn rounded(num: int, den: int) -> int {
    choose|m: int| nearest(num, den, m)
}

/// Each magnitude is larger than the one before it.
pub(crate) proof fn lemma_units_step(m: int)
    requires
        0 <= m,
    ensures
        0 <= units(m) < units(m + 1),
{
    let s = EXPONENT_STEP as int;
    let e = m / s;
    let f = m % s;
    if f + 1 < s {
        assert((m + 1) / s == e && (m + 1) % s == f + 1);
        if e > 0 {
            lemma_pow2_pos((e - 1) as nat);
            let p = pow2((e - 1) as nat) as int;
            assert((s + f) * p < (s + (f + 1)) * p) by (nonlinear_arith)
                requires
                    p > 0,
            ;
            assert(0 <= (s + f) * p) by (nonlinear_arith)
                requires
                    p > 0,
                    s + f >= 0,
            ;
        }
    } else {
        assert((m + 1) / s == e + 1 && (m + 1) % s == 0);
        lemma_pow2_pos(e as nat);
        if e == 0 {
            lemma2_to64();
        } else {
            lemma_pow2_pos((e - 1) as nat);
            lemma_pow2_unfold(e as nat);
            let p = pow2((e - 1) as nat) as int;
            assert((s + f) * p < s * (2 * p)) by (nonlinear_arith)
                requires
                    p > 0,
                    f < s,
            ;
            assert(0 <= (s + f) * p) by (nonlinear_arith)
                requires
                    p > 0,
                    s + f >= 0,
            ;
        }
    }
}

/// Larger patterns have larger values.
pub proof fn law_units_increase(a: int, b: int)
    requires
        0 <= a < b,
    ensures
        0 <= units(a) < units(b),
    decreases b - a,
{
    lemma_units_step(b - 1);
    if a < b - 1 {
        law_units_increase(a, b - 1);
    }
}

/// At most one magnitude is nearest.
pub proof fn law_nearest_unique(num: int, den: int, a: int, b: int)
    requires
        den > 0,
        nearest(num, den, a),
        nearest(num, den, b),
    ensures
        a == b,
    decreases (if a < b { 0int } else { 1int }),
{
    if b < a {
        law_nearest_unique(num, den, b, a);
    } else if a < b {
        if a + 1 < b {
            law_units_increase(a, b - 1);
            law_units_increase(a + 1, b);
        }
        let low = units(a) + units(a + 1);
        let high = units(b - 1) + units(b);
        assert(den * low <= den * high) by (nonlinear_arith)
            requires
                den > 0,
                low <= high,
        ;
        assert(a + 1 < b ==> den * low < den * high) by (nonlinear_arith)
            requires
                den > 0,
                a + 1 < b ==> low < high,
        ;
    }
}

/// A magnitude that is nearest is what rounding yields.
pub proof fn law_rounded_is(num: int, den: int, m: int)
    requires
        den > 0,
        nearest(num, den, m),
    ensures
        rounded(num, den) == m,
{
    law_nearest_unique(num, den, m, rounded(num, den));
}

/// Going up from `from`, some magnitude is nearest.
proof fn lemma_nearest_from(num: int, den: int, from: int)
    requires
        den > 0,
        0 <= from <= INFINITY_BITS,
        from > 0 ==> not_nearer_below(num, den, from),
    ensures
        exists|m: int| nearest(num, den, m),
    decreases INFINITY_BITS - from,
{
    if from == INFINITY_BITS || not_nearer_above(num, den, from) {
        assert(nearest(num, den, from));
    } else {
        lemma_nearest_from(num, den, from + 1);
    }
}

/// Rounding yields a nearest magnitude.
pub proof fn law_rounded_nearest(num: int, den: int)
    requires
        den > 0,
    ensures
        nearest(num, den, rounded(num, den)),
{
    lemma_nearest_from(num, den, 0);
}

/// Rounding keeps the order.
pub proof fn law_rounded_ordered(num: int, den: int, other_num: int, other_den: int)
    requires
        den > 0,
        other_den > 0,
        num * other_den <= other_num * den,
    ensures
        rounded(num, den) <= rounded(other_num, other_den),
{
    law_rounded_nearest(num, den);
    law_rounded_nearest(other_num, other_den);
    let a = rounded(num, den);
    let b = rounded(other_num, other_den);
    if a > b {
        if a > b + 1 {
            law_units_increase(b, a - 1);
            law_units_increase(b + 1, a);
        }
        let low = units(b) + units(b + 1);
        let high = units(a - 1) + units(a);
        assert(low <= high);
        assert(2 * num >= den * high);
        assert(2 * other_num <= other_den * low);
        assert(2 * (num * other_den) >= (den * other_den) * high) by (nonlinear_arith)
            requires
                2 * num >= den * high,
                other_den > 0,
        ;
        assert(2 * (other_num * den) <= (den * other_den) * low) by (nonlinear_arith)
            requires
                2 * other_num <= other_den * low,
                den > 0,
        ;
        assert(low == high) by (nonlinear_arith)
            requires
                low <= high,
                (den * other_den) * high <= (den * other_den) * low,
                den > 0,
                other_den > 0,
        ;
        assert(2 * num == den * high) by (nonlinear_arith)
            requires
                2 * num >= den * high,
                2 * other_num <= other_den * high,
                num * other_den <= other_num * den,
                den > 0,
                other_den > 0,
        ;
        assert(2 * other_num == other_den * high) by (nonlinear_arith)
            requires
                2 * num >= den * high,
                2 * other_num <= other_den * high,
                num * other_den <= other_num * den,
                den > 0,
                other_den > 0,
        ;
    }
}

/// Magnitudes below `2^(j + 24)` units are at most `2^j` units apart.
proof fn lemma_spacing(m: int, j: int)
    requires
        0 <= j,
        0 <= m < (j + 2) * EXPONENT_STEP,
    ensures
        units(m + 1) - units(m) <= pow2(j as nat),
{
    let step = EXPONENT_STEP as int;
    let e = m / step;
    let f = m % step;
    lemma2_to64();
    lemma_pow2_pos(j as nat);
    assert(e <= j + 1) by (nonlinear_arith)
        requires
            m < (j + 2) * step,
            e == m / step,
            step == 0x80_0000,
    ;
    if e == 0 {
        lemma_units_of(0, f);
        lemma_units_of(0, f + 1);
    } else {
        lemma_units_of(e - 1, step + f);
        lemma_units_of(e - 1, step + f + 1);
        assert(m == (e - 1) * step + (step + f));
        let p = pow2((e - 1) as nat) as int;
        assert((step + f + 1) * p - (step + f) * p == p) by (nonlinear_arith);
        if e - 1 < j {
            lemma_pow2_strictly_increases((e - 1) as nat, j as nat);
        }
    }
}

/// Rounding to a magnitude below `2^(j + 24)` units moves the value by at most half of `2^j`
/// units.
pub proof fn law_rounding_error(num: int, den: int, j: int)
    requires
        den > 0,
        num >= 0,
        0 <= j,
        rounded(num, den) < (j + 2) * EXPONENT_STEP,
        rounded(num, den) < INFINITY_BITS,
    ensures
        -(den * pow2(j as nat)) <= 2 * (num - den * units(rounded(num, den))) <= den * pow2(
            j as nat,
        ),
{
    law_rounded_nearest(num, den);
    let m = rounded(num, den);
    let p = pow2(j as nat) as int;
    lemma_spacing(m, j);
    let here = units(m);
    let after = units(m + 1);
    assert(2 * (num - den * here) <= den * p) by (nonlinear_arith)
        requires
            2 * num <= den * (here + after),
            after - here <= p,
            den > 0,
    ;
    if m > 0 {
        lemma_spacing(m - 1, j);
        let prior = units(m - 1);
        assert(-(den * p) <= 2 * (num - den * here)) by (nonlinear_arith)
            requires
                2 * num >= den * (prior + here),
                here - prior <= p,
                den > 0,
        ;
    } else {
        assert(units(0) == 0);
        lemma_pow2_pos(j as nat);
        assert(-(den * p) <= 2 * (num - den * here)) by (nonlinear_arith)
            requires
                num >= 0,
                here == 0,
                den > 0,
                p > 0,
        ;
    }
}

/// The pattern that holds the significand `s` at `2^j` units.
pub(crate) proof fn lemma_units_of(j: int, s: int)
    requires
        0 <= j,
        0 <= s <= 2 * EXPONENT_STEP,
        j > 0 ==> s >= EXPONENT_STEP,
    ensures
        units(j * EXPONENT_STEP + s) == s * pow2(j as nat),
{
    let step = EXPONENT_STEP as int;
    let m = j * step + s;
    lemma2_to64();
    if s < step {
        assert(j == 0);
        assert(m / step == 0 && m % step == s);
        assert(pow2(j as nat) == 1);
        assert(s * 1 == s);
    } else if s < 2 * step {
        assert(m / step == j + 1 && m % step == s - step) by (nonlinear_arith)
            requires
                m == j * step + s,
                step <= s < 2 * step,
                step == 0x80_0000,
        ;
        assert(units(m) == s * pow2(j as nat));
    } else {
        assert(m / step == j + 2 && m % step == 0) by (nonlinear_arith)
            requires
                m == j * step + s,
                s == 2 * step,
                step == 0x80_0000,
        ;
        lemma_pow2_unfold((j + 1) as nat);
        let p = pow2(j as nat) as int;
        assert(step * (2 * p) == (2 * step) * p) by (nonlinear_arith);
        assert(units(m) == s * pow2(j as nat));
    }
}

/// Rounding `num / den` to a whole significand at `2^j` units, ties to even, rounds it to the
/// pattern that holds the significand.
proof fn lemma_significand_nearest(num: int, den: int, j: int, s: int)
    requires
        den > 0,
        0 <= j,
        0 <= s <= 2 * EXPONENT_STEP,
        j > 0 ==> s >= EXPONENT_STEP && num >= den * (EXPONENT_STEP * pow2(j as nat)),
        s > 0 ==> ({
            let middle = den * ((2 * s - 1) * pow2(j as nat));
            2 * num > middle || (2 * num == middle && s % 2 == 0)
        }),
        ({
            let middle = den * ((2 * s + 1) * pow2(j as nat));
            2 * num < middle || (2 * num == middle && s % 2 == 0)
        }),
    ensures
        j * EXPONENT_STEP + s > 0 ==> not_nearer_below(num, den, j * EXPONENT_STEP + s),
        not_nearer_above(num, den, j * EXPONENT_STEP + s),
{
    let step = EXPONENT_STEP as int;
    let m = j * step + s;
    let p = pow2(j as nat) as int;
    lemma_pow2_pos(j as nat);
    assert(m % 2 == s % 2) by (nonlinear_arith)
        requires
            m == j * step + s,
            step == 0x80_0000,
    ;
    assert(m >= 0) by (nonlinear_arith)
        requires
            m == j * step + s,
            step == 0x80_0000,
            j >= 0,
            s >= 0,
    ;
    lemma_units_of(j, s);
    if m > 0 {
        if j == 0 || s > step {
            lemma_units_of(j, s - 1);
            assert((s - 1) * p + s * p == (2 * s - 1) * p) by (nonlinear_arith);
        } else {
            lemma_units_of(j - 1, 2 * step - 1);
            assert((j - 1) * step + (2 * step - 1) == m - 1) by (nonlinear_arith)
                requires
                    m == j * step + s,
                    s == step,
            ;
            lemma_pow2_unfold(j as nat);
            lemma_pow2_pos((j - 1) as nat);
            let h = pow2((j - 1) as nat) as int;
            assert(den * ((2 * step - 1) * h + step * p) < 2 * (den * (step * p)))
                by (nonlinear_arith)
                requires
                    den > 0,
                    h > 0,
                    p == 2 * h,
            ;
        }
    }
    if s < 2 * step {
        lemma_units_of(j, s + 1);
        assert(s * p + (s + 1) * p == (2 * s + 1) * p) by (nonlinear_arith);
    } else {
        lemma_units_of(j + 1, step + 1);
        assert((j + 1) * step + (step + 1) == m + 1) by (nonlinear_arith)
            requires
                m == j * step + s,
                s == 2 * step,
        ;
        lemma_pow2_unfold((j + 1) as nat);
        assert(den * ((2 * s + 1) * p) < den * (s * p + (step + 1) * (2 * p))) by (nonlinear_arith)
            requires
                den > 0,
                p > 0,
                s == 2 * step,
        ;
    }
}

/// What would round to a pattern beyond infinity rounds to infinity.
proof fn lemma_overflow_nearest(num: int, den: int, m: int)
    requires
        den > 0,
        m >= INFINITY_BITS,
        not_nearer_below(num, den, m),
    ensures
        nearest(num, den, INFINITY_BITS as int),
{
    let top = INFINITY_BITS as int;
    if m > top {
        law_units_increase(top - 1, m - 1);
        law_units_increase(top, m);
        let low = units(top - 1) + units(top);
        let high = units(m - 1) + units(m);
        assert(den * low < den * high) by (nonlinear_arith)
            requires
                den > 0,
                low < high,
        ;
    }
}

/// Offset that keeps the exponents of exact results non-negative in the statements below.
pub(crate) open spec fn bias() -> int {
    1000
}

/// `m * 2^k` stands for `num / den` in rounding: it is equal to it, or `m` is odd, has at least
/// 26 bits, and differs from `num / den / 2^k` by less than one.
pub(crate) open spec fn stands_for(m: int, k: int, num: int, den: int) -> bool {
    let x = num * pow2(bias() as nat);
    let y = den * pow2((k + bias()) as nat);
    ||| x == m * y
    ||| m % 2 == 1 && m >= 0x200_0000 && (m - 1) * y < x < (m + 1) * y
}

/// Comparing `num / den` with an even multiple of `2^k` gives what comparing its stand-in gives.
proof fn lemma_stand_in_order(m: int, k: int, num: int, den: int, bound: int, j: int)
    requires
        den > 0,
        k + bias() >= 0,
        j >= 0,
        stands_for(m, k, num, den),
        j - k >= 0,
        // bound * 2^(j - k) on the scale of `m`
        (num * pow2(bias() as nat) == m * (den * pow2((k + bias()) as nat))) || j - k >= 2,
    ensures
        2 * m > bound * pow2((j - k) as nat) ==> 2 * num > den * (bound * pow2(j as nat)),
        2 * m < bound * pow2((j - k) as nat) ==> 2 * num < den * (bound * pow2(j as nat)),
        2 * m == bound * pow2((j - k) as nat) ==> 2 * num == den * (bound * pow2(j as nat)),
{
    let d = j - k;
    let b = pow2(bias() as nat) as int;
    let pk = pow2((k + bias()) as nat) as int;
    let pd = pow2(d as nat) as int;
    let pj = pow2(j as nat) as int;
    lemma_pow2_pos(bias() as nat);
    lemma_pow2_pos((k + bias()) as nat);
    lemma_pow2_adds((k + bias()) as nat, d as nat);
    lemma_pow2_adds(j as nat, bias() as nat);
    assert(pk * pd == pj * b);
    let y = den * pk;
    let x = num * b;
    assert(y > 0) by (nonlinear_arith)
        requires
            y == den * pk,
            den > 0,
            pk > 0,
    ;
    let t = den * (bound * pj);
    // t * b == bound * pd * y
    assert(t * b == (bound * pd) * y) by (nonlinear_arith)
        requires
            t == den * (bound * pj),
            y == den * pk,
            pk * pd == pj * b,
    ;
    let e = bound * pd;
    if x == m * y {
        assert((2 * m > e ==> 2 * x > t * b) && (2 * m < e ==> 2 * x < t * b) && (2 * m == e ==> 2
            * x == t * b)) by (nonlinear_arith)
            requires
                x == m * y,
                t * b == e * y,
                y > 0,
        ;
    } else {
        // e is a multiple of four, so it is at least two away from 2 * m
        lemma_pow2_unfold(d as nat);
        lemma_pow2_unfold((d - 1) as nat);
        let q = pow2((d - 2) as nat) as int;
        assert(pd == 4 * q);
        assert(e == 4 * (bound * q)) by (nonlinear_arith)
            requires
                e == bound * pd,
                pd == 4 * q,
        ;
        assert((2 * m > e ==> 2 * x > t * b) && (2 * m < e ==> 2 * x < t * b)) by (nonlinear_arith)
            requires
                (m - 1) * y < x < (m + 1) * y,
                t * b == e * y,
                y > 0,
                2 * m > e ==> 2 * m >= e + 2,
                2 * m < e ==> 2 * m <= e - 2,
        ;
        assert(2 * m != e);
    }
    assert((2 * x > t * b ==> 2 * num > t) && (2 * x < t * b ==> 2 * num < t) && (2 * x == t * b
        ==> 2 * num == t)) by (nonlinear_arith)
        requires
            x == num * b,
            b > 0,
    ;
}

/// `2^d`.
pub(crate) fn power_of_two(d: u32) -> (p: u128)
    requires
        d <= 120,
    ensures
        p == pow2(d as nat),
{
    proof {
        lemma2_to64();
        lemma_power_bounds();
    }
    let mut p: u128 = 1;
    let mut i: u32 = 0;
    while i < d
        invariant
            i <= d <= 120,
            p == pow2(i as nat),
            pow2(120) == 0x100_0000_0000_0000_0000_0000_0000_0000,
        decreases d - i,
    {
        proof {
            lemma_pow2_unfold((i + 1) as nat);
            if i + 1 < 120 {
                lemma_pow2_strictly_increases((i + 1) as nat, 120);
            }
        }
        p = p * 2;
        i = i + 1;
    }
    p
}

pub(crate) proof fn lemma_power_bounds()
    ensures
        pow2(60) == 0x1000_0000_0000_0000,
        pow2(110) == 0x4000_0000_0000_0000_0000_0000_0000,
        pow2(120) == 0x100_0000_0000_0000_0000_0000_0000_0000,
{
    lemma2_to64();
    vstd::arithmetic::power2::lemma2_to64_rest();
    lemma_pow2_adds(60, 50);
    lemma_pow2_adds(60, 60);
}

/// Number of bits of `m`.
fn bit_length(m: u128) -> (len: u32)
    requires
        0 < m < pow2(110),
    ensures
        1 <= len <= 110,
        pow2((len - 1) as nat) <= m < pow2(len as nat),
{
    proof {
        lemma2_to64();
        lemma_power_bounds();
    }
    let mut len: u32 = 1;
    let mut p: u128 = 2;
    while p <= m
        invariant
            0 < m < pow2(110),
            pow2(110) == 0x4000_0000_0000_0000_0000_0000_0000,
            1 <= len <= 110,
            p == pow2(len as nat),
            pow2((len - 1) as nat) <= m,
        decreases 110 - len,
    {
        proof {
            lemma_pow2_unfold((len + 1) as nat);
            if len >= 110 {
                if len > 110 {
                    lemma_pow2_strictly_increases(110, len as nat);
                }
            }
        }
        p = p * 2;
        len = len + 1;
    }
    len
}

/// The magnitude nearest to `num / den` units, from an integer `m` and an exponent `k` such that
/// `m * 2^k` stands for that ratio.
pub(crate) fn round_scaled(m: u128, k: i32, Ghost(num): Ghost<int>, Ghost(den): Ghost<int>) -> (p: u32)
    requires
        0 < m < pow2(110),
        -900 <= k <= 800,
        den > 0,
        stands_for(m as int, k as int, num, den),
    ensures
        nearest(num, den, p as int),
{
    let len = bit_length(m);
    let lift: i32 = len as i32 - 24 + k;
    let j: i32 = if lift > 0 {
        lift
    } else {
        0
    };
    let s: u128;
    if j <= k {
        let shift: u32 = (k - j) as u32;
        proof {
            lemma_exact_significand(m as int, k as int, num, den, j as int, len as int);
        }
        let factor = power_of_two(shift);
        s = m * factor;
    } else {
        let d: u32 = (j - k) as u32;
        if d > 112 {
            s = 0;
            proof {
                lemma_tiny_significand(m as int, k as int, num, den);
            }
        } else {
            let unit = power_of_two(d);
            proof {
                lemma_pow2_pos(d as nat);
                lemma_pow2_unfold(d as nat);
            }
            let half = unit / 2;
            let q = m / unit;
            let r = m % unit;
            let up = r > half || (r == half && q % 2 == 1);
            proof {
                lemma_cut_significand(
                    m as int,
                    k as int,
                    num,
                    den,
                    j as int,
                    len as int,
                    q as int,
                    r as int,
                    up,
                );
            }
            s = if up {
                q + 1
            } else {
                q
            };
        }
    }
    proof {
        lemma_significand_nearest(num, den, j as int, s as int);
    }
    if j >= 254 {
        proof {
            assert(j * EXPONENT_STEP + s >= INFINITY_BITS) by (nonlinear_arith)
                requires
                    j >= 254,
                    s >= EXPONENT_STEP,
                    EXPONENT_STEP == 0x80_0000,
                    INFINITY_BITS == 0x7F80_0000,
            ;
            lemma_overflow_nearest(num, den, j * EXPONENT_STEP + s);
        }
        return INFINITY_BITS;
    }
    let pattern: u32 = j as u32 * EXPONENT_STEP + s as u32;
    if pattern >= INFINITY_BITS {
        proof {
            lemma_overflow_nearest(num, den, pattern as int);
        }
        return INFINITY_BITS;
    }
    pattern
}

/// Conditions under which the significand `s` at `2^j` units is the rounded ratio.
spec fn significand_fits(num: int, den: int, j: int, s: int) -> bool {
    &&& 0 <= s <= 2 * EXPONENT_STEP
    &&& j > 0 ==> s >= EXPONENT_STEP && num >= den * (EXPONENT_STEP * pow2(j as nat))
    &&& s > 0 ==> ({
        let middle = den * ((2 * s - 1) * pow2(j as nat));
        2 * num > middle || (2 * num == middle && s % 2 == 0)
    })
    &&& ({
        let middle = den * ((2 * s + 1) * pow2(j as nat));
        2 * num < middle || (2 * num == middle && s % 2 == 0)
    })
}

/// A ratio that needs no rounding.
proof fn lemma_exact_significand(m: int, k: int, num: int, den: int, j: int, len: int)
    requires
        0 < m,
        -900 <= k <= 800,
        den > 0,
        stands_for(m, k, num, den),
        1 <= len <= 110,
        pow2((len - 1) as nat) <= m < pow2(len as nat),
        j == (if len - 24 + k > 0 { len - 24 + k } else { 0 }),
        j <= k,
    ensures
        0 <= k - j <= 24,
        m * pow2((k - j) as nat) <= u128::MAX,
        significand_fits(num, den, j, m * pow2((k - j) as nat)),
{
    let w = k - j;
    let pw = pow2(w as nat) as int;
    let s = m * pw;
    lemma2_to64();
    lemma_pow2_pos(w as nat);
    lemma_pow2_adds(len as nat, w as nat);
    // fewer than 25 significant bits after the shift
    assert(len + w <= 24);
    if len + w < 24 {
        lemma_pow2_strictly_increases((len + w) as nat, 24);
    }
    assert(s < pow2(len as nat) * pw) by (nonlinear_arith)
        requires
            s == m * pw,
            m < pow2(len as nat),
            pw > 0,
    ;
    assert(s > 0) by (nonlinear_arith)
        requires
            s == m * pw,
            m > 0,
            pw > 0,
    ;
    if m >= 0x200_0000 {
        if len <= 25 {
            if len < 25 {
                lemma_pow2_strictly_increases(len as nat, 25);
            }
        }
        assert(false);
    }
    let b = pow2(bias() as nat) as int;
    let pj = pow2(j as nat) as int;
    let pk = pow2((k + bias()) as nat) as int;
    lemma_pow2_pos(bias() as nat);
    lemma_pow2_pos(j as nat);
    lemma_pow2_adds(w as nat, j as nat);
    lemma_pow2_adds(k as nat, bias() as nat);
    assert(pk == (pw * pj) * b);
    assert(num * b == m * (den * pk));
    assert(num == den * (s * pj)) by (nonlinear_arith)
        requires
            num * b == m * (den * pk),
            pk == (pw * pj) * b,
            s == m * pw,
            b > 0,
    ;
    let t = den * pj;
    assert(t > 0) by (nonlinear_arith)
        requires
            t == den * pj,
            den > 0,
            pj > 0,
    ;
    assert(den * ((2 * s - 1) * pj) == (2 * s - 1) * t && den * ((2 * s + 1) * pj) == (2 * s + 1)
        * t && num == s * t && den * (EXPONENT_STEP * pj) == EXPONENT_STEP * t) by (nonlinear_arith)
        requires
            t == den * pj,
            num == den * (s * pj),
    ;
    assert((2 * s - 1) * t < 2 * (s * t) < (2 * s + 1) * t) by (nonlinear_arith)
        requires
            t > 0,
    ;
    if j > 0 {
        assert(len + w == 24);
        lemma_pow2_adds((len - 1) as nat, w as nat);
        assert(s >= pow2((len - 1) as nat) * pw) by (nonlinear_arith)
            requires
                s == m * pw,
                m >= pow2((len - 1) as nat),
                pw > 0,
        ;
        assert(s * t >= EXPONENT_STEP * t) by (nonlinear_arith)
            requires
                s >= EXPONENT_STEP,
                t > 0,
        ;
    }
}

/// A ratio below half a unit.
proof fn lemma_tiny_significand(m: int, k: int, num: int, den: int)
    requires
        0 < m < pow2(110),
        -900 <= k <= -113,
        den > 0,
        stands_for(m, k, num, den),
    ensures
        significand_fits(num, den, 0, 0),
{
    lemma2_to64();
    lemma_pow2_unfold(111);
    lemma_pow2_strictly_increases(111, (-k) as nat);
    lemma_stand_in_order(m, k, num, den, 1, 0);
}

/// A ratio whose lowest `j - k` bits are rounded away.
proof fn lemma_cut_significand(
    m: int,
    k: int,
    num: int,
    den: int,
    j: int,
    len: int,
    q: int,
    r: int,
    up: bool,
)
    requires
        0 < m,
        -900 <= k <= 800,
        den > 0,
        stands_for(m, k, num, den),
        1 <= len <= 110,
        pow2((len - 1) as nat) <= m < pow2(len as nat),
        j == (if len - 24 + k > 0 { len - 24 + k } else { 0 }),
        j > k,
        q == m / (pow2((j - k) as nat) as int),
        r == m % (pow2((j - k) as nat) as int),
        up == (2 * r > pow2((j - k) as nat) || (2 * r == pow2((j - k) as nat) && q % 2 == 1)),
    ensures
        significand_fits(num, den, j, if up { q + 1 } else { q }),
{
    let d = j - k;
    let unit = pow2(d as nat) as int;
    let s = if up { q + 1 } else { q };
    lemma2_to64();
    lemma_pow2_pos(d as nat);
    assert(m == q * unit + r && 0 <= r < unit) by (nonlinear_arith)
        requires
            q == m / unit,
            r == m % unit,
            unit > 0,
    ;
    assert(q >= 0) by (nonlinear_arith)
        requires
            q == m / unit,
            unit > 0,
            m > 0,
    ;
    // at most 24 bits are kept
    lemma_pow2_adds(24, d as nat);
    if len < 24 + d {
        lemma_pow2_strictly_increases(len as nat, (24 + d) as nat);
    }
    assert(q < 2 * EXPONENT_STEP) by (nonlinear_arith)
        requires
            m == q * unit + r,
            r >= 0,
            unit > 0,
            m < 0x100_0000 * unit,
            EXPONENT_STEP == 0x80_0000,
    ;
    // a stand-in has spare bits
    if num * pow2(bias() as nat) != m * (den * pow2((k + bias()) as nat)) {
        if len < 26 {
            if len < 25 {
                lemma_pow2_strictly_increases(len as nat, 25);
            }
        }
        assert(d >= 2);
    }
    lemma_stand_in_order(m, k, num, den, 2 * s - 1, j);
    lemma_stand_in_order(m, k, num, den, 2 * s + 1, j);
    assert(s > 0 ==> 2 * m > (2 * s - 1) * unit || (2 * m == (2 * s - 1) * unit && s % 2 == 0))
        by (nonlinear_arith)
        requires
            m == q * unit + r,
            0 <= r < unit,
            s == (if up { q + 1 } else { q }),
            up == (2 * r > unit || (2 * r == unit && q % 2 == 1)),
    ;
    assert(2 * m < (2 * s + 1) * unit || (2 * m == (2 * s + 1) * unit && s % 2 == 0))
        by (nonlinear_arith)
        requires
            m == q * unit + r,
            0 <= r < unit,
            s == (if up { q + 1 } else { q }),
            up == (2 * r > unit || (2 * r == unit && q % 2 == 1)),
    ;
    if j > 0 {
        assert(len == 24 + d);
        lemma_pow2_adds(23, d as nat);
        assert(m >= EXPONENT_STEP * unit);
        assert(q >= EXPONENT_STEP) by (nonlinear_arith)
            requires
                m == q * unit + r,
                r < unit,
                m >= EXPONENT_STEP * unit,
                unit > 0,
        ;
        lemma_stand_in_order(m, k, num, den, 2 * EXPONENT_STEP, j);
        let pj = pow2(j as nat) as int;
        assert(2 * (EXPONENT_STEP * unit) == (2 * EXPONENT_STEP) * unit) by (nonlinear_arith);
        assert(den * ((2 * EXPONENT_STEP) * pj) == 2 * (den * (EXPONENT_STEP * pj)))
            by (nonlinear_arith);
    }
}

} // verus!
