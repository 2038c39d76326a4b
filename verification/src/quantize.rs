//! Quantization of a transaction vector to one signed byte per dimension.
//!
//! NaN stands for a missing dimension and becomes [`SENTINEL_I8`]. Any other value is clamped to
//! the unit interval and scaled to 0..=100, rounded to the nearest whole number. The bytes after
//! the last dimension are zero.

use vstd::arithmetic::power2::{
    lemma2_to64, lemma_pow2_adds, lemma_pow2_pos, lemma_pow2_strictly_increases, lemma_pow2_unfold,
    pow2,
};
use vstd::prelude::*;

use crate::rounding::{rounded, units, EXPONENT_STEP};
use crate::search::{all_quantized, squared_distance};
use crate::single::{Single, NAN_BITS, ONE_BITS};
use crate::{DIMS, PAD, SENTINEL_I8};

verus! {

/// The quantized form of one dimension.
pub open spec fn quantized(x: Single) -> int {
    if x.nan() {
        SENTINEL_I8 as int
    } else {
        x.clamped().product(Single::of_int(100)).nearest_whole()
    }
}

/// The stored form of a vector.
pub open spec fn quantized_vector(v: Seq<Single>) -> Seq<i8> {
    Seq::new(
        PAD as nat,
        |i: int|
            if i < DIMS {
                quantized(v[i]) as i8
            } else {
                0
            },
    )
}

/// Quantize a vector.
#[must_use]
pub fn quantize(v: &[Single; DIMS]) -> (out: [i8; PAD])
    ensures
        out@ == quantized_vector(v@),
{
    let mut out: [i8; PAD] = [0; PAD];
    let hundred = Single::from_u32(100);
    let mut i: usize = 0;
    while i < DIMS
        invariant
            i <= DIMS,
            hundred == Single::of_int(100),
            forall|k: int| 0 <= k < i ==> out@[k] == quantized(v@[k]),
            forall|k: int| i <= k < PAD ==> out@[k] == 0,
        decreases DIMS - i,
    {
        let x = v[i];
        let q: i8 = if x.is_nan() {
            SENTINEL_I8
        } else {
            x.clamp_unit().mul(hundred).round_to_i8()
        };
        out[i] = q;
        i = i + 1;
    }
    assert(out@ =~= quantized_vector(v@));
    out
}

/// One hundred times a value of the unit interval, in units and rounded.
spec fn hundredfold(u: int) -> int {
    units(rounded(u * (100 * pow2(149)), pow2(149) as int))
}

/// A quantized number is the scaled value rounded to whole, and scaling rounds by at most half
/// of `2^132` units.
proof fn lemma_quantized(x: Single)
    requires
        !x.nan(),
    ensures
        ({
            let u = units(x.clamped().magnitude());
            let h = hundredfold(u);
            &&& quantized(x) == (2 * h + pow2(149)) / (2 * pow2(149) as int)
            &&& 0 <= h <= 100 * pow2(149)
            &&& -pow2(132) <= 2 * (100 * u - h) <= pow2(132)
        }),
{
    let p = pow2(149) as int;
    let c = x.clamped();
    let u = units(c.magnitude());
    let num = u * (100 * p);
    lemma_pow2_pos(149);
    lemma_pow2_unfold(150);
    lemma2_to64();
    crate::single::law_clamped(x);
    crate::single::law_whole_exact(100);
    let top = crate::single::lemma_whole_magnitude(100);
    crate::rounding::law_rounded_nearest(num, p);
    let m = rounded(num, p);
    assert(num * 1 <= (100 * p) * p) by (nonlinear_arith)
        requires
            num == u * (100 * p),
            0 <= u <= p,
    ;
    crate::rounding::law_rounded_ordered(num, p, 100 * p, 1);
    lemma_below_128(top);
    assert(num >= 0) by (nonlinear_arith)
        requires
            num == u * (100 * p),
            0 <= u,
            0 < p,
    ;
    crate::rounding::law_rounding_error(num, p, 132);
    let h = units(m);
    if m < top {
        crate::rounding::law_units_increase(m, top);
    }
    assert(units(0) == 0);
    if m > 0 {
        crate::rounding::law_units_increase(0, m);
    }
    let q = pow2(132) as int;
    assert(-q <= 2 * (100 * u - h) <= q) by (nonlinear_arith)
        requires
            -(p * q) <= 2 * (num - p * h) <= p * q,
            num == u * (100 * p),
            p > 0,
    ;
    if c.zero() {
        assert(num == 0) by (nonlinear_arith)
            requires
                num == u * (100 * p),
                u == 0,
        ;
        crate::rounding::law_units_increase(0, 1);
        assert(p * (units(0) + units(1)) > 0) by (nonlinear_arith)
            requires
                p > 0,
                units(0) + units(1) > 0,
        ;
        assert(crate::rounding::nearest(0, p, 0));
        crate::rounding::law_rounded_is(0, p, 0);
    }
    if c.magnitude() > 0 {
        crate::rounding::law_units_increase(0, c.magnitude());
    }
    let r = c.product(Single::of_int(100));
    assert(r.magnitude() == m);
    assert(2 * p * 101 > 2 * h + p);
    assert((2 * h + p) / (2 * p) <= 100) by (nonlinear_arith)
        requires
            2 * p * 101 > 2 * h + p,
            p > 0,
            h >= 0,
    ;
    assert(r.negative() ==> c.zero());
    assert(p / (2 * p) == 0) by (nonlinear_arith)
        requires
            p > 0,
    ;
}

/// Magnitudes of up to one hundred lie below the pattern of 128.
proof fn lemma_below_128(m: int)
    requires
        0 <= m,
        units(m) == 100 * pow2(149),
    ensures
        m < 134 * EXPONENT_STEP,
{
    lemma2_to64();
    crate::rounding::lemma_units_of(133, EXPONENT_STEP as int);
    lemma_pow2_adds(7, 149);
    lemma_pow2_adds(23, 133);
    lemma_pow2_pos(149);
    let bound = 134 * EXPONENT_STEP as int;
    assert(units(bound) == 128 * pow2(149));
    if m > bound {
        crate::rounding::law_units_increase(bound, m);
    }
}

/// Quantized dimensions lie in 0..=100, except that a missing one, and only a missing one, is
/// the sentinel.
pub proof fn law_quantized_range(x: Single)
    ensures
        x.nan() ==> quantized(x) == SENTINEL_I8,
        !x.nan() ==> 0 <= quantized(x) <= 100,
{
    if !x.nan() {
        lemma_quantized(x);
        let p = pow2(149) as int;
        let h = hundredfold(units(x.clamped().magnitude()));
        lemma_pow2_pos(149);
        assert(0 <= (2 * h + p) / (2 * p) <= 100) by (nonlinear_arith)
            requires
                0 <= h <= 100 * p,
                p > 0,
        ;
    }
}

/// A stored vector has sixteen bytes: quantized values, then zeros.
pub proof fn law_quantized_vector(v: Seq<Single>)
    ensures
        quantized_vector(v).len() == PAD,
        forall|i: int| 0 <= i < DIMS ==> #[trigger] quantized_vector(v)[i] == quantized(v[i]),
        forall|i: int|
            0 <= i < DIMS ==> (#[trigger] quantized_vector(v)[i] == SENTINEL_I8 <==> v[i].nan()),
        forall|i: int| DIMS <= i < PAD ==> #[trigger] quantized_vector(v)[i] == 0,
        all_quantized(quantized_vector(v)),
{
    assert forall|i: int| 0 <= i < DIMS implies #[trigger] quantized_vector(v)[i] == quantized(v[i])
        && (quantized_vector(v)[i] == SENTINEL_I8 <==> v[i].nan()) && -1 <= quantized_vector(v)[i]
        <= 100 by {
        law_quantized_range(v[i]);
    }
}

/// A larger value does not quantize to a smaller one.
pub proof fn law_quantized_ordered(x: Single, y: Single)
    requires
        !x.nan(),
        !y.nan(),
        x.value() <= y.value(),
    ensures
        quantized(x) <= quantized(y),
{
    let p = pow2(149) as int;
    lemma_pow2_pos(149);
    lemma_quantized(x);
    lemma_quantized(y);
    crate::single::law_clamped(x);
    crate::single::law_clamped(y);
    let a = units(x.clamped().magnitude());
    let b = units(y.clamped().magnitude());
    assert(a <= b);
    assert((a * (100 * p)) * p <= (b * (100 * p)) * p) by (nonlinear_arith)
        requires
            a <= b,
            p > 0,
    ;
    crate::rounding::law_rounded_ordered(a * (100 * p), p, b * (100 * p), p);
    crate::rounding::law_rounded_nearest(a * (100 * p), p);
    let m = rounded(a * (100 * p), p);
    let n = rounded(b * (100 * p), p);
    if m < n {
        crate::rounding::law_units_increase(m, n);
    }
    vstd::arithmetic::div_mod::lemma_div_is_ordered(
        2 * hundredfold(a) + p,
        2 * hundredfold(b) + p,
        2 * p,
    );
}

/// For a value of the unit interval, the quantized value differs from one hundred times the value
/// by at most one half and `2^-18`.
pub proof fn law_quantization_error(x: Single)
    requires
        !x.nan(),
        0 <= x.value() <= pow2(149),
    ensures
        -(pow2(149) + pow2(132)) <= 2 * (quantized(x) * pow2(149) - 100 * x.value()) <= pow2(149)
            + pow2(132),
{
    let p = pow2(149) as int;
    lemma_pow2_pos(149);
    lemma_quantized(x);
    crate::single::law_clamped(x);
    let h = hundredfold(units(x.clamped().magnitude()));
    let q = (2 * h + p) / (2 * p);
    assert(-p <= 2 * (q * p - h) <= p) by (nonlinear_arith)
        requires
            q == (2 * h + p) / (2 * p),
            p > 0,
    ;
}

/// A quantized value read back: hundredths, and NaN for the sentinel.
pub open spec fn dequantized(q: int) -> Single {
    if q == SENTINEL_I8 {
        Single { bits: NAN_BITS }
    } else {
        Single::of_int(q).quotient(Single::of_int(100))
    }
}

/// Reading a quantized vector back and quantizing it again changes nothing.
pub proof fn law_requantize(v: Seq<Single>)
    requires
        v.len() == DIMS,
    ensures
        quantized_vector(Seq::new(DIMS as nat, |i: int| dequantized(quantized(v[i]))))
            == quantized_vector(v),
{
    let back = Seq::new(DIMS as nat, |i: int| dequantized(quantized(v[i])));
    assert forall|i: int| 0 <= i < DIMS implies quantized(#[trigger] back[i]) == quantized(v[i]) by {
        law_quantized_range(v[i]);
        if !v[i].nan() {
            law_hundredths(quantized(v[i]));
        }
    }
    assert(quantized_vector(back) =~= quantized_vector(v));
}

/// A hundredth quantizes to its numerator.
pub proof fn law_hundredths(q: int)
    requires
        0 <= q <= 100,
    ensures
        quantized(Single::of_int(q).quotient(Single::of_int(100))) == q,
{
    let p = pow2(149) as int;
    lemma_pow2_pos(149);
    lemma2_to64();
    crate::single::law_whole_exact(q);
    crate::single::law_whole_exact(100);
    crate::single::law_one();
    let x = Single::of_int(q).quotient(Single::of_int(100));
    if q == 0 {
        assert(x.magnitude() == 0);
        assert(units(0) == 0);
        lemma_quantized(x);
        crate::single::law_clamped(x);
        let h = hundredfold(0);
        lemma_pow2_strictly_increases(132, 149);
        assert((2 * h + p) / (2 * p) == 0) by (nonlinear_arith)
            requires
                0 <= h,
                2 * h < p,
                p > 0,
        ;
    } else {
        crate::single::lemma_whole_magnitude(q);
        crate::single::lemma_whole_magnitude(100);
        let num = (q * p) * p;
        let den = 100 * p;
        assert(num * 1 <= p * den && num >= 0) by (nonlinear_arith)
            requires
                num == (q * p) * p,
                den == 100 * p,
                0 <= q <= 100,
                p > 0,
        ;
        crate::rounding::law_rounded_nearest(num, den);
        crate::single::law_rounded_self(ONE_BITS as int);
        crate::rounding::law_rounded_ordered(num, den, p, 1);
        crate::rounding::law_rounding_error(num, den, 126);
        let m = rounded(num, den);
        let u = units(m);
        let e = pow2(126) as int;
        assert(-(100 * e) <= 2 * (q * p - 100 * u) <= 100 * e) by (nonlinear_arith)
            requires
                -(den * e) <= 2 * (num - den * u) <= den * e,
                num == (q * p) * p,
                den == 100 * p,
                p > 0,
        ;
        assert(x.magnitude() == m && !x.negative());
        assert(units(0) == 0);
        if m > 0 {
            crate::rounding::law_units_increase(0, m);
        }
        if m < ONE_BITS {
            crate::rounding::law_units_increase(m, ONE_BITS as int);
        }
        crate::single::law_clamped(x);
        lemma_quantized(x);
        let h = hundredfold(u);
        lemma_pow2_adds(7, 126);
        lemma_pow2_unfold(133);
        lemma_pow2_unfold(134);
        lemma_pow2_strictly_increases(134, 149);
        assert(-p < 2 * (q * p - h) < p);
        assert((2 * h + p) / (2 * p) == q) by (nonlinear_arith)
            requires
                -p < 2 * (q * p - h) < p,
                p > 0,
        ;
    }
}

/// Sum of squares.
pub open spec fn sum_squares(a: Seq<int>) -> int
    decreases a.len(),
{
    if a.len() == 0 {
        0
    } else {
        sum_squares(a.drop_last()) + a.last() * a.last()
    }
}

/// One hundred times the differences of two vectors, in units.
pub open spec fn true_gaps(x: Seq<Single>, y: Seq<Single>) -> Seq<int> {
    Seq::new(DIMS as nat, |i: int| 100 * (x[i].value() - y[i].value()))
}

/// The differences of two quantized vectors, in units.
pub open spec fn stored_gaps(x: Seq<Single>, y: Seq<Single>) -> Seq<int> {
    Seq::new(DIMS as nat, |i: int| (quantized(x[i]) - quantized(y[i])) * pow2(149))
}

/// How far quantization moves the difference of two values of the unit interval, in units: one
/// hundredth, times one hundred, and a little more.
pub open spec fn gap_slack() -> int {
    (pow2(149) + pow2(132)) as int
}

spec fn dot(a: Seq<int>, b: Seq<int>) -> int
    decreases a.len(),
{
    if a.len() == 0 {
        0
    } else {
        dot(a.drop_last(), b.drop_last()) + a.last() * b.last()
    }
}

spec fn minus(a: Seq<int>, b: Seq<int>) -> Seq<int> {
    Seq::new(a.len(), |i: int| a[i] - b[i])
}

proof fn lemma_squares_nonnegative(a: Seq<int>)
    ensures
        sum_squares(a) >= 0,
    decreases a.len(),
{
    if a.len() > 0 {
        lemma_squares_nonnegative(a.drop_last());
        let x = a.last();
        assert(x * x >= 0) by (nonlinear_arith);
    }
}

/// The inequality of Cauchy and Schwarz.
proof fn lemma_dot_bound(a: Seq<int>, b: Seq<int>)
    requires
        a.len() == b.len(),
    ensures
        dot(a, b) * dot(a, b) <= sum_squares(a) * sum_squares(b),
    decreases a.len(),
{
    if a.len() > 0 {
        let (a0, b0) = (a.drop_last(), b.drop_last());
        lemma_dot_bound(a0, b0);
        lemma_squares_nonnegative(a0);
        lemma_squares_nonnegative(b0);
        let (d, p, q) = (dot(a0, b0), sum_squares(a0), sum_squares(b0));
        let (x, y) = (a.last(), b.last());
        let cross = d * (x * y);
        let left = p * (y * y);
        let right = q * (x * x);
        assert(x * x >= 0 && y * y >= 0) by (nonlinear_arith);
        assert(left >= 0 && right >= 0) by (nonlinear_arith)
            requires
                left == p * (y * y),
                right == q * (x * x),
                p >= 0,
                q >= 0,
                x * x >= 0,
                y * y >= 0,
        ;
        assert(cross * cross == (d * d) * ((x * x) * (y * y))) by (nonlinear_arith)
            requires
                cross == d * (x * y),
        ;
        assert(left * right == (p * q) * ((x * x) * (y * y))) by (nonlinear_arith)
            requires
                left == p * (y * y),
                right == q * (x * x),
        ;
        let z = (x * x) * (y * y);
        assert(z >= 0) by (nonlinear_arith)
            requires
                z == (x * x) * (y * y),
                x * x >= 0,
                y * y >= 0,
        ;
        assert((d * d) * z <= (p * q) * z) by (nonlinear_arith)
            requires
                d * d <= p * q,
                z >= 0,
        ;
        assert(2 * cross <= left + right) by (nonlinear_arith)
            requires
                cross * cross <= left * right,
                left >= 0,
                right >= 0,
        ;
        assert((d + x * y) * (d + x * y) == d * d + 2 * cross + (x * x) * (y * y))
            by (nonlinear_arith)
            requires
                cross == d * (x * y),
        ;
        assert((p + x * x) * (q + y * y) == p * q + left + right + (x * x) * (y * y))
            by (nonlinear_arith)
            requires
                left == p * (y * y),
                right == q * (x * x),
        ;
    }
}

/// A sequence is another one plus the difference.
proof fn lemma_squares_split(a: Seq<int>, b: Seq<int>)
    requires
        a.len() == b.len(),
    ensures
        sum_squares(b) == sum_squares(a) + 2 * dot(a, minus(b, a)) + sum_squares(minus(b, a)),
        sum_squares(minus(a, b)) == sum_squares(minus(b, a)),
    decreases a.len(),
{
    if a.len() > 0 {
        let (a0, b0) = (a.drop_last(), b.drop_last());
        lemma_squares_split(a0, b0);
        assert(minus(b, a).drop_last() =~= minus(b0, a0));
        assert(minus(a, b).drop_last() =~= minus(a0, b0));
        let (x, y) = (a.last(), b.last());
        assert(y * y == x * x + 2 * (x * (y - x)) + (y - x) * (y - x)) by (nonlinear_arith);
        assert((x - y) * (x - y) == (y - x) * (y - x)) by (nonlinear_arith);
    }
}

/// The triangle inequality: within `d` of `a`, which is no longer than `t`, lies nothing longer
/// than `t + d`.
proof fn lemma_triangle(a: Seq<int>, b: Seq<int>, t: int, d: int)
    requires
        a.len() == b.len(),
        0 <= t,
        0 <= d,
        sum_squares(a) <= t * t,
        sum_squares(minus(b, a)) <= d * d,
    ensures
        sum_squares(b) <= (t + d) * (t + d),
{
    lemma_squares_split(a, b);
    lemma_dot_bound(a, minus(b, a));
    lemma_squares_nonnegative(a);
    lemma_squares_nonnegative(minus(b, a));
    let (p, q, c) = (sum_squares(a), sum_squares(minus(b, a)), dot(a, minus(b, a)));
    assert(p * q <= (t * t) * (d * d)) by (nonlinear_arith)
        requires
            0 <= p <= t * t,
            0 <= q <= d * d,
    ;
    assert((t * t) * (d * d) == (t * d) * (t * d)) by (nonlinear_arith);
    assert(0 <= t * d) by (nonlinear_arith)
        requires
            0 <= t,
            0 <= d,
    ;
    let m = t * d;
    assert(c <= m) by (nonlinear_arith)
        requires
            c * c <= m * m,
            0 <= m,
    ;
    assert((t + d) * (t + d) == t * t + 2 * (t * d) + d * d) by (nonlinear_arith);
}

/// Numbers of at most `e` have squares that sum to at most `e` squared each.
proof fn lemma_small_squares(a: Seq<int>, e: int)
    requires
        forall|i: int| 0 <= i < a.len() ==> -e <= #[trigger] a[i] <= e,
    ensures
        sum_squares(a) <= a.len() * (e * e),
    decreases a.len(),
{
    if a.len() > 0 {
        lemma_small_squares(a.drop_last(), e);
        let x = a.last();
        assert(a[a.len() - 1] == x);
        assert(x * x <= e * e) by (nonlinear_arith)
            requires
                -e <= x <= e,
        ;
        let n = a.len() as int;
        assert((n - 1) * (e * e) + e * e == n * (e * e)) by (nonlinear_arith);
    }
}

/// Quantization distorts the distance of two vectors of the unit interval by at most four slacks:
/// four hundredths and a little more. `t` bounds one distance, in hundredths and units, and gives a
/// bound of the other.
pub proof fn law_distance_distortion(x: Seq<Single>, y: Seq<Single>, t: int)
    requires
        forall|i: int|
            0 <= i < DIMS ==> !(#[trigger] x[i]).nan() && 0 <= x[i].value() <= pow2(149),
        forall|i: int|
            0 <= i < DIMS ==> !(#[trigger] y[i]).nan() && 0 <= y[i].value() <= pow2(149),
        0 <= t,
    ensures
        sum_squares(true_gaps(x, y)) <= t * t ==> sum_squares(stored_gaps(x, y)) <= (t + 4
            * gap_slack()) * (t + 4 * gap_slack()),
        sum_squares(stored_gaps(x, y)) <= t * t ==> sum_squares(true_gaps(x, y)) <= (t + 4
            * gap_slack()) * (t + 4 * gap_slack()),
{
    let (a, b) = (true_gaps(x, y), stored_gaps(x, y));
    let e = gap_slack();
    let p = pow2(149) as int;
    assert forall|i: int| 0 <= i < DIMS implies -e <= #[trigger] minus(b, a)[i] <= e by {
        law_quantization_error(x[i]);
        law_quantization_error(y[i]);
        let (g, h) = (quantized(x[i]), quantized(y[i]));
        assert((g - h) * p == g * p - h * p) by (nonlinear_arith);
    }
    lemma_small_squares(minus(b, a), e);
    lemma_squares_split(a, b);
    assert(14 * (e * e) <= (4 * e) * (4 * e)) by (nonlinear_arith);
    lemma_pow2_pos(149);
    lemma_pow2_pos(132);
    if sum_squares(a) <= t * t {
        lemma_triangle(a, b, t, 4 * e);
    }
    if sum_squares(b) <= t * t {
        lemma_triangle(b, a, t, 4 * e);
    }
}

/// The squared distance of two quantized vectors is the sum of the squares of their gaps.
pub proof fn law_stored_distance(x: Seq<Single>, y: Seq<Single>)
    ensures
        sum_squares(stored_gaps(x, y)) == squared_distance(
            false,
            quantized_vector(x),
            quantized_vector(y),
            DIMS as nat,
        ) * (pow2(149) * pow2(149)),
{
    lemma_stored_distance(x, y, DIMS as nat);
    assert(stored_gaps(x, y).take(DIMS as int) =~= stored_gaps(x, y));
}

proof fn lemma_stored_distance(x: Seq<Single>, y: Seq<Single>, n: nat)
    requires
        n <= DIMS,
    ensures
        sum_squares(stored_gaps(x, y).take(n as int)) == squared_distance(
            false,
            quantized_vector(x),
            quantized_vector(y),
            n,
        ) * (pow2(149) * pow2(149)),
    decreases n,
{
    let p = pow2(149) as int;
    if n > 0 {
        lemma_stored_distance(x, y, (n - 1) as nat);
        let gaps = stored_gaps(x, y);
        assert(gaps.take(n as int).drop_last() =~= gaps.take(n - 1));
        law_quantized_vector(x);
        law_quantized_vector(y);
        let d = quantized(x[n - 1]) - quantized(y[n - 1]);
        assert(quantized_vector(x)[n - 1] == quantized(x[n - 1]));
        assert(quantized_vector(y)[n - 1] == quantized(y[n - 1]));
        let before = squared_distance(
            false,
            quantized_vector(x),
            quantized_vector(y),
            (n - 1) as nat,
        );
        assert(before * (p * p) + (d * p) * (d * p) == (before + d * d) * (p * p))
            by (nonlinear_arith);
    } else {
        assert(0 * (p * p) == 0);
    }
}

} // verus!
