//! Laws of single-precision arithmetic: every result is a number that no other number beats.

use vstd::arithmetic::power2::{lemma2_to64, lemma_pow2_pos, lemma_pow2_unfold, pow2};
use vstd::prelude::*;

use crate::rounding::{
    law_rounded_nearest, law_units_increase, lemma_units_of, nearest, rounded, units,
    INFINITY_BITS,
};
use crate::single::Single;

verus! {

/// Distance of two integers.
pub open spec fn gap(a: int, b: int) -> int {
    if a < b {
        b - a
    } else {
        a - b
    }
}

/// `r` is the number nearest to `num / den` units: none is nearer, and of two that are equally
/// near it is the one with the even pattern. Beyond the finite numbers infinity counts as the
/// next power of two.
pub open spec fn closest(r: Single, num: int, den: int) -> bool {
    &&& !r.nan()
    &&& forall|y: Single|
        !y.nan() ==> {
            &&& gap(r.value() * den, num) <= gap(#[trigger] y.value() * den, num)
            &&& gap(r.value() * den, num) == gap(y.value() * den, num) ==> y.value() == r.value()
                || r.bits % 2 == 0
        }
}

/// The number line, in units of the smallest positive number. Patterns up to twice `0x80_0000`
/// count units; from there on, an exponent step doubles. The top bit negates, and larger patterns
/// of one sign are farther from zero. Patterns past infinity are not numbers.
pub proof fn law_number_line(x: Single, y: Single)
    ensures
        x.bits <= 0x100_0000 ==> x.value() == x.bits,
        0x80_0000 <= x.bits <= 0x7F00_0000 && y.bits == x.bits + 0x80_0000 ==> y.value() == 2
            * x.value(),
        y.bits == x.bits + 0x8000_0000 ==> y.value() == -x.value(),
        x.bits < y.bits < 0x8000_0000 ==> x.value() < y.value(),
        x.nan() <==> x.bits % 0x8000_0000 > 0x7F80_0000,
        x.infinite() <==> x.bits % 0x8000_0000 == 0x7F80_0000,
        x.negative() <==> x.bits >= 0x8000_0000,
        x.zero() <==> x.bits % 0x8000_0000 == 0,
        x.value() == 0 <==> x.bits % 0x8000_0000 == 0,
{
    lemma2_to64();
    let b = x.bits as int;
    let m = b % 0x8000_0000;
    assert(units(0) == 0);
    if m > 0 {
        law_units_increase(0, m);
    }
    if x.bits < y.bits < 0x8000_0000 {
        law_units_increase(b, y.bits as int);
    }
    if b <= 0x100_0000 {
        lemma_units_of(0, b);
        assert(pow2(0) == 1);
        assert(b * 1 == b);
        assert(units(b) == b);
        assert(b < 0x8000_0000);
    }
    if 0x80_0000 <= b <= 0x7F00_0000 {
        let e = b / 0x80_0000;
        let f = b % 0x80_0000;
        assert((b + 0x80_0000) / 0x80_0000 == e + 1 && (b + 0x80_0000) % 0x80_0000 == f);
        lemma_pow2_unfold(e as nat);
        let p = pow2((e - 1) as nat) as int;
        assert((0x80_0000 + f) * (2 * p) == 2 * ((0x80_0000 + f) * p)) by (nonlinear_arith);
    }
}

/// No magnitude is nearer than a nearest one, and an equally near one loses to an even pattern.
proof fn lemma_nearest_wins(num: int, den: int, m: int, other: int)
    requires
        den > 0,
        num >= 0,
        nearest(num, den, m),
        0 <= other <= INFINITY_BITS,
    ensures
        gap(units(m) * den, num) <= gap(units(other) * den, num),
        gap(units(m) * den, num) == gap(units(other) * den, num) ==> other == m || m % 2 == 0,
{
    let u = units(m);
    let w = units(other);
    if other > m {
        if other > m + 1 {
            law_units_increase(m + 1, other);
        }
        law_units_increase(m, other);
        let a = units(m + 1);
        assert(den * (u + a) <= u * den + w * den && u * den < w * den) by (nonlinear_arith)
            requires
                den > 0,
                a <= w,
                u < w,
        ;
    } else if other < m {
        if other < m - 1 {
            law_units_increase(other, m - 1);
        }
        law_units_increase(other, m);
        let a = units(m - 1);
        assert(den * (a + u) >= u * den + w * den && w * den < u * den) by (nonlinear_arith)
            requires
                den > 0,
                w <= a,
                w < u,
        ;
    }
}

/// Rounding a ratio yields its closest number.
pub(crate) proof fn lemma_rounded_closest(num: int, den: int)
    requires
        den > 0,
        num >= 0,
    ensures
        closest(Single::signed(false, rounded(num, den)), num, den),
        Single::signed(false, rounded(num, den)).magnitude() == rounded(num, den),
        0 <= rounded(num, den) <= INFINITY_BITS,
{
    law_rounded_nearest(num, den);
    let m = rounded(num, den);
    let r = Single::signed(false, m);
    assert(units(0) == 0);
    lemma_nearest_wins(num, den, m, 0);
    assert(0 * den == 0);
    assert forall|y: Single| !y.nan() implies {
        &&& gap(r.value() * den, num) <= gap(#[trigger] y.value() * den, num)
        &&& gap(r.value() * den, num) == gap(y.value() * den, num) ==> y.value() == r.value()
            || r.bits % 2 == 0
    } by {
        let k = y.magnitude();
        if y.negative() && k > 0 {
            law_units_increase(0, k);
            assert(y.value() * den < 0) by (nonlinear_arith)
                requires
                    y.value() < 0,
                    den > 0,
            ;
        } else {
            lemma_nearest_wins(num, den, m, k);
        }
    }
}

/// The mirror image of a closest number.
proof fn lemma_closest_mirrored(r: Single, num: int, den: int)
    requires
        closest(r, num, den),
    ensures
        closest(r.opposite(), -num, den),
{
    let s = r.opposite();
    assert(s.magnitude() == r.magnitude());
    assert(units(0) == 0);
    assert(s.value() == -r.value());
    assert(s.bits % 2 == r.bits % 2);
    assert((-r.value()) * den == -(r.value() * den)) by (nonlinear_arith);
    assert forall|y: Single| !y.nan() implies {
        &&& gap(s.value() * den, -num) <= gap(#[trigger] y.value() * den, -num)
        &&& gap(s.value() * den, -num) == gap(y.value() * den, -num) ==> y.value() == s.value()
            || s.bits % 2 == 0
    } by {
        let z = y.opposite();
        assert(z.magnitude() == y.magnitude());
        assert(z.value() == -y.value());
        assert((-y.value()) * den == -(y.value() * den)) by (nonlinear_arith);
        assert(!z.nan());
        let zv = z.value();
    }
}

/// Rounding a ratio of either sign.
proof fn lemma_signed_closest(negative: bool, num: int, den: int)
    requires
        den > 0,
        num >= 0,
    ensures
        negative ==> closest(Single::signed(negative, rounded(num, den)), -num, den),
        !negative ==> closest(Single::signed(negative, rounded(num, den)), num, den),
        Single::signed(negative, rounded(num, den)).negative() == negative,
{
    lemma_rounded_closest(num, den);
    let r = Single::signed(false, rounded(num, den));
    if negative {
        lemma_closest_mirrored(r, num, den);
        assert(r.opposite() == Single::signed(true, rounded(num, den)));
    }
}

/// A number is closest to its own value.
proof fn lemma_closest_self(r: Single, num: int, den: int)
    requires
        den > 0,
        !r.nan(),
        r.value() * den == num,
    ensures
        closest(r, num, den),
{
    assert forall|y: Single| !y.nan() && #[trigger] y.value() * den == num implies y.value()
        == r.value() by {
        if y.value() * den == num {
            assert(y.value() == r.value()) by (nonlinear_arith)
                requires
                    y.value() * den == r.value() * den,
                    den > 0,
            ;
        }
    }
}

/// Two closest numbers have one value.
pub proof fn law_closest_unique(a: Single, b: Single, num: int, den: int)
    requires
        den > 0,
        closest(a, num, den),
        closest(b, num, den),
    ensures
        a.value() == b.value(),
{
    let (va, vb) = (a.value(), b.value());
    if va != vb {
        // equally near, on either side, and both even: then the number between them is nearer
        let (x, y) = if va < vb { (a, b) } else { (b, a) };
        assert(a.bits % 2 == 0 && b.bits % 2 == 0);
        let next = lemma_successor(x, y);
        let w = next.value();
        assert(gap(x.value() * den, num) == gap(y.value() * den, num));
        assert(x.value() * den < w * den < y.value() * den) by (nonlinear_arith)
            requires
                x.value() < w < y.value(),
                den > 0,
        ;
        assert(!next.nan());
    }
}

/// Between two numbers with even patterns lies another number.
proof fn lemma_successor(x: Single, y: Single) -> (z: Single)
    requires
        !x.nan(),
        !y.nan(),
        x.value() < y.value(),
        x.bits % 2 == 0,
        y.bits % 2 == 0,
    ensures
        !z.nan(),
        x.value() < z.value() < y.value(),
{
    assert(units(0) == 0);
    let (mx, my) = (x.magnitude(), y.magnitude());
    if mx > 0 {
        law_units_increase(0, mx);
    }
    if my > 0 {
        law_units_increase(0, my);
    }
    if my < mx {
        law_units_increase(my, mx);
    }
    if mx < my {
        law_units_increase(mx, my);
    }
    if y.value() > 0 && my >= 2 && (x.value() <= 0 || mx < my) {
        let z = Single::signed(false, my - 1);
        law_units_increase(my - 1, my);
        if x.value() > 0 {
            law_units_increase(mx, my - 1);
        } else {
            law_units_increase(0, my - 1);
        }
        assert(z.magnitude() == my - 1);
        z
    } else {
        let z = Single::signed(true, mx - 1);
        law_units_increase(mx - 1, mx);
        if my < mx - 1 {
            law_units_increase(my, mx - 1);
        }
        law_units_increase(0, mx - 1);
        assert(z.magnitude() == mx - 1);
        z
    }
}

/// `sign(b) * a`: the numerator of `a / b` over the positive denominator.
pub open spec fn over(a: int, b: int) -> int {
    if b < 0 {
        -a
    } else {
        a
    }
}

/// Division gives the closest number, and the infinities, zeros and NaNs of undefined ratios.
pub proof fn law_division(a: Single, b: Single, r: Single)
    requires
        call_ensures(Single::div, (a, b), r),
    ensures
        r.nan() <==> a.nan() || b.nan() || (a.infinite() && b.infinite()) || (a.value() == 0
            && b.value() == 0),
        !a.nan() && !b.nan() && !a.infinite() && !b.infinite() && b.value() != 0 ==> closest(
            r,
            over(a.value(), b.value()) * pow2(149),
            gap(b.value(), 0),
        ),
        !r.nan() && (a.infinite() || b.value() == 0) ==> r.infinite(),
        !r.nan() && b.infinite() ==> r.value() == 0,
        !r.nan() ==> (r.negative() <==> a.negative() != b.negative()),
{
    law_number_line(a, a);
    law_number_line(b, b);
    law_number_line(r, r);
    if !a.nan() && !b.nan() && !a.infinite() && !b.infinite() && b.value() != 0 {
        lemma_quotient_closest(a, b);
        lemma_pow2_pos(149);
        if a.value() != 0 {
            let (ua, ub) = (units(a.magnitude()), units(b.magnitude()));
            assert(units(0) == 0);
            law_units_increase(0, b.magnitude());
            law_units_increase(0, a.magnitude());
            let num = ua * pow2(149);
            assert(num >= 0) by (nonlinear_arith)
                requires
                    num == ua * pow2(149),
                    ua >= 0,
                    pow2(149) > 0,
            ;
            lemma_signed_closest(a.negative() != b.negative(), num, ub);
        }
    }
}

/// A quotient of finite numbers is closest.
pub(crate) proof fn lemma_quotient_closest(a: Single, b: Single)
    requires
        !a.nan() && !b.nan() && !a.infinite() && !b.infinite() && b.value() != 0,
    ensures
        closest(a.quotient(b), over(a.value(), b.value()) * pow2(149), gap(b.value(), 0)),
{
    let r = a.quotient(b);
    let (ma, mb) = (a.magnitude(), b.magnitude());
    let (ua, ub) = (units(ma), units(mb));
    let p = pow2(149) as int;
    lemma_pow2_pos(149);
    law_number_line(a, a);
    law_number_line(b, b);
    law_number_line(r, r);
    assert(units(0) == 0);
    if ma > 0 {
        law_units_increase(0, ma);
    }
    law_units_increase(0, mb);
    let num = ua * p;
    assert(num >= 0) by (nonlinear_arith)
        requires
            num == ua * p,
            ua >= 0,
            p > 0,
    ;
    assert((-ua) * p == -num) by (nonlinear_arith)
        requires
            num == ua * p,
    ;
    if a.value() == 0 {
        assert(0 * p == 0);
        assert(0 * ub == 0);
        lemma_closest_self(r, 0, ub);
    } else {
        lemma_signed_closest(a.negative() != b.negative(), num, ub);
    }
}

/// Multiplication gives the closest number.
pub proof fn law_multiplication(a: Single, b: Single, r: Single)
    requires
        call_ensures(Single::mul, (a, b), r),
    ensures
        r.nan() <==> a.nan() || b.nan() || (a.infinite() && b.value() == 0) || (a.value() == 0
            && b.infinite()),
        !a.nan() && !b.nan() && !a.infinite() && !b.infinite() ==> closest(
            r,
            a.value() * b.value(),
            pow2(149) as int,
        ),
        !r.nan() && (a.infinite() || b.infinite()) ==> r.infinite(),
        !r.nan() ==> (r.negative() <==> a.negative() != b.negative()),
{
    let (ma, mb) = (a.magnitude(), b.magnitude());
    let (ua, ub) = (units(ma), units(mb));
    let p = pow2(149) as int;
    let negative = a.negative() != b.negative();
    lemma_pow2_pos(149);
    law_number_line(a, a);
    law_number_line(b, b);
    law_number_line(r, r);
    assert(units(0) == 0);
    if ma > 0 {
        law_units_increase(0, ma);
    }
    if mb > 0 {
        law_units_increase(0, mb);
    }
    if !a.nan() && !b.nan() && !a.infinite() && !b.infinite() {
        let num = ua * ub;
        assert(num >= 0) by (nonlinear_arith)
            requires
                num == ua * ub,
                ua >= 0,
                ub >= 0,
        ;
        assert((-ua) * ub == -num && ua * (-ub) == -num && (-ua) * (-ub) == num)
            by (nonlinear_arith)
            requires
                num == ua * ub,
        ;
        if ua == 0 || ub == 0 {
            assert(num == 0) by (nonlinear_arith)
                requires
                    num == ua * ub,
                    ua == 0 || ub == 0,
            ;
            assert(0 * p == 0);
            lemma_closest_self(r, 0, p);
        } else {
            lemma_signed_closest(negative, num, p);
        }
    }
}

/// Addition gives the closest number.
pub proof fn law_addition(a: Single, b: Single, r: Single)
    requires
        call_ensures(Single::add, (a, b), r),
    ensures
        r.nan() <==> a.nan() || b.nan() || (a.infinite() && b.infinite() && a.negative()
            != b.negative()),
        !a.nan() && !b.nan() && !a.infinite() && !b.infinite() ==> closest(
            r,
            a.value() + b.value(),
            1,
        ),
        !r.nan() && a.infinite() ==> r == a,
        !r.nan() && b.infinite() ==> r == b,
{
    let v = a.value() + b.value();
    assert(units(0) == 0);
    if !a.nan() && !b.nan() && !a.infinite() && !b.infinite() {
        if v < 0 {
            lemma_signed_closest(true, -v, 1);
        } else if v > 0 {
            lemma_signed_closest(false, v, 1);
        } else {
            assert(r.value() == 0);
            lemma_closest_self(r, 0, 1);
        }
    }
}

/// Subtraction adds the opposite, which has the other sign and the same magnitude.
pub proof fn law_subtraction(a: Single, b: Single, c: Single, r: Single, s: Single)
    requires
        call_ensures(Single::neg, (b,), c),
        call_ensures(Single::sub, (a, b), r),
        call_ensures(Single::add, (a, c), s),
    ensures
        c.bits % 0x8000_0000 == b.bits % 0x8000_0000,
        c.bits != b.bits,
        r == s,
{
}

/// Conversion gives the closest number to the integer.
pub proof fn law_conversion(v: int, r: Single)
    requires
        (0 <= v <= u32::MAX && call_ensures(Single::from_u32, (v as u32,), r)) || (i64::MIN <= v
            <= i64::MAX && call_ensures(Single::from_i64, (v as i64,), r)),
    ensures
        closest(r, v * pow2(149), 1),
        r.negative() <==> v < 0,
{
    let p = pow2(149) as int;
    lemma_pow2_pos(149);
    assert(units(0) == 0);
    assert(-v * p == -(v * p)) by (nonlinear_arith);
    assert((v > 0 ==> v * p > 0) && (v < 0 ==> v * p < 0)) by (nonlinear_arith)
        requires
            p > 0,
    ;
    if v < 0 {
        lemma_signed_closest(true, -v * p, 1);
    } else if v > 0 {
        lemma_signed_closest(false, v * p, 1);
    } else {
        assert(0 * p == 0);
        assert(r.value() == 0);
        lemma_closest_self(r, 0, 1);
    }
}

/// Comparison is that of the values; a NaN is never smaller.
pub proof fn law_comparison(a: Single, b: Single, r: bool, n: bool)
    requires
        call_ensures(Single::lt, (a, b), r),
        call_ensures(Single::is_nan, (a,), n),
    ensures
        n <==> a.bits % 0x8000_0000 > 0x7F80_0000,
        r <==> a.bits % 0x8000_0000 <= 0x7F80_0000 && b.bits % 0x8000_0000 <= 0x7F80_0000
            && a.value() < b.value(),
{
}

/// Clamping gives the nearest value of the unit interval.
pub proof fn law_clamping(x: Single, r: Single)
    requires
        call_ensures(Single::clamp_unit, (x,), r),
    ensures
        x.nan() ==> r == x,
        !x.nan() && 0 <= x.value() <= pow2(149) ==> r == x,
        !x.nan() && x.value() < 0 ==> r.bits == 0,
        !x.nan() && x.value() > pow2(149) ==> r.bits == 0x3F80_0000,
{
    crate::single::law_one();
    assert(units(0) == 0);
}

/// Conversion to an integer cuts the fraction off and stops at the bounds.
pub proof fn law_truncation(x: Single, r: i32)
    requires
        call_ensures(Single::to_i32, (x,), r),
    ensures
        x.nan() ==> r == 0,
        !x.nan() && -0x8000_0000 * pow2(149) <= x.value() < 0x8000_0000 * pow2(149) ==> {
            &&& gap(r * pow2(149), 0) <= gap(x.value(), 0) < gap(r * pow2(149), 0) + pow2(149)
            &&& r < 0 ==> x.value() < 0
            &&& r > 0 ==> x.value() > 0
        },
        !x.nan() && x.value() < -0x8000_0000 * pow2(149) ==> r == -0x8000_0000,
        !x.nan() && x.value() >= 0x8000_0000 * pow2(149) ==> r == 0x7FFF_FFFF,
{
    let p = pow2(149) as int;
    lemma_pow2_pos(149);
    assert(units(0) == 0);
    let m = x.magnitude();
    if m > 0 {
        law_units_increase(0, m);
    }
    let u = units(m);
    let w = u / p;
    assert(w * p <= u < w * p + p) by (nonlinear_arith)
        requires
            w == u / p,
            p > 0,
    ;
    assert((w > 0x7FFF_FFFF ==> w * p >= 0x8000_0000 * p) && (w <= 0x7FFF_FFFF ==> w * p + p
        <= 0x8000_0000 * p)) by (nonlinear_arith)
        requires
            p > 0,
    ;
    assert((w > 0x8000_0000 ==> w * p >= 0x8000_0001 * p) && (w < 0x8000_0000 ==> w * p + p
        <= 0x8000_0000 * p)) by (nonlinear_arith)
        requires
            p > 0,
    ;
    assert((-w) * p == -(w * p)) by (nonlinear_arith);
    assert(-0x8000_0000 * p == -(0x8000_0000 * p));
    assert(w >= 0) by (nonlinear_arith)
        requires
            w == u / p,
            u >= 0,
            p > 0,
    ;
    assert(w > 0 ==> w * p > 0) by (nonlinear_arith)
        requires
            p > 0,
    ;
}

/// Rounding to eight bits gives the nearest whole number, halves away from zero, and stops at the
/// bounds.
pub proof fn law_rounding(x: Single, r: i8)
    requires
        call_ensures(Single::round_to_i8, (x,), r),
    ensures
        x.nan() ==> r == 0,
        !x.nan() && -257 * pow2(149) < 2 * x.value() < 255 * pow2(149) ==> {
            &&& 2 * gap(r * pow2(149), x.value()) <= pow2(149)
            &&& 2 * gap(r * pow2(149), x.value()) == pow2(149) ==> gap(r * pow2(149), 0) > gap(
                x.value(),
                0,
            )
        },
        !x.nan() && 2 * x.value() <= -257 * pow2(149) ==> r == -128,
        !x.nan() && 2 * x.value() >= 255 * pow2(149) ==> r == 127,
{
    let p = pow2(149) as int;
    lemma_pow2_pos(149);
    lemma_pow2_unfold(150);
    assert(units(0) == 0);
    let m = x.magnitude();
    if m > 0 {
        law_units_increase(0, m);
    }
    let u = units(m);
    let w = (2 * u + p) / (2 * p);
    assert(2 * (w * p) <= 2 * u + p < 2 * (w * p) + 2 * p) by (nonlinear_arith)
        requires
            w == (2 * u + p) / (2 * p),
            p > 0,
    ;
    assert(w >= 0) by (nonlinear_arith)
        requires
            w == (2 * u + p) / (2 * p),
            u >= 0,
            p > 0,
    ;
    assert((w >= 129 ==> w * p >= 129 * p) && (w <= 128 ==> w * p <= 128 * p) && (w >= 128 ==> w * p
        >= 128 * p) && (w <= 127 ==> w * p <= 127 * p)) by (nonlinear_arith)
        requires
            p > 0,
    ;
    assert((-w) * p == -(w * p)) by (nonlinear_arith);
    assert(0 <= w * p) by (nonlinear_arith)
        requires
            w >= 0,
            p > 0,
    ;
}

} // verus!
