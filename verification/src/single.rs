//! Single-precision numbers by their IEEE 754 bit patterns, with exact integer arithmetic.
//!
//! Every operation computes the exact result as a ratio of integers and rounds it once.

use vstd::arithmetic::power2::{
    lemma2_to64, lemma_pow2_adds, lemma_pow2_pos, lemma_pow2_strictly_increases, lemma_pow2_unfold,
    pow2,
};
use vstd::prelude::*;

use crate::rounding::{
    bias, law_rounded_is, law_rounded_nearest, law_rounded_ordered, law_units_increase,
    lemma_power_bounds, lemma_units_of, lemma_units_step, nearest, power_of_two, round_scaled,
    rounded, stands_for, units, EXPONENT_STEP, INFINITY_BITS,
};

verus! {

/// Pattern of the canonical NaN.
pub const NAN_BITS: u32 = 0x7FC0_0000;

/// Pattern of 1.0.
pub const ONE_BITS: u32 = 0x3F80_0000;

/// Weight of the sign bit.
pub const SIGN_BIT: u32 = 0x8000_0000;

/// A single-precision number, held as its bit pattern.
#[derive(Debug, Clone, Copy, PartialEq, Eq, Structural)]
pub struct Single {
    pub bits: u32,
}

impl Single {
    /// The pattern without its sign.
    pub open spec fn magnitude(self) -> int {
        if self.bits >= SIGN_BIT {
            self.bits - SIGN_BIT
        } else {
            self.bits as int
        }
    }

    /// The sign bit is set.
    pub open spec fn negative(self) -> bool {
        self.bits >= SIGN_BIT
    }

    /// Not a number.
    pub open spec fn nan(self) -> bool {
        self.magnitude() > INFINITY_BITS
    }

    /// Positive or negative infinity.
    pub open spec fn infinite(self) -> bool {
        self.magnitude() == INFINITY_BITS
    }

    /// Positive or negative zero.
    pub open spec fn zero(self) -> bool {
        self.magnitude() == 0
    }

    /// The number in units of 2^-149; an infinity lies beyond every finite value.
    pub open spec fn value(self) -> int {
        if self.negative() {
            -units(self.magnitude())
        } else {
            units(self.magnitude())
        }
    }

    /// The pattern with the given sign and magnitude.
    pub open spec fn signed(negative: bool, magnitude: int) -> Single {
        Single {
            bits: (if negative {
                SIGN_BIT + magnitude
            } else {
                magnitude
            }) as u32,
        }
    }

    /// The whole number `v`, rounded.
    pub open spec fn of_int(v: int) -> Single {
        if v < 0 {
            Single::signed(true, rounded(-v * pow2(149), 1))
        } else if v == 0 {
            Single::signed(false, 0)
        } else {
            Single::signed(false, rounded(v * pow2(149), 1))
        }
    }

    /// The correctly rounded quotient.
    pub open spec fn quotient(self, other: Single) -> Single {
        let negative = self.negative() != other.negative();
        if self.nan() || other.nan() || (self.infinite() && other.infinite()) || (self.zero()
            && other.zero()) {
            Single { bits: NAN_BITS }
        } else if self.infinite() || other.zero() {
            Single::signed(negative, INFINITY_BITS as int)
        } else if self.zero() || other.infinite() {
            Single::signed(negative, 0)
        } else {
            Single::signed(
                negative,
                rounded(units(self.magnitude()) * pow2(149), units(other.magnitude())),
            )
        }
    }

    /// The correctly rounded product.
    pub open spec fn product(self, other: Single) -> Single {
        let negative = self.negative() != other.negative();
        if self.nan() || other.nan() || (self.infinite() && other.zero()) || (self.zero()
            && other.infinite()) {
            Single { bits: NAN_BITS }
        } else if self.infinite() || other.infinite() {
            Single::signed(negative, INFINITY_BITS as int)
        } else if self.zero() || other.zero() {
            Single::signed(negative, 0)
        } else {
            Single::signed(
                negative,
                rounded(units(self.magnitude()) * units(other.magnitude()), pow2(149) as int),
            )
        }
    }

    /// The number with the other sign.
    pub open spec fn opposite(self) -> Single {
        Single::signed(!self.negative(), self.magnitude())
    }

    /// The correctly rounded sum.
    pub open spec fn sum(self, other: Single) -> Single {
        let v = self.value() + other.value();
        if self.nan() || other.nan() || (self.infinite() && other.infinite() && self.negative()
            != other.negative()) {
            Single { bits: NAN_BITS }
        } else if self.infinite() {
            self
        } else if other.infinite() {
            other
        } else if v < 0 {
            Single::signed(true, rounded(-v, 1))
        } else if v == 0 {
            Single::signed(self.negative() && other.negative(), 0)
        } else {
            Single::signed(false, rounded(v, 1))
        }
    }

    /// Neither is NaN, and `self` is smaller.
    pub open spec fn less(self, other: Single) -> bool {
        !self.nan() && !other.nan() && self.value() < other.value()
    }

    /// The whole part, with its sign; what 32 bits cannot hold becomes the nearest bound, and NaN
    /// becomes zero.
    pub open spec fn whole(self) -> int {
        let w = units(self.magnitude()) / (pow2(149) as int);
        if self.nan() {
            0
        } else if self.negative() {
            if w > 0x8000_0000 {
                -0x8000_0000
            } else {
                -w
            }
        } else {
            if w > 0x7FFF_FFFF {
                0x7FFF_FFFF
            } else {
                w
            }
        }
    }

    /// The nearest whole number, halves away from zero; what eight bits cannot hold becomes the
    /// nearest bound, and NaN becomes zero.
    pub open spec fn nearest_whole(self) -> int {
        let w = (2 * units(self.magnitude()) + pow2(149)) / (pow2(150) as int);
        if self.nan() {
            0
        } else if self.negative() {
            if w > 128 {
                -128
            } else {
                -w
            }
        } else {
            if w > 127 {
                127
            } else {
                w
            }
        }
    }

    /// The sign bit.
    fn sign(self) -> (negative: bool)
        ensures
            negative == self.negative(),
    {
        self.bits >= SIGN_BIT
    }

    /// The pattern without its sign.
    fn unsigned(self) -> (m: u32)
        ensures
            m == self.magnitude(),
    {
        if self.bits >= SIGN_BIT {
            self.bits - SIGN_BIT
        } else {
            self.bits
        }
    }

    /// The pattern with the given sign and magnitude.
    fn with_sign(negative: bool, m: u32) -> (r: Single)
        requires
            m <= INFINITY_BITS,
        ensures
            r == Single::signed(negative, m as int),
    {
        if negative {
            Single { bits: SIGN_BIT + m }
        } else {
            Single { bits: m }
        }
    }

    /// Whether the pattern is a NaN.
    pub fn is_nan(self) -> (r: bool)
        ensures
            r == self.nan(),
    {
        self.unsigned() > INFINITY_BITS
    }

    /// Significand and exponent of a finite magnitude, in units.
    fn parts(m: u32) -> (r: (u128, i32))
        requires
            m < INFINITY_BITS,
        ensures
            r.0 < 0x100_0000,
            r.0 == 0 <==> m == 0,
            0 <= r.1 <= 253,
            r.1 > 0 ==> r.0 >= EXPONENT_STEP,
            m == r.1 * EXPONENT_STEP + r.0,
            units(m as int) == r.0 * pow2(r.1 as nat),
    {
        let e: u32 = m / EXPONENT_STEP;
        let f: u32 = m % EXPONENT_STEP;
        proof {
            lemma2_to64();
            assert(m == e * EXPONENT_STEP + f);
        }
        if e == 0 {
            proof {
                lemma_units_of(0, f as int);
            }
            (f as u128, 0)
        } else {
            proof {
                lemma_units_of(e - 1, EXPONENT_STEP + f);
            }
            ((EXPONENT_STEP + f) as u128, e as i32 - 1)
        }
    }

    /// A whole magnitude, rounded.
    fn of_magnitude(v: u128) -> (m: u32)
        requires
            v <= u64::MAX,
        ensures
            m <= INFINITY_BITS,
            v == 0 ==> m == 0,
            v > 0 ==> m == rounded(v * pow2(149), 1),
    {
        if v == 0 {
            return 0;
        }
        let ghost num = v * pow2(149);
        proof {
            lemma_power_bounds();
            lemma_pow2_adds(149, bias() as nat);
            assert(num * pow2(1000) == v * (1 * pow2(1149))) by (nonlinear_arith)
                requires
                    num == v * pow2(149),
                    pow2(1149) == pow2(149) * pow2(1000),
            ;
        }
        let m = round_scaled(v, 149, Ghost(num), Ghost(1));
        proof {
            law_rounded_is(num, 1, m as int);
        }
        m
    }

    /// Conversion from an unsigned 32-bit integer.
    pub fn from_u32(v: u32) -> (r: Single)
        ensures
            r == Single::of_int(v as int),
    {
        Single::with_sign(false, Single::of_magnitude(v as u128))
    }

    /// Conversion from a signed 64-bit integer.
    pub fn from_i64(v: i64) -> (r: Single)
        ensures
            r == Single::of_int(v as int),
    {
        if v < 0 {
            let a: u128 = (-(v as i128)) as u128;
            let m = Single::of_magnitude(a);
            Single::with_sign(true, m)
        } else {
            Single::with_sign(false, Single::of_magnitude(v as u128))
        }
    }

    /// Division.
    pub fn div(self, other: Single) -> (r: Single)
        ensures
            r == self.quotient(other),
    {
        let a = self.unsigned();
        let b = other.unsigned();
        let negative = self.sign() != other.sign();
        if a > INFINITY_BITS || b > INFINITY_BITS || (a == INFINITY_BITS && b == INFINITY_BITS) || (
        a == 0 && b == 0) {
            return Single { bits: NAN_BITS };
        }
        if a == INFINITY_BITS || b == 0 {
            return Single::with_sign(negative, INFINITY_BITS);
        }
        if a == 0 || b == INFINITY_BITS {
            return Single::with_sign(negative, 0);
        }
        let (sa, ea) = Single::parts(a);
        let (sb, eb) = Single::parts(b);
        let w: u128 = sa * 0x1000_0000_0000_0000;
        let q: u128 = w / sb;
        let rem: u128 = w % sb;
        let m: u128 = if rem == 0 {
            2 * q
        } else {
            2 * q + 1
        };
        let ghost num = units(a as int) * pow2(149);
        let ghost den = units(b as int);
        proof {
            law_units_increase(0, b as int);
            lemma_division_stands(
                sa as int,
                ea as int,
                sb as int,
                eb as int,
                w as int,
                q as int,
                rem as int,
                m as int,
            );
        }
        let r = round_scaled(m, ea - eb + 88, Ghost(num), Ghost(den));
        proof {
            law_rounded_is(num, den, r as int);
        }
        Single::with_sign(negative, r)
    }
}

/// The quotient of shifted significands, with its remainder folded into the lowest bit, stands
/// for the exact quotient.
proof fn lemma_division_stands(
    sa: int,
    ea: int,
    sb: int,
    eb: int,
    w: int,
    q: int,
    rem: int,
    m: int,
)
    requires
        0 < sa < 0x100_0000,
        0 < sb < 0x100_0000,
        0 <= ea <= 253,
        0 <= eb <= 253,
        w == sa * 0x1000_0000_0000_0000,
        q == w / sb,
        rem == w % sb,
        m == (if rem == 0 { 2 * q } else { 2 * q + 1 }),
    ensures
        0 < m < pow2(110),
        stands_for(
            m,
            ea - eb + 88,
            sa * pow2(ea as nat) * pow2(149),
            sb * pow2(eb as nat),
        ),
{
    lemma_power_bounds();
    lemma2_to64();
    assert(w == q * sb + rem && 0 <= rem < sb) by (nonlinear_arith)
        requires
            q == w / sb,
            rem == w % sb,
            sb > 0,
    ;
    assert(0x10_0000_0000 <= q < 0x10_0000_0000_0000_0000_0000) by (nonlinear_arith)
        requires
            w == q * sb + rem,
            0 <= rem < sb,
            0 < sb < 0x100_0000,
            0x1000_0000_0000_0000 <= w < 0x10_0000_0000_0000_0000_0000,
    ;
    let k = ea - eb + 88;
    let pa = pow2(ea as nat) as int;
    let pb = pow2(eb as nat) as int;
    let num = sa * pa * pow2(149);
    let den = sb * pb;
    let g = pow2((ea + 1088) as nat) as int;
    lemma_pow2_pos((ea + 1088) as nat);
    lemma_pow2_adds(eb as nat, (k + bias()) as nat);
    lemma_pow2_adds(ea as nat, 149);
    lemma_pow2_adds((ea + 149) as nat, bias() as nat);
    lemma_pow2_adds((ea + 1088) as nat, 61);
    lemma_pow2_unfold(61);
    let y = den * pow2((k + bias()) as nat);
    assert(y == sb * g) by (nonlinear_arith)
        requires
            y == den * pow2((k + bias()) as nat),
            den == sb * pb,
            g == pb * pow2((k + bias()) as nat),
    ;
    let x = num * pow2(bias() as nat);
    let p149 = pow2(149) as int;
    let pbias = pow2(bias() as nat) as int;
    let p61 = pow2(61) as int;
    assert(pa * p149 * pbias == g * p61);
    assert(x == sa * (pa * p149 * pbias)) by (nonlinear_arith)
        requires
            x == num * pbias,
            num == sa * pa * p149,
    ;
    assert(x == 2 * w * g) by (nonlinear_arith)
        requires
            x == sa * (g * p61),
            p61 == 0x2000_0000_0000_0000,
            w == sa * 0x1000_0000_0000_0000,
    ;
    if rem == 0 {
        assert(x == m * y) by (nonlinear_arith)
            requires
                x == 2 * w * g,
                y == sb * g,
                w == q * sb,
                m == 2 * q,
        ;
    } else {
        assert((m - 1) * y < x < (m + 1) * y) by (nonlinear_arith)
            requires
                x == 2 * w * g,
                y == sb * g,
                g > 0,
                w == q * sb + rem,
                0 < rem < sb,
                m == 2 * q + 1,
        ;
    }
}

impl Single {
    /// Multiplication.
    pub fn mul(self, other: Single) -> (r: Single)
        ensures
            r == self.product(other),
    {
        let a = self.unsigned();
        let b = other.unsigned();
        let negative = self.sign() != other.sign();
        if a > INFINITY_BITS || b > INFINITY_BITS || (a == INFINITY_BITS && b == 0) || (a == 0 && b
            == INFINITY_BITS) {
            return Single { bits: NAN_BITS };
        }
        if a == INFINITY_BITS || b == INFINITY_BITS {
            return Single::with_sign(negative, INFINITY_BITS);
        }
        if a == 0 || b == 0 {
            return Single::with_sign(negative, 0);
        }
        let (sa, ea) = Single::parts(a);
        let (sb, eb) = Single::parts(b);
        assert(0 < sa * sb <= 0xFF_FFFF * 0xFF_FFFF) by (nonlinear_arith)
            requires
                0 < sa < 0x100_0000,
                0 < sb < 0x100_0000,
        ;
        let m: u128 = sa * sb;
        let ghost num = units(a as int) * units(b as int);
        let ghost den = pow2(149) as int;
        proof {
            lemma_power_bounds();
            lemma_pow2_pos(149);
            let pa = pow2(ea as nat) as int;
            let pb = pow2(eb as nat) as int;
            let k = ea + eb - 149;
            let pk = pow2((k + bias()) as nat) as int;
            let pbias = pow2(bias() as nat) as int;
            lemma_pow2_adds(ea as nat, eb as nat);
            lemma_pow2_adds((ea + eb) as nat, bias() as nat);
            lemma_pow2_adds(149, (k + bias()) as nat);
            assert(pa * pb * pbias == den * pk);
            assert(num * pbias == (m as int) * (den * pk)) by (nonlinear_arith)
                requires
                    num == (sa * pa) * (sb * pb),
                    m == sa * sb,
                    pa * pb * pbias == den * pk,
            ;
        }
        let r = round_scaled(m, ea + eb - 149, Ghost(num), Ghost(den));
        proof {
            law_rounded_is(num, den, r as int);
        }
        Single::with_sign(negative, r)
    }

    /// The number with the other sign.
    pub fn neg(self) -> (r: Single)
        ensures
            r == self.opposite(),
    {
        if self.bits >= SIGN_BIT {
            Single { bits: self.bits - SIGN_BIT }
        } else {
            Single { bits: self.bits + SIGN_BIT }
        }
    }

    /// The rounded sum (or, with `subtract`, difference) of two finite magnitudes of which the
    /// first is not the smaller one.
    fn combine(a: u32, b: u32, subtract: bool) -> (r: u32)
        requires
            0 < b <= a < INFINITY_BITS,
            subtract ==> b < a,
        ensures
            r <= INFINITY_BITS,
            r == rounded(
                if subtract {
                    units(a as int) - units(b as int)
                } else {
                    units(a as int) + units(b as int)
                },
                1,
            ),
    {
        let (sa, ea) = Single::parts(a);
        let (sb, eb) = Single::parts(b);
        assert(eb <= ea) by (nonlinear_arith)
            requires
                b <= a,
                a == ea * EXPONENT_STEP + sa,
                b == eb * EXPONENT_STEP + sb,
                0 <= sa < 0x100_0000,
                eb > 0 ==> sb >= EXPONENT_STEP,
                ea >= 0,
                sa < 2 * EXPONENT_STEP,
                EXPONENT_STEP == 0x80_0000,
        ;
        let gap: i32 = ea - eb;
        let ghost num = if subtract {
            units(a as int) - units(b as int)
        } else {
            units(a as int) + units(b as int)
        };
        proof {
            if b < a {
                law_units_increase(b as int, a as int);
            }
            law_units_increase(0, b as int);
        }
        let m: u128;
        let k: i32;
        if gap <= 64 {
            let factor = power_of_two(gap as u32);
            proof {
                lemma_aligned_stands(
                    sa as int,
                    ea as int,
                    sb as int,
                    eb as int,
                    factor as int,
                    subtract,
                );
            }
            let shifted: u128 = sa * factor;
            m = if subtract {
                shifted - sb
            } else {
                shifted + sb
            };
            k = eb;
        } else {
            proof {
                lemma_far_stands(sa as int, ea as int, sb as int, eb as int, subtract);
            }
            let shifted: u128 = sa * 0x100_0000_0000;
            m = if subtract {
                shifted - 1
            } else {
                shifted + 1
            };
            k = ea - 40;
        }
        let r = round_scaled(m, k, Ghost(num), Ghost(1));
        proof {
            law_rounded_is(num, 1, r as int);
        }
        r
    }

    /// Addition.
    pub fn add(self, other: Single) -> (r: Single)
        ensures
            r == self.sum(other),
    {
        let a = self.unsigned();
        let b = other.unsigned();
        let na = self.sign();
        let nb = other.sign();
        if a > INFINITY_BITS || b > INFINITY_BITS || (a == INFINITY_BITS && b == INFINITY_BITS && na
            != nb) {
            return Single { bits: NAN_BITS };
        }
        if a == INFINITY_BITS {
            return self;
        }
        if b == INFINITY_BITS {
            return other;
        }
        proof {
            assert(units(0) == 0);
            if a > 0 {
                law_units_increase(0, a as int);
                law_rounded_self(a as int);
            }
            if b > 0 {
                law_units_increase(0, b as int);
                law_rounded_self(b as int);
            }
            if a < b {
                law_units_increase(a as int, b as int);
            }
            if b < a {
                law_units_increase(b as int, a as int);
            }
        }
        if a == 0 && b == 0 {
            return Single::with_sign(na && nb, 0);
        }
        if a == 0 {
            return other;
        }
        if b == 0 {
            return self;
        }
        if na == nb {
            let m = if a >= b {
                Single::combine(a, b, false)
            } else {
                Single::combine(b, a, false)
            };
            Single::with_sign(na, m)
        } else if a == b {
            Single::with_sign(false, 0)
        } else if a > b {
            Single::with_sign(na, Single::combine(a, b, true))
        } else {
            Single::with_sign(nb, Single::combine(b, a, true))
        }
    }

    /// Subtraction.
    pub fn sub(self, other: Single) -> (r: Single)
        ensures
            r == self.sum(other.opposite()),
    {
        self.add(other.neg())
    }

    /// Whether `self` is smaller; never with a NaN.
    pub fn lt(self, other: Single) -> (r: bool)
        ensures
            r == self.less(other),
    {
        let a = self.unsigned();
        let b = other.unsigned();
        if a > INFINITY_BITS || b > INFINITY_BITS {
            return false;
        }
        proof {
            assert(units(0) == 0);
            if a > 0 {
                law_units_increase(0, a as int);
            }
            if b > 0 {
                law_units_increase(0, b as int);
            }
            if a < b {
                law_units_increase(a as int, b as int);
            }
            if b < a {
                law_units_increase(b as int, a as int);
            }
        }
        if self.sign() {
            if other.sign() {
                a > b
            } else {
                a > 0 || b > 0
            }
        } else {
            !other.sign() && a < b
        }
    }
}

/// 1.0.
pub open spec fn one() -> Single {
    Single { bits: ONE_BITS }
}

/// 0.0.
pub open spec fn nought() -> Single {
    Single { bits: 0 }
}

impl Single {
    /// The nearest number of the unit interval; NaN stays NaN, and minus zero stays too.
    pub open spec fn clamped(self) -> Single {
        if self.less(nought()) {
            nought()
        } else if one().less(self) {
            one()
        } else {
            self
        }
    }

    /// The nearest number of the unit interval; NaN stays NaN.
    pub fn clamp_unit(self) -> (r: Single)
        ensures
            r == self.clamped(),
    {
        if self.lt(Single { bits: 0 }) {
            Single { bits: 0 }
        } else if (Single { bits: ONE_BITS }).lt(self) {
            Single { bits: ONE_BITS }
        } else {
            self
        }
    }
}

/// A representable value rounds to itself.
pub proof fn law_rounded_self(m: int)
    requires
        0 <= m < INFINITY_BITS,
    ensures
        rounded(units(m), 1) == m,
{
    lemma_units_step(m);
    if m > 0 {
        lemma_units_step(m - 1);
    }
    assert(nearest(units(m), 1, m));
    law_rounded_is(units(m), 1, m);
}

/// Significands aligned to the smaller exponent give the exact sum or difference.
proof fn lemma_aligned_stands(sa: int, ea: int, sb: int, eb: int, factor: int, subtract: bool)
    requires
        0 < sa < 0x100_0000,
        0 < sb < 0x100_0000,
        0 <= eb <= ea <= 253,
        ea - eb <= 64,
        factor == pow2((ea - eb) as nat),
        subtract ==> sb * pow2(eb as nat) < sa * pow2(ea as nat),
    ensures
        0 < sa * factor < 0x100_0000 * 0x1_0000_0000_0000_0000,
        subtract ==> sb < sa * factor,
        sa * factor + sb < pow2(110),
        ({
            let m = if subtract { sa * factor - sb } else { sa * factor + sb };
            let num = if subtract {
                sa * pow2(ea as nat) - sb * pow2(eb as nat)
            } else {
                sa * pow2(ea as nat) + sb * pow2(eb as nat)
            };
            stands_for(m, eb, num, 1)
        }),
{
    lemma_power_bounds();
    lemma2_to64();
    let g = ea - eb;
    lemma_pow2_pos(g as nat);
    if g < 64 {
        lemma_pow2_strictly_increases(g as nat, 64);
    }
    assert(0 < sa * factor < 0x100_0000 * 0x1_0000_0000_0000_0000) by (nonlinear_arith)
        requires
            0 < sa < 0x100_0000,
            0 < factor <= 0x1_0000_0000_0000_0000,
    ;
    let pa = pow2(ea as nat) as int;
    let pb = pow2(eb as nat) as int;
    lemma_pow2_pos(eb as nat);
    lemma_pow2_adds(g as nat, eb as nat);
    lemma_pow2_adds(eb as nat, bias() as nat);
    assert(sa * pa == (sa * factor) * pb) by (nonlinear_arith)
        requires
            pa == factor * pb,
    ;
    if subtract {
        assert(sb < sa * factor) by (nonlinear_arith)
            requires
                sb * pb < (sa * factor) * pb,
                pb > 0,
        ;
    }
    let m = if subtract { sa * factor - sb } else { sa * factor + sb };
    let num = if subtract { sa * pa - sb * pb } else { sa * pa + sb * pb };
    assert(num == m * pb) by (nonlinear_arith)
        requires
            sa * pa == (sa * factor) * pb,
            m == (if subtract { sa * factor - sb } else { sa * factor + sb }),
            num == (if subtract { sa * pa - sb * pb } else { sa * pa + sb * pb }),
    ;
    let pbias = pow2(bias() as nat) as int;
    let y = pow2((eb + bias()) as nat) as int;
    assert(num * pbias == m * (1 * y)) by (nonlinear_arith)
        requires
            num == m * pb,
            y == pb * pbias,
    ;
}

/// A magnitude far below the other one only nudges it.
proof fn lemma_far_stands(sa: int, ea: int, sb: int, eb: int, subtract: bool)
    requires
        0x80_0000 <= sa < 0x100_0000,
        0 < sb < 0x100_0000,
        0 <= eb,
        ea <= 253,
        ea - eb > 64,
    ensures
        0 < sa * 0x100_0000_0000 - 1,
        sa * 0x100_0000_0000 + 1 < pow2(110),
        ({
            let m = if subtract { sa * 0x100_0000_0000 - 1 } else { sa * 0x100_0000_0000 + 1 };
            let num = if subtract {
                sa * pow2(ea as nat) - sb * pow2(eb as nat)
            } else {
                sa * pow2(ea as nat) + sb * pow2(eb as nat)
            };
            stands_for(m, ea - 40, num, 1)
        }),
{
    lemma_power_bounds();
    lemma2_to64();
    vstd::arithmetic::power2::lemma2_to64_rest();
    let c = pow2((ea - 40) as nat) as int;
    let pa = pow2(ea as nat) as int;
    let pb = pow2(eb as nat) as int;
    lemma_pow2_pos(eb as nat);
    lemma_pow2_pos((ea - 40) as nat);
    lemma_pow2_adds((ea - 40) as nat, 40);
    lemma_pow2_adds(eb as nat, 24);
    lemma_pow2_strictly_increases((eb + 24) as nat, (ea - 40) as nat);
    let small = sb * pb;
    assert(0 < small < c) by (nonlinear_arith)
        requires
            small == sb * pb,
            0 < sb < 0x100_0000,
            pb > 0,
            pb * 0x100_0000 < c,
    ;
    let m = if subtract { sa * 0x100_0000_0000 - 1 } else { sa * 0x100_0000_0000 + 1 };
    let num = if subtract { sa * pa - small } else { sa * pa + small };
    assert((m - 1) * c < num < (m + 1) * c) by (nonlinear_arith)
        requires
            pa == c * 0x100_0000_0000,
            0 < small < c,
            m == (if subtract { sa * 0x100_0000_0000 - 1 } else { sa * 0x100_0000_0000 + 1 }),
            num == (if subtract { sa * pa - small } else { sa * pa + small }),
    ;
    let pbias = pow2(bias() as nat) as int;
    lemma_pow2_pos(bias() as nat);
    lemma_pow2_adds((ea - 40) as nat, bias() as nat);
    let y = pow2((ea - 40 + bias()) as nat) as int;
    assert((m - 1) * (1 * y) < num * pbias < (m + 1) * (1 * y)) by (nonlinear_arith)
        requires
            (m - 1) * c < num < (m + 1) * c,
            y == c * pbias,
            pbias > 0,
    ;
}

impl Single {
    /// Conversion to a 32-bit integer, towards zero and saturating; NaN becomes zero.
    pub fn to_i32(self) -> (r: i32)
        ensures
            r == self.whole(),
    {
        let m = self.unsigned();
        if m > INFINITY_BITS {
            return 0;
        }
        if m >= 0x5000_0000 {
            proof {
                lemma_large_magnitude(m as int, 0x5000_0000);
            }
            return if self.sign() {
                i32::MIN
            } else {
                i32::MAX
            };
        }
        let (s, e) = Single::parts(m);
        proof {
            lemma2_to64();
        }
        let w: u128 = if e >= 149 {
            let shift: u32 = (e - 149) as u32;
            proof {
                assert(shift <= 10) by (nonlinear_arith)
                    requires
                        m == e * EXPONENT_STEP + s,
                        m < 0x5000_0000,
                        shift == e - 149,
                        s >= 0,
                        EXPONENT_STEP == 0x80_0000,
                ;
                if shift < 10 {
                    lemma_pow2_strictly_increases(shift as nat, 10);
                }
                lemma_shift_up(s as int, e as int);
            }
            let factor = power_of_two(shift);
            assert(s * factor <= 0x100_0000 * 1024) by (nonlinear_arith)
                requires
                    s < 0x100_0000,
                    factor <= 1024,
            ;
            s * factor
        } else {
            let d: u32 = (149 - e) as u32;
            proof {
                lemma_shift_down(s as int, e as int);
            }
            if d > 24 {
                proof {
                    lemma_pow2_strictly_increases(24, d as nat);
                    vstd::arithmetic::div_mod::lemma_basic_div(s as int, pow2(d as nat) as int);
                }
                0
            } else {
                proof {
                    lemma_pow2_pos(d as nat);
                    vstd::arithmetic::div_mod::lemma_div_is_ordered_by_denominator(
                        s as int,
                        1,
                        pow2(d as nat) as int,
                    );
                }
                s / power_of_two(d)
            }
        };
        if self.sign() {
            if w > 0x8000_0000 {
                i32::MIN
            } else {
                (-(w as i64)) as i32
            }
        } else {
            if w > 0x7FFF_FFFF {
                i32::MAX
            } else {
                w as i32
            }
        }
    }

    /// Rounding to the nearest whole number, halves away from zero, then conversion to eight
    /// bits, saturating; NaN becomes zero.
    pub fn round_to_i8(self) -> (r: i8)
        ensures
            r == self.nearest_whole(),
    {
        let m = self.unsigned();
        if m > INFINITY_BITS {
            return 0;
        }
        if m >= 0x4B00_0000 {
            proof {
                lemma_large_magnitude(m as int, 0x4B00_0000);
                lemma_pow2_unfold(150);
                lemma_pow2_pos(149);
                lemma_half_up_large(units(m as int), pow2(149) as int);
            }
            return if self.sign() {
                i8::MIN
            } else {
                i8::MAX
            };
        }
        let (s, e) = Single::parts(m);
        proof {
            lemma2_to64();
            assert(e <= 149) by (nonlinear_arith)
                requires
                    m == e * EXPONENT_STEP + s,
                    m < 0x4B00_0000,
                    s >= 0,
                    EXPONENT_STEP == 0x80_0000,
            ;
            assert(e < 149) by (nonlinear_arith)
                requires
                    m == e * EXPONENT_STEP + s,
                    m < 0x4B00_0000,
                    e > 0 ==> s >= EXPONENT_STEP,
                    e >= 0,
                    EXPONENT_STEP == 0x80_0000,
            ;
        }
        let d: u32 = (149 - e) as u32;
        proof {
            lemma_half_up_down(s as int, e as int);
        }
        let w: u128 = if d > 30 {
            proof {
                lemma_pow2_strictly_increases(30, d as nat);
                lemma_pow2_unfold((d + 1) as nat);
                vstd::arithmetic::div_mod::lemma_basic_div(
                    2 * s as int + pow2(d as nat) as int,
                    pow2((d + 1) as nat) as int,
                );
            }
            0
        } else {
            let unit = power_of_two(d);
            proof {
                lemma_pow2_pos(d as nat);
                lemma_pow2_unfold((d + 1) as nat);
                if d < 30 {
                    lemma_pow2_strictly_increases(d as nat, 30);
                }
            }
            (2 * s + unit) / (2 * unit)
        };
        if self.sign() {
            if w > 128 {
                i8::MIN
            } else {
                (-(w as i16)) as i8
            }
        } else {
            if w > 127 {
                i8::MAX
            } else {
                w as i8
            }
        }
    }
}

/// `s * 2^e` units, from 2^149 units per whole.
proof fn lemma_shift_up(s: int, e: int)
    requires
        149 <= e,
        0 <= s,
    ensures
        (s * pow2(e as nat)) / (pow2(149) as int) == s * pow2((e - 149) as nat),
{
    lemma_pow2_adds((e - 149) as nat, 149);
    lemma_pow2_pos(149);
    let p = pow2(149) as int;
    let t = pow2((e - 149) as nat) as int;
    assert(s * pow2(e as nat) == (s * t) * p) by (nonlinear_arith)
        requires
            pow2(e as nat) == t * p,
    ;
    vstd::arithmetic::div_mod::lemma_div_multiples_vanish(s * t, p);
}

proof fn lemma_shift_down(s: int, e: int)
    requires
        0 <= e < 149,
        0 <= s,
    ensures
        (s * pow2(e as nat)) / (pow2(149) as int) == s / (pow2((149 - e) as nat) as int),
{
    lemma_pow2_adds(e as nat, (149 - e) as nat);
    lemma_pow2_pos(e as nat);
    lemma_pow2_pos((149 - e) as nat);
    let p = pow2(e as nat) as int;
    let u = pow2((149 - e) as nat) as int;
    assert(s * p == p * s) by (nonlinear_arith);
    assert(pow2(149) == p * u);
    vstd::arithmetic::div_mod::lemma_div_denominator(p * s, p, u);
    assert((p * s) / p == s) by {
        vstd::arithmetic::div_mod::lemma_div_multiples_vanish(s, p);
    }
}

proof fn lemma_half_up_down(s: int, e: int)
    requires
        0 <= e < 149,
        0 <= s,
    ensures
        (2 * (s * pow2(e as nat)) + pow2(149)) / (pow2(150) as int) == (2 * s + pow2(
            (149 - e) as nat,
        )) / (pow2((150 - e) as nat) as int),
{
    lemma_pow2_adds(e as nat, (149 - e) as nat);
    lemma_pow2_adds(e as nat, (150 - e) as nat);
    lemma_pow2_pos(e as nat);
    lemma_pow2_pos((150 - e) as nat);
    let p = pow2(e as nat) as int;
    let u = pow2((149 - e) as nat) as int;
    let v = pow2((150 - e) as nat) as int;
    let t = 2 * s + u;
    assert(2 * (s * p) + p * u == p * t) by (nonlinear_arith)
        requires
            t == 2 * s + u,
    ;
    vstd::arithmetic::div_mod::lemma_div_denominator(p * t, p, v);
    vstd::arithmetic::div_mod::lemma_div_multiples_vanish(t, p);
}

/// A magnitude at or above `floor` is at least as large as it.
proof fn lemma_large_magnitude(m: int, floor: int)
    requires
        floor == 0x5000_0000 || floor == 0x4B00_0000,
        m >= floor,
    ensures
        floor == 0x4B00_0000 ==> units(m) >= 0x80_0000 * pow2(149),
        floor == 0x5000_0000 ==> units(m) / (pow2(149) as int) > 0x8000_0000,
{
    if m > floor {
        law_units_increase(floor, m);
    }
    lemma2_to64();
    lemma_pow2_pos(149);
    if floor == 0x4B00_0000 {
        lemma_units_of(149, 0x80_0000);
    } else {
        lemma_units_of(159, 0x80_0000);
        lemma_pow2_adds(10, 149);
        let p = pow2(149) as int;
        assert(0x80_0000 * (1024 * p) == 0x2_0000_0000 * p);
        vstd::arithmetic::div_mod::lemma_div_is_ordered(0x2_0000_0000 * p, units(m), p);
        vstd::arithmetic::div_mod::lemma_div_multiples_vanish(0x2_0000_0000, p);
    }
}

proof fn lemma_half_up_large(u: int, p: int)
    requires
        p > 0,
        u >= 0x80_0000 * p,
    ensures
        (2 * u + p) / (2 * p) > 128,
{
    assert((2 * u + p) / (2 * p) > 128) by (nonlinear_arith)
        requires
            p > 0,
            u >= 0x80_0000 * p,
    ;
}

/// The number of bits of a positive whole number below 2^25.
proof fn lemma_bits_of(v: int, low: int) -> (len: int)
    requires
        0 <= low <= 24,
        pow2(low as nat) <= v <= 0x100_0000,
    ensures
        low < len <= 25,
        pow2((len - 1) as nat) <= v < pow2(len as nat),
    decreases 25 - low,
{
    lemma2_to64();
    if v < pow2((low + 1) as nat) {
        low + 1
    } else {
        lemma_bits_of(v, low + 1)
    }
}

/// Whole numbers of up to 24 bits are represented exactly.
pub proof fn law_whole_exact(v: int)
    requires
        -0x100_0000 <= v <= 0x100_0000,
    ensures
        !Single::of_int(v).nan(),
        !Single::of_int(v).infinite(),
        Single::of_int(v).zero() <==> v == 0,
        Single::of_int(v).negative() <==> v < 0,
        Single::of_int(v).value() == v * pow2(149),
        Single::of_int(v).whole() == v,
{
    lemma2_to64();
    lemma_pow2_pos(149);
    let p = pow2(149) as int;
    if v != 0 {
        let a = if v < 0 { -v } else { v };
        let m = lemma_whole_magnitude(a);
        vstd::arithmetic::div_mod::lemma_div_multiples_vanish(a, p);
        assert(v < 0 ==> -(a * p) == v * p) by (nonlinear_arith)
            requires
                v < 0 ==> a == -v,
        ;
    } else {
        assert(units(0) == 0);
        assert(0 * p == 0);
    }
}

/// The magnitude that holds a positive whole number of up to 24 bits.
pub(crate) proof fn lemma_whole_magnitude(a: int) -> (m: int)
    requires
        1 <= a <= 0x100_0000,
    ensures
        0 < m < INFINITY_BITS,
        units(m) == a * pow2(149),
        rounded(a * pow2(149), 1) == m,
{
    lemma2_to64();
    let len = lemma_bits_of(a, 0);
    let m: int;
    if len == 25 {
        m = 149 * EXPONENT_STEP + 0x100_0000;
        lemma_units_of(149, 0x100_0000);
    } else {
        let t = 24 - len;
        let c = pow2(t as nat) as int;
        let s = a * c;
        lemma_pow2_pos(t as nat);
        lemma_pow2_adds((len - 1) as nat, t as nat);
        lemma_pow2_adds(len as nat, t as nat);
        assert(0x80_0000 <= s < 0x100_0000) by (nonlinear_arith)
            requires
                s == a * c,
                c > 0,
                pow2((len - 1) as nat) <= a < pow2(len as nat),
                pow2((len - 1) as nat) * c == 0x80_0000,
                pow2(len as nat) * c == 0x100_0000,
        ;
        let j = 149 - t;
        m = j * EXPONENT_STEP + s;
        lemma_units_of(j, s);
        lemma_pow2_adds(t as nat, j as nat);
        let pj = pow2(j as nat) as int;
        assert(s * pj == a * (c * pj)) by (nonlinear_arith)
            requires
                s == a * c,
        ;
    }
    law_rounded_self(m);
    m
}

/// Sums of whole numbers are exact while they stay within 24 bits.
pub proof fn law_whole_sum(a: int, b: int)
    requires
        -0x100_0000 <= a <= 0x100_0000,
        -0x100_0000 <= b <= 0x100_0000,
        -0x100_0000 <= a + b <= 0x100_0000,
    ensures
        Single::of_int(a).sum(Single::of_int(b)) == Single::of_int(a + b),
{
    law_whole_exact(a);
    law_whole_exact(b);
    let p = pow2(149) as int;
    lemma_pow2_pos(149);
    assert(a * p + b * p == (a + b) * p) by (nonlinear_arith);
    assert(-((a + b) * p) == -(a + b) * p) by (nonlinear_arith);
    assert((a + b < 0 ==> (a + b) * p < 0) && (a + b > 0 ==> (a + b) * p > 0)) by (nonlinear_arith)
        requires
            p > 0,
    ;
    assert(a + b == 0 ==> (a + b) * p == 0);
}

/// Differences of whole numbers are exact while they stay within 24 bits.
pub proof fn law_whole_difference(a: int, b: int)
    requires
        -0x100_0000 <= a <= 0x100_0000,
        -0x100_0000 <= b <= 0x100_0000,
        -0x100_0000 <= a - b <= 0x100_0000,
    ensures
        Single::of_int(a).sum(Single::of_int(b).opposite()) == Single::of_int(a - b),
{
    law_whole_exact(a);
    law_whole_exact(b);
    if b == 0 {
        // minus zero adds nothing
        let z = Single::of_int(0).opposite();
        assert(z.value() == 0);
        let x = Single::of_int(a);
        if a == 0 {
        } else {
            assert(x.value() + z.value() == a * pow2(149));
            assert(-(a * pow2(149)) == -a * pow2(149)) by (nonlinear_arith);
            assert((a < 0 ==> a * pow2(149) < 0) && (a > 0 ==> a * pow2(149) > 0))
                by (nonlinear_arith)
                requires
                    pow2(149) > 0,
            ;
        }
    } else {
        law_whole_exact(-b);
        assert(Single::of_int(b).opposite() == Single::of_int(-b)) by {
            let c = if b < 0 { -b } else { b };
            let m = lemma_whole_magnitude(c);
        }
        law_whole_sum(a, -b);
    }
}

/// Squares of whole numbers are exact while they stay within 24 bits.
pub proof fn law_whole_square(a: int)
    requires
        -0x1000 <= a <= 0x1000,
    ensures
        0 <= a * a <= 0x100_0000,
        Single::of_int(a).product(Single::of_int(a)) == Single::of_int(a * a),
{
    assert(0 <= a * a <= 0x100_0000) by (nonlinear_arith)
        requires
            -0x1000 <= a <= 0x1000,
    ;
    law_whole_exact(a);
    if a != 0 {
        let p = pow2(149) as int;
        lemma_pow2_pos(149);
        assert(a * a > 0) by (nonlinear_arith)
            requires
                a != 0,
        ;
        let c = if a < 0 { -a } else { a };
        let u = lemma_whole_magnitude(c);
        let m = lemma_whole_magnitude(a * a);
        assert((c * p) * (c * p) == ((a * a) * p) * p) by (nonlinear_arith)
            requires
                c == a || c == -a,
        ;
        lemma_units_step(m);
        lemma_units_step(m - 1);
        let n = (a * a) * p;
        assert(nearest(n * p, p, m)) by {
            let low = units(m - 1) + units(m);
            let high = units(m) + units(m + 1);
            assert(p * low < 2 * (n * p) < p * high) by (nonlinear_arith)
                requires
                    p > 0,
                    low < 2 * n < high,
            ;
        }
        law_rounded_is(n * p, p, m);
    } else {
        assert(Single::of_int(0).zero());
    }
}

/// One is `2^149` units.
pub proof fn law_one()
    ensures
        units(ONE_BITS as int) == pow2(149),
        Single::of_int(1) == one(),
{
    lemma2_to64();
    lemma_units_of(126, EXPONENT_STEP as int);
    lemma_pow2_adds(23, 126);
    law_rounded_self(ONE_BITS as int);
    assert(1 * pow2(149) == pow2(149));
}

/// Clamping a number gives a magnitude of the unit interval, and changes nothing inside it.
pub proof fn law_clamped(x: Single)
    requires
        !x.nan(),
    ensures
        x.clamped().magnitude() <= ONE_BITS,
        0 <= units(x.clamped().magnitude()) <= pow2(149),
        x.clamped().value() == units(x.clamped().magnitude()),
        0 <= x.value() <= pow2(149) ==> x.clamped() == x,
        x.value() < 0 ==> x.clamped().value() == 0,
        x.value() > pow2(149) ==> x.clamped().value() == pow2(149),
{
    law_one();
    assert(units(0) == 0);
    let m = x.magnitude();
    lemma_pow2_pos(149);
    if m > 0 {
        law_units_increase(0, m);
    }
    if m > ONE_BITS {
        law_units_increase(ONE_BITS as int, m);
    }
    if 0 < m < ONE_BITS {
        law_units_increase(m, ONE_BITS as int);
    }
}

/// The ratio of two whole numbers, the smaller over the larger, is a magnitude of at most one.
pub proof fn law_whole_ratio(a: int, b: int)
    requires
        0 <= a <= b <= 0x100_0000,
        0 < b,
    ensures
        ({
            let r = Single::of_int(a).quotient(Single::of_int(b));
            &&& !r.negative()
            &&& r.magnitude() <= ONE_BITS
            &&& 0 <= r.value() <= pow2(149)
        }),
{
    let p = pow2(149) as int;
    lemma_pow2_pos(149);
    law_whole_exact(a);
    law_whole_exact(b);
    law_one();
    assert(units(0) == 0);
    if a > 0 {
        lemma_whole_magnitude(a);
        lemma_whole_magnitude(b);
        let num = (a * p) * p;
        let den = b * p;
        assert(num * 1 <= p * den && den > 0) by (nonlinear_arith)
            requires
                num == (a * p) * p,
                den == b * p,
                0 <= a <= b,
                0 < b,
                p > 0,
        ;
        law_rounded_nearest(num, den);
        law_rounded_self(ONE_BITS as int);
        law_rounded_ordered(num, den, p, 1);
        let m = rounded(num, den);
        if m > 0 {
            law_units_increase(0, m);
        }
        if m < ONE_BITS {
            law_units_increase(m, ONE_BITS as int);
        }
    }
}

} // verus!
