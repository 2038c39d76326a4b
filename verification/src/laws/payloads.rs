//! Laws of payloads: what each dimension of a vector says about the payload, and what
//! quantization keeps of it.

use vstd::arithmetic::power2::{lemma_pow2_pos, pow2};
use vstd::prelude::*;
use vstd::utf8::encode_utf8;

use crate::datetime::{parsed, ParseError, Utc};
use crate::laws::numbers::{closest, gap, law_number_line, over};
use crate::quantize::{
    law_hundredths, law_quantization_error, law_quantized_ordered, law_quantized_range,
    law_quantized_vector, quantize, quantized,
};
use crate::rounding::{law_rounded_nearest, law_rounded_ordered, law_units_increase, rounded, units};
use crate::single::{law_clamped, law_one, law_rounded_self, Single, ONE_BITS};
use crate::vectorize::{
    dimensions, flag, knows, risk_of, unit, vectorize, vectorized, MccRisk, Normalization, Payload,
    VectorizeError,
};
use crate::{DIMS, PAD};

verus! {

/// `r` is the share of `b` that `a` is, as a number of the unit interval: the closest number
/// inside it, zero for none or less, one for all or more. An undefined share counts as none.
pub open spec fn share(r: Single, a: Single, b: Single) -> bool {
    let num = over(a.value(), b.value());
    let den = gap(b.value(), 0);
    if a.nan() || b.nan() || (a.infinite() && b.infinite()) || (a.value() == 0 && b.value() == 0) {
        r.bits == 0
    } else if a.infinite() || b.value() == 0 {
        r.bits == (if a.negative() == b.negative() {
            0x3F80_0000
        } else {
            0u32
        })
    } else if b.infinite() || num <= 0 {
        r.value() == 0 && !r.nan()
    } else if num >= den {
        r.bits == 0x3F80_0000
    } else {
        closest(r, num * pow2(149), den)
    }
}

/// A clamped quotient is a share.
proof fn lemma_share(a: Single, b: Single)
    ensures
        share(unit(a.quotient(b)), a, b),
{
    let q = a.quotient(b);
    let r = unit(q);
    let p = pow2(149) as int;
    let (ua, ub) = (units(a.magnitude()), units(b.magnitude()));
    lemma_pow2_pos(149);
    law_one();
    assert(units(0) == 0);
    law_number_line(a, a);
    law_number_line(b, b);
    law_number_line(q, q);
    if a.magnitude() > 0 {
        law_units_increase(0, a.magnitude());
    }
    if b.magnitude() > 0 {
        law_units_increase(0, b.magnitude());
    }
    if !q.nan() {
        law_clamped(q);
    }
    let undefined = a.nan() || b.nan() || (a.infinite() && b.infinite()) || (a.value() == 0
        && b.value() == 0);
    if undefined {
        assert(q.nan());
    } else if a.infinite() || b.value() == 0 {
        assert(q.infinite());
        law_units_increase(ONE_BITS as int, 0x7F80_0000);
    } else if b.infinite() {
    } else {
        let num = over(a.value(), b.value());
        if a.value() != 0 {
            let n = ua * p;
            assert(n >= 0) by (nonlinear_arith)
                requires
                    n == ua * p,
                    ua >= 0,
                    p > 0,
            ;
            law_rounded_nearest(n, ub);
            let m = rounded(n, ub);
            if m > 0 {
                law_units_increase(0, m);
            }
            law_rounded_self(ONE_BITS as int);
            if num > 0 {
                assert(!q.negative() && ua == num);
                if num >= ub {
                    assert(p * ub <= n * 1) by (nonlinear_arith)
                        requires
                            n == ua * p,
                            ua >= ub,
                            p > 0,
                    ;
                    law_rounded_ordered(p, 1, n, ub);
                    if m > ONE_BITS {
                        law_units_increase(ONE_BITS as int, m);
                    }
                } else {
                    assert(n * 1 <= p * ub) by (nonlinear_arith)
                        requires
                            n == ua * p,
                            ua < ub,
                            p > 0,
                    ;
                    law_rounded_ordered(n, ub, p, 1);
                    if m < ONE_BITS {
                        law_units_increase(m, ONE_BITS as int);
                    }
                    assert(r == q);
                    crate::laws::numbers::lemma_rounded_closest(n, ub);
                }
            }
        }
    }
}

/// The amounts and distances of a payload are shares of their scales, each by itself.
#[verifier::rlimit(40)]
#[verifier::spinoff_prover]
pub proof fn law_vectorize_amounts(
    p: &Payload,
    norm: &Normalization,
    mcc: &MccRisk,
    result: Result<[Single; DIMS], VectorizeError>,
)
    requires
        call_ensures(vectorize, (p, norm, mcc), result),
    ensures
        result matches Ok(v) ==> {
            &&& share(v@[0], p.transaction.amount, norm.max_amount)
            &&& share(v@[7], p.terminal.km_from_home, norm.max_km)
            &&& share(v@[13], p.merchant.avg_amount, norm.max_merchant_avg_amount)
            &&& p.last_transaction matches Some(last) ==> share(
                v@[6],
                last.km_from_current,
                norm.max_km,
            )
        },
{
    lemma_share(p.transaction.amount, norm.max_amount);
    lemma_share(p.terminal.km_from_home, norm.max_km);
    lemma_share(p.merchant.avg_amount, norm.max_merchant_avg_amount);
    if let Some(last) = p.last_transaction {
        lemma_share(last.km_from_current, norm.max_km);
    }
}

/// The counts of a payload are shares of their scales: `installments` and `count` are the numbers
/// that the counts convert to.
#[verifier::rlimit(40)]
#[verifier::spinoff_prover]
pub proof fn law_vectorize_counts(
    p: &Payload,
    norm: &Normalization,
    mcc: &MccRisk,
    result: Result<[Single; DIMS], VectorizeError>,
    installments: Single,
    count: Single,
)
    requires
        call_ensures(vectorize, (p, norm, mcc), result),
        call_ensures(Single::from_u32, (p.transaction.installments,), installments),
        call_ensures(Single::from_u32, (p.customer.tx_count_24h,), count),
    ensures
        result matches Ok(v) ==> {
            &&& share(v@[1], installments, norm.max_installments)
            &&& share(v@[8], count, norm.max_tx_count_24h)
        },
{
    lemma_share(installments, norm.max_installments);
    lemma_share(count, norm.max_tx_count_24h);
}

/// The amount over the customer's average, `ratio`, is a share of its scale.
#[verifier::rlimit(40)]
#[verifier::spinoff_prover]
pub proof fn law_vectorize_ratio(
    p: &Payload,
    norm: &Normalization,
    mcc: &MccRisk,
    result: Result<[Single; DIMS], VectorizeError>,
    ratio: Single,
)
    requires
        call_ensures(vectorize, (p, norm, mcc), result),
        call_ensures(Single::div, (p.transaction.amount, p.customer.avg_amount), ratio),
    ensures
        result matches Ok(v) ==> share(v@[2], ratio, norm.amount_vs_avg_ratio),
{
    lemma_share(ratio, norm.amount_vs_avg_ratio);
}

/// The time of the request: its hour is a share of 23 hours, its weekday of six days. `requested`
/// is the text of the time, and `now` what it parses to.
#[verifier::rlimit(40)]
#[verifier::spinoff_prover]
pub proof fn law_vectorize_time(
    p: &Payload,
    norm: &Normalization,
    mcc: &MccRisk,
    result: Result<[Single; DIMS], VectorizeError>,
    requested: &str,
    now: Utc,
    weekday: u32,
    hours: (Single, Single),
    days: (Single, Single),
)
    requires
        call_ensures(vectorize, (p, norm, mcc), result),
        requested@ == p.transaction.requested_at@,
        call_ensures(Utc::parse, (requested,), Ok::<Utc, ParseError>(now)),
        call_ensures(Utc::weekday_monday0, (&now,), weekday),
        call_ensures(Single::from_u32, (now.hour,), hours.0),
        call_ensures(Single::from_u32, (23u32,), hours.1),
        call_ensures(Single::from_u32, (weekday,), days.0),
        call_ensures(Single::from_u32, (6u32,), days.1),
    ensures
        result matches Ok(v) ==> share(v@[3], hours.0, hours.1) && share(v@[4], days.0, days.1),
{
    lemma_share(hours.0, hours.1);
    lemma_share(days.0, days.1);
    let q = days.0.quotient(days.1);
    crate::single::law_whole_ratio(weekday as int, 6);
    law_one();
    law_clamped(q);
    assert(unit(q) == q);
}

/// The time since the last transaction: the seconds between the two, as minutes, are a share of
/// their scale.
#[verifier::rlimit(40)]
#[verifier::spinoff_prover]
pub proof fn law_vectorize_minutes(
    p: &Payload,
    norm: &Normalization,
    mcc: &MccRisk,
    result: Result<[Single; DIMS], VectorizeError>,
    texts: (&str, &str),
    times: (Utc, Utc),
    seconds: (i64, i64),
    minutes: (Single, Single, Single),
)
    requires
        call_ensures(vectorize, (p, norm, mcc), result),
        p.last_transaction is Some,
        texts.0@ == p.transaction.requested_at@,
        texts.1@ == p.last_transaction->Some_0.timestamp@,
        call_ensures(Utc::parse, (texts.0,), Ok::<Utc, ParseError>(times.0)),
        call_ensures(Utc::parse, (texts.1,), Ok::<Utc, ParseError>(times.1)),
        call_ensures(Utc::unix_seconds, (&times.0,), seconds.0),
        call_ensures(Utc::unix_seconds, (&times.1,), seconds.1),
        call_ensures(Single::from_i64, ((seconds.0 - seconds.1) as i64,), minutes.0),
        call_ensures(Single::from_u32, (60u32,), minutes.1),
        call_ensures(Single::div, (minutes.0, minutes.1), minutes.2),
    ensures
        result matches Ok(v) ==> share(v@[5], minutes.2, norm.max_minutes),
{
    lemma_share(minutes.2, norm.max_minutes);
}

/// The yes-or-no dimensions are one for yes and zero for no, each by its own field: online, card
/// present, and a merchant that none of the known ones is.
#[verifier::rlimit(40)]
#[verifier::spinoff_prover]
pub proof fn law_vectorize_flags(
    p: &Payload,
    norm: &Normalization,
    mcc: &MccRisk,
    result: Result<[Single; DIMS], VectorizeError>,
)
    requires
        call_ensures(vectorize, (p, norm, mcc), result),
    ensures
        result matches Ok(v) ==> {
            let known = exists|i: int|
                0 <= i < p.customer.known_merchants@.len()
                    && #[trigger] p.customer.known_merchants@[i]@ == p.merchant.id@;
            &&& p.terminal.is_online ==> v@[9].bits == 0x3F80_0000
            &&& !p.terminal.is_online ==> v@[9].bits == 0
            &&& p.terminal.card_present ==> v@[10].bits == 0x3F80_0000
            &&& !p.terminal.card_present ==> v@[10].bits == 0
            &&& known ==> v@[11].bits == 0
            &&& !known ==> v@[11].bits == 0x3F80_0000
        },
{
    if result is Ok {
        let v = result->Ok_0@;
        lemma_flag_dimensions(*p, *norm, mcc@, v);
        assert(knows(p.customer, p.merchant.id@) <==> exists|i: int|
            0 <= i < p.customer.known_merchants@.len()
                && #[trigger] p.customer.known_merchants@[i]@ == p.merchant.id@);
    }
}

proof fn lemma_flag_dimensions(
    p: Payload,
    norm: Normalization,
    risks: Map<Seq<char>, Single>,
    v: Seq<Single>,
)
    requires
        vectorized(p, norm, risks) == Ok::<Seq<Single>, VectorizeError>(v),
    ensures
        v[9] == flag(p.terminal.is_online),
        v[10] == flag(p.terminal.card_present),
        v[11] == flag(!knows(p.customer, p.merchant.id@)),
{
    let now = parsed(encode_utf8(p.transaction.requested_at@))->Ok_0;
    let prev = match p.last_transaction {
        Some(last) => Some(parsed(encode_utf8(last.timestamp@))->Ok_0),
        None => None,
    };
    assert(v == dimensions(p, norm, risks, now, prev));
}

/// The risk of the merchant's category is the one that the table gives, brought into the unit
/// interval.
#[verifier::rlimit(40)]
#[verifier::spinoff_prover]
pub proof fn law_vectorize_risk(
    p: &Payload,
    norm: &Normalization,
    mcc: &MccRisk,
    result: Result<[Single; DIMS], VectorizeError>,
    code: &str,
    risk: Single,
)
    requires
        call_ensures(vectorize, (p, norm, mcc), result),
        code@ == p.merchant.mcc@,
        call_ensures(MccRisk::risk, (mcc, code), risk),
    ensures
        result matches Ok(v) ==> {
            &&& !risk.nan() && 0 <= risk.value() <= pow2(149) ==> v@[12] == risk
            &&& !risk.nan() && risk.value() > pow2(149) ==> v@[12].bits == 0x3F80_0000
            &&& risk.nan() || risk.value() < 0 ==> v@[12].bits == 0
        },
{
    law_one();
    assert(units(0) == 0);
    if !risk.nan() {
        law_clamped(risk);
    }
}

/// The dimensions of the last transaction are missing exactly when there is none; no other
/// dimension ever is.
pub proof fn law_vectorize_missing(
    p: &Payload,
    norm: &Normalization,
    mcc: &MccRisk,
    result: Result<[Single; DIMS], VectorizeError>,
    i: int,
)
    requires
        call_ensures(vectorize, (p, norm, mcc), result),
        0 <= i < 14,
    ensures
        result matches Ok(v) ==> (v@[i].bits % 0x8000_0000 > 0x7F80_0000 <==> (i == 5 || i == 6)
            && p.last_transaction is None),
{
    if result is Ok {
        crate::vectorize::law_dimensions_in_unit(*p, *norm, mcc@);
        law_number_line(result->Ok_0@[i], result->Ok_0@[i]);
    }
}

/// A payload is refused exactly when one of its timestamps does not parse, with the error of the
/// first that does not. `now` is what the time of the request parses to, and `prev` what the time
/// of the last transaction does.
#[verifier::rlimit(40)]
#[verifier::spinoff_prover]
pub proof fn law_vectorize_refusals(
    p: &Payload,
    norm: &Normalization,
    mcc: &MccRisk,
    result: Result<[Single; DIMS], VectorizeError>,
    texts: (&str, &str),
    now: Result<Utc, ParseError>,
    prev: Result<Utc, ParseError>,
)
    requires
        call_ensures(vectorize, (p, norm, mcc), result),
        texts.0@ == p.transaction.requested_at@,
        p.last_transaction matches Some(last) ==> texts.1@ == last.timestamp@,
        call_ensures(Utc::parse, (texts.0,), now),
        call_ensures(Utc::parse, (texts.1,), prev),
    ensures
        result is Ok <==> now is Ok && (p.last_transaction is None || prev is Ok),
        now matches Err(e) ==> result matches Err(VectorizeError::Timestamp(f)) && f == e,
        now is Ok && p.last_transaction is Some ==> (prev matches Err(e) ==> result matches Err(
            VectorizeError::Timestamp(f),
        ) && f == e),
{
}

/// A listed code has the risk that it is listed with, and one half is the risk of the others.
pub proof fn law_risk(mcc: &MccRisk, code: &str, risk: Single)
    requires
        call_ensures(MccRisk::risk, (mcc, code), risk),
    ensures
        mcc@.contains_key(code@) ==> risk == mcc@[code@],
        !mcc@.contains_key(code@) ==> 2 * risk.value() == pow2(149) && !risk.nan(),
{
    let p = pow2(149) as int;
    lemma_pow2_pos(149);
    law_one();
    if !mcc@.contains_key(code@) {
        vstd::arithmetic::power2::lemma2_to64();
        vstd::arithmetic::power2::lemma_pow2_unfold(149);
        vstd::arithmetic::power2::lemma_pow2_adds(23, 125);
        let half = pow2(148) as int;
        crate::single::law_whole_exact(1);
        crate::single::law_whole_exact(2);
        crate::single::lemma_whole_magnitude(1);
        crate::single::lemma_whole_magnitude(2);
        crate::rounding::lemma_units_of(125, 0x80_0000);
        let m: int = 0x3F00_0000;
        assert(125 * 0x80_0000 + 0x80_0000 == m);
        assert(units(m) == half);
        law_units_increase(m, m + 1);
        law_units_increase(m - 1, m);
        let num = (1 * p) * p;
        let den = 2 * p;
        let (low, high) = (units(m - 1) + units(m), units(m) + units(m + 1));
        assert(den * low < 2 * num < den * high) by (nonlinear_arith)
            requires
                num == (1 * p) * p,
                den == 2 * p,
                p == 2 * half,
                low < 2 * half < high,
                half > 0,
        ;
        assert(crate::rounding::nearest(num, den, m));
        crate::rounding::law_rounded_is(num, den, m);
    }
}

/// Listing a code gives it that risk and leaves the other codes as they were; a code is half a
/// risk only while it is not listed.
pub proof fn law_risk_listed(
    table: Map<Seq<char>, Single>,
    code: Seq<char>,
    risk: Single,
    other: Seq<char>,
)
    ensures
        risk_of(table.insert(code, risk), code) == risk,
        other != code ==> risk_of(table.insert(code, risk), other) == risk_of(table, other),
        risk_of(Map::empty(), code) == risk_of(Map::empty(), other),
        table.contains_key(code) ==> risk_of(table, code) == table[code],
{
}

/// A lane is the sentinel for NaN and only then; otherwise it is a whole number of hundredths,
/// nearest to the value but for the rounding of the product: at most half a hundredth and a
/// `2^-18`-th of one away. Values of one and more give one hundred, and those of zero and less
/// give zero. The bytes after the last dimension are zero.
pub proof fn law_quantize_lanes(v: &[Single; DIMS], out: [i8; PAD], i: int)
    requires
        call_ensures(quantize, (v,), out),
        0 <= i < 14,
    ensures
        out@[i] == -1 <==> v@[i].bits % 0x8000_0000 > 0x7F80_0000,
        !v@[i].nan() ==> 0 <= out@[i] <= 100,
        !v@[i].nan() && v@[i].value() >= pow2(149) ==> out@[i] == 100,
        !v@[i].nan() && v@[i].value() <= 0 ==> out@[i] == 0,
        !v@[i].nan() && 0 <= v@[i].value() <= pow2(149) ==> 2 * gap(
            out@[i] * pow2(149),
            100 * v@[i].value(),
        ) <= pow2(149) + pow2(132),
        out@[14] == 0 && out@[15] == 0,
{
    law_quantized_vector(v@);
    law_quantized_range(v@[i]);
    law_number_line(v@[i], v@[i]);
    if !v@[i].nan() {
        let x = v@[i];
        law_one();
        crate::single::law_clamped(x);
        lemma_quantized_ends();
        assert(units(0) == 0);
        lemma_pow2_pos(149);
        if x.value() >= pow2(149) {
            law_quantized_ordered(crate::single::one(), x);
        }
        if x.value() <= 0 {
            law_quantized_ordered(x, crate::single::nought());
        }
        if 0 <= x.value() <= pow2(149) {
            law_quantization_error(x);
        }
    }
}

/// One quantizes to one hundred, and zero to zero.
proof fn lemma_quantized_ends()
    ensures
        quantized(crate::single::one()) == 100,
        quantized(crate::single::nought()) == 0,
{
    let p = pow2(149) as int;
    lemma_pow2_pos(149);
    law_one();
    assert(units(0) == 0);
    vstd::arithmetic::power2::lemma_pow2_strictly_increases(132, 149);
    law_quantized_range(crate::single::one());
    law_quantized_range(crate::single::nought());
    law_quantization_error(crate::single::one());
    law_quantization_error(crate::single::nought());
    let (a, b) = (quantized(crate::single::one()), quantized(crate::single::nought()));
    assert(a >= 100) by (nonlinear_arith)
        requires
            2 * (a * p - 100 * p) > -2 * p,
            p > 0,
    ;
    assert(b <= 0) by (nonlinear_arith)
        requires
            2 * (b * p) < 2 * p,
            p > 0,
    ;
}

/// Lanes keep the order of the values, whatever their positions and whatever stands beside them:
/// of two vectors, a smaller value does not get a larger lane, and equal values get equal lanes.
pub proof fn law_quantize_ordered(
    v: &[Single; DIMS],
    w: &[Single; DIMS],
    out_v: [i8; PAD],
    out_w: [i8; PAD],
    i: int,
    j: int,
)
    requires
        call_ensures(quantize, (v,), out_v),
        call_ensures(quantize, (w,), out_w),
        0 <= i < 14,
        0 <= j < 14,
        !v@[i].nan(),
        !w@[j].nan(),
    ensures
        v@[i].value() <= w@[j].value() ==> out_v@[i] <= out_w@[j],
        v@[i].value() == w@[j].value() ==> out_v@[i] == out_w@[j],
{
    law_quantized_vector(v@);
    law_quantized_vector(w@);
    if v@[i].value() <= w@[j].value() {
        law_quantized_ordered(v@[i], w@[j]);
    }
    if w@[j].value() <= v@[i].value() {
        law_quantized_ordered(w@[j], v@[i]);
    }
}

/// Hundredths are exact: `q` over one hundred quantizes to `q`.
pub proof fn law_quantize_hundredths(
    v: &[Single; DIMS],
    out: [i8; PAD],
    i: int,
    q: u32,
    parts: (Single, Single),
)
    requires
        call_ensures(quantize, (v,), out),
        0 <= i < 14,
        q <= 100,
        call_ensures(Single::from_u32, (q,), parts.0),
        call_ensures(Single::from_u32, (100u32,), parts.1),
        call_ensures(Single::div, parts, v@[i]),
    ensures
        out@[i] == q,
{
    law_quantized_vector(v@);
    law_hundredths(q as int);
}

/// A lane is one hundred times the clamped value, multiplied and rounded as numbers are.
pub proof fn law_quantize_exact(
    v: &[Single; DIMS],
    out: [i8; PAD],
    i: int,
    clamped: Single,
    hundred: Single,
    scaled: Single,
    lane: i8,
)
    requires
        call_ensures(quantize, (v,), out),
        0 <= i < 14,
        !v@[i].nan(),
        call_ensures(Single::clamp_unit, (v@[i],), clamped),
        call_ensures(Single::from_u32, (100u32,), hundred),
        call_ensures(Single::mul, (clamped, hundred), scaled),
        call_ensures(Single::round_to_i8, (scaled,), lane),
    ensures
        out@[i] == lane,
{
    law_quantized_vector(v@);
}

} // verus!
