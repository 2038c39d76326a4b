//! Vectorization of a transaction payload into fourteen dimensions.
//!
//! Every dimension lies in the unit interval, except that dimensions 5 and 6 are NaN when the
//! payload has no last transaction; quantization turns those into the sentinel.

use vstd::arithmetic::power2::lemma_pow2_pos;
use vstd::hash_map::StringHashMap;
use vstd::prelude::*;
use vstd::std_specs::convert::FromSpecImpl;
use vstd::string::StringExecFns;
use vstd::utf8::encode_utf8;

use crate::datetime::{parsed, weekday, ParseError, Utc};
use crate::quantize::quantized_vector;
use crate::rounding::units;
use crate::single::{nought, one, Single, NAN_BITS, ONE_BITS};
use crate::{DIMS, SENTINEL_I8};

verus! {

/// Scales of the dimensions.
#[derive(Debug, Clone, Copy)]
pub struct Normalization {
    pub max_amount: Single,
    pub max_installments: Single,
    pub amount_vs_avg_ratio: Single,
    pub max_minutes: Single,
    pub max_km: Single,
    pub max_tx_count_24h: Single,
    pub max_merchant_avg_amount: Single,
}

/// Risk by merchant category code, one half for codes that are not listed.
pub struct MccRisk {
    table: StringHashMap<Single>,
}

impl View for MccRisk {
    type V = Map<Seq<char>, Single>;

    closed spec fn view(&self) -> Map<Seq<char>, Single> {
        self.table@
    }
}

/// The risk of a code under a table.
pub open spec fn risk_of(table: Map<Seq<char>, Single>, mcc: Seq<char>) -> Single {
    if table.contains_key(mcc) {
        table[mcc]
    } else {
        Single::of_int(1).quotient(Single::of_int(2))
    }
}

impl Default for MccRisk {
    /// An empty table.
    fn default() -> (table: Self)
        ensures
            table@ == Map::<Seq<char>, Single>::empty(),
    {
        MccRisk { table: StringHashMap::new() }
    }
}

impl MccRisk {
    /// List a code, in place of an earlier entry for it.
    pub fn insert(&mut self, mcc: String, risk: Single)
        ensures
            final(self)@ == old(self)@.insert(mcc@, risk),
            risk_of(final(self)@, mcc@) == risk,
            forall|code: Seq<char>|
                code != mcc@ ==> #[trigger] risk_of(final(self)@, code) == risk_of(
                    old(self)@,
                    code,
                ),
    {
        self.table.insert(mcc, risk);
    }

    /// The risk of a code.
    #[must_use]
    pub fn risk(&self, mcc: &str) -> (risk: Single)
        ensures
            risk == risk_of(self@, mcc@),
    {
        match self.table.get(mcc) {
            Some(risk) => *risk,
            None => Single::from_u32(1).div(Single::from_u32(2)),
        }
    }

    /// Number of listed codes.
    #[must_use]
    pub fn len(&self) -> (n: usize)
        ensures
            n == self@.len(),
    {
        self.table.len()
    }

    /// Whether no code is listed.
    #[must_use]
    pub fn is_empty(&self) -> (empty: bool)
        ensures
            empty == self@.is_empty(),
    {
        self.table.is_empty()
    }
}

/// A transaction to score, with what is known around it.
#[derive(Debug, Clone)]
pub struct Payload {
    pub id: String,
    pub transaction: Transaction,
    pub customer: Customer,
    pub merchant: Merchant,
    pub terminal: Terminal,
    pub last_transaction: Option<LastTransaction>,
}

/// The transaction itself.
#[derive(Debug, Clone)]
pub struct Transaction {
    pub amount: Single,
    pub installments: u32,
    pub requested_at: String,
}

/// The customer's history.
#[derive(Debug, Clone)]
pub struct Customer {
    pub avg_amount: Single,
    pub tx_count_24h: u32,
    pub known_merchants: Vec<String>,
}

/// The merchant.
#[derive(Debug, Clone)]
pub struct Merchant {
    pub id: String,
    pub mcc: String,
    pub avg_amount: Single,
}

/// The terminal.
#[derive(Debug, Clone, Copy)]
pub struct Terminal {
    pub is_online: bool,
    pub card_present: bool,
    pub km_from_home: Single,
}

/// The customer's transaction before this one.
#[derive(Debug, Clone)]
pub struct LastTransaction {
    pub timestamp: String,
    pub km_from_current: Single,
}

/// Why a payload cannot be vectorized.
#[derive(Debug, Clone)]
pub enum VectorizeError {
    /// A timestamp does not parse.
    Timestamp(ParseError),
}

impl VectorizeError {
    /// The text of the error.
    pub open spec fn text(self) -> Seq<char> {
        match self {
            VectorizeError::Timestamp(e) => "invalid timestamp: "@ + e.text(),
        }
    }

    /// The text of the error.
    #[must_use]
    pub fn message(&self) -> (text: String)
        ensures
            text@ == self.text(),
    {
        match self {
            VectorizeError::Timestamp(e) => {
                let mut text: String = "invalid timestamp: ".to_owned();
                text.append(e.message().as_str());
                text
            },
        }
    }
}

impl From<ParseError> for VectorizeError {
    fn from(e: ParseError) -> (r: Self) {
        VectorizeError::Timestamp(e)
    }
}

impl FromSpecImpl<ParseError> for VectorizeError {
    open spec fn obeys_from_spec() -> bool {
        true
    }

    open spec fn from_spec(e: ParseError) -> Self {
        VectorizeError::Timestamp(e)
    }
}

/// The nearest number of the unit interval; NaN collapses to zero.
pub open spec fn unit(x: Single) -> Single {
    if x.nan() {
        nought()
    } else {
        x.clamped()
    }
}

/// One for true, zero for false.
pub open spec fn flag(b: bool) -> Single {
    if b {
        one()
    } else {
        nought()
    }
}

/// Minutes between two timestamps.
pub open spec fn minutes_between(now: Utc, prev: Utc) -> Single {
    Single::of_int(now.seconds() - prev.seconds()).quotient(Single::of_int(60))
}

/// The merchant is one that the customer has dealt with.
pub open spec fn knows(customer: Customer, merchant: Seq<char>) -> bool {
    exists|i: int|
        0 <= i < customer.known_merchants@.len() && #[trigger] customer.known_merchants@[i]@
            == merchant
}

/// The dimensions of a payload requested at `now`; `prev` is the time of the last transaction.
pub open spec fn dimensions(
    p: Payload,
    norm: Normalization,
    risks: Map<Seq<char>, Single>,
    now: Utc,
    prev: Option<Utc>,
) -> Seq<Single> {
    seq![
        unit(p.transaction.amount.quotient(norm.max_amount)),
        unit(Single::of_int(p.transaction.installments as int).quotient(norm.max_installments)),
        unit(
            p.transaction.amount.quotient(p.customer.avg_amount).quotient(norm.amount_vs_avg_ratio),
        ),
        unit(Single::of_int(now.hour as int).quotient(Single::of_int(23))),
        Single::of_int(weekday(now.year as int, now.month as int, now.day as int)).quotient(
            Single::of_int(6),
        ),
        match prev {
            Some(t) => unit(minutes_between(now, t).quotient(norm.max_minutes)),
            None => Single { bits: NAN_BITS },
        },
        match p.last_transaction {
            Some(last) => unit(last.km_from_current.quotient(norm.max_km)),
            None => Single { bits: NAN_BITS },
        },
        unit(p.terminal.km_from_home.quotient(norm.max_km)),
        unit(Single::of_int(p.customer.tx_count_24h as int).quotient(norm.max_tx_count_24h)),
        flag(p.terminal.is_online),
        flag(p.terminal.card_present),
        flag(!knows(p.customer, p.merchant.id@)),
        unit(risk_of(risks, p.merchant.mcc@)),
        unit(p.merchant.avg_amount.quotient(norm.max_merchant_avg_amount)),
    ]
}

/// What vectorizing a payload gives: its dimensions, or the error of the first timestamp that does
/// not parse.
pub open spec fn vectorized(
    p: Payload,
    norm: Normalization,
    risks: Map<Seq<char>, Single>,
) -> Result<Seq<Single>, VectorizeError> {
    match parsed(encode_utf8(p.transaction.requested_at@)) {
        Err(e) => Err(VectorizeError::Timestamp(e)),
        Ok(now) => match p.last_transaction {
            None => Ok(dimensions(p, norm, risks, now, None)),
            Some(last) => match parsed(encode_utf8(last.timestamp@)) {
                Err(e) => Err(VectorizeError::Timestamp(e)),
                Ok(prev) => Ok(dimensions(p, norm, risks, now, Some(prev))),
            },
        },
    }
}

/// The nearest number of the unit interval; NaN collapses to zero, so that only a missing last
/// transaction leaves a NaN in the vector.
fn clamp01(x: Single) -> (r: Single)
    ensures
        r == unit(x),
{
    if x.is_nan() {
        Single { bits: 0 }
    } else {
        x.clamp_unit()
    }
}

fn flag_value(b: bool) -> (r: Single)
    ensures
        r == flag(b),
{
    if b {
        Single { bits: ONE_BITS }
    } else {
        Single { bits: 0 }
    }
}

/// Apply the formulas of the fourteen dimensions.
pub fn vectorize(payload: &Payload, norm: &Normalization, mcc: &MccRisk) -> (result: Result<
    [Single; DIMS],
    VectorizeError,
>)
    ensures
        match result {
            Ok(v) => vectorized(*payload, *norm, mcc@) == Ok::<Seq<Single>, VectorizeError>(v@),
            Err(e) => vectorized(*payload, *norm, mcc@) == Err::<Seq<Single>, VectorizeError>(e),
        },
{
    let now = match Utc::parse(payload.transaction.requested_at.as_str()) {
        Ok(t) => t,
        Err(e) => return Err(VectorizeError::from(e)),
    };
    let mut v: [Single; DIMS] = [Single { bits: 0 }; DIMS];

    v[0] = clamp01(payload.transaction.amount.div(norm.max_amount));
    v[1] = clamp01(Single::from_u32(payload.transaction.installments).div(norm.max_installments));
    v[2] = clamp01(
        payload.transaction.amount.div(payload.customer.avg_amount).div(norm.amount_vs_avg_ratio),
    );
    v[3] = clamp01(Single::from_u32(now.hour).div(Single::from_u32(23)));
    v[4] = Single::from_u32(now.weekday_monday0()).div(Single::from_u32(6));

    let ghost mut before: Option<Utc> = None;
    if let Some(last) = &payload.last_transaction {
        let prev = match Utc::parse(last.timestamp.as_str()) {
            Ok(t) => t,
            Err(e) => return Err(VectorizeError::from(e)),
        };
        proof {
            before = Some(prev);
        }
        let delta: i64 = now.unix_seconds() - prev.unix_seconds();
        let minutes = Single::from_i64(delta).div(Single::from_u32(60));
        v[5] = clamp01(minutes.div(norm.max_minutes));
        v[6] = clamp01(last.km_from_current.div(norm.max_km));
    } else {
        v[5] = Single { bits: NAN_BITS };
        v[6] = Single { bits: NAN_BITS };
    }

    v[7] = clamp01(payload.terminal.km_from_home.div(norm.max_km));
    v[8] = clamp01(Single::from_u32(payload.customer.tx_count_24h).div(norm.max_tx_count_24h));
    v[9] = flag_value(payload.terminal.is_online);
    v[10] = flag_value(payload.terminal.card_present);
    v[11] = flag_value(!is_known(&payload.customer, &payload.merchant.id));
    v[12] = clamp01(mcc.risk(payload.merchant.mcc.as_str()));
    v[13] = clamp01(payload.merchant.avg_amount.div(norm.max_merchant_avg_amount));

    assert(v@ =~= dimensions(*payload, *norm, mcc@, now, before));
    Ok(v)
}

fn is_known(customer: &Customer, merchant: &String) -> (known: bool)
    ensures
        known == knows(*customer, merchant@),
{
    let mut i: usize = 0;
    while i < customer.known_merchants.len()
        invariant
            i <= customer.known_merchants@.len(),
            forall|k: int| 0 <= k < i ==> #[trigger] customer.known_merchants@[k]@ != merchant@,
        decreases customer.known_merchants@.len() - i,
    {
        if customer.known_merchants[i] == *merchant {
            assert(customer.known_merchants@[i as int]@ == merchant@);
            return true;
        }
        i = i + 1;
    }
    false
}

/// A number of the unit interval, not NaN.
pub open spec fn in_unit(x: Single) -> bool {
    !x.nan() && 0 <= x.value() <= one().value()
}

proof fn lemma_unit(x: Single)
    ensures
        in_unit(unit(x)),
{
    crate::single::law_one();
    assert(units(0) == 0);
    lemma_pow2_pos(149);
    if !x.nan() {
        crate::single::law_clamped(x);
    }
}

/// Every dimension is a number of the unit interval, except that dimensions 5 and 6 are NaN
/// exactly when there is no last transaction.
pub proof fn law_dimensions_in_unit(p: Payload, norm: Normalization, risks: Map<Seq<char>, Single>)
    requires
        vectorized(p, norm, risks) is Ok,
    ensures
        vectorized(p, norm, risks)->Ok_0.len() == DIMS,
        forall|i: int|
            0 <= i < DIMS ==> (if (i == 5 || i == 6) && p.last_transaction is None {
                (#[trigger] vectorized(p, norm, risks)->Ok_0[i]).nan()
            } else {
                in_unit(vectorized(p, norm, risks)->Ok_0[i])
            }),
{
    let now = parsed(encode_utf8(p.transaction.requested_at@))->Ok_0;
    let prev = match p.last_transaction {
        Some(last) => Some(parsed(encode_utf8(last.timestamp@))->Ok_0),
        None => None,
    };
    let d = dimensions(p, norm, risks, now, prev);
    assert(vectorized(p, norm, risks)->Ok_0 == d);
    crate::single::law_one();
    assert(units(0) == 0);
    lemma_pow2_pos(149);
    let w = weekday(now.year as int, now.month as int, now.day as int);
    crate::single::law_whole_ratio(w, 6);
    assert(in_unit(one()) && in_unit(nought()));
    assert forall|i: int| 0 <= i < DIMS implies (if (i == 5 || i == 6)
        && p.last_transaction is None {
        (#[trigger] d[i]).nan()
    } else {
        in_unit(d[i])
    }) by {
        lemma_unit(p.transaction.amount.quotient(norm.max_amount));
        lemma_unit(
            Single::of_int(p.transaction.installments as int).quotient(norm.max_installments),
        );
        lemma_unit(
            p.transaction.amount.quotient(p.customer.avg_amount).quotient(norm.amount_vs_avg_ratio),
        );
        lemma_unit(Single::of_int(now.hour as int).quotient(Single::of_int(23)));
        if let Some(t) = prev {
            lemma_unit(minutes_between(now, t).quotient(norm.max_minutes));
        }
        if let Some(last) = p.last_transaction {
            lemma_unit(last.km_from_current.quotient(norm.max_km));
        }
        lemma_unit(p.terminal.km_from_home.quotient(norm.max_km));
        lemma_unit(Single::of_int(p.customer.tx_count_24h as int).quotient(norm.max_tx_count_24h));
        lemma_unit(risk_of(risks, p.merchant.mcc@));
        lemma_unit(p.merchant.avg_amount.quotient(norm.max_merchant_avg_amount));
    }
}

/// In the quantized vector of a payload the sentinel stands at dimensions 5 and 6 when there is no
/// last transaction, and nowhere else.
pub proof fn law_sentinel_marks_no_history(
    p: Payload,
    norm: Normalization,
    risks: Map<Seq<char>, Single>,
    i: int,
)
    requires
        vectorized(p, norm, risks) is Ok,
        0 <= i < DIMS,
    ensures
        quantized_vector(vectorized(p, norm, risks)->Ok_0)[i] == SENTINEL_I8 <==> (i == 5 || i == 6)
            && p.last_transaction is None,
{
    law_dimensions_in_unit(p, norm, risks);
    crate::quantize::law_quantized_vector(vectorized(p, norm, risks)->Ok_0);
}

/// Clamping does not move a number of the unit interval.
pub proof fn law_unit_keeps(x: Single)
    requires
        in_unit(x),
    ensures
        unit(x) == x,
{
    crate::single::law_one();
    crate::single::law_clamped(x);
}

} // verus!
