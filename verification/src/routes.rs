//! What the two endpoints answer: readiness, and the decision on a transaction.

use vstd::prelude::*;

use crate::dataset::{count_true, holds, labels_at, Artifacts, Reference};
use crate::error::ApiError;
use crate::format::{lanes, REFS_HEADER_LEN};
use crate::quantize::{quantize, quantized_vector};
use crate::search::{
    all_quantized, five_least, knn5, marked, neighbours, occupied, occupied_score, score,
};
use crate::single::Single;
use crate::state::AppState;
use crate::vectorize::{vectorize, vectorized, Payload};
use crate::PAD;

verus! {

/// Status of an answered request.
pub const STATUS_OK: u16 = 200;

/// Status of the readiness endpoint before the state is ready.
pub const STATUS_SERVICE_UNAVAILABLE: u16 = 503;

/// Neighbours that must be marked for a transaction to be refused.
pub const REFUSAL_COUNT: u32 = 3;

/// Status of the readiness endpoint.
#[must_use]
pub fn ready(state: &AppState<'_>) -> (status: u16)
    ensures
        status == (if state.ready {
            STATUS_OK
        } else {
            STATUS_SERVICE_UNAVAILABLE
        }),
{
    if state.is_ready() {
        STATUS_OK
    } else {
        STATUS_SERVICE_UNAVAILABLE
    }
}

/// The decision on a transaction: it is approved while its fraud score is below three fifths.
#[derive(Debug, Clone, Copy, PartialEq, Eq, Structural)]
pub struct FraudScoreResponse {
    pub approved: bool,
    pub fraud_score: Single,
}

/// The indices of neighbours.
pub open spec fn indices(top: Seq<(i32, u32)>) -> Seq<u32> {
    Seq::new(top.len(), |k: int| top[k].1)
}

/// The nearest vectors of a transaction: five, or all of a smaller dataset.
pub open spec fn nearest_neighbours(avx2: bool, v: Seq<Single>, rows: Seq<i8>) -> Seq<(i32, u32)> {
    five_least(neighbours(avx2, quantized_vector(v), rows)).take(
        occupied((rows.len() / PAD as nat) as int),
    )
}

/// How many of the nearest vectors are labelled as fraud.
pub open spec fn fraud_neighbours(
    avx2: bool,
    v: Seq<Single>,
    rows: Seq<i8>,
    labels: Seq<u8>,
) -> int {
    marked(indices(nearest_neighbours(avx2, v, rows)), labels)
}

/// The answer for a vectorized transaction.
pub open spec fn answer(
    avx2: bool,
    v: Seq<Single>,
    rows: Seq<i8>,
    labels: Seq<u8>,
) -> FraudScoreResponse {
    let s = score(fraud_neighbours(avx2, v, rows, labels));
    FraudScoreResponse { approved: s.less(score(REFUSAL_COUNT as int)), fraud_score: s }
}

/// Decide on a request. `payload` is what the body parsed to, if it did; `avx2` tells whether the
/// machine has the batched kernel. Every validated dataset gives an answer: where it has fewer than
/// five vectors, only those vote.
pub fn fraud_score_handler(state: &AppState<'_>, payload: Option<&Payload>, avx2: bool) -> (result:
    Result<FraudScoreResponse, ApiError>)
    requires
        state.wf(),
    ensures
        match payload {
            None => result == Err::<FraudScoreResponse, ApiError>(ApiError::BadRequest),
            Some(p) => match vectorized(*p, state.norm, state.mcc@) {
                Err(_) => result == Err::<FraudScoreResponse, ApiError>(ApiError::BadRequest),
                Ok(v) => result == Ok::<FraudScoreResponse, ApiError>(
                    answer(avx2, v, state.rows@, state.labels@),
                ),
            },
        },
{
    let payload = match payload {
        Some(p) => p,
        None => return Err(ApiError::BadRequest),
    };
    let v = match vectorize(payload, &state.norm, &state.mcc) {
        Ok(v) => v,
        Err(_) => return Err(ApiError::BadRequest),
    };
    let q = quantize(&v);
    let rows = state.refs_i8();
    let top = knn5(&q, rows, avx2);
    let labels = state.labels_bits();
    let slots: usize = if state.n < 5 {
        state.n as usize
    } else {
        5
    };
    proof {
        crate::search::law_exact_five_nearest(avx2, q@, rows@, top@);
        assert(rows@.len() / PAD as nat == state.n);
        assert forall|k: int| 0 <= k < slots implies #[trigger] top.idx[k] / 8 < labels@.len() by {
            assert(top@[k].1 < state.n);
        }
        assert(indices(top@.take(slots as int)) =~= top.idx@.take(slots as int));
    }
    let s = occupied_score(&top, slots, labels);
    let limit = Single::from_u32(REFUSAL_COUNT).div(Single::from_u32(5));
    Ok(FraudScoreResponse { approved: s.lt(limit), fraud_score: s })
}

/// The number of fraud neighbours is between zero and five, the score is that many fifths, and the
/// transaction is approved exactly when there are at most two.
pub proof fn law_decision(avx2: bool, v: Seq<Single>, rows: Seq<i8>, labels: Seq<u8>)
    requires
        rows.len() / PAD as nat <= 0x1_0000_0000,
    ensures
        0 <= fraud_neighbours(avx2, v, rows, labels) <= occupied((rows.len() / PAD as nat) as int),
        answer(avx2, v, rows, labels).fraud_score == score(
            fraud_neighbours(avx2, v, rows, labels),
        ),
        answer(avx2, v, rows, labels).approved <==> fraud_neighbours(avx2, v, rows, labels) <= 2,
{
    let top = five_least(neighbours(avx2, quantized_vector(v), rows));
    crate::search::law_exact_five_nearest(avx2, quantized_vector(v), rows, top);
    crate::search::law_marked_bound(indices(nearest_neighbours(avx2, v, rows)), labels);
    crate::search::law_score_steps(fraud_neighbours(avx2, v, rows, labels), REFUSAL_COUNT as int);
}

/// On a quantized dataset the answer does not depend on the kernel.
pub proof fn law_kernel_invisible(v: Seq<Single>, rows: Seq<i8>, labels: Seq<u8>)
    requires
        all_quantized(rows),
    ensures
        answer(true, v, rows, labels) == answer(false, v, rows, labels),
{
    crate::quantize::law_quantized_vector(v);
    crate::search::law_kernels_agree(quantized_vector(v), rows);
}

/// On a dataset that was built, the decision counts the fraud labels of the nearest entries,
/// whichever kernel runs.
pub proof fn law_built_decision(
    avx2: bool,
    v: Seq<Single>,
    built: Artifacts,
    entries: Seq<Reference>,
)
    requires
        holds(built, entries),
        entries.len() <= u32::MAX,
    ensures
        ({
            let rows = lanes(built.refs@.skip(REFS_HEADER_LEN as int));
            let nearest = indices(nearest_neighbours(false, v, rows));
            let k = count_true(labels_at(entries, nearest));
            &&& nearest.len() == occupied(entries.len() as int)
            &&& forall|j: int| 0 <= j < nearest.len() ==> (#[trigger] nearest[j]) < entries.len()
            &&& answer(avx2, v, rows, built.labels@).fraud_score == score(k)
            &&& answer(avx2, v, rows, built.labels@).approved <==> k <= 2
        }),
{
    let rows = lanes(built.refs@.skip(REFS_HEADER_LEN as int));
    let top = five_least(neighbours(false, quantized_vector(v), rows));
    let nearest = indices(nearest_neighbours(false, v, rows));
    crate::dataset::law_built_size(built, entries);
    assert(rows.len() / PAD as nat == entries.len());
    crate::dataset::law_built_quantized(built, entries);
    law_kernel_invisible(v, rows, built.labels@);
    crate::search::law_exact_five_nearest(false, quantized_vector(v), rows, top);
    assert forall|j: int| 0 <= j < nearest.len() implies (#[trigger] nearest[j]) < entries.len() by {
        assert(top[j].1 < entries.len());
    }
    crate::dataset::law_built_marked(built, entries, nearest);
    law_decision(false, v, rows, built.labels@);
}

} // verus!
