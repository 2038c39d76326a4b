//! Readiness and decisions, on a synthetic dataset of ten thousand vectors.

use fraud_knn::dataset::Reference;
use fraud_knn::routes::{fraud_score_handler, ready, FraudScoreResponse};
use fraud_knn::state::ArtifactError;
use fraud_knn::{
    build, label_bit, load_state, quantize, vectorize, warmup, write_references_header, ApiError,
    AppState, Customer, LabelBitsetWriter, LastTransaction, MccRisk, Merchant, Normalization,
    Payload, RefBytes, Single, Terminal, Transaction, DIMS, PAD, REFS_HEADER_LEN,
};

const N: usize = 10_000;

fn of(x: f32) -> Single {
    Single { bits: x.to_bits() }
}

fn xorshift(state: &mut u64) -> u64 {
    let mut x = *state;
    x ^= x << 13;
    x ^= x >> 7;
    x ^= x << 17;
    *state = x;
    x
}

fn xorshift_unit(state: &mut u64) -> f32 {
    ((xorshift(state) >> 11) as f32) / ((1_u64 << 53) as f32)
}

fn synthetic_dataset(n: usize, mut seed: u64) -> (Vec<u8>, Vec<u8>) {
    let mut refs = Vec::with_capacity(REFS_HEADER_LEN + n * PAD);
    write_references_header(&mut refs, n as u64);
    let mut label_writer = LabelBitsetWriter::new(Vec::with_capacity(n.div_ceil(8)));
    for i in 0..n {
        let mut v = [of(0.0); DIMS];
        for slot in &mut v {
            *slot = of(xorshift_unit(&mut seed));
        }
        if i % 7 == 0 {
            v[5] = of(f32::NAN);
            v[6] = of(f32::NAN);
        }
        let q = quantize(&v);
        refs.extend(q.iter().map(|b| *b as u8));
        label_writer.push(i % 3 == 0);
    }
    let labels = label_writer.finish();
    (refs, labels)
}

fn scales() -> Normalization {
    Normalization {
        max_amount: of(10_000.0),
        max_installments: of(12.0),
        amount_vs_avg_ratio: of(10.0),
        max_minutes: of(1440.0),
        max_km: of(1000.0),
        max_tx_count_24h: of(20.0),
        max_merchant_avg_amount: of(10_000.0),
    }
}

fn risk_table() -> MccRisk {
    let mut m = MccRisk::default();
    for (mcc, risk) in [
        ("5411", 0.15),
        ("5812", 0.30),
        ("5912", 0.20),
        ("5944", 0.45),
        ("7801", 0.80),
        ("7802", 0.75),
        ("7995", 0.85),
        ("4511", 0.35),
        ("5311", 0.25),
        ("5999", 0.50),
    ] {
        m.insert(mcc.to_string(), of(risk));
    }
    m
}

fn state_of(refs: Vec<u8>, labels: Vec<u8>) -> AppState<'static> {
    match load_state(RefBytes::Owned(refs), RefBytes::Owned(labels), scales(), risk_table()) {
        Ok(state) => state,
        Err(e) => panic!("{e:?}"),
    }
}

fn serving_state() -> AppState<'static> {
    let (refs, labels) = synthetic_dataset(N, 0xCAFE_F00D);
    let mut state = state_of(refs, labels);
    state.mark_ready();
    state
}

fn happy_payload() -> Payload {
    Payload {
        id: "tx-1329056812".to_string(),
        transaction: Transaction {
            amount: of(41.12),
            installments: 2,
            requested_at: "2026-03-11T18:45:53Z".to_string(),
        },
        customer: Customer {
            avg_amount: of(82.24),
            tx_count_24h: 3,
            known_merchants: vec!["MERC-003".to_string(), "MERC-016".to_string()],
        },
        merchant: Merchant {
            id: "MERC-016".to_string(),
            mcc: "5411".to_string(),
            avg_amount: of(60.25),
        },
        terminal: Terminal { is_online: false, card_present: true, km_from_home: of(29.23) },
        last_transaction: None,
    }
}

/// The decision by sorting all distances.
fn by_sorting(state: &AppState<'_>, p: &Payload) -> FraudScoreResponse {
    let q = quantize(&vectorize(p, &state.norm, &state.mcc).unwrap());
    let bytes = &state.refs.as_slice()[REFS_HEADER_LEN..];
    let mut all: Vec<(i32, usize)> = bytes
        .chunks_exact(PAD)
        .enumerate()
        .map(|(i, row)| {
            let mut d = 0;
            for k in 0..PAD {
                let diff = i32::from(q[k]) - i32::from(row[k] as i8);
                d += diff * diff;
            }
            (d, i)
        })
        .collect();
    all.sort_unstable();
    let count = all[..5].iter().filter(|e| label_bit(state.labels.as_slice(), e.1)).count();
    FraudScoreResponse { approved: count <= 2, fraud_score: of(count as f32 / 5.0) }
}

#[test]
fn ready_flips_to_200_after_mark_ready() {
    let mut buf = Vec::new();
    write_references_header(&mut buf, 0);
    let mut state = state_of(buf, Vec::new());
    assert!(!state.is_ready());
    assert_eq!(ready(&state), 503);
    state.mark_ready();
    assert!(state.is_ready());
    assert_eq!(ready(&state), 200);
}

#[test]
fn happy_path_returns_well_formed_response() {
    let state = serving_state();
    let answer = fraud_score_handler(&state, Some(&happy_payload()), true).unwrap();
    let score = f32::from_bits(answer.fraud_score.bits);
    assert!((0.0..=1.0).contains(&score), "fraud_score out of range: {score}");
    assert_eq!(answer.approved, score < 0.6);
    let s5 = (score * 5.0).round();
    assert!((s5 - score * 5.0).abs() < 1e-3, "score not n/5: {score}");
    assert_eq!(answer, by_sorting(&state, &happy_payload()));
}

#[test]
fn last_transaction_null_path() {
    let state = serving_state();
    let mut payload = happy_payload();
    payload.last_transaction = None;
    assert!(fraud_score_handler(&state, Some(&payload), true).is_ok());
}

#[test]
fn unknown_mcc_uses_default_risk() {
    let state = serving_state();
    let mut payload = happy_payload();
    payload.merchant.mcc = "9999".to_string();
    assert!(fraud_score_handler(&state, Some(&payload), true).is_ok());
    let v = vectorize(&payload, &state.norm, &state.mcc).unwrap();
    assert_eq!(v[12], of(0.5));
}

#[test]
fn missing_payload_is_a_bad_request() {
    let state = serving_state();
    let err = fraud_score_handler(&state, None, true).unwrap_err();
    assert_eq!(err, ApiError::BadRequest);
    assert_eq!(err.status(), 400);
}

#[test]
fn malformed_timestamp_returns_400() {
    let state = serving_state();
    let mut payload = happy_payload();
    payload.transaction.requested_at = "yesterday".to_string();
    let err = fraud_score_handler(&state, Some(&payload), true).unwrap_err();
    assert_eq!(err.status(), 400);
}

#[test]
fn batch_of_200_requests_all_succeed() {
    let state = serving_state();
    let mut payload = happy_payload();
    for i in 0..200_u32 {
        payload.transaction.amount = of((10.0 + f64::from(i)) as f32);
        payload.last_transaction = if i % 4 == 0 {
            None
        } else {
            Some(LastTransaction {
                timestamp: "2026-03-11T14:58:35Z".to_string(),
                km_from_current: of((f64::from(i % 1000) * 0.7) as f32),
            })
        };
        payload.merchant.mcc = if i % 3 == 0 {
            format!("999{}", i % 10)
        } else {
            "5411".to_string()
        };
        let batched = fraud_score_handler(&state, Some(&payload), true).unwrap();
        let plain = fraud_score_handler(&state, Some(&payload), false).unwrap();
        assert_eq!(batched, plain, "request {i}");
        if i % 20 == 0 {
            assert_eq!(plain, by_sorting(&state, &payload), "request {i}");
        }
    }
}

#[test]
fn decision_counts_the_nearest_labels() {
    let state = state_of(synthetic_dataset(5, 1).0, vec![0]);
    let payload = happy_payload();
    for mask in 0..32_u8 {
        let mut here = state_of(state.refs.as_slice().to_vec(), vec![mask]);
        here.mark_ready();
        let answer = fraud_score_handler(&here, Some(&payload), false).unwrap();
        let count = mask.count_ones();
        assert_eq!(answer.fraud_score, of(count as f32 / 5.0));
        assert_eq!(answer.approved, count <= 2);
    }
}

#[test]
fn built_dataset_finds_its_own_entries() {
    let mut entries = Vec::new();
    for i in 0..20_usize {
        entries.push(Reference {
            vector: vec![of(if i < 10 { 0.0 } else { 1.0 }); DIMS],
            label: if i < 10 { "legit" } else { "fraud" }.to_string(),
        });
    }
    let built = match build(&entries) {
        Ok(built) => built,
        Err(e) => panic!("{e:?}"),
    };
    let state = state_of(built.refs, built.labels);
    assert_eq!(state.n, 20);
    assert_eq!(state.refs_i8().len(), 20 * PAD);
    // Every dimension at its ceiling.
    let mut payload = happy_payload();
    payload.transaction.amount = of(1e9);
    payload.transaction.installments = 99;
    payload.transaction.requested_at = "2026-03-15T23:00:00Z".to_string();
    payload.customer.tx_count_24h = 99;
    payload.customer.known_merchants.clear();
    payload.merchant.avg_amount = of(1e9);
    payload.terminal = Terminal { is_online: true, card_present: true, km_from_home: of(1e9) };
    payload.last_transaction = Some(LastTransaction {
        timestamp: "2020-01-01T00:00:00Z".to_string(),
        km_from_current: of(1e9),
    });
    let answer = fraud_score_handler(&state, Some(&payload), true).unwrap();
    assert_eq!(answer, FraudScoreResponse { approved: false, fraud_score: of(1.0) });
}

#[test]
fn loading_refuses_mismatched_artifacts() {
    let (refs, labels) = synthetic_dataset(12, 3);
    let short = load_state(
        RefBytes::Mapped(&refs),
        RefBytes::Mapped(&labels[..1]),
        scales(),
        risk_table(),
    );
    assert!(matches!(short, Err(ArtifactError::LabelsSize { expected: 2, n: 12, got: 1 })));
    let whole =
        load_state(RefBytes::Mapped(&refs), RefBytes::Mapped(&labels), scales(), risk_table());
    match whole {
        Ok(state) => {
            assert!(!state.is_ready());
            assert_eq!(state.labels_bits(), &labels[..]);
            assert_eq!(state.refs.len(), refs.len());
            assert!(!state.refs.is_empty());
            let rows: Vec<u8> = state.refs_i8().iter().map(|q| *q as u8).collect();
            assert_eq!(rows, &refs[REFS_HEADER_LEN..]);
        }
        Err(e) => panic!("{e:?}"),
    }
}

#[test]
fn warmup_touches_every_page() {
    for n in [0_usize, 1, 255, 256, 600] {
        let (refs, labels) = synthetic_dataset(n, 9);
        let mut expected = 0_u64;
        let mut i = 0;
        while i < refs.len() {
            expected += u64::from(refs[i]);
            i += 4096;
        }
        expected += u64::from(refs[refs.len() - 1]);
        assert_eq!(warmup(&state_of(refs, labels)), expected, "{n} vectors");
    }
}

#[test]
fn small_datasets_are_answered_by_what_they_hold() {
    let payload = happy_payload();
    for n in 0..5_usize {
        let (refs, _) = synthetic_dataset(n, 5);
        for mask in 0..1_u8 << n {
            let labels = if n == 0 { Vec::new() } else { vec![mask] };
            let state = state_of(refs.clone(), labels);
            let count = mask.count_ones();
            let expected = FraudScoreResponse {
                approved: count <= 2,
                fraud_score: of(count as f32 / 5.0),
            };
            for avx2 in [false, true] {
                let answer = fraud_score_handler(&state, Some(&payload), avx2);
                assert_eq!(answer, Ok(expected), "{n} vectors, labels {mask:b}");
            }
        }
    }
}

#[test]
fn refusals_do_not_depend_on_the_dataset() {
    let mut header = Vec::new();
    write_references_header(&mut header, 0);
    let state = state_of(header, Vec::new());
    let mut payload = happy_payload();
    payload.transaction.requested_at.clear();
    assert_eq!(fraud_score_handler(&state, None, true), Err(ApiError::BadRequest));
    assert_eq!(fraud_score_handler(&state, Some(&payload), true), Err(ApiError::BadRequest));
}
