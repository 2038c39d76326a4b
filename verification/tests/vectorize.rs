//! Vectorization of payloads, with the worked examples of the detection rules.

use fraud_knn::datetime::ParseError;
use fraud_knn::vectorize::VectorizeError;
use fraud_knn::{
    quantize, vectorize, Customer, LastTransaction, MccRisk, Merchant, Normalization, Payload,
    Single, Terminal, Transaction, DIMS, SENTINEL_I8,
};
use serde_json::Value;

const NORMALIZATION: &str = r#"{
    "max_amount": 10000,
    "max_installments": 12,
    "amount_vs_avg_ratio": 10,
    "max_minutes": 1440,
    "max_km": 1000,
    "max_tx_count_24h": 20,
    "max_merchant_avg_amount": 10000
}"#;

const MCC_RISK: &str = r#"{
    "5411": 0.15,
    "5812": 0.30,
    "5912": 0.20,
    "5944": 0.45,
    "7801": 0.80,
    "7802": 0.75,
    "7995": 0.85,
    "4511": 0.35,
    "5311": 0.25,
    "5999": 0.50
}"#;

const LEGIT_PAYLOAD: &str = r#"{
    "id": "tx-1329056812",
    "transaction":      { "amount": 41.12, "installments": 2, "requested_at": "2026-03-11T18:45:53Z" },
    "customer":         { "avg_amount": 82.24, "tx_count_24h": 3, "known_merchants": ["MERC-003", "MERC-016"] },
    "merchant":         { "id": "MERC-016", "mcc": "5411", "avg_amount": 60.25 },
    "terminal":         { "is_online": false, "card_present": true, "km_from_home": 29.23 },
    "last_transaction": null
}"#;

const FRAUD_PAYLOAD: &str = r#"{
    "id": "tx-3330991687",
    "transaction":      { "amount": 9505.97, "installments": 10, "requested_at": "2026-03-14T05:15:12Z" },
    "customer":         { "avg_amount": 81.28, "tx_count_24h": 20, "known_merchants": ["MERC-008", "MERC-007", "MERC-005"] },
    "merchant":         { "id": "MERC-068", "mcc": "7802", "avg_amount": 54.86 },
    "terminal":         { "is_online": false, "card_present": true, "km_from_home": 952.27 },
    "last_transaction": null
}"#;

fn of(x: f32) -> Single {
    Single { bits: x.to_bits() }
}

fn float(s: Single) -> f32 {
    f32::from_bits(s.bits)
}

fn number(v: &Value) -> Single {
    of(v.as_f64().unwrap() as f32)
}

fn text(v: &Value) -> String {
    v.as_str().unwrap().to_string()
}

fn json(s: &str) -> Value {
    serde_json::from_str(s).unwrap()
}

fn normalization(s: &str) -> Normalization {
    let v = json(s);
    Normalization {
        max_amount: number(&v["max_amount"]),
        max_installments: number(&v["max_installments"]),
        amount_vs_avg_ratio: number(&v["amount_vs_avg_ratio"]),
        max_minutes: number(&v["max_minutes"]),
        max_km: number(&v["max_km"]),
        max_tx_count_24h: number(&v["max_tx_count_24h"]),
        max_merchant_avg_amount: number(&v["max_merchant_avg_amount"]),
    }
}

fn risks(s: &str) -> MccRisk {
    let mut table = MccRisk::default();
    for (mcc, risk) in json(s).as_object().unwrap() {
        table.insert(mcc.clone(), number(risk));
    }
    table
}

fn payload(s: &str) -> Payload {
    let v = json(s);
    let last = &v["last_transaction"];
    Payload {
        id: text(&v["id"]),
        transaction: Transaction {
            amount: number(&v["transaction"]["amount"]),
            installments: v["transaction"]["installments"].as_u64().unwrap() as u32,
            requested_at: text(&v["transaction"]["requested_at"]),
        },
        customer: Customer {
            avg_amount: number(&v["customer"]["avg_amount"]),
            tx_count_24h: v["customer"]["tx_count_24h"].as_u64().unwrap() as u32,
            known_merchants: v["customer"]["known_merchants"]
                .as_array()
                .unwrap()
                .iter()
                .map(text)
                .collect(),
        },
        merchant: Merchant {
            id: text(&v["merchant"]["id"]),
            mcc: text(&v["merchant"]["mcc"]),
            avg_amount: number(&v["merchant"]["avg_amount"]),
        },
        terminal: Terminal {
            is_online: v["terminal"]["is_online"].as_bool().unwrap(),
            card_present: v["terminal"]["card_present"].as_bool().unwrap(),
            km_from_home: number(&v["terminal"]["km_from_home"]),
        },
        last_transaction: if last.is_null() {
            None
        } else {
            Some(LastTransaction {
                timestamp: text(&last["timestamp"]),
                km_from_current: number(&last["km_from_current"]),
            })
        },
    }
}

fn inputs() -> (Normalization, MccRisk) {
    (normalization(NORMALIZATION), risks(MCC_RISK))
}

fn vector(p: &Payload) -> [f32; DIMS] {
    let (norm, mcc) = inputs();
    vectorize(p, &norm, &mcc).unwrap().map(float)
}

fn assert_vec_eq(actual: &[f32; DIMS], expected: &[f32; DIMS], tol: f32) {
    for i in 0..DIMS {
        let a = actual[i];
        let e = expected[i];
        if e.is_nan() {
            assert!(a.is_nan(), "idx {i}: expected NaN, got {a}");
        } else {
            assert!(
                (a - e).abs() < tol,
                "idx {i}: expected {e}, got {a} (delta {} > tol {tol})",
                (a - e).abs()
            );
        }
    }
}

#[test]
fn mcc_risk_returns_known_values_and_default() {
    let m = risks(MCC_RISK);
    assert!((float(m.risk("5411")) - 0.15).abs() < 1e-3);
    assert!((float(m.risk("7802")) - 0.75).abs() < 1e-3);
    // unlisted codes
    assert!((float(m.risk("0000")) - 0.5).abs() < 1e-3);
    assert!((float(m.risk("")) - 0.5).abs() < 1e-3);
    assert_eq!(m.len(), 10);
}

#[test]
fn mcc_risk_default_when_table_empty() {
    let m = MccRisk::default();
    assert!(m.is_empty());
    assert!((float(m.risk("5411")) - 0.5).abs() < 1e-3);
}

#[test]
fn legitimate_transaction_matches_spec_vector() {
    let v = vector(&payload(LEGIT_PAYLOAD));
    let expected: [f32; DIMS] = [
        0.004_112, // 41.12 / 10000
        0.166_667, // 2 / 12
        0.05,      // (41.12 / 82.24) / 10
        0.782_609, // 18 / 23
        0.333_333, // Wednesday: 2 / 6
        f32::NAN,
        f32::NAN,
        0.029_23, // 29.23 / 1000
        0.15,     // 3 / 20
        0.0,
        1.0,
        0.0, // a known merchant
        0.15,
        0.006_025, // 60.25 / 10000
    ];
    assert_vec_eq(&v, &expected, 5e-4);

    let q = quantize(&v.map(of));
    let expected_q: [i8; 16] = [
        0,
        17,
        5,
        78,
        33,
        SENTINEL_I8,
        SENTINEL_I8,
        3,
        15,
        0,
        100,
        0,
        15,
        1,
        0,
        0,
    ];
    assert_eq!(q, expected_q);
}

#[test]
fn fraudulent_transaction_matches_spec_vector() {
    let v = vector(&payload(FRAUD_PAYLOAD));
    let expected: [f32; DIMS] = [
        0.950_597, // 9505.97 / 10000
        0.833_333, // 10 / 12
        1.0,       // clamped
        0.217_391, // 5 / 23
        0.833_333, // Saturday: 5 / 6
        f32::NAN,
        f32::NAN,
        0.952_27, // 952.27 / 1000
        1.0,      // 20 / 20
        0.0,
        1.0,
        1.0, // an unknown merchant
        0.75,
        0.005_486, // 54.86 / 10000
    ];
    assert_vec_eq(&v, &expected, 5e-4);

    let q = quantize(&v.map(of));
    let expected_q: [i8; 16] = [
        95,
        83,
        100,
        22,
        83,
        SENTINEL_I8,
        SENTINEL_I8,
        95,
        100,
        0,
        100,
        100,
        75,
        1,
        0,
        0,
    ];
    assert_eq!(q, expected_q);
}

#[test]
fn empty_known_merchants_marks_unknown() {
    let v = vector(&payload(
        r#"{
        "id": "tx-001",
        "transaction": { "amount": 10.0, "installments": 1, "requested_at": "2026-01-01T00:00:00Z" },
        "customer": { "avg_amount": 100.0, "tx_count_24h": 1, "known_merchants": [] },
        "merchant": { "id": "MERC-X", "mcc": "9999", "avg_amount": 50.0 },
        "terminal": { "is_online": true, "card_present": false, "km_from_home": 5.0 },
        "last_transaction": { "timestamp": "2025-12-31T23:00:00Z", "km_from_current": 1.5 }
    }"#,
    ));
    assert!((v[11] - 1.0).abs() < 1e-6);
    assert!((v[12] - 0.5).abs() < 1e-6);
    // Sixty minutes: 60 / 1440.
    assert!((v[5] - 0.041_667).abs() < 5e-4);
    assert!(!v[5].is_nan(), "last_transaction present, no sentinel");
}

#[test]
fn dimensions_are_those_of_hardware() {
    let mut p = payload(FRAUD_PAYLOAD);
    p.last_transaction = Some(LastTransaction {
        timestamp: "2026-03-13T22:58:35Z".to_string(),
        km_from_current: of(12.75),
    });
    p.terminal.is_online = true;
    let v = vector(&p);
    let seconds = (6 * 3600 + 16 * 60 + 37) as f32;
    let expected: [f32; DIMS] = [
        9505.97_f32 / 10_000.0,
        10.0_f32 / 12.0,
        ((9505.97_f32 / 81.28) / 10.0).clamp(0.0, 1.0),
        5.0_f32 / 23.0,
        5.0_f32 / 6.0,
        (seconds / 60.0) / 1440.0,
        12.75_f32 / 1000.0,
        952.27_f32 / 1000.0,
        1.0,
        1.0,
        1.0,
        1.0,
        0.75,
        54.86_f32 / 10_000.0,
    ];
    for i in 0..DIMS {
        assert_eq!(v[i].to_bits(), expected[i].to_bits(), "dimension {i}");
    }
}

#[test]
fn undefined_ratios_collapse_to_zero() {
    let mut p = payload(LEGIT_PAYLOAD);
    p.transaction.amount = of(0.0);
    p.customer.avg_amount = of(0.0);
    let v = vector(&p);
    assert_eq!(v[2].to_bits(), 0);
    // A positive amount over a zero average is infinite, and clamped.
    p.transaction.amount = of(1.0);
    assert_eq!(vector(&p)[2], 1.0);
    // Negative values clamp to zero.
    p.transaction.amount = of(-1.0);
    assert_eq!(vector(&p)[0], 0.0);
}

#[test]
fn later_last_transaction_clamps_to_zero_minutes() {
    let mut p = payload(LEGIT_PAYLOAD);
    p.last_transaction = Some(LastTransaction {
        timestamp: "2026-03-12T00:00:00Z".to_string(),
        km_from_current: of(-3.0),
    });
    let v = vector(&p);
    assert_eq!(v[5], 0.0);
    assert_eq!(v[6], 0.0);
}

#[test]
fn every_dimension_stays_in_the_unit_interval() {
    let (norm, _) = inputs();
    let mut wild = MccRisk::default();
    wild.insert("5411".to_string(), of(7.0));
    wild.insert("7802".to_string(), of(f32::NAN));
    let mut p = payload(LEGIT_PAYLOAD);
    p.transaction.requested_at = "2026-03-11T99:45:53Z".to_string();
    p.last_transaction = Some(LastTransaction {
        timestamp: "0000-01-01T00:00:00Z".to_string(),
        km_from_current: of(f32::INFINITY),
    });
    for mcc in ["5411", "7802"] {
        p.merchant.mcc = mcc.to_string();
        let v = vectorize(&p, &norm, &wild).unwrap().map(float);
        for (i, x) in v.iter().enumerate() {
            assert!((0.0..=1.0).contains(x), "dimension {i}: {x}");
        }
        assert!(quantize(&v.map(of)).iter().all(|q| (0..=100).contains(q)));
    }
}

#[test]
fn january_of_year_zero_has_a_weekday() {
    let mut p = payload(LEGIT_PAYLOAD);
    p.transaction.requested_at = "0000-01-01T00:00:00Z".to_string();
    // A Saturday.
    assert_eq!(vector(&p)[4], 5.0 / 6.0);
}

#[test]
fn bad_timestamps_are_errors() {
    let (norm, mcc) = inputs();
    let mut p = payload(LEGIT_PAYLOAD);
    p.transaction.requested_at = "yesterday".to_string();
    let err = vectorize(&p, &norm, &mcc).unwrap_err();
    assert!(matches!(err, VectorizeError::Timestamp(ParseError::Shape)));
    assert_eq!(
        err.message(),
        "invalid timestamp: expected 20-byte ISO 8601 timestamp YYYY-MM-DDTHH:MM:SSZ"
    );

    let mut p = payload(LEGIT_PAYLOAD);
    p.last_transaction = Some(LastTransaction {
        timestamp: "2026-03-12T00:0x:00Z".to_string(),
        km_from_current: of(1.0),
    });
    let err = vectorize(&p, &norm, &mcc).unwrap_err();
    assert_eq!(err.message(), "invalid timestamp: non-numeric value in minute");
    assert_eq!(
        VectorizeError::from(ParseError::Numeric("day")).message(),
        "invalid timestamp: non-numeric value in day"
    );
}

#[test]
fn later_entries_replace_risks() {
    let mut m = MccRisk::default();
    m.insert("5411".to_string(), of(0.1));
    m.insert("5411".to_string(), of(0.2));
    assert_eq!(m.len(), 1);
    assert!(!m.is_empty());
    assert_eq!(float(m.risk("5411")), 0.2);
    assert_eq!(m.risk("5412").bits, 0.5_f32.to_bits());
}
