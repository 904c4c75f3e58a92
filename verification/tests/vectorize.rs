use serde_json::Value;
use solution_x::vectorizer::{
    features, minutes_apart, vectorize, Count, Customer, Facts, Feature, LastFacts, LastTx,
    MccTable, Merchant, Payload, Terminal, Transaction,
};

fn clamp01(x: f32) -> f32 {
    x.clamp(0.0, 1.0)
}

fn eval(f: &Feature<f32, f32>) -> f32 {
    match *f {
        Feature::Fraction { num, den } => num as f32 / den as f32,
        Feature::Clamped { count, den } => clamp01(count as f32 / den as f32),
        Feature::Scaled { value, den } => clamp01(value / den as f32),
        Feature::Relative { value, by, den } => clamp01((value / by) / den as f32),
        Feature::Risk { risk } => risk,
    }
}

fn vectorize_f32(p: &Payload<f32>, mcc: &MccTable<f32>) -> Vec<f32> {
    vectorize(p, mcc).iter().map(eval).collect()
}

fn make_mcc() -> MccTable<f32> {
    let mut t = MccTable::new();
    t.insert("5411".to_string(), 0.15);
    t.insert("5912".to_string(), 0.20);
    t.insert("7802".to_string(), 0.75);
    t
}

fn number(v: &Value) -> f32 {
    v.as_f64().unwrap() as f32
}

fn whole(v: &Value) -> u32 {
    v.as_u64().unwrap() as u32
}

fn text(v: &Value) -> String {
    v.as_str().unwrap().to_string()
}

fn payload(json: &str) -> Payload<f32> {
    let v: Value = serde_json::from_str(json).unwrap();
    let last = &v["last_transaction"];
    Payload {
        transaction: Transaction {
            amount: number(&v["transaction"]["amount"]),
            installments: whole(&v["transaction"]["installments"]),
            requested_at: text(&v["transaction"]["requested_at"]),
        },
        customer: Customer {
            avg_amount: number(&v["customer"]["avg_amount"]),
            tx_count_24h: whole(&v["customer"]["tx_count_24h"]),
            known_merchants: v["customer"]["known_merchants"]
                .as_array()
                .unwrap()
                .iter()
                .map(text)
                .collect(),
        },
        merchant: Merchant {
            id: text(&v["merchant"]["id"]),
            mcc: text(&v["merchant"]["mcc"]),
            avg_amount: number(&v["merchant"]["avg_amount"]),
        },
        terminal: Terminal {
            is_online: v["terminal"]["is_online"].as_bool().unwrap(),
            card_present: v["terminal"]["card_present"].as_bool().unwrap(),
            km_from_home: number(&v["terminal"]["km_from_home"]),
        },
        last_transaction: if last.is_null() {
            None
        } else {
            Some(LastTx {
                timestamp: text(&last["timestamp"]),
                km_from_current: number(&last["km_from_current"]),
            })
        },
    }
}

#[test]
fn vectorize_legit_example() {
    let json = r#"{
            "id": "tx-1329056812",
            "transaction": {"amount": 41.12, "installments": 2, "requested_at": "2026-03-11T18:45:53Z"},
            "customer": {"avg_amount": 82.24, "tx_count_24h": 3, "known_merchants": ["MERC-003", "MERC-016"]},
            "merchant": {"id": "MERC-016", "mcc": "5411", "avg_amount": 60.25},
            "terminal": {"is_online": false, "card_present": true, "km_from_home": 29.23},
            "last_transaction": null
        }"#;
    let p = payload(json);
    let mcc = make_mcc();
    let v = vectorize_f32(&p, &mcc);

    assert!((v[0] - 0.004112).abs() < 1e-4);
    assert!((v[1] - 2.0 / 12.0).abs() < 1e-4);
    assert!((v[2] - 0.05).abs() < 1e-4);
    assert!((v[3] - 18.0 / 23.0).abs() < 1e-4);
    assert_eq!(v[5], -1.0);
    assert_eq!(v[6], -1.0);
    assert!((v[7] - 0.02923).abs() < 1e-4);
    assert!((v[8] - 0.15).abs() < 1e-4);
    assert_eq!(v[9], 0.0);
    assert_eq!(v[10], 1.0);
    assert_eq!(v[11], 0.0);
    assert!((v[12] - 0.15).abs() < 1e-4);
}

#[test]
fn vectorize_fraud_example() {
    let json = r#"{
            "id": "tx-3330991687",
            "transaction": {"amount": 9505.97, "installments": 10, "requested_at": "2026-03-14T05:15:12Z"},
            "customer": {"avg_amount": 81.28, "tx_count_24h": 20, "known_merchants": ["MERC-008"]},
            "merchant": {"id": "MERC-068", "mcc": "7802", "avg_amount": 54.86},
            "terminal": {"is_online": false, "card_present": true, "km_from_home": 952.27},
            "last_transaction": null
        }"#;
    let p = payload(json);
    let mcc = make_mcc();
    let v = vectorize_f32(&p, &mcc);

    assert!((v[0] - 0.950597).abs() < 1e-4);
    assert!((v[1] - 10.0 / 12.0).abs() < 1e-4);
    assert!((v[2] - 1.0).abs() < 1e-4);
    assert_eq!(v[8], 1.0);
    assert_eq!(v[11], 1.0);
    assert!((v[12] - 0.75).abs() < 1e-4);
}

#[test]
fn previous_transaction_gives_elapsed_time_and_distance() {
    let json = r#"{
            "transaction": {"amount": 10, "installments": 24, "requested_at": "2026-03-11T20:23:35Z"},
            "customer": {"avg_amount": 20, "tx_count_24h": 0, "known_merchants": []},
            "merchant": {"id": "M", "mcc": "0000", "avg_amount": 1},
            "terminal": {"is_online": true, "card_present": false, "km_from_home": 5000},
            "last_transaction": {"timestamp": "2026-03-11T14:58:35Z", "km_from_current": 18.5}
        }"#;
    let p = payload(json);
    assert!(p.has_readable_timestamps());
    let v = vectorize(&p, &make_mcc());
    assert!(matches!(v[5], Feature::Clamped { count: 325, den: 1440 }));
    assert!(matches!(v[6], Feature::Scaled { value, den: 1000 } if value == 18.5));
    assert!(matches!(v[3], Feature::Fraction { num: 20, den: 23 }));
    assert!(matches!(v[4], Feature::Fraction { num: 2, den: 6 }));
    // A category that is not in the table counts one half.
    assert!(matches!(v[12], Feature::Fraction { num: 1, den: 2 }));
    let f = vectorize_f32(&p, &make_mcc());
    assert_eq!(f[1], 1.0);
    assert_eq!(f[7], 1.0);
    assert_eq!(f[9], 1.0);
    assert_eq!(f[10], 0.0);
    assert_eq!(f[11], 1.0);
    assert_eq!(f[12], 0.5);
}

#[test]
fn unreadable_timestamps_are_told() {
    let mut p = payload(
        r#"{
            "transaction": {"amount": 10, "installments": 1, "requested_at": "2026-03-11T20:23:35Z"},
            "customer": {"avg_amount": 20, "tx_count_24h": 0, "known_merchants": []},
            "merchant": {"id": "M", "mcc": "0000", "avg_amount": 1},
            "terminal": {"is_online": true, "card_present": false, "km_from_home": 5},
            "last_transaction": null
        }"#,
    );
    assert!(p.has_readable_timestamps());
    p.last_transaction = Some(LastTx { timestamp: "yesterday".to_string(), km_from_current: 1.0 });
    assert!(!p.has_readable_timestamps());
    p.last_transaction = None;
    p.transaction.requested_at = "2026-03-11".to_string();
    assert!(!p.has_readable_timestamps());
}

#[test]
fn table_keeps_the_last_risk_of_a_code() {
    let mut t: MccTable<u32> = MccTable::new();
    assert_eq!(t.lookup("5411"), None);
    t.insert("5411".to_string(), 1);
    t.insert("5912".to_string(), 2);
    t.insert("5411".to_string(), 3);
    assert_eq!(t.lookup("5411"), Some(3));
    assert_eq!(t.lookup("5912"), Some(2));
    assert_eq!(t.lookup("541"), None);
    assert_eq!(t.lookup_bytes("5912".as_bytes()), Some(2));
    assert_eq!(t.lookup_bytes(&[0xff, 0xfe]), None);
}

#[test]
fn minutes_apart_is_symmetric() {
    assert_eq!(minutes_apart(100, 40), 60);
    assert_eq!(minutes_apart(40, 100), 60);
    assert_eq!(minutes_apart(-5, 5), 10);
    assert_eq!(minutes_apart(7, 7), 0);
}

#[test]
fn features_follow_their_layout() {
    let facts = Facts {
        amount: 1u8,
        installments: Count::Whole(2),
        avg_amount: 3,
        hour: 4,
        weekday: 5,
        last: Some(LastFacts { minutes: 6, km: 7 }),
        km_from_home: 8,
        tx_count_24h: Count::Given(9),
        is_online: true,
        card_present: false,
        known_merchant: true,
        merchant_avg_amount: 10,
    };
    let v: [Feature<u8, u8>; 14] = features(&facts, Some(11));
    assert!(matches!(v[0], Feature::Scaled { value: 1, den: 10_000 }));
    assert!(matches!(v[1], Feature::Clamped { count: 2, den: 12 }));
    assert!(matches!(v[2], Feature::Relative { value: 1, by: 3, den: 10 }));
    assert!(matches!(v[3], Feature::Fraction { num: 4, den: 23 }));
    assert!(matches!(v[4], Feature::Fraction { num: 5, den: 6 }));
    assert!(matches!(v[5], Feature::Clamped { count: 6, den: 1440 }));
    assert!(matches!(v[6], Feature::Scaled { value: 7, den: 1000 }));
    assert!(matches!(v[7], Feature::Scaled { value: 8, den: 1000 }));
    assert!(matches!(v[8], Feature::Scaled { value: 9, den: 20 }));
    assert!(matches!(v[9], Feature::Fraction { num: 1, den: 1 }));
    assert!(matches!(v[10], Feature::Fraction { num: 0, den: 1 }));
    assert!(matches!(v[11], Feature::Fraction { num: 0, den: 1 }));
    assert!(matches!(v[12], Feature::Risk { risk: 11 }));
    assert!(matches!(v[13], Feature::Scaled { value: 10, den: 10_000 }));
}
