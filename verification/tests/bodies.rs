use solution_x::parser::{
    array_has, can_score, locate_object, locate_object_or_null, number_bytes, parse_and_vectorize,
    read_bool, read_fields, read_number, read_numbers, read_string, skip_to_value,
    vectorize_fields, LastFields,
};
use solution_x::scan::{find_subseq, same_bytes, same_text, starts_with};
use solution_x::vectorizer::{Feature, MccTable};

fn read(token: &[u8]) -> Option<f32> {
    std::str::from_utf8(token).ok()?.parse().ok()
}

fn table() -> MccTable<f32> {
    let mut t = MccTable::new();
    t.insert("5411".to_string(), 0.15);
    t
}

const BODY: &str = r#"{
    "id": "tx-1329056812",
    "transaction": {"amount": 41.12, "installments": 2, "requested_at": "2026-03-11T18:45:53Z"},
    "customer": {"avg_amount": 82.24, "tx_count_24h": 3, "known_merchants": ["MERC-003", "MERC-016"]},
    "merchant": {"id": "MERC-016", "mcc": "5411", "avg_amount": 60.25},
    "terminal": {"is_online": false, "card_present": true, "km_from_home": 29.23},
    "last_transaction": null
}"#;

#[test]
fn finds_the_first_occurrence() {
    assert_eq!(find_subseq(b"abcabc", b"bc"), Some(1));
    assert_eq!(find_subseq(b"abcabc", b"cb"), None);
    assert_eq!(find_subseq(b"abc", b""), Some(0));
    assert_eq!(find_subseq(b"", b"a"), None);
}

#[test]
fn compares_bytes_and_texts() {
    assert!(same_bytes(b"abc", b"abc"));
    assert!(!same_bytes(b"abc", b"abd"));
    assert!(!same_bytes(b"abc", b"ab"));
    assert!(same_text("fraud", "fraud"));
    assert!(!same_text("fraud", "legit"));
    assert!(starts_with(b"GET /ready HTTP", b"GET /ready"));
    assert!(!starts_with(b"GET", b"GET /ready"));
}

#[test]
fn objects_end_with_their_last_brace() {
    let b = br#"{"a": {"b": {"c": 1}, "s": "}}\"}"}, "z": 1}"#;
    let (s, e) = locate_object(b, b"\"a\"").unwrap();
    assert_eq!(&b[s..e], br#"{"b": {"c": 1}, "s": "}}\"}"}"#);
    assert_eq!(locate_object(b, b"\"z\""), None);
    assert_eq!(locate_object(b, b"\"y\""), None);
    assert_eq!(locate_object(b"\"a\": {\"b\": 1", b"\"a\""), None);
    assert_eq!(locate_object(b"\"a\" \t\r\n: {}", b"\"a\""), Some((9, 11)));
    assert_eq!(locate_object(b"\"a\"", b"\"a\""), None);
}

#[test]
fn null_is_no_object() {
    assert_eq!(locate_object_or_null(b"\"a\": null, \"b\": {}", b"\"a\""), None);
    assert_eq!(locate_object_or_null(b"\"a\": {\"b\": {}}", b"\"a\""), Some((5, 14)));
    assert_eq!(locate_object_or_null(b"\"a\":", b"\"a\""), None);
    assert_eq!(locate_object_or_null(b"{}", b"\"a\""), None);
}

#[test]
fn values_start_after_colon_and_blanks() {
    assert_eq!(skip_to_value(b"x :  1", 0), Some(5));
    assert_eq!(skip_to_value(b"x :  ", 0), None);
    assert_eq!(skip_to_value(b"x", 0), None);
    assert_eq!(number_bytes(b"-1.5e+3,", 0), 7);
    assert_eq!(number_bytes(b"abc", 0), 0);
}

#[test]
fn fields_are_read_by_name() {
    let b = br#"{"n": -1.5E3, "t": true, "f": false, "s": "text", "u": "open"#;
    assert_eq!(read_number(b, b"\"n\""), Some(&b"-1.5E3"[..]));
    assert_eq!(read_number(b, b"\"s\""), Some(&b""[..]));
    assert_eq!(read_number(b, b"\"q\""), None);
    assert_eq!(read_bool(b, b"\"t\""), Some(true));
    assert_eq!(read_bool(b, b"\"f\""), Some(false));
    assert_eq!(read_bool(b, b"\"n\""), None);
    assert_eq!(read_bool(b, b"\"q\""), None);
    assert_eq!(read_string(b, b"\"s\""), Some(&b"text"[..]));
    assert_eq!(read_string(b, b"\"u\""), Some(&b"open"[..]));
    assert_eq!(read_string(b, b"\"n\""), None);
}

#[test]
fn arrays_are_searched_up_to_their_end() {
    let b = br#"{"m": ["A", "B]", "C"], "x": ["D"]}"#;
    assert!(array_has(b, b"\"m\"", b"A"));
    assert!(array_has(b, b"\"m\"", b"B]"));
    assert!(array_has(b, b"\"m\"", b"C"));
    assert!(!array_has(b, b"\"m\"", b"D"));
    assert!(!array_has(b, b"\"y\"", b"A"));
    assert!(!array_has(b"{\"m\": 1}", b"\"m\"", b"A"));
    // Line breaks are not skipped before an array.
    assert!(!array_has(b"\"m\":\n[\"A\"]", b"\"m\"", b"A"));
    assert!(array_has(b"\"m\": [\"A", b"\"m\"", b"A"));
    assert!(!array_has(b"\"m\": [\"A", b"\"m\"", b"B"));
}

#[test]
fn a_body_becomes_features() {
    let v = parse_and_vectorize(BODY.as_bytes(), &table(), &read).unwrap();
    assert!(matches!(v[0], Feature::Scaled { value, den: 10_000 } if value == 41.12));
    assert!(matches!(v[1], Feature::Scaled { value, den: 12 } if value == 2.0));
    assert!(matches!(v[2], Feature::Relative { value, by, den: 10 } if value == 41.12 && by == 82.24));
    assert!(matches!(v[3], Feature::Fraction { num: 18, den: 23 }));
    assert!(matches!(v[4], Feature::Fraction { num: 2, den: 6 }));
    assert!(matches!(v[5], Feature::Fraction { num: -1, den: 1 }));
    assert!(matches!(v[6], Feature::Fraction { num: -1, den: 1 }));
    assert!(matches!(v[7], Feature::Scaled { value, den: 1000 } if value == 29.23));
    assert!(matches!(v[8], Feature::Scaled { value, den: 20 } if value == 3.0));
    assert!(matches!(v[9], Feature::Fraction { num: 0, den: 1 }));
    assert!(matches!(v[10], Feature::Fraction { num: 1, den: 1 }));
    assert!(matches!(v[11], Feature::Fraction { num: 0, den: 1 }));
    assert!(matches!(v[12], Feature::Risk { risk } if risk == 0.15));
    assert!(matches!(v[13], Feature::Scaled { value, den: 10_000 } if value == 60.25));
}

#[test]
fn a_previous_transaction_is_read() {
    let body = BODY.replace(
        "null",
        r#"{"timestamp": "2026-03-11T14:58:35Z", "km_from_current": 18.8626479774}"#,
    );
    let v = parse_and_vectorize(body.as_bytes(), &table(), &read).unwrap();
    assert!(matches!(v[5], Feature::Clamped { count: 227, den: 1440 }));
    assert!(matches!(v[6], Feature::Scaled { value, den: 1000 } if value == 18.8626479774));
}

#[test]
fn a_missing_field_gives_nothing() {
    for key in [
        "\"transaction\"",
        "\"customer\"",
        "\"merchant\"",
        "\"terminal\"",
        "\"amount\"",
        "\"installments\"",
        "\"requested_at\"",
        "\"tx_count_24h\"",
        "\"mcc\"",
        "\"is_online\"",
        "\"card_present\"",
        "\"km_from_home\"",
    ] {
        let body = BODY.replace(key, "\"gone\"");
        assert!(read_fields(body.as_bytes()).is_none());
        assert!(parse_and_vectorize(body.as_bytes(), &table(), &read).is_none());
    }
}

#[test]
fn an_incomplete_previous_transaction_gives_nothing() {
    let body = BODY.replace("null", r#"{"timestamp": "2026-03-11T14:58:35Z"}"#);
    let f = read_fields(body.as_bytes()).unwrap();
    assert!(matches!(f.last, LastFields::Incomplete));
    assert!(parse_and_vectorize(body.as_bytes(), &table(), &read).is_none());
}

#[test]
fn an_unreadable_number_gives_nothing() {
    let body = BODY.replace("41.12", "4-1");
    let f = read_fields(body.as_bytes()).unwrap();
    assert_eq!(f.amount, b"4-1");
    let n = read_numbers(&f, &read);
    assert_eq!(n.amount, None);
    assert_eq!(n.installments, Some(2.0));
    assert!(can_score(&f, &n));
    assert!(vectorize_fields(&f, &n, &table()).is_none());
}

#[test]
fn unreadable_timestamps_cannot_be_scored() {
    let body = BODY.replace("2026-03-11T18:45:53Z", "soon");
    let f = read_fields(body.as_bytes()).unwrap();
    let n = read_numbers(&f, &read);
    assert!(!can_score(&f, &n));
    let body = BODY.replace("null", r#"{"timestamp": "soon", "km_from_current": 1}"#);
    let f = read_fields(body.as_bytes()).unwrap();
    let n = read_numbers(&f, &read);
    assert!(!can_score(&f, &n));
}

#[test]
fn compact_bodies_read_alike_in_any_order() {
    let tx = r#""transaction":{"amount":41.12,"installments":2,"requested_at":"2026-03-11T18:45:53Z"}"#;
    let tx2 = r#""transaction":{"requested_at":"2026-03-11T18:45:53Z","installments":2,"amount":41.12}"#;
    let cust = r#""customer":{"avg_amount":82.24,"tx_count_24h":3,"known_merchants":["MERC-003","{MERC]-016"]}"#;
    let cust2 = r#""customer":{"known_merchants":["MERC-003","{MERC]-016"],"tx_count_24h":3,"avg_amount":82.24}"#;
    let merch = r#""merchant":{"id":"{MERC]-016","mcc":"5411","avg_amount":60.25}"#;
    let merch2 = r#""merchant":{"avg_amount":60.25,"mcc":"5411","id":"{MERC]-016"}"#;
    let term = r#""terminal":{"is_online":false,"card_present":true,"km_from_home":29.23}"#;
    let last = r#""last_transaction":{"timestamp":"2026-03-11T14:58:35Z","km_from_current":18.5}"#;
    let last2 = r#""last_transaction":{"km_from_current":18.5,"timestamp":"2026-03-11T14:58:35Z"}"#;
    let bodies = [
        format!("{{{tx},{cust},{merch},{term},{last}}}"),
        format!("{{{last2},{term},{merch2},{cust2},{tx2}}}"),
        format!("{{{cust2},{last},{tx2},{merch},{term}}}"),
    ];
    for b in bodies {
        let f = read_fields(b.as_bytes()).unwrap();
        assert_eq!(f.amount, b"41.12");
        assert_eq!(f.installments, b"2");
        assert_eq!(f.requested_at, b"2026-03-11T18:45:53Z");
        assert_eq!(f.avg_amount, b"82.24");
        assert_eq!(f.tx_count_24h, b"3");
        assert!(f.known_merchant);
        assert_eq!(f.mcc, b"5411");
        assert_eq!(f.merchant_avg_amount, b"60.25");
        assert!(!f.is_online);
        assert!(f.card_present);
        assert_eq!(f.km_from_home, b"29.23");
        match f.last {
            LastFields::Found { timestamp, km_from_current } => {
                assert_eq!(timestamp, b"2026-03-11T14:58:35Z");
                assert_eq!(km_from_current, b"18.5");
            }
            _ => panic!("no previous transaction"),
        }
    }
    let none = format!("{{{tx},{cust},{merch},{term},\"last_transaction\":null}}");
    let f = read_fields(none.as_bytes()).unwrap();
    assert!(matches!(f.last, LastFields::Absent));
    let empty = none.replace(r#"["MERC-003","{MERC]-016"]"#, "[]");
    assert!(!read_fields(empty.as_bytes()).unwrap().known_merchant);
}
