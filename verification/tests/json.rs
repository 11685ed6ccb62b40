use rinha::json::{
    known_merchants_contains, matching_brace, obj_bool, obj_number, obj_number_u32, obj_string, parse,
    spells_decimal,
};

fn num(text: &[u8]) -> f32 {
    std::str::from_utf8(text).unwrap().parse().unwrap()
}

const SAMPLE: &[u8] = br#"{
    "id": "tx-3576980410",
    "transaction": { "amount": 384.88, "installments": 3, "requested_at": "2026-03-11T20:23:35Z" },
    "customer": { "avg_amount": 769.76, "tx_count_24h": 3, "known_merchants": ["MERC-009", "MERC-001", "MERC-001"] },
    "merchant": { "id": "MERC-001", "mcc": "5912", "avg_amount": 298.95 },
    "terminal": { "is_online": false, "card_present": true, "km_from_home": 13.7090520965 },
    "last_transaction": { "timestamp": "2026-03-11T14:58:35Z", "km_from_current": 18.8626479774 }
}"#;

const SAMPLE_NULL_LT: &[u8] = br#"{
    "id": "tx-1",
    "transaction": { "amount": 41.12, "installments": 2, "requested_at": "2026-03-11T18:45:53Z" },
    "customer": { "avg_amount": 82.24, "tx_count_24h": 3, "known_merchants": ["MERC-003", "MERC-016"] },
    "merchant": { "id": "MERC-016", "mcc": "5411", "avg_amount": 60.25 },
    "terminal": { "is_online": false, "card_present": true, "km_from_home": 29.23 },
    "last_transaction": null
}"#;

#[test]
fn parses_full_payload() {
    let p = parse(SAMPLE).expect("parse failed");
    assert!((num(p.amount) - 384.88).abs() < 1e-3);
    assert_eq!(p.installments, 3);
    assert_eq!(p.requested_at, b"2026-03-11T20:23:35Z");
    assert!((num(p.customer_avg_amount) - 769.76).abs() < 1e-3);
    assert_eq!(p.tx_count_24h, 3);
    assert!(p.merchant_id_in_known);
    assert_eq!(p.merchant_mcc, b"5912");
    assert!((num(p.merchant_avg_amount) - 298.95).abs() < 1e-3);
    assert!(!p.is_online);
    assert!(p.card_present);
    assert!((num(p.km_from_home) - 13.709052).abs() < 1e-3);
    let lt = p.last_tx.expect("expected last_tx");
    assert_eq!(lt.timestamp, b"2026-03-11T14:58:35Z");
    assert!((num(lt.km_from_current) - 18.862648).abs() < 1e-3);
}

#[test]
fn parses_null_last_transaction() {
    let p = parse(SAMPLE_NULL_LT).expect("parse failed");
    assert!(p.last_tx.is_none());
    assert!(p.merchant_id_in_known);
}

#[test]
fn merchant_not_in_known_list() {
    let body = br#"{
        "id":"tx-2",
        "transaction":{"amount":1.0,"installments":1,"requested_at":"2026-03-11T01:00:00Z"},
        "customer":{"avg_amount":1.0,"tx_count_24h":1,"known_merchants":["MERC-A","MERC-B"]},
        "merchant":{"id":"MERC-Z","mcc":"5411","avg_amount":1.0},
        "terminal":{"is_online":true,"card_present":false,"km_from_home":0.0},
        "last_transaction":null
    }"#;
    let p = parse(body).expect("parse failed");
    assert!(!p.merchant_id_in_known);
}

#[test]
fn rejects_missing_field() {
    let body = br#"{
        "transaction":{"amount":1.0,"installments":1,"requested_at":"2026-03-11T01:00:00Z"}
    }"#;
    assert!(parse(body).is_none());
}

#[test]
fn handles_no_whitespace() {
    let body = br#"{"id":"x","transaction":{"amount":1,"installments":1,"requested_at":"2026-03-11T01:00:00Z"},"customer":{"avg_amount":1,"tx_count_24h":1,"known_merchants":[]},"merchant":{"id":"M","mcc":"5411","avg_amount":1},"terminal":{"is_online":true,"card_present":true,"km_from_home":1},"last_transaction":null}"#;
    let p = parse(body).expect("parse failed");
    assert!(!p.merchant_id_in_known);
    assert!(p.last_tx.is_none());
}

#[test]
fn decimal_grammar_is_that_of_the_standard_library() {
    let alphabet = [b'-', b'+', b'.', b'e', b'E', b'0', b'7'];
    let mut texts: Vec<Vec<u8>> = vec![Vec::new()];
    let mut from = 0;
    for _ in 0..5 {
        let to = texts.len();
        for i in from..to {
            for c in alphabet {
                let mut longer = texts[i].clone();
                longer.push(c);
                texts.push(longer);
            }
        }
        from = to;
    }
    for t in &texts {
        let expected = std::str::from_utf8(t).unwrap().parse::<f32>().is_ok();
        assert_eq!(spells_decimal(t), expected, "{:?}", t);
    }
}

#[test]
fn numbers_end_where_their_bytes_end() {
    assert_eq!(obj_number(br#""a" : -1.5e3 ,"#, b"\"a\""), Some(&b"-1.5e3"[..]));
    assert_eq!(obj_number(br#""a":null"#, b"\"a\""), None);
    assert_eq!(obj_number(br#""a":1.2.3"#, b"\"a\""), None);
    assert_eq!(obj_number(br#""a""#, b"\"a\""), None);
    assert_eq!(obj_number(br#""a":"#, b"\"a\""), None);
    assert_eq!(obj_number(br#""b":1"#, b"\"a\""), None);
}

#[test]
fn counts_have_a_range() {
    assert_eq!(obj_number_u32(br#""a":4294967295"#, b"\"a\""), Some(u32::MAX));
    assert_eq!(obj_number_u32(br#""a":4294967296"#, b"\"a\""), None);
    assert_eq!(obj_number_u32(br#""a":0000000000012,"#, b"\"a\""), Some(12));
    assert_eq!(obj_number_u32(br#""a":-1"#, b"\"a\""), None);
    assert_eq!(obj_number_u32(br#""a":3.9"#, b"\"a\""), Some(3));
}

#[test]
fn flags_and_strings() {
    assert_eq!(obj_bool(br#""f": true"#, b"\"f\""), Some(true));
    assert_eq!(obj_bool(br#""f": false"#, b"\"f\""), Some(false));
    assert_eq!(obj_bool(br#""f": 1"#, b"\"f\""), None);
    assert_eq!(obj_string(br#""s": "x y""#, b"\"s\""), Some(&b"x y"[..]));
    assert_eq!(obj_string(br#""s": "x y"#, b"\"s\""), None);
    assert_eq!(obj_string(br#""s": x"#, b"\"s\""), None);
}

#[test]
fn braces_in_strings_do_not_count() {
    let s = br#"{"a":"}{","b":{"c":"\\\"}"}} tail"#;
    assert_eq!(matching_brace(s, 0), Some(s.len() - 6));
    assert_eq!(matching_brace(b"{{}", 0), None);
    assert_eq!(matching_brace(b"{{}", 1), Some(2));
}

#[test]
fn known_merchants() {
    let c = br#""known_merchants": ["A", "B" ,"C"]"#;
    assert_eq!(known_merchants_contains(c, b"C"), Some(true));
    assert_eq!(known_merchants_contains(c, b"D"), Some(false));
    assert_eq!(known_merchants_contains(br#""known_merchants": ["A", 1]"#, b"A"), Some(true));
    assert_eq!(known_merchants_contains(br#""known_merchants": ["A", 1]"#, b"B"), None);
    assert_eq!(known_merchants_contains(br#""known_merchants": ["A""#, b"B"), None);
    assert_eq!(known_merchants_contains(br#""known_merchants": 5"#, b"B"), None);
}
