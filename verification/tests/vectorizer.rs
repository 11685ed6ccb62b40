use rinha::json;
use rinha::vectorizer::{
    days_from_civil, iso_day, iso_hour, iso_minute, iso_month, iso_second, iso_to_epoch_seconds,
    iso_year, mcc_risk, minutes_between_abs, readable_timestamp, readable_timestamps, vectorize,
    weekday_mon0, Feature,
};

fn num(text: &[u8]) -> f32 {
    std::str::from_utf8(text).unwrap().parse().unwrap()
}

fn value(f: &Feature<'_>) -> f32 {
    match *f {
        Feature::Amount { text, over } => (num(text) / over as f32).clamp(0.0, 1.0),
        Feature::Ratio { text, base, over } => {
            if num(base) > 0.0 {
                (num(text) / num(base) / over as f32).clamp(0.0, 1.0)
            } else {
                1.0
            }
        }
        Feature::Count { value, over } => (value as f32 / over as f32).clamp(0.0, 1.0),
        Feature::Flag(set) => {
            if set {
                1.0
            } else {
                0.0
            }
        }
        Feature::Hundredths(h) => h as f32 / 100.0,
        Feature::Absent => -1.0,
    }
}

fn values(features: &[Feature<'_>; 14]) -> [f32; 14] {
    let mut v = [0.0; 14];
    for i in 0..14 {
        v[i] = value(&features[i]);
    }
    v
}

fn approx(a: f32, b: f32, tol: f32) -> bool {
    (a - b).abs() <= tol
}

#[test]
fn weekday_known_dates() {

    assert_eq!(weekday_mon0(2026, 3, 11), 2);

    assert_eq!(weekday_mon0(2026, 3, 14), 5);

    assert_eq!(weekday_mon0(2026, 3, 15), 6);

    assert_eq!(weekday_mon0(2026, 3, 16), 0);
}

#[test]
fn iso_field_extraction() {
    let s = b"2026-03-11T20:23:35Z";
    assert_eq!(iso_year(s), 2026);
    assert_eq!(iso_month(s), 3);
    assert_eq!(iso_day(s), 11);
    assert_eq!(iso_hour(s), 20);
    assert_eq!(iso_minute(s), 23);
    assert_eq!(iso_second(s), 35);
}

#[test]
fn legit_example_matches_spec() {
    let body = br#"{
        "id":"tx-1329056812",
        "transaction":{"amount":41.12,"installments":2,"requested_at":"2026-03-11T18:45:53Z"},
        "customer":{"avg_amount":82.24,"tx_count_24h":3,"known_merchants":["MERC-003","MERC-016"]},
        "merchant":{"id":"MERC-016","mcc":"5411","avg_amount":60.25},
        "terminal":{"is_online":false,"card_present":true,"km_from_home":29.23},
        "last_transaction":null
    }"#;
    let p = json::parse(body).unwrap();
    assert!(readable_timestamps(&p));
    let v = values(&vectorize(&p));

    assert!(approx(v[0], 0.0041, 1e-3), "v0 = {}", v[0]);
    assert!(approx(v[1], 0.1667, 1e-3), "v1 = {}", v[1]);
    assert!(approx(v[2], 0.05, 1e-3), "v2 = {}", v[2]);
    assert!(approx(v[3], 0.7826, 1e-3), "v3 = {}", v[3]);
    assert!(approx(v[4], 0.3333, 1e-3), "v4 = {}", v[4]);
    assert_eq!(v[5], -1.0);
    assert_eq!(v[6], -1.0);
    assert!(approx(v[7], 0.0292, 1e-3), "v7 = {}", v[7]);
    assert!(approx(v[8], 0.15, 1e-3), "v8 = {}", v[8]);
    assert_eq!(v[9], 0.0);
    assert_eq!(v[10], 1.0);
    assert_eq!(v[11], 0.0);
    assert!(approx(v[12], 0.15, 1e-3), "v12 = {}", v[12]);
    assert!(approx(v[13], 0.006, 1e-3), "v13 = {}", v[13]);
}

#[test]
fn fraud_example_matches_spec() {
    let body = br#"{
        "id":"tx-3330991687",
        "transaction":{"amount":9505.97,"installments":10,"requested_at":"2026-03-14T05:15:12Z"},
        "customer":{"avg_amount":81.28,"tx_count_24h":20,"known_merchants":["MERC-008","MERC-007","MERC-005"]},
        "merchant":{"id":"MERC-068","mcc":"7802","avg_amount":54.86},
        "terminal":{"is_online":false,"card_present":true,"km_from_home":952.27},
        "last_transaction":null
    }"#;
    let p = json::parse(body).unwrap();
    assert!(readable_timestamps(&p));
    let v = values(&vectorize(&p));

    assert!(approx(v[0], 0.9506, 1e-3), "v0 = {}", v[0]);
    assert!(approx(v[1], 0.8333, 1e-3), "v1 = {}", v[1]);
    assert_eq!(v[2], 1.0);
    assert!(approx(v[3], 0.2174, 1e-3), "v3 = {}", v[3]);
    assert!(approx(v[4], 0.8333, 1e-3), "v4 = {}", v[4]);
    assert_eq!(v[5], -1.0);
    assert_eq!(v[6], -1.0);
    assert!(approx(v[7], 0.9523, 1e-3), "v7 = {}", v[7]);
    assert_eq!(v[8], 1.0);
    assert_eq!(v[9], 0.0);
    assert_eq!(v[10], 1.0);
    assert_eq!(v[11], 1.0);
    assert!(approx(v[12], 0.75, 1e-3), "v12 = {}", v[12]);
    assert!(approx(v[13], 0.0055, 1e-3), "v13 = {}", v[13]);
}

#[test]
fn last_transaction_minutes_and_km() {

    let body = br#"{
        "id":"x",
        "transaction":{"amount":100.0,"installments":1,"requested_at":"2026-03-11T20:23:35Z"},
        "customer":{"avg_amount":100.0,"tx_count_24h":1,"known_merchants":["M"]},
        "merchant":{"id":"M","mcc":"5411","avg_amount":100.0},
        "terminal":{"is_online":false,"card_present":true,"km_from_home":1.0},
        "last_transaction":{"timestamp":"2026-03-11T14:58:35Z","km_from_current":18.8626479774}
    }"#;
    let p = json::parse(body).unwrap();
    assert!(readable_timestamps(&p));
    let v = values(&vectorize(&p));

    assert!(approx(v[5], 0.225694, 1e-3), "v5 = {}", v[5]);

    assert!(approx(v[6], 0.01886, 1e-3), "v6 = {}", v[6]);
}

#[test]
fn mcc_default_for_unknown() {
    assert_eq!(value(&Feature::Hundredths(mcc_risk(b"9999"))), 0.5);
    assert_eq!(value(&Feature::Hundredths(mcc_risk(b""))), 0.5);
    assert_eq!(value(&Feature::Hundredths(mcc_risk(b"5411"))), 0.15);
}

#[test]
fn days_are_counted_from_1970() {
    assert_eq!(days_from_civil(1970, 1, 1), 0);
    assert_eq!(days_from_civil(1969, 12, 31), -1);
    assert_eq!(days_from_civil(2000, 2, 29), 11016);
    assert_eq!(days_from_civil(2000, 3, 1), 11017);
    assert_eq!(days_from_civil(1900, 3, 1) - days_from_civil(1900, 2, 28), 1);
    assert_eq!(days_from_civil(-1, 1, 1), -719893);
    assert_eq!(weekday_mon0(1970, 1, 1), 3);
    assert_eq!(weekday_mon0(1969, 12, 28), 6);
}

#[test]
fn days_follow_each_other() {
    let mut days = days_from_civil(1896, 1, 1);
    let mut weekday = weekday_mon0(1896, 1, 1);
    for y in 1896..1909 {
        for m in 1..13u32 {
            let leap = y % 4 == 0 && (y % 100 != 0 || y % 400 == 0);
            let length = match m {
                2 => 28 + leap as u32,
                4 | 6 | 9 | 11 => 30,
                _ => 31,
            };
            for d in 1..length + 1 {
                assert_eq!(days_from_civil(y, m, d), days);
                assert_eq!(weekday_mon0(y, m, d), weekday);
                days += 1;
                weekday = (weekday + 1) % 7;
            }
        }
    }
}

#[test]
fn seconds_and_minutes() {
    assert_eq!(iso_to_epoch_seconds(b"1970-01-02T00:00:01Z"), 86401);
    assert_eq!(iso_to_epoch_seconds(b"2026-03-11T20:23:35Z"), 1773260615);
    let a = b"2026-03-11T20:23:35Z";
    let b = b"2026-03-11T14:58:35Z";
    assert_eq!(minutes_between_abs(a, b), 325);
    assert_eq!(minutes_between_abs(b, a), 325);
    assert_eq!(minutes_between_abs(a, a), 0);
    assert_eq!(iso_hour(b"2026-03-11T99:00:00Z"), 23);
}

#[test]
fn timestamps_that_cannot_be_read() {
    assert!(readable_timestamp(b"2026-03-11T20:23:35"));
    assert!(!readable_timestamp(b"2026-03-11T20:23:3"));
    assert!(!readable_timestamp(b"2026-0--11T20:23:35"));
    assert!(!readable_timestamp(b"2026-03-00T20:23:35"));
    assert!(readable_timestamp(b"2026-04-00T20:23:35"));
}

#[test]
fn risk_table() {
    let table = [
        ("5411", 15),
        ("5812", 30),
        ("5912", 20),
        ("5944", 45),
        ("7801", 80),
        ("7802", 75),
        ("7995", 85),
        ("4511", 35),
        ("5311", 25),
        ("5999", 50),
    ];
    for (mcc, risk) in table {
        assert_eq!(mcc_risk(mcc.as_bytes()), risk);
    }
}

#[test]
fn ratio_without_a_base_is_one() {
    let f = Feature::Ratio { text: b"5", base: b"0", over: 10 };
    assert_eq!(value(&f), 1.0);
    let f = Feature::Ratio { text: b"5", base: b"2", over: 10 };
    assert_eq!(value(&f), 0.25);
}
