use rinha::eval::{
    d2, epoch_secs, exact_fraud_count, hour_of, iso_year, known_contains, minutes_signed, tally,
    vector_terms, weekday_mon0, weighted_errors, Facts, Field, Tally, Term,
};
use rinha::DIM;

const AT: &[u8] = b"2026-03-11T20:23:35Z";
const LAST: &[u8] = b"2026-03-11T14:58:35Z";

#[test]
fn fields_of_a_timestamp() {
    assert_eq!(iso_year(AT), 2026);
    assert_eq!(d2(AT, 5), 3);
    assert_eq!(d2(AT, 17), 35);
    assert_eq!(hour_of(AT), 20);
    assert_eq!(hour_of(b"2026-03-11T77:23:35Z"), 23);
    assert_eq!(weekday_mon0(AT), 2);
    assert_eq!(epoch_secs(AT), 1773260615);
    assert_eq!(epoch_secs(b"1970-01-01T24:00:00Z"), 86400);
}

#[test]
fn minutes_have_a_sign() {
    assert_eq!(minutes_signed(AT, LAST), 325);
    assert_eq!(minutes_signed(LAST, AT), -325);
    assert_eq!(minutes_signed(b"2026-03-11T14:58:35Z", b"2026-03-11T14:59:05Z"), 0);
    assert_eq!(minutes_signed(b"2026-03-11T14:58:35Z", b"2026-03-11T15:00:34Z"), -1);
}

#[test]
fn known_list() {
    let list = vec!["A".to_string(), "B".to_string()];
    assert!(known_contains(&list, &"B".to_string()));
    assert!(!known_contains(&list, &"b".to_string()));
    assert!(!known_contains(&Vec::new(), &"B".to_string()));
}

#[test]
fn terms_of_a_transaction() {
    let f = Facts {
        requested_at: AT,
        last_timestamp: Some(LAST),
        is_online: true,
        card_present: false,
        merchant_known: true,
        mcc: b"7995",
    };
    let t = vector_terms(&f);
    assert_eq!(t[0], Term::Quotient { of: Field::Amount, over: 10_000 });
    assert_eq!(t[1], Term::Quotient { of: Field::Installments, over: 12 });
    assert_eq!(t[2], Term::Ratio { of: Field::Amount, base: Field::CustomerAverage, over: 10 });
    assert_eq!(t[3], Term::Count { value: 20, over: 23 });
    assert_eq!(t[4], Term::Count { value: 2, over: 6 });
    assert_eq!(t[5], Term::Count { value: 325, over: 1440 });
    assert_eq!(t[6], Term::Quotient { of: Field::KmFromLast, over: 1000 });
    assert_eq!(t[7], Term::Quotient { of: Field::KmFromHome, over: 1000 });
    assert_eq!(t[8], Term::Quotient { of: Field::Transactions, over: 20 });
    assert_eq!(t[9], Term::Flag(true));
    assert_eq!(t[10], Term::Flag(false));
    assert_eq!(t[11], Term::Flag(false));
    assert_eq!(t[12], Term::Hundredths(85));
    assert_eq!(t[13], Term::Quotient { of: Field::MerchantAverage, over: 10_000 });
    let t = vector_terms(&Facts { last_timestamp: None, ..f });
    assert_eq!((t[5], t[6]), (Term::Absent, Term::Absent));
}

#[test]
fn nearest_by_looking_at_all() {
    let mut refs = Vec::new();
    let mut labels = Vec::new();
    for i in 0..8i16 {
        let mut v = [0i16; DIM];
        v[3] = if i < 3 { 1 } else { 10 };
        refs.extend_from_slice(&v);
        labels.push((i % 2) as u8);
    }
    let q = [0i16; DIM];
    assert_eq!(exact_fraud_count(&q, &refs, &labels), 2);
    let mut q = [0i16; DIM];
    q[3] = 10;
    assert_eq!(exact_fraud_count(&q, &refs, &labels), 3);
    assert_eq!(exact_fraud_count(&q, &[], &[]), 0);
    assert_eq!(exact_fraud_count(&q, &refs[0..28], &[1, 1]), 2);
    assert_eq!(exact_fraud_count(&q, &refs[0..56], &[1, 2, 255, 1]), 2);
}

#[test]
fn verdicts_are_held_against_the_known_ones() {
    let t = tally(&[
        (true, true, false),
        (false, true, true),
        (true, false, false),
        (true, false, true),
        (false, false, true),
    ]);
    assert_eq!(
        t,
        Tally { false_positives: 1, false_negatives: 2, edge_total: 3, edge_wrong: 2 }
    );
    assert_eq!(weighted_errors(&t), 7);
}

#[test]
fn the_order_of_the_references_does_not_matter() {
    let mut refs: Vec<[i16; DIM]> = Vec::new();
    for i in 0..30i16 {
        let mut v = [0i16; DIM];
        v[2] = (i * 37) % 101;
        refs.push(v);
    }
    let labels: Vec<u8> = (0..30).map(|i| (i % 3 == 0) as u8).collect();
    let q = [0i16; DIM];
    let flat: Vec<i16> = refs.iter().flatten().copied().collect();
    let expected = exact_fraud_count(&q, &flat, &labels);
    for shift in 1..30 {
        let mut refs = refs.clone();
        let mut labels = labels.clone();
        refs.rotate_left(shift);
        labels.rotate_left(shift);
        let flat: Vec<i16> = refs.iter().flatten().copied().collect();
        assert_eq!(exact_fraud_count(&q, &flat, &labels), expected);
    }
}
