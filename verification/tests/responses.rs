use rinha::responses::{
    approves, fraud_response, RESP_BAD_REQUEST, RESP_FRAUD, RESP_NOT_FOUND, RESP_PAYLOAD_TOO_LARGE,
    RESP_READY,
};

fn body_of(resp: &[u8]) -> &[u8] {
    let header_end = resp
        .windows(4)
        .position(|w| w == b"\r\n\r\n")
        .expect("header separator missing");
    &resp[header_end + 4..]
}

fn extract_content_length(resp: &[u8]) -> usize {
    let s = std::str::from_utf8(resp).expect("ascii response");
    let key = "Content-Length: ";
    let i = s.find(key).expect("Content-Length header");
    let rest = &s[i + key.len()..];
    let end = rest.find('\r').unwrap();
    rest[..end].parse().expect("number")
}

#[test]
fn fraud_responses_are_consistent() {
    for (i, resp) in RESP_FRAUD.iter().enumerate() {
        let body = body_of(resp.as_bytes());
        let cl = extract_content_length(resp.as_bytes());
        assert_eq!(body.len(), cl, "fraud[{}] body len mismatch", i);

        let approved = i < 3;
        let expected_score = format!("{:.1}", i as f32 / 5.0);
        let body_str = std::str::from_utf8(body).unwrap();
        assert!(
            body_str.contains(&format!("\"approved\":{}", approved)),
            "fraud[{}] approved mismatch: {}",
            i,
            body_str
        );
        assert!(
            body_str.contains(&format!("\"fraud_score\":{}", expected_score)),
            "fraud[{}] score mismatch: {}",
            i,
            body_str
        );
    }
}

#[test]
fn non_fraud_responses_have_zero_body() {
    for resp in [
        RESP_READY,
        RESP_NOT_FOUND,
        RESP_BAD_REQUEST,
        RESP_PAYLOAD_TOO_LARGE,
    ] {
        assert_eq!(body_of(resp.as_bytes()).len(), 0);
        assert_eq!(extract_content_length(resp.as_bytes()), 0);
    }
}

#[test]
fn approval_by_count() {
    assert!(approves(0) && approves(1) && approves(2));
    assert!(!approves(3) && !approves(5) && !approves(255));
    for frauds in 0..=255u8 {
        let said = format!("{{\"approved\":{},", approves(frauds));
        let body = body_of(fraud_response(frauds as usize).as_bytes());
        assert!(body.starts_with(said.as_bytes()));
    }
}

#[test]
fn verdicts_by_count() {
    for count in 0..6 {
        assert_eq!(fraud_response(count), RESP_FRAUD[count]);
    }
    assert_eq!(fraud_response(6), RESP_FRAUD[5]);
    assert_eq!(fraud_response(usize::MAX), RESP_FRAUD[5]);
}
