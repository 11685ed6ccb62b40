use rinha::http::{
    find_content_length, header_eq_ascii_ci, is_known_method_prefix, parse, path_terminator, Parsed,
};

#[test]
fn ready() {
    let r = b"GET /ready HTTP/1.1\r\nHost: x\r\n\r\n";
    match parse(r) {
        Parsed::Ready { consumed } => assert_eq!(consumed, r.len()),
        other => panic!("got {:?}", other),
    }
}

#[test]
fn fraud() {
    let body = br#"{"id":"abc"}"#;
    let mut buf = Vec::new();
    buf.extend_from_slice(b"POST /fraud-score HTTP/1.1\r\nHost: x\r\nContent-Length: 12\r\n\r\n");
    buf.extend_from_slice(body);
    match parse(&buf) {
        Parsed::FraudScore {
            body_start,
            body_end,
            consumed,
        } => {
            assert_eq!(&buf[body_start..body_end], body);
            assert_eq!(consumed, buf.len());
        }
        other => panic!("got {:?}", other),
    }
}

#[test]
fn fraud_pipelined() {
    let body = br#"{"id":"abc"}"#;
    let mut buf = Vec::new();
    for _ in 0..2 {
        buf.extend_from_slice(b"POST /fraud-score HTTP/1.1\r\nContent-Length: 12\r\n\r\n");
        buf.extend_from_slice(body);
    }
    let mut head = 0;
    let mut requests = 0;
    loop {
        match parse(&buf[head..]) {
            Parsed::FraudScore { consumed, .. } => {
                head += consumed;
                requests += 1;
            }
            Parsed::Incomplete => break,
            other => panic!("unexpected {:?}", other),
        }
    }
    assert_eq!(requests, 2);
    assert_eq!(head, buf.len());
}

#[test]
fn fraud_missing_content_length() {
    let r = b"POST /fraud-score HTTP/1.1\r\nHost: x\r\n\r\nbody";
    assert_eq!(parse(r), Parsed::Bad);
}

#[test]
fn fraud_incomplete_body() {
    let r = b"POST /fraud-score HTTP/1.1\r\nContent-Length: 50\r\n\r\n{\"id\":\"abc\"}";
    assert_eq!(parse(r), Parsed::Incomplete);
}

#[test]
fn fraud_lowercase_header() {
    let body = br#"{"id":"abc"}"#;
    let mut buf = Vec::new();
    buf.extend_from_slice(b"POST /fraud-score HTTP/1.1\r\ncontent-length: 12\r\n\r\n");
    buf.extend_from_slice(body);
    assert!(matches!(parse(&buf), Parsed::FraudScore { .. }));
}

#[test]
fn unknown_path() {
    let r = b"GET /metrics HTTP/1.1\r\n\r\n";
    match parse(r) {
        Parsed::NotFound { consumed } => assert_eq!(consumed, r.len()),
        other => panic!("got {:?}", other),
    }
}

#[test]
fn bad_method() {
    let r = b"FOOBAR /ready HTTP/1.1\r\n\r\n";
    assert_eq!(parse(r), Parsed::Bad);
}

#[test]
fn incomplete_headers() {
    let r = b"GET /ready HTTP/1.1\r\nHost: x";
    assert_eq!(parse(r), Parsed::Incomplete);
}

#[test]
fn ready_with_query() {
    let r = b"GET /ready?cache=0 HTTP/1.1\r\n\r\n";
    assert!(matches!(parse(r), Parsed::Ready { .. }));
}

#[test]
fn short_input_is_incomplete() {
    assert_eq!(parse(b""), Parsed::Incomplete);
    assert_eq!(parse(b"GET / H\r\n\r\n"), Parsed::Incomplete);
    assert_eq!(parse(b"FOO BAR BAZ\r\n\r\n"), Parsed::Incomplete);
    assert_eq!(parse(b"FOO BAR BAZ.\r\n\r\n"), Parsed::Bad);
}

#[test]
fn path_must_end() {
    let r = b"POST /fraud-scores HTTP/1.1\r\nContent-Length: 0\r\n\r\n";
    assert_eq!(parse(r), Parsed::NotFound { consumed: r.len() });
    let r = b"GET /readyz HTTP/1.1\r\n\r\n";
    assert_eq!(parse(r), Parsed::NotFound { consumed: r.len() });
    assert_eq!(path_terminator(b"a?b", 1), Some(b'?'));
    assert_eq!(path_terminator(b"a b", 1), Some(b' '));
    assert_eq!(path_terminator(b"a/b", 1), None);
    assert_eq!(path_terminator(b"a", 1), None);
}

#[test]
fn later_input_does_not_change_a_request() {
    let first = b"GET /ready HTTP/1.1\r\n\r\n".to_vec();
    let mut both = first.clone();
    both.extend_from_slice(b"POST /fraud-score HTTP/1.1\r\n");
    assert_eq!(parse(&both), parse(&first));
    assert_eq!(parse(&first), Parsed::Ready { consumed: first.len() });
}

#[test]
fn content_length_lines() {
    assert_eq!(find_content_length(b"CONTENT-LENGTH:\t 42"), Some(42));
    assert_eq!(find_content_length(b"a: b\r\nContent-Length:7\r\nx: y"), Some(7));
    assert_eq!(find_content_length(b"Content-Length: 3\nContent-Length: 9"), Some(3));
    assert_eq!(find_content_length(b"Content-Length: x"), None);
    assert_eq!(find_content_length(b"x Content-Length: 5"), None);
    assert_eq!(find_content_length(b"Content-Len"), None);
    let wrapped = (usize::MAX as u128 + 6).to_string();
    let line = format!("content-length: {}", wrapped);
    assert_eq!(find_content_length(line.as_bytes()), Some(5));
    let huge = format!("POST /fraud-score X\r\ncontent-length: {}\r\n\r\n", usize::MAX);
    assert_eq!(parse(huge.as_bytes()), Parsed::Incomplete);
}

#[test]
fn header_names_ignore_case() {
    assert!(header_eq_ascii_ci(b"HoSt:", b"host:"));
    assert!(!header_eq_ascii_ci(b"Host", b"host:"));
    assert!(!header_eq_ascii_ci(b"[ost:", b"{ost:"));
}

#[test]
fn methods() {
    for m in ["GET ", "POST ", "PUT ", "DELETE ", "PATCH ", "HEAD ", "OPTIONS "] {
        assert!(is_known_method_prefix(m.as_bytes()));
    }
    assert!(!is_known_method_prefix(b"TRACE /"));
    assert!(!is_known_method_prefix(b"GET"));
}
