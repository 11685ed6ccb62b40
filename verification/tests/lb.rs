use rinha::lb::{
    after_connect, after_first_try, after_hand_off, after_reconnect, dispatch, hand_off,
    handle_accept, is_health, is_recoverable, next_upstream, pack, parse_upstreams, serve_client,
    some_upstreams, unpack_op, Accepted, Dispatch, Errand, FirstTry, HandOff, Retry,
    UpstreamError, HEALTH_OK_RESPONSE, OP_ACCEPT, RECONNECT_TRIES,
};

fn paths(s: &str) -> Vec<String> {
    parse_upstreams(s).ok().unwrap().into_iter().map(|u| u.path).collect()
}

fn error_of(s: &str) -> UpstreamError {
    match some_upstreams(s) {
        Ok(_) => panic!("accepted"),
        Err(e) => e,
    }
}

#[test]
fn upstreams_are_split_and_trimmed() {
    assert_eq!(paths("/a"), vec!["/a.ctrl"]);
    assert_eq!(paths(" /a , /b,,\t/c\n,"), vec!["/a.ctrl", "/b.ctrl", "/c.ctrl"]);
    assert_eq!(paths("\u{a0}\u{2003}/x y\u{3000}"), vec!["/x y.ctrl"]);
    assert!(paths(" , ,").is_empty());
    assert!(paths("").is_empty());
    let u = parse_upstreams("/é").ok().unwrap();
    assert_eq!(u[0].addr_len, 2 + 8);
}

#[test]
fn white_space_is_what_unicode_says() {
    for u in 0..=0x10FFFFu32 {
        let c = match char::from_u32(u) {
            Some(c) if c != ',' && c != '\0' => c,
            _ => continue,
        };
        let white = match u {
            0x09..=0x0D | 0x20 | 0x85 | 0xA0 | 0x1680 => true,
            0x2000..=0x200A | 0x2028 | 0x2029 | 0x202F | 0x205F | 0x3000 => true,
            _ => false,
        };
        let name = if white { String::from("x") } else { format!("{c}x{c}") };
        assert_eq!(paths(&format!("{c}x{c}")), vec![format!("{name}.ctrl")]);
    }
}

#[test]
fn upstreams_that_are_refused() {
    assert_eq!(error_of(""), UpstreamError::Empty);
    assert_eq!(error_of("/a,/b\0c"), UpstreamError::InvalidPath);
    let fits = "x".repeat(102);
    assert_eq!(some_upstreams(&fits).ok().unwrap()[0].addr_len, 109);
    let long = "x".repeat(103);
    assert_eq!(error_of(&long), UpstreamError::TooLong);
    let both = format!("{},\0", long);
    assert_eq!(error_of(&both), UpstreamError::TooLong);
    assert_eq!(UpstreamError::InvalidPath.message(), "invalid path");
    assert_eq!(UpstreamError::TooLong.message(), "uds path too long");
    assert_eq!(UpstreamError::Empty.message(), "UPSTREAMS empty");
}

#[test]
fn health_checks() {
    assert!(is_health(b"GET /health HTTP/1.1", b"/health"));
    assert!(is_health(b"GET /health?x", b"/health"));
    assert!(!is_health(b"GET /health", b"/health"));
    assert!(!is_health(b"GET /healthz ", b"/health"));
    assert!(!is_health(b"PUT /health ", b"/health"));
    assert!(!is_health(b"GET", b""));
    assert!(is_health(b"GET  ", b""));
    assert!(HEALTH_OK_RESPONSE.starts_with("HTTP/1.1 200 OK\r\n"));
}

#[test]
fn connections_are_handed_over() {
    for errno in [32, 104, 9, 107] {
        assert!(is_recoverable(errno));
        assert_eq!(after_hand_off(5, -1, errno), HandOff::Replace { ctrl: 5 });
    }
    assert!(!is_recoverable(11));
    assert_eq!(after_hand_off(5, -1, 11), HandOff::GiveUp);
    assert_eq!(after_hand_off(5, 1, 0), HandOff::Handed);
    assert_eq!(hand_off(0, 5), HandOff::Send { ctrl: 5 });
    assert_eq!(hand_off(0, -1), HandOff::Reconnect);
    assert_eq!(hand_off(2, 5), HandOff::GiveUp);
    assert_eq!(after_reconnect(0, true, 6), HandOff::Send { ctrl: 6 });
    assert_eq!(after_reconnect(0, true, -1), HandOff::Reconnect);
    assert_eq!(after_reconnect(0, false, 6), HandOff::GiveUp);
    assert_eq!(after_reconnect(1, true, 6), HandOff::GiveUp);
}

#[test]
fn every_upstream_gets_its_turn() {
    let mut rr = 4usize;
    let picks: Vec<usize> = (0..6).map(|_| next_upstream(&mut rr, 3)).collect();
    assert_eq!(picks, vec![1, 2, 0, 1, 2, 0]);
    let mut rr = usize::MAX;
    assert_eq!(next_upstream(&mut rr, 2), 1);
    assert_eq!(rr, 0);
}

#[test]
fn connecting_anew() {
    assert_eq!(after_connect(0, true), Retry::Connected);
    assert_eq!(after_connect(7, true), Retry::Connected);
    assert_eq!(after_connect(0, false), Retry::Again);
    assert_eq!(after_connect(1, false), Retry::Again);
    assert_eq!(after_connect(2, false), Retry::GiveUp);
    assert_eq!(after_connect(u32::MAX, false), Retry::GiveUp);
    let mut tries = 0;
    while after_connect(tries, false) == Retry::Again {
        tries += 1;
    }
    assert_eq!(tries + 1, RECONNECT_TRIES);
}

#[test]
fn connecting_for_the_first_time() {
    assert_eq!(after_first_try(0, true), FirstTry::Connected { retries: None });
    assert_eq!(after_first_try(3, true), FirstTry::Connected { retries: Some(3) });
    assert_eq!(after_first_try(u32::MAX, true), FirstTry::Connected { retries: Some(u32::MAX) });
    assert_eq!(after_first_try(0, false), FirstTry::Again { failed: 1, report: None });
    assert_eq!(after_first_try(38, false), FirstTry::Again { failed: 39, report: None });
    assert_eq!(after_first_try(39, false), FirstTry::Again { failed: 40, report: Some(2) });
    assert_eq!(after_first_try(40, false), FirstTry::Again { failed: 41, report: None });
    assert_eq!(after_first_try(119, false), FirstTry::Again { failed: 120, report: Some(6) });
}

#[test]
fn health_checks_are_answered_and_the_rest_is_offered() {
    let mut rr = 7usize;
    let answer = Dispatch::AnswerHealth { response: HEALTH_OK_RESPONSE };
    assert_eq!(dispatch(true, &mut rr, 3), answer);
    assert_eq!(rr, 7);
    assert_eq!(dispatch(false, &mut rr, 3), Dispatch::Offer { to: 1 });
    assert_eq!(rr, 8);
    let mut rr = usize::MAX;
    assert_eq!(dispatch(false, &mut rr, 2), Dispatch::Offer { to: 1 });
    assert_eq!(rr, 0);
    assert_eq!(
        HEALTH_OK_RESPONSE.as_bytes(),
        b"HTTP/1.1 200 OK\r\nContent-Length: 0\r\nConnection: close\r\n\r\n"
    );
}

#[test]
fn clients_take_turns() {
    let health: &[u8] = b"GET /health HTTP/1.1\r\n";
    let other: &[u8] = b"POST /fraud-score HTTP/1.1\r\n";
    let row: [&[u8]; 9] = [other, health, b"", other, health, health, other, other, health];
    let mut rr = 0usize;
    let mut m = 0usize;
    for (i, front) in row.iter().enumerate() {
        let client = 20 + i as i32;
        let errand = serve_client(client, front, b"/health", &mut rr, 3);
        if *front == health {
            let what = Dispatch::AnswerHealth { response: HEALTH_OK_RESPONSE };
            assert_eq!(errand, Errand { what, close: client });
        } else {
            assert_eq!(errand, Errand { what: Dispatch::Offer { to: m % 3 }, close: client });
            m += 1;
        }
        assert_eq!(rr, m);
    }
    assert_eq!(m, 5);
    let mut rr = 4usize;
    let errand = serve_client(9, b"GET  HTTP/1.1", b"", &mut rr, 3);
    assert_eq!(errand, Errand { what: Dispatch::Offer { to: 1 }, close: 9 });
}

#[test]
fn marks_of_operations() {
    assert_eq!(pack(OP_ACCEPT), 1u64 << 56);
    for op in 0..=255u8 {
        assert_eq!(unpack_op(pack(op)), op);
    }
    assert_eq!(unpack_op((3u64 << 56) | 77), 3);
}

#[test]
fn completions() {
    assert_eq!(handle_accept(7, 2), Accepted { rearm: false, client: Some(7) });
    assert_eq!(handle_accept(-4, 2), Accepted { rearm: false, client: None });
    assert_eq!(handle_accept(0, 1), Accepted { rearm: true, client: Some(0) });
}
