use rinha::ivf::{tuning, ClusterIndex, BLOCK_STRIDE};
use rinha::responses::{RESP_BAD_REQUEST, RESP_NOT_FOUND, RESP_PAYLOAD_TOO_LARGE, RESP_READY};
use rinha::server::{
    accepts_fd, advance, after_idle, after_poll, after_recv, after_send, after_wait, before_recv,
    ctrl_path, fraud_count, next_step, Config, Conn, Intake, Received, Sending, Step, Waiting,
    Woken, REQ_BUF_SIZE,
};
use rinha::DIM;

const BODY: &str = "{\"id\":\"x\",\"transaction\":{\"amount\":1,\"installments\":1,\"requested_at\":\"2026-03-11T01:00:00Z\"},\"customer\":{\"avg_amount\":1,\"tx_count_24h\":1,\"known_merchants\":[]},\"merchant\":{\"id\":\"M\",\"mcc\":\"5411\",\"avg_amount\":1},\"terminal\":{\"is_online\":true,\"card_present\":true,\"km_from_home\":1},\"last_transaction\":null}";

fn feed(conn: &mut Conn, input: &[u8]) -> Received {
    match before_recv(conn) {
        Intake::Receive { room } => {
            assert!(input.len() <= room);
            let at = conn.len;
            conn.buf[at..at + input.len()].copy_from_slice(input);
            after_recv(conn, input.len() as isize)
        }
        Intake::TooLarge { .. } => panic!("full"),
    }
}

fn scored(body: &str) -> Vec<u8> {
    format!("POST /fraud-score HTTP/1.1\r\nContent-Length: {}\r\n\r\n{}", body.len(), body).into_bytes()
}

#[test]
fn input_is_answered_in_turn() {
    let mut conn = Conn::new();
    let mut input = b"GET /ready HTTP/1.1\r\n\r\n".to_vec();
    input.extend_from_slice(&scored(BODY));
    input.extend_from_slice(b"GET /nothing HTTP/1.1\r\n\r\nGET /re");
    assert_eq!(feed(&mut conn, &input), Received::Process);
    let n = match next_step(&conn) {
        Step::Answer { response, consumed } => {
            assert_eq!(response, RESP_READY);
            consumed
        }
        _ => panic!("no answer"),
    };
    advance(&mut conn, n);
    let n = match next_step(&conn) {
        Step::Score { payload, consumed } => {
            assert_eq!(payload.merchant_mcc, b"5411");
            consumed
        }
        _ => panic!("no score"),
    };
    assert_eq!(n, scored(BODY).len());
    advance(&mut conn, n);
    let n = match next_step(&conn) {
        Step::Answer { response, consumed } => {
            assert_eq!(response, RESP_NOT_FOUND);
            consumed
        }
        _ => panic!("no answer"),
    };
    advance(&mut conn, n);
    assert!(matches!(next_step(&conn), Step::Wait));
    assert_eq!(&conn.buf[0..conn.len], b"GET /re");
}

#[test]
fn bad_input_is_refused() {
    let mut conn = Conn::new();
    feed(&mut conn, b"NONSENSE / HTTP/1.1\r\n\r\n");
    assert!(matches!(next_step(&conn), Step::Refuse { response: RESP_BAD_REQUEST }));
    let mut conn = Conn::new();
    feed(&mut conn, &scored("{\"id\":\"x\"}"));
    assert!(matches!(next_step(&conn), Step::Refuse { response: RESP_BAD_REQUEST }));
}

#[test]
fn reading() {
    let mut conn = Conn::new();
    assert_eq!(conn.len, 0);
    assert!(conn.buf.iter().all(|&b| b == 0));
    assert_eq!(before_recv(&conn), Intake::Receive { room: REQ_BUF_SIZE });
    assert_eq!(after_recv(&mut conn, -1), Received::Retry);
    assert_eq!(after_recv(&mut conn, 0), Received::Closed);
    assert_eq!(conn.len, 0);
    assert_eq!(after_recv(&mut conn, 100), Received::Process);
    assert_eq!(before_recv(&conn), Intake::Receive { room: REQ_BUF_SIZE - 100 });
    assert_eq!(after_recv(&mut conn, REQ_BUF_SIZE as isize - 100), Received::Process);
    assert_eq!(before_recv(&conn), Intake::TooLarge { response: RESP_PAYLOAD_TOO_LARGE });
}

#[test]
fn dropping_input() {
    let mut conn = Conn::new();
    feed(&mut conn, b"abcdef");
    advance(&mut conn, 0);
    assert_eq!(&conn.buf[0..conn.len], b"abcdef");
    advance(&mut conn, 2);
    assert_eq!(&conn.buf[0..conn.len], b"cdef");
    assert_eq!(&conn.buf[0..8], b"cdefef\0\0");
    advance(&mut conn, 0);
    assert_eq!(conn.len, 4);
    assert_eq!(&conn.buf[0..8], b"cdefef\0\0");
    advance(&mut conn, 99);
    assert_eq!(conn.len, 0);
    assert_eq!(&conn.buf[0..8], b"cdefef\0\0");
    advance(&mut conn, 3);
    assert_eq!(conn.len, 0);
}

#[test]
fn waiting_for_connections() {
    assert_eq!(after_poll(3, 0, 50, 10), Waiting::Done { n: 3 });
    assert_eq!(after_poll(-1, 0, 50, 10), Waiting::Done { n: -1 });
    assert_eq!(after_poll(0, 0, 50, 10), Waiting::Spin);
    assert_eq!(after_poll(0, 49, 50, 10), Waiting::Spin);
    assert_eq!(after_poll(0, 50, 50, 10), Waiting::Idle);
    assert_eq!(after_poll(0, 0, 0, 10), Waiting::Idle);
    assert_eq!(after_poll(0, 50, 50, 0), Waiting::Block);
    assert_eq!(after_poll(0, 0, 0, -5), Waiting::Block);
    assert_eq!(after_idle(0), Waiting::Done { n: 0 });
    assert_eq!(after_idle(4), Waiting::Done { n: 4 });
    assert_eq!(after_idle(-1), Waiting::Block);
    assert_eq!(after_wait(0, true), Woken::Serve { n: 0 });
    assert_eq!(after_wait(5, false), Woken::Serve { n: 5 });
    assert_eq!(after_wait(-1, true), Woken::Again);
    assert_eq!(after_wait(-1, false), Woken::Stop);
}

#[test]
fn sending() {
    assert_eq!(after_send(10, 0, 4, false), Sending::More { sent: 4 });
    assert_eq!(after_send(10, 4, 6, false), Sending::Done);
    assert_eq!(after_send(10, 4, -1, true), Sending::More { sent: 4 });
    assert_eq!(after_send(10, 4, -1, false), Sending::Failed);
    assert_eq!(after_send(10, 4, 0, true), Sending::Failed);
}

#[test]
fn descriptors_and_paths() {
    assert!(accepts_fd(0));
    assert!(accepts_fd(65535));
    assert!(!accepts_fd(65536));
    assert!(!accepts_fd(-1));
    let cfg = Config {
        uds_path: "/sockets/api.sock".to_string(),
        uds_mode: 0o666,
        cpu_pin: None,
        search_mode: 0,
    };
    assert_eq!(ctrl_path(&cfg.uds_path), "/sockets/api.sock.ctrl");
    assert_eq!((cfg.uds_mode, cfg.cpu_pin, cfg.search_mode), (0o666, None, 0));
}

#[test]
fn ways_of_searching() {
    let mut blocks = vec![i16::MAX; 2 * BLOCK_STRIDE];
    for lane in 0..5 {
        for j in 0..DIM {
            blocks[j * 8 + lane] = if j == 0 { 10 + lane as i16 } else { 0 };
            blocks[BLOCK_STRIDE + j * 8 + lane] = 0;
        }
    }
    let mut centroids = vec![0i16; 8 * DIM];
    centroids[1] = 5;
    let mut bbox_min = vec![0i16; 2 * DIM];
    bbox_min[0] = 10;
    let mut bbox_max = vec![0i16; 2 * DIM];
    bbox_max[0] = 14;
    let ds = ClusterIndex {
        n: 10,
        k: 2,
        k_pad: 8,
        centroids_soa_i16: centroids,
        bbox_min,
        bbox_max,
        offsets: vec![0, 5, 10],
        block_offsets: vec![0, 1, 2],
        blocks,
        labels: vec![1, 1, 1, 1, 1, 0, 0, 0, 0, 0],
        orig_ids: (0..10).collect(),
    };
    let q = [0i16; DIM];
    let t = tuning(Some(1), None);
    assert_eq!(fraud_count(0, &q, &ds, &t), 0);
    assert_eq!(fraud_count(1, &q, &ds, &t), 5);
    assert_eq!(fraud_count(2, &q, &ds, &t), 0);
    assert_eq!(fraud_count(3, &q, &ds, &t), 5);
    assert_eq!(fraud_count(9, &q, &ds, &t), 0);
}
