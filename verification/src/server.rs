//! What the service does with the input of a connection.
//!
//! The functions here decide; reading, scoring and sending happen around them.

use vstd::prelude::*;

use crate::exact::{
    law_exact_search_finds_nearest, law_fast_search_looks_twice_where_needed,
    law_probing_counts_nearest_of_probed, probed_places,
};
use crate::http::{law_later_input_changes_nothing, lemma_request_fits, parse, request, Parsed};
use crate::ivf::{
    lemma_probe_order, nprobe_default, probe_count, search_fraud_count, search_fraud_count_exact,
    search_fraud_count_probe, ClusterIndex, Tuning, MAX_PROBE,
};
use crate::json::{self, payload, Payload, PayloadView};
use crate::knn::{at_most_five, is_nearest_of, label_sum, nearest_count, picked_sum, votes};
use crate::responses::{RESP_BAD_REQUEST, RESP_NOT_FOUND, RESP_PAYLOAD_TOO_LARGE, RESP_READY};
use crate::DIM;

verus! {

/// Bytes of input that a connection can hold.
pub const REQ_BUF_SIZE: usize = 4096;

/// Number of descriptors that the service keeps connections for.
pub const MAX_FD: usize = 65536;

/// Settings of the service.
pub struct Config {
    pub uds_path: String,
    pub uds_mode: u32,
    pub cpu_pin: Option<usize>,
    pub search_mode: u8,
}

/// The path of the control socket that goes with a socket.
pub fn ctrl_path(uds_path: &str) -> (r: String)
    ensures
        r@ == uds_path@ + ".ctrl"@,
{
    String::from_str(uds_path).concat(".ctrl")
}

/// A connection's input: the first `len` bytes of `buf`.
pub struct Conn {
    pub buf: [u8; REQ_BUF_SIZE],
    pub len: usize,
}

impl Conn {
    /// The input fits the buffer.
    pub open spec fn well_formed(&self) -> bool {
        self.len <= REQ_BUF_SIZE
    }

    /// The input that has not been answered.
    pub open spec fn pending(&self) -> Seq<u8> {
        self.buf@.take(self.len as int)
    }

    /// A connection that has sent nothing yet, with a buffer of zeros.
    pub fn new() -> (r: Conn)
        ensures
            r.well_formed(),
            r.len == 0,
            forall|i: int| 0 <= i < REQ_BUF_SIZE ==> #[trigger] r.buf@[i] == 0,
            r.pending() == Seq::<u8>::empty(),
    {
        let r = Conn { buf: [0u8; REQ_BUF_SIZE], len: 0 };
        assert(r.pending() =~= Seq::<u8>::empty());
        r
    }
}

/// Whether the service can keep a connection for the descriptor.
pub fn accepts_fd(fd: i32) -> (r: bool)
    ensures
        r == (0 <= fd < MAX_FD),
{
    fd >= 0 && (fd as usize) < MAX_FD
}

/// What to do when a connection has input.
#[derive(Debug, Clone, Copy, PartialEq, Eq)]
pub enum Intake {
    /// Nothing more fits: send `response` and close.
    TooLarge { response: &'static str },
    /// Read up to `room` bytes behind the input.
    Receive { room: usize },
}

/// What to do when a connection has input.
pub fn before_recv(conn: &Conn) -> (r: Intake)
    ensures
        r == if conn.len >= REQ_BUF_SIZE {
            Intake::TooLarge { response: RESP_PAYLOAD_TOO_LARGE }
        } else {
            Intake::Receive { room: (REQ_BUF_SIZE - conn.len) as usize }
        },
{
    if conn.len >= REQ_BUF_SIZE {
        Intake::TooLarge { response: RESP_PAYLOAD_TOO_LARGE }
    } else {
        Intake::Receive { room: REQ_BUF_SIZE - conn.len }
    }
}

/// What to do after a read.
#[derive(Debug, Clone, Copy, PartialEq, Eq, Structural)]
pub enum Received {
    /// The read failed: try again when there is input.
    Retry,
    /// The other side has closed.
    Closed,
    /// There is new input to be answered.
    Process,
}

/// Takes note of `n` bytes that were read behind the input.
pub fn after_recv(conn: &mut Conn, n: isize) -> (r: Received)
    requires
        old(conn).well_formed(),
        n <= REQ_BUF_SIZE - old(conn).len,
    ensures
        final(conn).well_formed(),
        final(conn).buf == old(conn).buf,
        final(conn).len == if n > 0 {
            old(conn).len + n
        } else {
            old(conn).len as int
        },
        r == if n < 0 {
            Received::Retry
        } else if n == 0 {
            Received::Closed
        } else {
            Received::Process
        },
{
    if n < 0 {
        return Received::Retry;
    }
    if n == 0 {
        return Received::Closed;
    }
    conn.len = conn.len + n as usize;
    Received::Process
}

/// What to do with the input of a connection.
pub enum Step<'a> {
    /// Wait for more of it.
    Wait,
    /// Send `response` and close.
    Refuse { response: &'static str },
    /// Send `response`, drop `consumed` bytes of input and go on, or close where it
    /// cannot be sent.
    Answer { response: &'static str, consumed: usize },
    /// Score the transaction, send the verdict, drop `consumed` bytes of input and
    /// go on, or close where it cannot be sent.
    Score { payload: Payload<'a>, consumed: usize },
}

/// The values of a [`Step`].
pub enum StepView {
    Wait,
    Refuse { response: Seq<char> },
    Answer { response: Seq<char>, consumed: int },
    Score { payload: PayloadView, consumed: int },
}

impl<'a> View for Step<'a> {
    type V = StepView;

    open spec fn view(&self) -> StepView {
        match *self {
            Step::Wait => StepView::Wait,
            Step::Refuse { response } => StepView::Refuse { response: response@ },
            Step::Answer { response, consumed } => StepView::Answer {
                response: response@,
                consumed: consumed as int,
            },
            Step::Score { payload, consumed } => StepView::Score {
                payload: payload@,
                consumed: consumed as int,
            },
        }
    }
}

/// What is to be done where `p` stands at the front of the input `pending`.
pub open spec fn step_for(p: Parsed, pending: Seq<u8>) -> StepView {
    match p {
        Parsed::Incomplete => StepView::Wait,
        Parsed::Bad => StepView::Refuse { response: RESP_BAD_REQUEST@ },
        Parsed::Ready { consumed } => StepView::Answer {
            response: RESP_READY@,
            consumed: consumed as int,
        },
        Parsed::NotFound { consumed } => StepView::Answer {
            response: RESP_NOT_FOUND@,
            consumed: consumed as int,
        },
        Parsed::FraudScore { body_start, body_end, consumed } => match payload(
            pending.subrange(body_start as int, body_end as int),
        ) {
            Some(p) => StepView::Score { payload: p, consumed: consumed as int },
            None => StepView::Refuse { response: RESP_BAD_REQUEST@ },
        },
    }
}

/// What is to be done with the input `pending`.
pub open spec fn step_of(pending: Seq<u8>) -> StepView {
    step_for(request(pending), pending)
}

/// The bytes of input that a step takes up, where it does not end the connection.
pub open spec fn step_takes(s: StepView) -> int {
    match s {
        StepView::Answer { consumed, .. } => consumed,
        StepView::Score { consumed, .. } => consumed,
        _ => 0,
    }
}

/// All that is done with the input `pending`: its requests are answered one by one,
/// up to the point at which more input is needed or one is refused.
pub open spec fn steps(pending: Seq<u8>) -> Seq<StepView>
    decreases pending.len(),
{
    let s = step_of(pending);
    if (s is Answer || s is Score) && 0 < step_takes(s) <= pending.len() {
        seq![s] + steps(pending.skip(step_takes(s)))
    } else {
        seq![s]
    }
}

/// What to do with the input of a connection.
pub fn next_step<'a>(conn: &'a Conn) -> (r: Step<'a>)
    requires
        conn.well_formed(),
    ensures
        r@ == step_of(conn.pending()),
        0 <= step_takes(r@) <= conn.len,
        r is Answer || r is Score ==> step_takes(r@) > 0,
{
    let pending = &conn.buf[0..conn.len];
    assert(pending@ =~= conn.pending());
    match parse(pending) {
        Parsed::Incomplete => Step::Wait,
        Parsed::Bad => Step::Refuse { response: RESP_BAD_REQUEST },
        Parsed::Ready { consumed } => Step::Answer { response: RESP_READY, consumed },
        Parsed::NotFound { consumed } => Step::Answer { response: RESP_NOT_FOUND, consumed },
        Parsed::FraudScore { body_start, body_end, consumed } => {
            match json::parse(&pending[body_start..body_end]) {
                Some(payload) => Step::Score { payload, consumed },
                None => Step::Refuse { response: RESP_BAD_REQUEST },
            }
        },
    }
}

/// Drops the first `consumed` bytes of a connection's input. The rest moves to the
/// front of the buffer, and what lies behind it stays as it is.
pub fn advance(conn: &mut Conn, consumed: usize)
    requires
        old(conn).well_formed(),
    ensures
        final(conn).well_formed(),
        final(conn).pending() == old(conn).pending().skip(
            if consumed < old(conn).len {
                consumed as int
            } else {
                old(conn).len as int
            },
        ),
        consumed == 0 ==> *final(conn) == *old(conn),
        final(conn).len == if consumed < old(conn).len {
            old(conn).len - consumed
        } else {
            0
        },
        forall|j: int|
            0 <= j < REQ_BUF_SIZE ==> #[trigger] final(conn).buf@[j] == if j < final(conn).len {
                old(conn).buf@[old(conn).len - final(conn).len + j]
            } else {
                old(conn).buf@[j]
            },
{
    if consumed == 0 || conn.len == 0 {
        assert(conn.pending() =~= conn.pending().skip(0));
        return;
    }
    let ghost before = conn.buf@;
    let c = if consumed < conn.len {
        consumed
    } else {
        conn.len
    };
    let remaining = conn.len - c;
    let mut i: usize = 0;
    while i < remaining
        invariant
            i <= remaining,
            c + remaining <= REQ_BUF_SIZE,
            before.len() == REQ_BUF_SIZE,
            forall|j: int| 0 <= j < i ==> #[trigger] conn.buf@[j] == before[c + j],
            forall|j: int| i <= j < REQ_BUF_SIZE ==> #[trigger] conn.buf@[j] == before[j],
        decreases remaining - i,
    {
        conn.buf[i] = conn.buf[c + i];
        i += 1;
    }
    conn.len = remaining;
    assert(conn.pending() =~= before.take(c + remaining).skip(c as int));
}

proof fn lemma_same_step(p: Parsed, first: Seq<u8>, rest: Seq<u8>)
    requires
        p matches Parsed::FraudScore { body_start, body_end, consumed } ==> body_start <= body_end
            <= first.len(),
    ensures
        step_for(p, first + rest) == step_for(p, first),
        step_for(p, first) is Answer || step_for(p, first) is Score ==> p !is Incomplete,
{
    if let Parsed::FraudScore { body_start, body_end, consumed } = p {
        assert((first + rest).subrange(body_start as int, body_end as int) =~= first.subrange(
            body_start as int,
            body_end as int,
        ));
    }
}

/// Requests are answered in turn: where `first` is one whole request, what is done
/// with `first` followed by more input is what is done with `first`, and dropping
/// what it takes up leaves just the rest.
pub proof fn law_requests_are_answered_in_turn(first: Seq<u8>, rest: Seq<u8>)
    requires
        first.len() <= usize::MAX,
        step_of(first) is Answer || step_of(first) is Score,
        step_takes(step_of(first)) == first.len(),
    ensures
        step_of(first + rest) == step_of(first),
        (first + rest).skip(step_takes(step_of(first + rest))) == rest,
        steps(first + rest) == seq![step_of(first)] + steps(rest),
{
    lemma_request_fits(first);
    let p = request(first);
    lemma_same_step(p, first, rest);
    law_later_input_changes_nothing(first, rest);
    assert((first + rest).skip(first.len() as int) =~= rest);
}

/// What to do after part of an answer has been sent.
#[derive(Debug, Clone, Copy, PartialEq, Eq, Structural)]
pub enum Sending {
    /// Send the rest, from byte `sent` on.
    More { sent: usize },
    /// All of it has been sent.
    Done,
    /// It cannot be sent.
    Failed,
}

/// What to do when `sent` of `len` bytes have been sent and the next attempt
/// returned `n`: the bytes it sent, or a negative number where it failed, with
/// `would_block` where it would have had to wait.
pub fn after_send(len: usize, sent: usize, n: isize, would_block: bool) -> (r: Sending)
    requires
        sent < len,
        n <= len - sent,
    ensures
        r == if n > 0 {
            if sent + n < len {
                Sending::More { sent: (sent + n) as usize }
            } else {
                Sending::Done
            }
        } else if n < 0 && would_block {
            Sending::More { sent }
        } else {
            Sending::Failed
        },
{
    if n > 0 {
        let sent = sent + n as usize;
        if sent < len {
            Sending::More { sent }
        } else {
            Sending::Done
        }
    } else if n < 0 && would_block {
        Sending::More { sent }
    } else {
        Sending::Failed
    }
}

/// Number of frauds among the neighbours of the query, by the way of searching:
/// fast with a second look at open verdicts (1), not at all (2), fast (3), or
/// thorough.
pub open spec fn count_by_mode(mode: u8, q: Seq<i16>, ds: &ClusterIndex, tuning: &Tuning) -> int {
    let order = ds.probe_order(q, probe_count(ds, tuning));
    if mode == 1 {
        ds.search_result(q, order, tuning.early_limit, true)
    } else if mode == 2 {
        0
    } else if mode == 3 {
        votes(ds.probed(q, order, None, probe_count(ds, tuning)).kept)
    } else {
        ds.search_result(q, order, tuning.early_limit, false)
    }
}

/// Counts the frauds among the neighbours of the query.
pub fn fraud_count(mode: u8, query: &[i16; DIM], ds: &ClusterIndex, tuning: &Tuning) -> (r: usize)
    requires
        ds.well_formed(),
        1 <= tuning.fast_nprobe <= MAX_PROBE,
    ensures
        r == count_by_mode(mode, query@, ds, tuning),
{
    match mode {
        1 => search_fraud_count(query, ds, nprobe_default(), tuning) as usize,
        2 => 0,
        3 => search_fraud_count_probe(query, ds, tuning) as usize,
        _ => search_fraud_count_exact(query, ds, tuning) as usize,
    }
}

/// How to wait for the connections that have something to read.
#[derive(Debug, Clone, Copy, PartialEq, Eq, Structural)]
pub enum Waiting {
    /// No more: `n` of them have, or an error has come where `n` is negative.
    Done { n: i32 },
    /// Look again without waiting.
    Spin,
    /// Wait for the time that is set.
    Idle,
    /// Wait until there is one.
    Block,
}

/// How to wait once a look without waiting has found `n` connections, `elapsed_us`
/// microseconds after the first such look: look again until `spin_us` microseconds
/// have passed, and wait for a time only where `idle_us` sets one.
pub fn after_poll(n: i32, elapsed_us: u64, spin_us: u64, idle_us: i64) -> (r: Waiting)
    ensures
        r == if n != 0 {
            Waiting::Done { n }
        } else if elapsed_us < spin_us {
            Waiting::Spin
        } else if idle_us > 0 {
            Waiting::Idle
        } else {
            Waiting::Block
        },
{
    if n != 0 {
        Waiting::Done { n }
    } else if elapsed_us < spin_us {
        Waiting::Spin
    } else if idle_us > 0 {
        Waiting::Idle
    } else {
        Waiting::Block
    }
}

/// How to go on once waiting for a time has returned `n`: where that has failed,
/// wait until there is a connection.
pub fn after_idle(n: i32) -> (r: Waiting)
    ensures
        r == if n >= 0 {
            Waiting::Done { n }
        } else {
            Waiting::Block
        },
{
    if n >= 0 {
        Waiting::Done { n }
    } else {
        Waiting::Block
    }
}

/// What to do once the waiting is over.
#[derive(Debug, Clone, Copy, PartialEq, Eq, Structural)]
pub enum Woken {
    /// Serve the first `n` connections.
    Serve { n: usize },
    /// Wait again.
    Again,
    /// Stop the service with the error.
    Stop,
}

/// What to do once the waiting has ended with `n`. Where that is an error, a mere
/// interruption is passed over.
pub fn after_wait(n: i32, interrupted: bool) -> (r: Woken)
    ensures
        r == if n >= 0 {
            Woken::Serve { n: n as usize }
        } else if interrupted {
            Woken::Again
        } else {
            Woken::Stop
        },
{
    if n >= 0 {
        Woken::Serve { n: n as usize }
    } else if interrupted {
        Woken::Again
    } else {
        Woken::Stop
    }
}

/// The ways of searching, where no early stop is set: the thorough one counts the frauds
/// among five nearest of the whole index, and is that of every mode but the first three.
/// Mode 1 gives the same where the probed clusters hold two or three frauds, and else what
/// mode 3 gives. Mode 2 does not search.
#[verifier::rlimit(50)]
pub proof fn law_modes_of_searching(mode: u8, q: Seq<i16>, ds: &ClusterIndex, tuning: &Tuning)
    requires
        ds.well_formed(),
        ds.boxes_enclose(),
        1 <= tuning.fast_nprobe <= MAX_PROBE,
        tuning.early_limit == i64::MIN,
        ds.is_probe_order(
            q,
            probe_count(ds, tuning),
            ds.probe_order(q, probe_count(ds, tuning)),
        ),
    ensures
        !(1 <= mode <= 3) ==> nearest_count(ds.all_items(q), count_by_mode(mode, q, ds, tuning)),
        mode == 2 ==> count_by_mode(mode, q, ds, tuning) == 0,
        ({
            let order = ds.probe_order(q, probe_count(ds, tuning));
            let found = label_sum(ds.probed(q, order, None, order.len() as int).kept.top, 5);
            &&& mode == 1 ==> count_by_mode(mode, q, ds, tuning) == if found == 2 || found == 3 {
                count_by_mode(0, q, ds, tuning)
            } else {
                count_by_mode(3, q, ds, tuning)
            }
            &&& mode == 3 ==> exists|sel: Set<int>|
                is_nearest_of(ds.all_items(q), probed_places(ds, q, order), sel) && count_by_mode(
                    mode,
                    q,
                    ds,
                    tuning,
                ) == at_most_five(
                    #[trigger] picked_sum(ds.all_items(q), sel, ds.all_items(q).len() as int),
                )
        }),
{
    let n = probe_count(ds, tuning);
    let order = ds.probe_order(q, n);
    lemma_probe_order(ds, q, n, order);
    law_exact_search_finds_nearest(ds, q, order);
    law_fast_search_looks_twice_where_needed(ds, q, order);
    law_probing_counts_nearest_of_probed(ds, q, order);
}

} // verus!
