//! Handing connections out to the instances of the service.

use vstd::prelude::*;

use crate::bytes::{occurs_at, text, word_at};
use crate::server::ctrl_path;

verus! {

/// The port to listen on, where none is given.
pub const DEFAULT_PORT: u32 = 9999;

/// The number of connections that may wait, where none is given.
pub const DEFAULT_BACKLOG: u32 = 4096;

/// The answer to a health check.
pub const HEALTH_OK_RESPONSE: &'static str =
    "HTTP/1.1 200 OK\r\nContent-Length: 0\r\nConnection: close\r\n\r\n";

/// Bytes of a connection's input that are looked at for a health check.
pub const HEALTH_PEEK_LEN: usize = 64;

/// Bytes that the path of a socket can take up, with the zero byte at its end.
pub const SUN_PATH_LEN: usize = 108;

/// Times that a connection is offered to an instance.
pub const SEND_TRIES: u32 = 2;

/// Times that a connection to an instance is tried again.
pub const RECONNECT_TRIES: u32 = 3;

/// Failed tries to connect between two reports of them.
pub const REPORT_TRIES: u32 = 40;

/// Failed tries to connect that take a second.
pub const TRIES_PER_SECOND: u32 = 20;

/// The characters with the Unicode property `White_Space`.
pub open spec fn white_space(c: char) -> bool {
    let u = c as u32;
    ||| 0x09 <= u <= 0x0D
    ||| u == 0x20
    ||| u == 0x85
    ||| u == 0xA0
    ||| u == 0x1680
    ||| 0x2000 <= u <= 0x200A
    ||| u == 0x2028
    ||| u == 0x2029
    ||| u == 0x202F
    ||| u == 0x205F
    ||| u == 0x3000
}

/// `char::is_whitespace`: whether a character has the Unicode property
/// `White_Space`. The contract claims that these are the characters that
/// [`white_space`] lists.
pub assume_specification[ char::is_whitespace ](c: char) -> (r: bool)
    ensures
        r == white_space(c),
;

/// An instance of the service: the path of its control socket, and the length of
/// its address.
pub struct Upstream {
    pub path: String,
    pub addr_len: u32,
}

/// Why a list of instances cannot be used.
#[derive(Debug, Clone, Copy, PartialEq, Eq, Structural)]
pub enum UpstreamError {
    /// A path holds a zero byte.
    InvalidPath,
    /// A path does not fit a socket's address.
    TooLong,
    /// The list is empty.
    Empty,
}

impl UpstreamError {
    /// What is wrong, in words.
    pub fn message(&self) -> (r: &'static str)
        ensures
            r@ == match self {
                UpstreamError::InvalidPath => "invalid path"@,
                UpstreamError::TooLong => "uds path too long"@,
                UpstreamError::Empty => "UPSTREAMS empty"@,
            },
    {
        match self {
            UpstreamError::InvalidPath => "invalid path",
            UpstreamError::TooLong => "uds path too long",
            UpstreamError::Empty => "UPSTREAMS empty",
        }
    }
}

/// The first position from `i` on that holds a comma, or the length.
pub open spec fn next_comma(s: Seq<char>, i: int) -> int
    decreases s.len() - i,
{
    if i >= s.len() || s[i] == ',' {
        i
    } else {
        next_comma(s, i + 1)
    }
}

/// The first position from `i` on that holds no white space, or the length.
pub open spec fn past_white(s: Seq<char>, i: int) -> int
    decreases s.len() - i,
{
    if i >= s.len() || !white_space(s[i]) {
        i
    } else {
        past_white(s, i + 1)
    }
}

/// The end of `s` without the white space in front of position `j`, down to `i`.
pub open spec fn before_white(s: Seq<char>, i: int, j: int) -> int
    decreases j,
{
    if j <= i || j <= 0 || !white_space(s[j - 1]) {
        j
    } else {
        before_white(s, i, j - 1)
    }
}

/// `s` without the white space at its ends.
pub open spec fn trimmed(s: Seq<char>) -> Seq<char> {
    let i = past_white(s, 0);
    s.subrange(i, before_white(s, i, s.len() as int))
}

/// The bytes that the control path of an instance takes up.
pub open spec fn path_len(path: Seq<char>) -> int {
    vstd::utf8::encode_utf8(path).len() as int
}

/// What is wrong with a control path.
pub open spec fn path_error(path: Seq<char>) -> Option<UpstreamError> {
    if path.contains('\0') {
        Some(UpstreamError::InvalidPath)
    } else if path_len(path) + 1 > SUN_PATH_LEN {
        Some(UpstreamError::TooLong)
    } else {
        None
    }
}

/// The control paths of the instances listed from position `i` on.
pub open spec fn paths_from(s: Seq<char>, i: int) -> Result<Seq<Seq<char>>, UpstreamError>
    decreases s.len() - i,
{
    let end = next_comma(s, i);
    let name = trimmed(s.subrange(i, end));
    let rest = if i <= end < s.len() {
        paths_from(s, end + 1)
    } else {
        Ok(Seq::empty())
    };
    let path = name + ".ctrl"@;
    if name.len() == 0 {
        rest
    } else {
        match path_error(path) {
            Some(e) => Err(e),
            None => followed_by(seq![path], rest),
        }
    }
}

/// `first`, followed by `rest`.
pub open spec fn followed_by(
    first: Seq<Seq<char>>,
    rest: Result<Seq<Seq<char>>, UpstreamError>,
) -> Result<Seq<Seq<char>>, UpstreamError> {
    match rest {
        Ok(r) => Ok(first + r),
        Err(e) => Err(e),
    }
}

/// `out` are the instances with the control paths `paths`.
pub open spec fn have_paths(out: Seq<Upstream>, paths: Seq<Seq<char>>) -> bool {
    &&& out.len() == paths.len()
    &&& forall|i: int| 0 <= i < out.len() ==> (#[trigger] out[i]).path@ == paths[i]
    &&& forall|i: int| 0 <= i < out.len() ==> (#[trigger] out[i]).addr_len == 2 + path_len(paths[i])
}

/// `s` without the white space at its ends.
fn trim<'a>(s: &'a str) -> (r: &'a str)
    ensures
        r@ == trimmed(s@),
{
    let n = s.unicode_len();
    let mut i: usize = 0;
    while i < n && s.get_char(i).is_whitespace()
        invariant
            i <= n == s@.len(),
            past_white(s@, 0) == past_white(s@, i as int),
        decreases n - i,
    {
        i += 1;
    }
    let mut j: usize = n;
    while j > i && s.get_char(j - 1).is_whitespace()
        invariant
            i <= j <= n == s@.len(),
            before_white(s@, i as int, n as int) == before_white(s@, i as int, j as int),
        decreases j,
    {
        j -= 1;
    }
    s.substring_char(i, j)
}

/// Whether `s` holds a zero byte.
fn has_nul(s: &str) -> (r: bool)
    ensures
        r == s@.contains('\0'),
{
    let n = s.unicode_len();
    let mut i: usize = 0;
    while i < n
        invariant
            i <= n == s@.len(),
            forall|j: int| 0 <= j < i ==> #[trigger] s@[j] != '\0',
        decreases n - i,
    {
        if s.get_char(i) == '\0' {
            assert(s@[i as int] == '\0');
            return true;
        }
        i += 1;
    }
    false
}

proof fn lemma_followed_twice(
    a: Seq<Seq<char>>,
    b: Seq<Seq<char>>,
    rest: Result<Seq<Seq<char>>, UpstreamError>,
)
    ensures
        followed_by(a, followed_by(b, rest)) == followed_by(a + b, rest),
{
    if let Ok(r) = rest {
        assert(a + (b + r) =~= (a + b) + r);
    }
}

/// Reads a list of instances, separated by commas. Empty entries are passed over.
pub fn parse_upstreams(s: &str) -> (r: Result<Vec<Upstream>, UpstreamError>)
    ensures
        match r {
            Ok(out) => paths_from(s@, 0) matches Ok(paths) && have_paths(out@, paths),
            Err(e) => paths_from(s@, 0) == Err::<Seq<Seq<char>>, UpstreamError>(e),
        },
{
    let mut out: Vec<Upstream> = Vec::new();
    let ghost mut paths: Seq<Seq<char>> = Seq::empty();
    let n = s.unicode_len();
    let mut i: usize = 0;
    proof {
        if let Ok(r) = paths_from(s@, 0) {
            assert(Seq::<Seq<char>>::empty() + r =~= r);
        }
    }
    loop
        invariant
            i <= n == s@.len(),
            have_paths(out@, paths),
            paths_from(s@, 0) == followed_by(paths, paths_from(s@, i as int)),
        decreases n - i,
    {
        let mut end: usize = i;
        while end < n && s.get_char(end) != ','
            invariant
                i <= end <= n == s@.len(),
                next_comma(s@, i as int) == next_comma(s@, end as int),
            decreases n - end,
        {
            end += 1;
        }
        let name = trim(s.substring_char(i, end));
        if name.unicode_len() > 0 {
            let path = ctrl_path(name);
            if has_nul(path.as_str()) {
                return Err(UpstreamError::InvalidPath);
            }
            let len = path.as_str().as_bytes().len();
            if len >= SUN_PATH_LEN {
                return Err(UpstreamError::TooLong);
            }
            proof {
                let rest = if end < n {
                    paths_from(s@, end + 1)
                } else {
                    Ok(Seq::empty())
                };
                lemma_followed_twice(paths, seq![path@], rest);
                paths = paths + seq![path@];
            }
            out.push(Upstream { path, addr_len: 2 + len as u32 });
        }
        if end >= n {
            proof {
                assert(paths + Seq::<Seq<char>>::empty() =~= paths);
            }
            return Ok(out);
        }
        i = end + 1;
    }
}

/// Reads a list of instances that holds at least one.
pub fn some_upstreams(s: &str) -> (r: Result<Vec<Upstream>, UpstreamError>)
    ensures
        match r {
            Ok(out) => {
                &&& out@.len() > 0
                &&& paths_from(s@, 0) matches Ok(paths)
                &&& have_paths(out@, paths)
            },
            Err(e) => match paths_from(s@, 0) {
                Ok(paths) => paths.len() == 0 && e == UpstreamError::Empty,
                Err(wrong) => e == wrong,
            },
        },
{
    match parse_upstreams(s) {
        Ok(out) => if out.len() == 0 {
            Err(UpstreamError::Empty)
        } else {
            Ok(out)
        },
        Err(e) => Err(e),
    }
}

/// The front of a connection's input asks for the health of `path`.
pub open spec fn asks_health(data: Seq<u8>, path: Seq<u8>) -> bool {
    let at = 4 + path.len();
    &&& occurs_at(data, text("GET "), 0)
    &&& occurs_at(data, path, 4)
    &&& at < data.len()
    &&& data[at as int] == 0x20 || data[at as int] == 0x3F
}

/// Whether the front of a connection's input asks for the health of `path`.
pub fn is_health(data: &[u8], path: &[u8]) -> (r: bool)
    ensures
        r == asks_health(data@, path@),
{
    if data.len() < 5 || data.len() - 5 < path.len() {
        return false;
    }
    if !word_at(data, "GET ".as_bytes(), 0) || !word_at(data, path, 4) {
        return false;
    }
    let next = data[4 + path.len()];
    next == 0x20 || next == 0x3F
}

/// Whether the connection to an instance is broken, so that a new one may help.
/// These are the numbers of EPIPE, ECONNRESET, EBADF and ENOTCONN.
pub fn is_recoverable(errno: i32) -> (r: bool)
    ensures
        r == (errno == 32 || errno == 104 || errno == 9 || errno == 107),
{
    errno == 32 || errno == 104 || errno == 9 || errno == 107
}

/// What to do to hand a connection to an instance.
#[derive(Debug, Clone, Copy, PartialEq, Eq, Structural)]
pub enum HandOff {
    /// Send it over the control socket.
    Send { ctrl: i32 },
    /// Drop the control socket and connect anew.
    Replace { ctrl: i32 },
    /// Connect anew.
    Reconnect,
    /// It has been handed over.
    Handed,
    /// It cannot be handed over.
    GiveUp,
}

/// What to do in try number `tries`, counted from 0, when the control socket is
/// `ctrl`, negative where there is none.
pub fn hand_off(tries: u32, ctrl: i32) -> (r: HandOff)
    ensures
        r == if tries >= SEND_TRIES {
            HandOff::GiveUp
        } else if ctrl >= 0 {
            HandOff::Send { ctrl }
        } else {
            HandOff::Reconnect
        },
{
    if tries >= SEND_TRIES {
        HandOff::GiveUp
    } else if ctrl >= 0 {
        HandOff::Send { ctrl }
    } else {
        HandOff::Reconnect
    }
}

/// What to do after sending over `ctrl` returned `rc`, with `errno` where that is
/// negative.
pub fn after_hand_off(ctrl: i32, rc: isize, errno: i32) -> (r: HandOff)
    ensures
        r == if rc >= 0 {
            HandOff::Handed
        } else if errno == 32 || errno == 104 || errno == 9 || errno == 107 {
            HandOff::Replace { ctrl }
        } else {
            HandOff::GiveUp
        },
{
    if rc >= 0 {
        HandOff::Handed
    } else if is_recoverable(errno) {
        HandOff::Replace { ctrl }
    } else {
        HandOff::GiveUp
    }
}

/// What to do once a new connection has been tried: the next try, or none where it
/// failed.
pub fn after_reconnect(tries: u32, connected: bool, ctrl: i32) -> (r: HandOff)
    requires
        tries < SEND_TRIES,
    ensures
        r == if !connected || tries + 1 >= SEND_TRIES {
            HandOff::GiveUp
        } else if ctrl >= 0 {
            HandOff::Send { ctrl }
        } else {
            HandOff::Reconnect
        },
{
    if connected {
        hand_off(tries + 1, ctrl)
    } else {
        HandOff::GiveUp
    }
}

/// What to do once a connection to an instance has been tried.
#[derive(Debug, Clone, Copy, PartialEq, Eq, Structural)]
pub enum Retry {
    /// It is there.
    Connected,
    /// Try it again, after a pause.
    Again,
    /// Stop trying, after a pause.
    GiveUp,
}

/// What to do after try number `tries`, counted from 0, to connect anew.
pub fn after_connect(tries: u32, connected: bool) -> (r: Retry)
    ensures
        r == if connected {
            Retry::Connected
        } else if tries + 1 < RECONNECT_TRIES {
            Retry::Again
        } else {
            Retry::GiveUp
        },
{
    if connected {
        Retry::Connected
    } else if tries < RECONNECT_TRIES - 1 {
        Retry::Again
    } else {
        Retry::GiveUp
    }
}

/// What to do once the first connection to an instance has been tried.
#[derive(Debug, Clone, Copy, PartialEq, Eq, Structural)]
pub enum FirstTry {
    /// It is there. Report the tries that failed, where there are any.
    Connected { retries: Option<u32> },
    /// Try it again, after a pause, with `failed` tries behind. Report the seconds
    /// that have passed, where it is time to.
    Again { failed: u32, report: Option<u32> },
}

/// What to do about the first connection to an instance, of which `failed` tries
/// have failed before. It is tried until it is there.
pub fn after_first_try(failed: u32, connected: bool) -> (r: FirstTry)
    requires
        connected || failed < u32::MAX,
    ensures
        connected ==> r == (FirstTry::Connected {
            retries: if failed > 0 {
                Some(failed)
            } else {
                None
            },
        }),
        !connected ==> r == (FirstTry::Again {
            failed: (failed + 1) as u32,
            report: if (failed + 1) % (REPORT_TRIES as int) == 0 {
                Some(((failed + 1) / (TRIES_PER_SECOND as int)) as u32)
            } else {
                None
            },
        }),
{
    if connected {
        FirstTry::Connected {
            retries: if failed > 0 {
                Some(failed)
            } else {
                None
            },
        }
    } else {
        let now = failed + 1;
        FirstTry::Again {
            failed: now,
            report: if now % REPORT_TRIES == 0 {
                Some(now / TRIES_PER_SECOND)
            } else {
                None
            },
        }
    }
}

/// Picks the instance for the next connection: each of the `n` in turn.
pub fn next_upstream(rr: &mut usize, n: usize) -> (r: usize)
    requires
        n > 0,
    ensures
        r == *old(rr) as int % n as int,
        r < n,
        *final(rr) == if *old(rr) < usize::MAX {
            *old(rr) + 1
        } else {
            0
        },
{
    let idx = *rr % n;
    *rr = rr.wrapping_add(1);
    idx
}

/// Every instance gets its share: among any `n` picks in a row there is exactly one
/// of each of the `n` instances. The result says which pick is that of `wanted`.
pub proof fn law_every_upstream_gets_its_turn(rr: int, n: int, wanted: int) -> (t: int)
    requires
        0 <= rr,
        0 <= wanted < n,
    ensures
        0 <= t < n,
        (rr + t) % n == wanted,
        forall|u: int| 0 <= u < n && #[trigger] ((rr + u) % n) == wanted ==> u == t,
{
    let t = (wanted - rr) % n;
    vstd::arithmetic::div_mod::lemma_mod_bound(wanted - rr, n);
    vstd::arithmetic::div_mod::lemma_add_mod_noop(rr, wanted - rr, n);
    vstd::arithmetic::div_mod::lemma_add_mod_noop_right(rr, wanted - rr, n);
    vstd::arithmetic::div_mod::lemma_small_mod(wanted as nat, n as nat);
    assert((rr + t) % n == wanted);
    assert forall|u: int| 0 <= u < n && #[trigger] ((rr + u) % n) == wanted implies u == t by {
        vstd::arithmetic::div_mod::lemma_mod_equivalence(rr + u, rr + t, n);
        let d = u - t;
        assert(((rr + u) - (rr + t)) % n == 0);
        assert(d % n == 0);
        if d > 0 {
            vstd::arithmetic::div_mod::lemma_small_mod(d as nat, n as nat);
        } else if d < 0 {
            vstd::arithmetic::div_mod::lemma_mod_equivalence(rr + t, rr + u, n);
            assert((-d) % n == 0);
            vstd::arithmetic::div_mod::lemma_small_mod((-d) as nat, n as nat);
        }
    }
    t
}

/// What a connection is accepted for.
#[derive(Debug, Clone, Copy, PartialEq, Eq)]
pub enum Dispatch {
    /// To be sent the answer to a health check.
    AnswerHealth { response: &'static str },
    /// To be offered to an instance.
    Offer { to: usize },
}

/// What to do with a connection.
#[derive(Debug, Clone, Copy, PartialEq, Eq)]
pub struct Errand {
    /// What it is accepted for.
    pub what: Dispatch,
    /// The descriptor that is closed once that is done.
    pub close: i32,
}

/// A connection asks for the health of `path`, which is empty where there are no
/// health checks. Its input starts with `front`.
pub open spec fn for_health(front: Seq<u8>, path: Seq<u8>) -> bool {
    path.len() > 0 && asks_health(front, path)
}

/// What a connection is accepted for, when the next pick is number `rr`.
pub open spec fn dispatch_of(health: bool, rr: int, n: int) -> Dispatch {
    if health {
        Dispatch::AnswerHealth { response: HEALTH_OK_RESPONSE }
    } else {
        Dispatch::Offer { to: (rr % n) as usize }
    }
}

/// The number of the next pick after a connection. Picks are counted in a `usize`
/// and start over behind the last of its values.
pub open spec fn next_rr(health: bool, rr: int) -> int {
    if health {
        rr
    } else if rr < usize::MAX {
        rr + 1
    } else {
        0
    }
}

/// Finds out what a connection is accepted for: a health check is answered, and
/// every other connection is offered to the next of the `n` instances.
pub fn dispatch(health: bool, rr: &mut usize, n: usize) -> (r: Dispatch)
    requires
        n > 0,
    ensures
        health ==> r == (Dispatch::AnswerHealth { response: HEALTH_OK_RESPONSE }) && *final(rr)
            == *old(rr),
        !health ==> r == (Dispatch::Offer { to: (*old(rr) as int % n as int) as usize }),
        r == dispatch_of(health, *old(rr) as int, n as int),
        *final(rr) == next_rr(health, *old(rr) as int),
{
    if health {
        Dispatch::AnswerHealth { response: HEALTH_OK_RESPONSE }
    } else {
        let to = next_upstream(rr, n);
        Dispatch::Offer { to }
    }
}

/// What to do with the connection `client`, whose input starts with `front`.
pub open spec fn errand_of(client: i32, front: Seq<u8>, path: Seq<u8>, rr: int, n: int) -> Errand {
    Errand { what: dispatch_of(for_health(front, path), rr, n), close: client }
}

/// Finds out what to do with the connection `client`, whose input starts with
/// `front`. `path` is that of the health checks, empty where there are none.
pub fn serve_client(client: i32, front: &[u8], path: &[u8], rr: &mut usize, n: usize) -> (r: Errand)
    requires
        n > 0,
    ensures
        r == errand_of(client, front@, path@, *old(rr) as int, n as int),
        *final(rr) == next_rr(for_health(front@, path@), *old(rr) as int),
{
    let health = path.len() > 0 && is_health(front, path);
    Errand { what: dispatch(health, rr, n), close: client }
}

/// A connection that has been accepted: its descriptor, and the front of its input.
pub type Client = (i32, Seq<u8>);

/// The number of the next pick once the first `i` connections have been served,
/// the first pick being number 0.
pub open spec fn rr_after(row: Seq<Client>, path: Seq<u8>, i: int) -> int
    decreases i,
{
    if i <= 0 {
        0
    } else {
        next_rr(for_health(row[i - 1].1, path), rr_after(row, path, i - 1))
    }
}

/// How many of the first `i` connections are no health checks.
pub open spec fn offers_among(row: Seq<Client>, path: Seq<u8>, i: int) -> int
    decreases i,
{
    if i <= 0 {
        0
    } else {
        offers_among(row, path, i - 1) + if for_health(row[i - 1].1, path) {
            0int
        } else {
            1
        }
    }
}

proof fn lemma_picks_count_offers(row: Seq<Client>, path: Seq<u8>, i: int)
    requires
        0 <= i,
        offers_among(row, path, i) <= usize::MAX,
    ensures
        rr_after(row, path, i) == offers_among(row, path, i),
        0 <= offers_among(row, path, i),
    decreases i,
{
    if i > 0 {
        lemma_picks_count_offers(row, path, i - 1);
    }
}

/// Connections take turns: in a row of them, the one that comes behind `m` others
/// that are no health checks, and is none itself, is offered to instance `m % n`
/// and to no other. A health check gets its answer, is offered to no instance and
/// leaves the next pick as it is. Each time the one descriptor that is closed is
/// that of the connection itself.
pub proof fn law_clients_take_turns(row: Seq<Client>, path: Seq<u8>, n: int, i: int)
    requires
        0 < n <= usize::MAX,
        0 <= i < row.len(),
        offers_among(row, path, i) <= usize::MAX,
    ensures
        ({
            let m = offers_among(row, path, i);
            let e = errand_of(row[i].0, row[i].1, path, rr_after(row, path, i), n);
            &&& e.close == row[i].0
            &&& for_health(row[i].1, path) ==> {
                &&& e.what == (Dispatch::AnswerHealth { response: HEALTH_OK_RESPONSE })
                &&& rr_after(row, path, i + 1) == rr_after(row, path, i)
            }
            &&& !for_health(row[i].1, path) ==> {
                &&& e.what matches Dispatch::Offer { to }
                &&& to == m % n
                &&& to < n
            }
        }),
{
    lemma_picks_count_offers(row, path, i);
    vstd::arithmetic::div_mod::lemma_mod_bound(rr_after(row, path, i), n);
}

/// The operation of waiting for connections.
pub const OP_ACCEPT: u8 = 1;

/// Where the number of an operation stands in the mark of its completion.
pub const OP_SHIFT: u32 = 56;

/// The flag of a completion that others follow.
pub const CQE_F_MORE: u32 = 2;

/// The mark of an operation.
pub open spec fn mark_of(op: int) -> int {
    op * 0x100_0000_0000_0000
}

/// The operation that a mark stands for.
pub open spec fn op_of(mark: int) -> int {
    mark / 0x100_0000_0000_0000
}

/// The mark of an operation.
pub fn pack(op: u8) -> (r: u64)
    ensures
        r == mark_of(op as int),
{
    assert((op as u64) << 56u32 == op * 0x100_0000_0000_0000) by (bit_vector);
    (op as u64) << OP_SHIFT
}

/// The operation that a mark stands for.
pub fn unpack_op(u: u64) -> (r: u8)
    ensures
        r == op_of(u as int),
{
    assert(u >> 56u32 == u / 0x100_0000_0000_0000) by (bit_vector);
    (u >> OP_SHIFT) as u8
}

/// The mark of an operation stands for that operation.
pub proof fn law_marks_stand_for_operations(op: u8)
    ensures
        op_of(mark_of(op as int)) == op,
{
}

/// What to do with a completion.
#[derive(Debug, Clone, Copy, PartialEq, Eq, Structural)]
pub struct Accepted {
    /// Ask for connections again.
    pub rearm: bool,
    /// The connection that has come in.
    pub client: Option<i32>,
}

/// A flag of a completion is set.
pub open spec fn has_more(flags: u32) -> bool {
    flags & CQE_F_MORE != 0
}

/// What to do when waiting for connections has returned `res`.
pub fn handle_accept(res: i32, flags: u32) -> (r: Accepted)
    ensures
        r.rearm == !has_more(flags),
        r.client == if res < 0 {
            None
        } else {
            Some(res)
        },
{
    Accepted {
        rearm: (flags & CQE_F_MORE) == 0,
        client: if res < 0 {
            None
        } else {
            Some(res)
        },
    }
}

} // verus!
