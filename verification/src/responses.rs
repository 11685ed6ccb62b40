//! The answers that the service gives.

use vstd::prelude::*;

verus! {

/// The service is up.
pub const RESP_READY: &'static str = "HTTP/1.1 200 OK\r\nContent-Length: 0\r\n\r\n";

/// What was asked for is not offered.
pub const RESP_NOT_FOUND: &'static str = "HTTP/1.1 404 Not Found\r\nContent-Length: 0\r\n\r\n";

/// What was asked for cannot be read.
pub const RESP_BAD_REQUEST: &'static str =
    "HTTP/1.1 400 Bad Request\r\nContent-Length: 0\r\nConnection: close\r\n\r\n";

/// The request does not fit.
pub const RESP_PAYLOAD_TOO_LARGE: &'static str =
    "HTTP/1.1 413 Payload Too Large\r\nContent-Length: 0\r\nConnection: close\r\n\r\n";

/// The verdict, by the number of frauds among the five nearest neighbours.
pub const RESP_FRAUD: [&'static str; 6] = [
    "HTTP/1.1 200 OK\r\nContent-Length: 35\r\n\r\n{\"approved\":true,\"fraud_score\":0.0}",
    "HTTP/1.1 200 OK\r\nContent-Length: 35\r\n\r\n{\"approved\":true,\"fraud_score\":0.2}",
    "HTTP/1.1 200 OK\r\nContent-Length: 35\r\n\r\n{\"approved\":true,\"fraud_score\":0.4}",
    "HTTP/1.1 200 OK\r\nContent-Length: 36\r\n\r\n{\"approved\":false,\"fraud_score\":0.6}",
    "HTTP/1.1 200 OK\r\nContent-Length: 36\r\n\r\n{\"approved\":false,\"fraud_score\":0.8}",
    "HTTP/1.1 200 OK\r\nContent-Length: 36\r\n\r\n{\"approved\":false,\"fraud_score\":1.0}",
];

/// Whether a transaction with `frauds` frauds among its neighbours is approved.
pub fn approves(frauds: u8) -> (r: bool)
    ensures
        r == (frauds < 3),
{
    frauds < 3
}

/// The verdict on a transaction with `count` frauds among its neighbours.
pub open spec fn verdict(count: int) -> &'static str {
    RESP_FRAUD[if count < 5 {
        count
    } else {
        5
    }]
}

/// The verdict on a transaction with `count` frauds among its neighbours.
pub fn fraud_response(count: usize) -> (r: &'static str)
    ensures
        r == verdict(count as int),
{
    RESP_FRAUD[if count < 5 {
        count
    } else {
        5
    }]
}

/// The verdict says in words what [`approves`] says: the body of the answer starts
/// with the approval where there are fewer than three frauds, and with the refusal
/// where there are three or more.
#[verifier::rlimit(50)]
pub proof fn law_verdict_says_whether_it_is_approved(frauds: u8)
    ensures
        frauds < 3 ==> verdict(frauds as int)@.subrange(39, 56) == "{\"approved\":true,"@,
        frauds >= 3 ==> verdict(frauds as int)@.subrange(39, 57) == "{\"approved\":false,"@,
{
    reveal_strlit(
        "HTTP/1.1 200 OK\r\nContent-Length: 35\r\n\r\n{\"approved\":true,\"fraud_score\":0.0}",
    );
    reveal_strlit(
        "HTTP/1.1 200 OK\r\nContent-Length: 35\r\n\r\n{\"approved\":true,\"fraud_score\":0.2}",
    );
    reveal_strlit(
        "HTTP/1.1 200 OK\r\nContent-Length: 35\r\n\r\n{\"approved\":true,\"fraud_score\":0.4}",
    );
    reveal_strlit(
        "HTTP/1.1 200 OK\r\nContent-Length: 36\r\n\r\n{\"approved\":false,\"fraud_score\":0.6}",
    );
    reveal_strlit(
        "HTTP/1.1 200 OK\r\nContent-Length: 36\r\n\r\n{\"approved\":false,\"fraud_score\":0.8}",
    );
    reveal_strlit(
        "HTTP/1.1 200 OK\r\nContent-Length: 36\r\n\r\n{\"approved\":false,\"fraud_score\":1.0}",
    );
    reveal_strlit("{\"approved\":true,");
    reveal_strlit("{\"approved\":false,");
}

/// The value of a digit.
pub open spec fn digit_value(c: char) -> int {
    c as int - '0' as int
}

/// The verdict gives the score in fifths of the neighbours that are frauds, and the length
/// that it gives for its body is that of its body.
#[verifier::rlimit(50)]
pub proof fn law_verdict_gives_the_score(frauds: u8)
    requires
        frauds <= 5,
    ensures
        ({
            let s = verdict(frauds as int)@;
            let n = s.len() as int;
            &&& n > 60
            &&& 10 * digit_value(s[n - 4]) + digit_value(s[n - 2]) == 2 * frauds
            &&& s[n - 3] == '.' && s[n - 1] == '}'
            &&& s.subrange(n - 18, n - 4) == "\"fraud_score\":"@
            &&& 10 * digit_value(s[33]) + digit_value(s[34]) == n - 39
            &&& s.take(33) == "HTTP/1.1 200 OK\r\nContent-Length: "@
            &&& s.subrange(35, 39) == "\r\n\r\n"@
        }),
{
    reveal_strlit(
        "HTTP/1.1 200 OK\r\nContent-Length: 35\r\n\r\n{\"approved\":true,\"fraud_score\":0.0}",
    );
    reveal_strlit(
        "HTTP/1.1 200 OK\r\nContent-Length: 35\r\n\r\n{\"approved\":true,\"fraud_score\":0.2}",
    );
    reveal_strlit(
        "HTTP/1.1 200 OK\r\nContent-Length: 35\r\n\r\n{\"approved\":true,\"fraud_score\":0.4}",
    );
    reveal_strlit(
        "HTTP/1.1 200 OK\r\nContent-Length: 36\r\n\r\n{\"approved\":false,\"fraud_score\":0.6}",
    );
    reveal_strlit(
        "HTTP/1.1 200 OK\r\nContent-Length: 36\r\n\r\n{\"approved\":false,\"fraud_score\":0.8}",
    );
    reveal_strlit(
        "HTTP/1.1 200 OK\r\nContent-Length: 36\r\n\r\n{\"approved\":false,\"fraud_score\":1.0}",
    );
    reveal_strlit("\"fraud_score\":");
    reveal_strlit("HTTP/1.1 200 OK\r\nContent-Length: ");
    reveal_strlit("\r\n\r\n");
}

} // verus!
