//! Recognising the requests that the service answers.

use vstd::prelude::*;

use crate::bytes::{
    decimal, find_byte, find_bytes, first_pos, is_digit, lemma_first, lemma_found, next_byte,
    occurs_at, run_end, text, word_at,
};

verus! {

/// How a request for a score begins.
pub const POST_FRAUD: &'static str = "POST /fraud-score";

/// How a request for the state of the service begins.
pub const GET_READY: &'static str = "GET /ready";

/// The header that gives the length of the body.
pub const CONTENT_LENGTH: &'static str = "content-length:";

/// What ends the headers.
pub const HEADER_END: &'static str = "\r\n\r\n";

/// What stands at the front of a connection's input.
#[derive(Debug, Eq, PartialEq)]
pub enum Parsed {
    /// Not all of a request has come in yet.
    Incomplete,
    /// No request that can be answered.
    Bad,
    /// A request for the state of the service.
    Ready { consumed: usize },
    /// A request for something that is not offered.
    NotFound { consumed: usize },
    /// A transaction to be scored.
    FraudScore { body_start: usize, body_end: usize, consumed: usize },
}

/// The byte that `c` is compared as, regardless of case.
pub open spec fn lower(c: u8) -> u8 {
    if 0x41 <= c <= 0x5A {
        (c + 0x20) as u8
    } else {
        c
    }
}

/// `a` spells `b_lower`, regardless of case.
pub open spec fn same_header(a: Seq<u8>, b_lower: Seq<u8>) -> bool {
    &&& a.len() == b_lower.len()
    &&& forall|j: int| 0 <= j < a.len() ==> lower(#[trigger] a[j]) == b_lower[j]
}

/// A space or a tab.
pub open spec fn is_blank(b: u8) -> bool {
    b == 0x20 || b == 0x09
}

/// The number behind the blanks at `at`, modulo the range of `usize`. There is
/// none where no digit follows the blanks.
pub open spec fn length_value(headers: Seq<u8>, at: int) -> Option<int> {
    let p = run_end(headers, |b: u8| is_blank(b), at);
    let e = run_end(headers, |b: u8| is_digit(b), p);
    if e == p {
        None
    } else {
        Some(decimal(headers.subrange(p, e)) % (usize::MAX + 1))
    }
}

/// The length that the first `content-length` line from the line at `i` on gives.
pub open spec fn content_length_from(headers: Seq<u8>, i: int) -> Option<int>
    decreases headers.len() - i,
{
    if i < 0 || i + 15 > headers.len() {
        None
    } else if same_header(headers.subrange(i, i + 15), text(CONTENT_LENGTH)) {
        length_value(headers, i + 15)
    } else if i <= next_byte(headers, 0x0A, i) < headers.len() {
        content_length_from(headers, next_byte(headers, 0x0A, i) + 1)
    } else {
        None
    }
}

/// A path ends at `at`: a blank or a query follows.
pub open spec fn path_ends(buf: Seq<u8>, at: int) -> bool {
    at < buf.len() && (buf[at] == 0x20 || buf[at] == 0x3F)
}

/// The input begins with a method of HTTP.
pub open spec fn known_method(buf: Seq<u8>) -> bool {
    ||| occurs_at(buf, text("GET "), 0)
    ||| occurs_at(buf, text("POST "), 0)
    ||| occurs_at(buf, text("PUT "), 0)
    ||| occurs_at(buf, text("DELETE "), 0)
    ||| occurs_at(buf, text("PATCH "), 0)
    ||| occurs_at(buf, text("HEAD "), 0)
    ||| occurs_at(buf, text("OPTIONS "), 0)
}

/// What stands at the front of `buf`, whose headers end at `header_end`.
pub open spec fn request_at(buf: Seq<u8>, header_end: int) -> Parsed {
    let total = header_end + 4;
    let not_found = Parsed::NotFound { consumed: total as usize };
    if occurs_at(buf, text(POST_FRAUD), 0) {
        if path_ends(buf, 17) {
            match content_length_from(buf.take(header_end), 0) {
                None => Parsed::Bad,
                Some(length) => if buf.len() < total + length {
                    Parsed::Incomplete
                } else {
                    Parsed::FraudScore {
                        body_start: total as usize,
                        body_end: (total + length) as usize,
                        consumed: (total + length) as usize,
                    }
                },
            }
        } else {
            not_found
        }
    } else if occurs_at(buf, text(GET_READY), 0) {
        if path_ends(buf, 10) {
            Parsed::Ready { consumed: total as usize }
        } else {
            not_found
        }
    } else if known_method(buf) {
        not_found
    } else {
        Parsed::Bad
    }
}

/// What stands at the front of `buf`.
pub open spec fn request(buf: Seq<u8>) -> Parsed {
    match first_pos(buf, text(HEADER_END)) {
        Some(header_end) if buf.len() >= 16 => request_at(buf, header_end),
        _ => Parsed::Incomplete,
    }
}

/// The number of bytes that a request takes up, where there is one.
pub open spec fn taken(p: Parsed) -> Option<int> {
    match p {
        Parsed::Ready { consumed } => Some(consumed as int),
        Parsed::NotFound { consumed } => Some(consumed as int),
        Parsed::FraudScore { consumed, .. } => Some(consumed as int),
        _ => None,
    }
}

proof fn lemma_words()
    ensures
        text(POST_FRAUD).len() == 17,
        text(GET_READY).len() == 10,
        text(CONTENT_LENGTH).len() == 15,
        text(HEADER_END) == seq![13u8, 10, 13, 10],
        forall|i: int| 0 <= i < 17 ==> #[trigger] text(POST_FRAUD)[i] != 13,
{
    reveal_strlit("POST /fraud-score");
    reveal_strlit("GET /ready");
    reveal_strlit("content-length:");
    reveal_strlit("\r\n\r\n");
    assert(POST_FRAUD.is_ascii());
    assert(GET_READY.is_ascii());
    assert(CONTENT_LENGTH.is_ascii());
    assert(HEADER_END.is_ascii());
    assert(text(HEADER_END) =~= seq![13u8, 10, 13, 10]);
}

/// Recognises the request at the front of `buf`.
///
/// A body whose length is out of the machine's range is never complete.
pub fn parse(buf: &[u8]) -> (r: Parsed)
    ensures
        r == request(buf@),
        taken(r) matches Some(n) ==> 0 < n <= buf@.len(),
        r matches Parsed::FraudScore { body_start, body_end, consumed } ==> body_start <= body_end
            == consumed,
{
    if buf.len() < 16 {
        return Parsed::Incomplete;
    }
    proof {
        lemma_words();
    }
    let header_end = match find_bytes(buf, HEADER_END.as_bytes()) {
        Some(p) => p,
        None => return Parsed::Incomplete,
    };
    let headers = &buf[0..header_end];
    assert(headers@ =~= buf@.take(header_end as int));
    let header_total = header_end + 4;

    if word_at(buf, POST_FRAUD.as_bytes(), 0) {
        match path_terminator(buf, 17) {
            Some(_) => {
                let cl = match find_content_length(headers) {
                    Some(v) => v,
                    None => return Parsed::Bad,
                };
                if buf.len() - header_total < cl {
                    return Parsed::Incomplete;
                }
                let body_end = header_total + cl;
                Parsed::FraudScore { body_start: header_total, body_end, consumed: body_end }
            },
            None => Parsed::NotFound { consumed: header_total },
        }
    } else if word_at(buf, GET_READY.as_bytes(), 0) {
        match path_terminator(buf, 10) {
            Some(_) => Parsed::Ready { consumed: header_total },
            None => Parsed::NotFound { consumed: header_total },
        }
    } else if is_known_method_prefix(buf) {
        Parsed::NotFound { consumed: header_total }
    } else {
        Parsed::Bad
    }
}

/// The byte that ends a path at `at`.
pub fn path_terminator(buf: &[u8], at: usize) -> (r: Option<u8>)
    ensures
        match r {
            Some(c) => path_ends(buf@, at as int) && c == buf@[at as int],
            None => !path_ends(buf@, at as int),
        },
{
    if at < buf.len() && (buf[at] == 0x20 || buf[at] == 0x3F) {
        Some(buf[at])
    } else {
        None
    }
}

/// Whether the input begins with a method of HTTP.
pub fn is_known_method_prefix(buf: &[u8]) -> (r: bool)
    ensures
        r == known_method(buf@),
{
    word_at(buf, "GET ".as_bytes(), 0) || word_at(buf, "POST ".as_bytes(), 0) || word_at(
        buf,
        "PUT ".as_bytes(),
        0,
    ) || word_at(buf, "DELETE ".as_bytes(), 0) || word_at(buf, "PATCH ".as_bytes(), 0) || word_at(
        buf,
        "HEAD ".as_bytes(),
        0,
    ) || word_at(buf, "OPTIONS ".as_bytes(), 0)
}

proof fn lemma_wrapping_digit(v: usize, value: int, d: int)
    requires
        v == value % (usize::MAX + 1),
        0 <= d < 10,
    ensures
        ((v * 10) % (usize::MAX + 1) + d) % (usize::MAX + 1) == (10 * value + d) % (usize::MAX + 1),
{
    let m = usize::MAX + 1;
    vstd::arithmetic::div_mod::lemma_mul_mod_noop(value, 10, m);
    vstd::arithmetic::div_mod::lemma_mul_mod_noop(v as int, 10, m);
    vstd::arithmetic::div_mod::lemma_mod_twice(value, m);
    vstd::arithmetic::div_mod::lemma_add_mod_noop(v * 10, d, m);
    vstd::arithmetic::div_mod::lemma_add_mod_noop((v * 10) % m, d, m);
    vstd::arithmetic::div_mod::lemma_mod_twice(v * 10, m);
    vstd::arithmetic::div_mod::lemma_add_mod_noop(value * 10, d, m);
}

/// The length that the headers give for the body.
pub fn find_content_length(headers: &[u8]) -> (r: Option<usize>)
    ensures
        match r {
            Some(v) => content_length_from(headers@, 0) == Some(v as int),
            None => content_length_from(headers@, 0) is None,
        },
{
    proof {
        lemma_words();
    }
    let mut i: usize = 0;
    while i <= headers.len() && headers.len() - i >= 15
        invariant
            text(CONTENT_LENGTH).len() == 15,
            content_length_from(headers@, 0) == content_length_from(headers@, i as int),
        decreases headers@.len() - i,
    {
        if header_eq_ascii_ci(&headers[i..i + 15], CONTENT_LENGTH.as_bytes()) {
            return parse_length(headers, i + 15);
        }
        match find_byte(headers, 0x0A, i) {
            Some(at) => {
                i = at + 1;
            },
            None => {
                return None;
            },
        }
    }
    None
}

/// The number behind the blanks at `at`.
pub fn parse_length(headers: &[u8], at: usize) -> (r: Option<usize>)
    requires
        at <= headers@.len(),
    ensures
        match r {
            Some(v) => length_value(headers@, at as int) == Some(v as int),
            None => length_value(headers@, at as int) is None,
        },
{
    let ghost blank = |b: u8| is_blank(b);
    let ghost digit = |b: u8| is_digit(b);
    let mut p: usize = at;
    while p < headers.len() && (headers[p] == 0x20 || headers[p] == 0x09)
        invariant
            p <= headers@.len(),
            blank == (|b: u8| is_blank(b)),
            run_end(headers@, blank, at as int) == run_end(headers@, blank, p as int),
        decreases headers@.len() - p,
    {
        p += 1;
    }
    let first = p;
    let mut v: usize = 0;
    assert(headers@.subrange(first as int, p as int) =~= Seq::empty());
    while p < headers.len() && 0x30 <= headers[p] && headers[p] <= 0x39
        invariant
            first <= p <= headers@.len(),
            digit == (|b: u8| is_digit(b)),
            run_end(headers@, digit, first as int) == run_end(headers@, digit, p as int),
            v == decimal(headers@.subrange(first as int, p as int)) % (usize::MAX + 1),
        decreases headers@.len() - p,
    {
        let d = (headers[p] - 0x30) as usize;
        proof {
            let text = headers@.subrange(first as int, p + 1);
            assert(text.drop_last() =~= headers@.subrange(first as int, p as int));
            lemma_wrapping_digit(v, decimal(text.drop_last()), d as int);
        }
        v = v.wrapping_mul(10).wrapping_add(d);
        p += 1;
    }
    if p == first {
        None
    } else {
        Some(v)
    }
}

/// Whether `a` spells `b_lower`, regardless of case.
pub fn header_eq_ascii_ci(a: &[u8], b_lower: &[u8]) -> (r: bool)
    ensures
        r == same_header(a@, b_lower@),
{
    if a.len() != b_lower.len() {
        return false;
    }
    let mut j: usize = 0;
    while j < a.len()
        invariant
            j <= a@.len() == b_lower@.len(),
            forall|i: int| 0 <= i < j ==> lower(#[trigger] a@[i]) == b_lower@[i],
        decreases a@.len() - j,
    {
        let c = a[j];
        let lc = if 0x41 <= c && c <= 0x5A {
            assert(c | 0x20 == c + 0x20) by (bit_vector)
                requires
                    0x41 <= c <= 0x5A,
            ;
            c | 0x20
        } else {
            c
        };
        if lc != b_lower[j] {
            assert(lower(a@[j as int]) != b_lower@[j as int]);
            return false;
        }
        j += 1;
    }
    true
}

/// The bounds of a recognised request lie within the input.
pub proof fn lemma_request_fits(buf: Seq<u8>)
    requires
        buf.len() <= usize::MAX,
    ensures
        taken(request(buf)) matches Some(n) ==> 0 < n <= buf.len(),
        request(buf) matches Parsed::FraudScore { body_start, body_end, consumed } ==> body_start
            <= body_end == consumed,
{
    lemma_words();
    lemma_found(buf, text(HEADER_END));
    if let Some(end) = first_pos(buf, text(HEADER_END)) {
        lemma_length_not_negative(buf.take(end), 0);
    }
}

proof fn lemma_length_not_negative(headers: Seq<u8>, i: int)
    ensures
        content_length_from(headers, i) matches Some(n) ==> 0 <= n,
    decreases headers.len() - i,
{
    if 0 <= i <= next_byte(headers, 0x0A, i) < headers.len() {
        lemma_length_not_negative(headers, next_byte(headers, 0x0A, i) + 1);
    }
}

proof fn lemma_occurs_in_longer(buf: Seq<u8>, more: Seq<u8>, word: Seq<u8>, i: int)
    requires
        0 <= i,
        i + word.len() <= buf.len(),
    ensures
        occurs_at(buf, word, i) == occurs_at(buf + more, word, i),
{
    assert(buf.subrange(i, i + word.len()) =~= (buf + more).subrange(i, i + word.len()));
}

/// A request that has come in whole is recognised as the same request, whatever
/// follows it: requests can be sent one behind the other.
pub proof fn law_later_input_changes_nothing(buf: Seq<u8>, more: Seq<u8>)
    requires
        !(request(buf) is Incomplete),
    ensures
        request(buf + more) == request(buf),
{
    lemma_words();
    reveal_strlit("GET ");
    reveal_strlit("POST ");
    reveal_strlit("PUT ");
    reveal_strlit("DELETE ");
    reveal_strlit("PATCH ");
    reveal_strlit("HEAD ");
    reveal_strlit("OPTIONS ");
    assert("GET ".is_ascii());
    assert("POST ".is_ascii());
    assert("PUT ".is_ascii());
    assert("DELETE ".is_ascii());
    assert("PATCH ".is_ascii());
    assert("HEAD ".is_ascii());
    assert("OPTIONS ".is_ascii());
    let both = buf + more;
    let end_word = text(HEADER_END);
    lemma_found(buf, end_word);
    let end = first_pos(buf, end_word)->0;
    assert forall|j: int| 0 <= j < end implies !#[trigger] occurs_at(both, end_word, j) by {
        lemma_occurs_in_longer(buf, more, end_word, j);
    }
    lemma_occurs_in_longer(buf, more, end_word, end);
    lemma_first(both, end_word, end);
    assert(both.take(end) =~= buf.take(end));
    let post = text(POST_FRAUD);
    if occurs_at(both, post, 0) {
        assert(both.subrange(0, 17) == post);
        assert(buf.subrange(end, end + 4)[0] == 13);
        if end < 17 {
            assert(both.subrange(0, 17)[end] == buf[end]);
            assert(post[end] == 13);
            assert(false);
        }
        lemma_occurs_in_longer(buf, more, post, 0);
    }
    if occurs_at(buf, post, 0) {
        lemma_occurs_in_longer(buf, more, post, 0);
    }
    lemma_occurs_in_longer(buf, more, text(GET_READY), 0);
    lemma_occurs_in_longer(buf, more, text("GET "), 0);
    lemma_occurs_in_longer(buf, more, text("POST "), 0);
    lemma_occurs_in_longer(buf, more, text("PUT "), 0);
    lemma_occurs_in_longer(buf, more, text("DELETE "), 0);
    lemma_occurs_in_longer(buf, more, text("PATCH "), 0);
    lemma_occurs_in_longer(buf, more, text("HEAD "), 0);
    lemma_occurs_in_longer(buf, more, text("OPTIONS "), 0);
}

} // verus!
