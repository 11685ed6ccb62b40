//! What is made of a connection's input, in terms of the requests that were written to
//! it.
//!
//! A request is a head, which ends at the first empty line, and what follows it. The head
//! is made of lines.

use vstd::prelude::*;

use crate::bytes::{
    decimal, first_at, first_pos, is_digit, lemma_first, lemma_found, next_byte, occurs_at, run_end,
    text,
};
use crate::json::payload;
use crate::server::{step_of, StepView};
use crate::http::{
    content_length_from, is_blank, lower, request, same_header, Parsed,
    CONTENT_LENGTH, HEADER_END,
};

verus! {

/// The decimal digits of a number.
pub open spec fn digits_of(n: int) -> Seq<u8>
    decreases n,
{
    if n < 10 {
        seq![(0x30 + n) as u8]
    } else {
        digits_of(n / 10).push((0x30 + n % 10) as u8)
    }
}

/// Digits and nothing else, at least one.
pub open spec fn are_digits(s: Seq<u8>) -> bool {
    &&& s.len() > 0
    &&& forall|i: int| 0 <= i < s.len() ==> 0x30 <= #[trigger] s[i] <= 0x39
}

/// The digits of a number spell it.
pub proof fn law_digits_spell_their_number(n: int)
    requires
        0 <= n,
    ensures
        are_digits(digits_of(n)),
        decimal(digits_of(n)) == n,
    decreases n,
{
    if n >= 10 {
        law_digits_spell_their_number(n / 10);
        assert(digits_of(n).drop_last() =~= digits_of(n / 10));
        assert(digits_of(n).last() - 0x30 == n % 10);
    } else {
        assert(digits_of(n).drop_last() =~= Seq::empty());
        assert(decimal(Seq::empty()) == 0);
    }
}

/// Each digit more is worth ten times what stood before it, and zeros in front are worth
/// nothing.
pub proof fn law_digits_are_worth_their_place(s: Seq<u8>, d: u8)
    requires
        0x30 <= d <= 0x39,
    ensures
        decimal(s.push(d)) == 10 * decimal(s) + (d - 0x30),
        decimal(seq![0x30u8] + s) == decimal(s),
        decimal(seq![d]) == d - 0x30,
    decreases s.len(),
{
    assert(s.push(d).drop_last() =~= s);
    assert(seq![d].drop_last() =~= Seq::empty());
    let z = seq![0x30u8] + s;
    if s.len() > 0 {
        law_digits_are_worth_their_place(s.drop_last(), d);
        assert(z.drop_last() =~= seq![0x30u8] + s.drop_last());
        assert(z.last() == s.last());
    } else {
        assert(z =~= seq![0x30u8]);
        assert(z.drop_last() =~= Seq::empty());
        assert(s =~= Seq::empty());
    }
}

/// `a` is `b`, in letters of either case, where `b` has small letters.
pub open spec fn in_any_case(a: Seq<u8>, b: Seq<u8>) -> bool {
    &&& a.len() == b.len()
    &&& forall|i: int|
        0 <= i < a.len() ==> #[trigger] a[i] == b[i] || (0x61 <= b[i] <= 0x7A && a[i] + 0x20 == b[i])
}

/// A line: it ends with its first line feed.
pub open spec fn is_line(l: Seq<u8>) -> bool {
    &&& l.len() > 0
    &&& l[l.len() - 1] == 0x0A
    &&& forall|i: int| 0 <= i < l.len() - 1 ==> #[trigger] l[i] != 0x0A
}

/// The line starts with the name of the header that gives the length.
pub open spec fn names_length(l: Seq<u8>) -> bool {
    l.len() >= 15 && in_any_case(l.take(15), text("content-length:"))
}

/// The lines from `i` on, one behind the other, and `end` behind them.
pub open spec fn lines_text(lines: Seq<Seq<u8>>, i: int, end: Seq<u8>) -> Seq<u8>
    decreases lines.len() - i,
{
    if i >= lines.len() {
        end
    } else {
        lines[i] + lines_text(lines, i + 1, end)
    }
}

/// Lines of which none names the length.
pub open spec fn are_other_lines(lines: Seq<Seq<u8>>) -> bool {
    forall|i: int|
        0 <= i < lines.len() ==> is_line(#[trigger] lines[i]) && !names_length(lines[i])
}

/// A line that gives the length `n`: its name, blanks, and digits that spell `n`.
pub open spec fn gives_length(l: Seq<u8>, blanks: int, digits: Seq<u8>) -> bool {
    &&& names_length(l)
    &&& 0 <= blanks
    &&& forall|i: int| 15 <= i < 15 + blanks ==> #[trigger] l[i] == 0x20 || l[i] == 0x09
    &&& are_digits(digits)
    &&& 15 + blanks + digits.len() <= l.len()
    &&& l.subrange(15 + blanks, 15 + blanks + digits.len()) == digits
    &&& 15 + blanks + digits.len() < l.len() ==> !(0x30 <= l[15 + blanks + digits.len() as int]
        <= 0x39)
}

proof fn lemma_key()
    ensures
        text("content-length:").len() == 15,
        text(CONTENT_LENGTH) == text("content-length:"),
        forall|i: int|
            0 <= i < 15 ==> {
                let b = #[trigger] text("content-length:")[i];
                (0x61 <= b <= 0x7A || b == 0x2D || b == 0x3A)
            },
{
    reveal_strlit("content-length:");
    assert("content-length:".is_ascii());
}

proof fn lemma_same_header(a: Seq<u8>)
    ensures
        same_header(a, text(CONTENT_LENGTH)) == in_any_case(a, text("content-length:")),
{
    lemma_key();
    let b = text("content-length:");
    if a.len() == 15 {
        assert forall|i: int| 0 <= i < 15 implies (lower(#[trigger] a[i]) == b[i]) == (a[i] == b[i]
            || (0x61 <= b[i] <= 0x7A && a[i] + 0x20 == b[i])) by {}
        if same_header(a, text(CONTENT_LENGTH)) {
            assert forall|i: int| 0 <= i < a.len() implies #[trigger] a[i] == b[i] || (0x61 <= b[i]
                <= 0x7A && a[i] + 0x20 == b[i]) by {
                assert(lower(a[i]) == b[i]);
            }
        }
        if in_any_case(a, b) {
            assert forall|j: int| 0 <= j < a.len() implies lower(#[trigger] a[j]) == b[j] by {
                assert(a[j] == b[j] || (0x61 <= b[j] <= 0x7A && a[j] + 0x20 == b[j]));
            }
        }
    }
}

proof fn lemma_next_byte_at(s: Seq<u8>, b: u8, i: int, at: int)
    requires
        0 <= i <= at <= s.len(),
        forall|j: int| i <= j < at ==> #[trigger] s[j] != b,
        at < s.len() ==> s[at] == b,
    ensures
        next_byte(s, b, i) == at,
    decreases at - i,
{
    if i < at {
        lemma_next_byte_at(s, b, i + 1, at);
    }
}

proof fn lemma_run_end(s: Seq<u8>, class: spec_fn(u8) -> bool, i: int, at: int)
    requires
        0 <= i <= at <= s.len(),
        forall|j: int| i <= j < at ==> class(#[trigger] s[j]),
        at < s.len() ==> !class(s[at]),
    ensures
        run_end(s, class, i) == at,
    decreases at - i,
{
    if i < at {
        lemma_run_end(s, class, i + 1, at);
    }
}

/// Lines that do not name the length are passed over.
#[verifier::rlimit(50)]
proof fn lemma_other_lines(h: Seq<u8>, at: int, lines: Seq<Seq<u8>>, i: int, end: Seq<u8>) -> (r: int)
    requires
        are_other_lines(lines),
        0 <= i <= lines.len(),
        0 <= at <= h.len(),
        h.skip(at) == lines_text(lines, i, end),
    ensures
        at <= r <= h.len(),
        h.skip(r) == end,
        content_length_from(h, at) == content_length_from(h, r),
    decreases lines.len() - i,
{
    if i == lines.len() {
        at
    } else {
        let l = lines[i];
        let rest = h.skip(at);
        let feed = at + l.len() - 1;
        lemma_key();
        assert(rest.take(l.len() as int) =~= l);
        assert(is_line(l));
        assert(rest.len() == h.len() - at);
        assert(rest.len() == l.len() + lines_text(lines, i + 1, end).len());
        assert forall|j: int| at <= j <= feed implies #[trigger] h[j] == l[j - at] by {
            assert(rest.take(l.len() as int)[j - at] == rest[j - at]);
            assert(rest[j - at] == h[j]);
        }
        assert(h.skip(feed + 1) =~= lines_text(lines, i + 1, end)) by {
            assert(h.skip(feed + 1) =~= rest.skip(l.len() as int));
            assert(rest.skip(l.len() as int) =~= lines_text(lines, i + 1, end));
        }
        assert(h[feed] == 0x0A);
        assert forall|j: int| at <= j < feed implies #[trigger] h[j] != 0x0A by {
            assert(h[j] == l[j - at]);
        }
        lemma_next_byte_at(h, 0x0A, at, feed);
        let r = lemma_other_lines(h, feed + 1, lines, i + 1, end);
        if at + 15 <= h.len() {
            let w = h.subrange(at, at + 15);
            lemma_same_header(w);
            if same_header(w, text(CONTENT_LENGTH)) {
                if l.len() >= 15 {
                    assert(w =~= l.take(15));
                    assert(names_length(l));
                } else {
                    assert(w[l.len() - 1] == 0x0A);
                }
                assert(false);
            }
        } else {
            lemma_short(h, r);
            assert(content_length_from(h, at) is None);
        }
        r
    }
}

proof fn lemma_short(h: Seq<u8>, i: int)
    requires
        i + 15 > h.len(),
    ensures
        content_length_from(h, i) is None,
{
}

#[verifier::rlimit(50)]
proof fn lemma_given_length(h: Seq<u8>, at: int, l: Seq<u8>, blanks: int, digits: Seq<u8>)
    requires
        gives_length(l, blanks, digits),
        0 <= at <= h.len(),
        h.skip(at) == l,
    ensures
        content_length_from(h, at) == Some(decimal(digits) % (usize::MAX + 1)),
{
    lemma_key();
    let n = digits.len() as int;
    let p = at + 15 + blanks;
    assert(h.subrange(at, at + 15) =~= l.take(15));
    lemma_same_header(l.take(15));
    let blank = |b: u8| is_blank(b);
    let digit = |b: u8| is_digit(b);
    assert forall|j: int| at + 15 <= j < p implies blank(#[trigger] h[j]) by {
        assert(h[j] == l[j - at]);
    }
    assert forall|j: int| p <= j < p + n implies digit(#[trigger] h[j]) by {
        assert(h[j] == l[j - at]);
        assert(l.subrange(15 + blanks, 15 + blanks + n)[j - p] == l[j - at]);
        assert(0x30 <= digits[j - p] <= 0x39);
    }
    assert(digit(h[p]));
    if p + n < h.len() {
        assert(h[p + n] == l[p + n - at]);
    }
    lemma_run_end(h, blank, at + 15, p);
    lemma_run_end(h, digit, p, p + n);
    assert(h.subrange(p, p + n) =~= digits) by {
        assert(h.subrange(p, p + n) =~= l.subrange(15 + blanks, 15 + blanks + n));
    }
}

/// The length is that of the first line that names it, whatever the lines before it are:
/// the number that the digits behind the name spell, whatever comes behind them. A number
/// that is out of range is taken modulo the range.
pub proof fn law_length_is_that_of_its_line(
    lines: Seq<Seq<u8>>,
    l: Seq<u8>,
    blanks: int,
    digits: Seq<u8>,
)
    requires
        are_other_lines(lines),
        gives_length(l, blanks, digits),
    ensures
        content_length_from(lines_text(lines, 0, l), 0) == Some(decimal(digits) % (usize::MAX + 1)),
        decimal(digits) <= usize::MAX ==> content_length_from(lines_text(lines, 0, l), 0) == Some(
            decimal(digits),
        ),
{
    let h = lines_text(lines, 0, l);
    assert(h.skip(0) =~= h);
    let at = lemma_other_lines(h, 0, lines, 0, l);
    lemma_given_length(h, at, l, blanks, digits);
    lemma_decimal_not_negative(digits);
    if decimal(digits) <= usize::MAX {
        vstd::arithmetic::div_mod::lemma_small_mod(
            decimal(digits) as nat,
            (usize::MAX + 1) as nat,
        );
    }
}

proof fn lemma_decimal_not_negative(s: Seq<u8>)
    requires
        forall|i: int| 0 <= i < s.len() ==> 0x30 <= #[trigger] s[i] <= 0x39,
    ensures
        decimal(s) >= 0,
    decreases s.len(),
{
    if s.len() > 0 {
        lemma_decimal_not_negative(s.drop_last());
        assert(s.last() == s[s.len() - 1]);
    }
}

/// A line that gives no length: a last line that does not name it, or one that names it
/// and has no digit behind its blanks.
pub open spec fn gives_no_length(l: Seq<u8>, blanks: int) -> bool {
    ||| !names_length(l) && !l.contains(0x0A)
    ||| {
        &&& names_length(l)
        &&& 0 <= blanks
        &&& 15 + blanks <= l.len()
        &&& forall|i: int| 15 <= i < 15 + blanks ==> #[trigger] l[i] == 0x20 || l[i] == 0x09
        &&& 15 + blanks < l.len() ==> l[15 + blanks] != 0x20 && l[15 + blanks] != 0x09 && !(0x30
            <= l[15 + blanks] <= 0x39)
    }
}

/// There is no length where no line names it, and none where the first line that names it
/// has no digit behind the blanks.
#[verifier::rlimit(50)]
pub proof fn law_length_can_be_missing(lines: Seq<Seq<u8>>, l: Seq<u8>, blanks: int)
    requires
        are_other_lines(lines),
        gives_no_length(l, blanks),
    ensures
        content_length_from(lines_text(lines, 0, l), 0) is None,
{
    let h = lines_text(lines, 0, l);
    assert(h.skip(0) =~= h);
    let at = lemma_other_lines(h, 0, lines, 0, l);
    lemma_key();
    if l.len() >= 15 {
        assert(h.subrange(at, at + 15) =~= l.take(15));
        lemma_same_header(l.take(15));
    }
    if names_length(l) {
        let p = at + 15 + blanks;
        let blank = |b: u8| is_blank(b);
        let digit = |b: u8| is_digit(b);
        assert forall|j: int| at + 15 <= j < p implies blank(#[trigger] h[j]) by {
            assert(h[j] == l[j - at]);
        }
        if p < h.len() {
            assert(h[p] == l[p - at]);
        }
        lemma_run_end(h, blank, at + 15, p);
        lemma_run_end(h, digit, p, p);
    } else {
        assert forall|j: int| at <= j < h.len() implies #[trigger] h[j] != 0x0A by {
            assert(h[j] == l[j - at]);
            assert(l.contains(l[j - at]));
        }
        lemma_next_byte_at(h, 0x0A, at, h.len() as int);
    }
}

/// Input with a whole head: `head` up to the first empty line, and `after` behind it.
pub open spec fn is_headed(buf: Seq<u8>, head: Seq<u8>, after: Seq<u8>) -> bool {
    &&& buf == head + seq![0x0Du8, 0x0A, 0x0D, 0x0A] + after
    &&& forall|i: int|
        0 <= i < head.len() ==> !(#[trigger] buf[i] == 0x0D && buf[i + 1] == 0x0A && buf[i + 2]
            == 0x0D && buf[i + 3] == 0x0A)
}

/// `s` starts with `word`.
pub open spec fn starts_with(s: Seq<u8>, word: Seq<u8>) -> bool {
    word.len() <= s.len() && s.take(word.len() as int) == word
}

/// The path behind the first `n` bytes is at its end: a blank or a query follows.
pub open spec fn path_is_over(s: Seq<u8>, n: int) -> bool {
    s.len() > n && (s[n] == 0x20 || s[n] == 0x3F)
}

#[verifier::rlimit(50)]
proof fn lemma_head(buf: Seq<u8>, head: Seq<u8>, after: Seq<u8>)
    requires
        is_headed(buf, head, after),
    ensures
        first_pos(buf, text(HEADER_END)) == Some(head.len() as int),
        buf.take(head.len() as int) == head,
        buf.len() == head.len() + 4 + after.len(),
        buf[head.len() as int] == 0x0D,
        forall|i: int| 0 <= i < head.len() ==> #[trigger] buf[i] == head[i],
{
    let end = head.len() as int;
    let word = text(HEADER_END);
    reveal_strlit("\r\n\r\n");
    assert(HEADER_END.is_ascii());
    assert(word =~= seq![13u8, 10, 13, 10]);
    assert(buf.subrange(end, end + 4) =~= word);
    assert forall|j: int| 0 <= j < end implies !#[trigger] occurs_at(buf, word, j) by {
        if occurs_at(buf, word, j) {
            let w = buf.subrange(j, j + 4);
            assert(w[0] == buf[j] && w[1] == buf[j + 1] && w[2] == buf[j + 2] && w[3] == buf[j + 3]);
        }
    }
    assert(first_at(buf, word, end));
    lemma_first(buf, word, end);
    assert(buf.take(end) =~= head);
}

#[verifier::rlimit(50)]
proof fn lemma_starts(buf: Seq<u8>, head: Seq<u8>, after: Seq<u8>, word: Seq<u8>)
    requires
        is_headed(buf, head, after),
        forall|i: int| 0 <= i < word.len() ==> #[trigger] word[i] != 0x0D,
    ensures
        occurs_at(buf, word, 0) == starts_with(head, word),
{
    lemma_head(buf, head, after);
    let n = word.len() as int;
    if occurs_at(buf, word, 0) {
        if head.len() < n {
            assert(buf.subrange(0, n)[head.len() as int] == 0x0D);
            assert(false);
        }
        assert(head.take(n) =~= buf.subrange(0, n));
    }
    if starts_with(head, word) {
        assert(head.take(n) =~= buf.subrange(0, n));
    }
}

#[verifier::rlimit(50)]
proof fn lemma_methods()
    ensures
        text("POST /fraud-score") == seq![
            0x50u8, 0x4F, 0x53, 0x54, 0x20, 0x2F, 0x66, 0x72, 0x61, 0x75, 0x64, 0x2D, 0x73, 0x63, 0x6F,
            0x72, 0x65,
        ],
        text("GET /ready") == seq![
            0x47u8, 0x45, 0x54, 0x20, 0x2F, 0x72, 0x65, 0x61, 0x64, 0x79,
        ],
        text("GET ") == seq![0x47u8, 0x45, 0x54, 0x20],
        text("POST ") == seq![0x50u8, 0x4F, 0x53, 0x54, 0x20],
        text("PUT ") == seq![0x50u8, 0x55, 0x54, 0x20],
        text("DELETE ") == seq![0x44u8, 0x45, 0x4C, 0x45, 0x54, 0x45, 0x20],
        text("PATCH ") == seq![0x50u8, 0x41, 0x54, 0x43, 0x48, 0x20],
        text("HEAD ") == seq![0x48u8, 0x45, 0x41, 0x44, 0x20],
        text("OPTIONS ") == seq![0x4Fu8, 0x50, 0x54, 0x49, 0x4F, 0x4E, 0x53, 0x20],
{
    reveal_strlit("POST /fraud-score");
    reveal_strlit("GET /ready");
    reveal_strlit("GET ");
    reveal_strlit("POST ");
    reveal_strlit("PUT ");
    reveal_strlit("DELETE ");
    reveal_strlit("PATCH ");
    reveal_strlit("HEAD ");
    reveal_strlit("OPTIONS ");
    assert("POST /fraud-score".is_ascii());
    assert("GET /ready".is_ascii());
    assert("GET ".is_ascii());
    assert("POST ".is_ascii());
    assert("PUT ".is_ascii());
    assert("DELETE ".is_ascii());
    assert("PATCH ".is_ascii());
    assert("HEAD ".is_ascii());
    assert("OPTIONS ".is_ascii());
    assert(text("POST /fraud-score") =~= seq![
        0x50u8, 0x4F, 0x53, 0x54, 0x20, 0x2F, 0x66, 0x72, 0x61, 0x75, 0x64, 0x2D, 0x73, 0x63, 0x6F,
        0x72, 0x65,
    ]);
    assert(text("GET /ready") =~= seq![
        0x47u8, 0x45, 0x54, 0x20, 0x2F, 0x72, 0x65, 0x61, 0x64, 0x79,
    ]);
    assert(text("GET ") =~= seq![0x47u8, 0x45, 0x54, 0x20]);
    assert(text("POST ") =~= seq![0x50u8, 0x4F, 0x53, 0x54, 0x20]);
    assert(text("PUT ") =~= seq![0x50u8, 0x55, 0x54, 0x20]);
    assert(text("DELETE ") =~= seq![0x44u8, 0x45, 0x4C, 0x45, 0x54, 0x45, 0x20]);
    assert(text("PATCH ") =~= seq![0x50u8, 0x41, 0x54, 0x43, 0x48, 0x20]);
    assert(text("HEAD ") =~= seq![0x48u8, 0x45, 0x41, 0x44, 0x20]);
    assert(text("OPTIONS ") =~= seq![0x4Fu8, 0x50, 0x54, 0x49, 0x4F, 0x4E, 0x53, 0x20]);
}

/// Nothing is made of input whose head is not over, nor of less than sixteen bytes.
pub proof fn law_a_head_is_waited_for(buf: Seq<u8>)
    requires
        buf.len() < 16 || forall|i: int|
            0 <= i < buf.len() - 3 ==> !(#[trigger] buf[i] == 0x0D && buf[i + 1] == 0x0A && buf[i + 2]
                == 0x0D && buf[i + 3] == 0x0A),
    ensures
        request(buf) is Incomplete,
{
    let word = text(HEADER_END);
    reveal_strlit("\r\n\r\n");
    assert(HEADER_END.is_ascii());
    assert(word =~= seq![13u8, 10, 13, 10]);
    lemma_found(buf, word);
    if buf.len() >= 16 {
        if let Some(j) = first_pos(buf, word) {
            let w = buf.subrange(j, j + 4);
            assert(w[0] == buf[j] && w[1] == buf[j + 1] && w[2] == buf[j + 2] && w[3] == buf[j + 3]);
            assert(false);
        }
    }
}

/// A request for the state of the service is recognised by its method and path; it takes
/// up its head.
#[verifier::rlimit(50)]
pub proof fn law_ready_is_recognised(buf: Seq<u8>, head: Seq<u8>, after: Seq<u8>)
    requires
        16 <= buf.len() <= usize::MAX,
        is_headed(buf, head, after),
        starts_with(head, text("GET /ready")),
    ensures
        path_is_over(head, 10) ==> request(buf) == (Parsed::Ready {
            consumed: (head.len() + 4) as usize,
        }),
        !path_is_over(head, 10) ==> request(buf) == (Parsed::NotFound {
            consumed: (head.len() + 4) as usize,
        }),
{
    lemma_head(buf, head, after);
    lemma_methods();
    lemma_starts(buf, head, after, text("GET /ready"));
    lemma_starts(buf, head, after, text("POST /fraud-score"));
    let h = head.take(10);
    assert(h[0] == head[0]);
    if starts_with(head, text("POST /fraud-score")) {
        assert(head.take(17)[0] == head[0]);
        assert(false);
    }
    if head.len() > 10 {
        assert(buf[10] == head[10]);
    } else {
        assert(buf[10] == 0x0D);
    }
}

/// A transaction is found behind the head by the length that the head gives: where that
/// many bytes have come in they are the body, and where they have not they are waited
/// for. Without a length it is no request that can be answered.
#[verifier::rlimit(50)]
pub proof fn law_posted_body_is_found(
    buf: Seq<u8>,
    lines: Seq<Seq<u8>>,
    l: Seq<u8>,
    blanks: int,
    digits: Seq<u8>,
    after: Seq<u8>,
)
    requires
        buf.len() <= usize::MAX,
        is_headed(buf, lines_text(lines, 0, l), after),
        starts_with(lines_text(lines, 0, l), text("POST /fraud-score")),
        path_is_over(lines_text(lines, 0, l), 17),
        are_other_lines(lines),
        gives_length(l, blanks, digits),
        decimal(digits) <= usize::MAX,
    ensures
        ({
            let start = lines_text(lines, 0, l).len() + 4;
            let n = decimal(digits);
            &&& n <= after.len() ==> request(buf) == (Parsed::FraudScore {
                body_start: start as usize,
                body_end: (start + n) as usize,
                consumed: (start + n) as usize,
            }) && buf.subrange(start as int, start + n) == after.take(n)
            &&& n > after.len() ==> request(buf) is Incomplete
        }),
{
    let head = lines_text(lines, 0, l);
    lemma_head(buf, head, after);
    lemma_methods();
    lemma_starts(buf, head, after, text("POST /fraud-score"));
    law_length_is_that_of_its_line(lines, l, blanks, digits);
    lemma_decimal_not_negative(digits);
    assert(buf[17] == head[17]);
    let start = head.len() + 4;
    let n = decimal(digits);
    if n <= after.len() {
        assert(buf.subrange(start as int, start + n) =~= after.take(n));
    }
}

/// A transaction whose head gives no length is refused, and one for another path is not
/// found.
#[verifier::rlimit(50)]
pub proof fn law_post_without_length_is_refused(
    buf: Seq<u8>,
    lines: Seq<Seq<u8>>,
    l: Seq<u8>,
    blanks: int,
    after: Seq<u8>,
)
    requires
        16 <= buf.len() <= usize::MAX,
        is_headed(buf, lines_text(lines, 0, l), after),
        starts_with(lines_text(lines, 0, l), text("POST /fraud-score")),
    ensures
        path_is_over(lines_text(lines, 0, l), 17) && are_other_lines(lines) && gives_no_length(
            l,
            blanks,
        ) ==> request(buf) is Bad,
        !path_is_over(lines_text(lines, 0, l), 17) ==> request(buf) == (Parsed::NotFound {
            consumed: (lines_text(lines, 0, l).len() + 4) as usize,
        }),
{
    let head = lines_text(lines, 0, l);
    lemma_head(buf, head, after);
    lemma_methods();
    lemma_starts(buf, head, after, text("POST /fraud-score"));
    if head.len() > 17 {
        assert(buf[17] == head[17]);
    } else {
        assert(buf[17] == 0x0D);
    }
    if path_is_over(head, 17) && are_other_lines(lines) && gives_no_length(l, blanks) {
        law_length_can_be_missing(lines, l, blanks);
    }
}

/// The methods that are known.
pub open spec fn has_method(head: Seq<u8>) -> bool {
    ||| starts_with(head, text("GET "))
    ||| starts_with(head, text("POST "))
    ||| starts_with(head, text("PUT "))
    ||| starts_with(head, text("DELETE "))
    ||| starts_with(head, text("PATCH "))
    ||| starts_with(head, text("HEAD "))
    ||| starts_with(head, text("OPTIONS "))
}

/// Whatever else is asked for with a method that is known is not found, and takes up its
/// head; without such a method it is no request.
#[verifier::rlimit(50)]
pub proof fn law_other_requests_are_not_found(buf: Seq<u8>, head: Seq<u8>, after: Seq<u8>)
    requires
        16 <= buf.len() <= usize::MAX,
        is_headed(buf, head, after),
        !starts_with(head, text("POST /fraud-score")),
        !starts_with(head, text("GET /ready")),
    ensures
        has_method(head) ==> request(buf) == (Parsed::NotFound {
            consumed: (head.len() + 4) as usize,
        }),
        !has_method(head) ==> request(buf) is Bad,
{
    lemma_head(buf, head, after);
    lemma_methods();
    lemma_starts(buf, head, after, text("GET /ready"));
    lemma_starts(buf, head, after, text("POST /fraud-score"));
    lemma_starts(buf, head, after, text("GET "));
    lemma_starts(buf, head, after, text("POST "));
    lemma_starts(buf, head, after, text("PUT "));
    lemma_starts(buf, head, after, text("DELETE "));
    lemma_starts(buf, head, after, text("PATCH "));
    lemma_starts(buf, head, after, text("HEAD "));
    lemma_starts(buf, head, after, text("OPTIONS "));
}

/// What a connection is answered, by the request at the front of its input: the state of
/// the service with 200, what is not offered with 404, and what cannot be read with 400,
/// which ends the connection. A transaction that can be read is scored. What is dropped
/// from the input is the request and nothing else.
pub proof fn law_requests_are_answered(pending: Seq<u8>)
    ensures
        match request(pending) {
            Parsed::Incomplete => step_of(pending) is Wait,
            Parsed::Bad => step_of(pending) == (StepView::Refuse {
                response:
                    "HTTP/1.1 400 Bad Request\r\nContent-Length: 0\r\nConnection: close\r\n\r\n"@,
            }),
            Parsed::Ready { consumed } => step_of(pending) == (StepView::Answer {
                response: "HTTP/1.1 200 OK\r\nContent-Length: 0\r\n\r\n"@,
                consumed: consumed as int,
            }),
            Parsed::NotFound { consumed } => step_of(pending) == (StepView::Answer {
                response: "HTTP/1.1 404 Not Found\r\nContent-Length: 0\r\n\r\n"@,
                consumed: consumed as int,
            }),
            Parsed::FraudScore { body_start, body_end, consumed } => {
                let body = pending.subrange(body_start as int, body_end as int);
                &&& payload(body) is Some ==> step_of(pending) == (StepView::Score {
                    payload: payload(body)->0,
                    consumed: consumed as int,
                })
                &&& payload(body) is None ==> step_of(pending) == (StepView::Refuse {
                    response:
                        "HTTP/1.1 400 Bad Request\r\nContent-Length: 0\r\nConnection: close\r\n\r\n"@,
                })
            },
        },
{
}

} // verus!
