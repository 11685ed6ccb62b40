//! What is read from the JSON text of a transaction, in terms of the members that stand
//! in it.
//!
//! A member is its quoted name, a colon and a value, with white space between them. The
//! laws speak of how the text is put together; where a name is quoted more than once, its
//! first place counts.

use vstd::prelude::*;

use crate::bytes::{
    decimal, first_at, first_pos, is_digit, lemma_first, lemma_found, next_byte, occurs_at, run_end,
    text,
};
use crate::json::{
    closing_brace, closing_from, count, exponent_mark, flag, is_decimal, is_mantissa,
    is_number_byte, is_separator, is_space, known, last_tx, listed_from, number, object, object_at,
    past_digits, past_number, past_separators, past_spaces, payload, read, string, unsigned,
    value_start, LastTxView, Nesting, PayloadView, KEY_CUSTOMER, KEY_MERCHANT, KEY_TERMINAL,
    KEY_TRANSACTION,
};
use crate::wire::{are_digits, starts_with};

verus! {

/// `name` between quotes.
pub open spec fn quoted(name: Seq<u8>) -> Seq<u8> {
    seq![0x22u8] + name + seq![0x22u8]
}

/// White space and nothing else.
pub open spec fn all_spaces(w: Seq<u8>) -> bool {
    forall|i: int|
        0 <= i < w.len() ==> #[trigger] w[i] == 0x20 || w[i] == 0x09 || w[i] == 0x0A || w[i] == 0x0D
}

/// `s` is `front`, the member called `name`, whose value starts with `rest`, and what
/// follows. The name is not quoted in front of it.
pub open spec fn member_at(
    s: Seq<u8>,
    name: Seq<u8>,
    front: Seq<u8>,
    w1: Seq<u8>,
    w2: Seq<u8>,
    rest: Seq<u8>,
) -> bool {
    &&& s == front + quoted(name) + w1 + seq![0x3Au8] + w2 + rest
    &&& all_spaces(w1)
    &&& all_spaces(w2)
    &&& rest.len() > 0
    &&& !all_spaces(rest.take(1))
    &&& first_at(s, quoted(name), front.len() as int)
}

/// `s` has a member called `name`, and `rest` is what stands behind its colon.
pub open spec fn has_member(s: Seq<u8>, name: Seq<u8>, rest: Seq<u8>) -> bool {
    exists|front: Seq<u8>, w1: Seq<u8>, w2: Seq<u8>| member_at(s, name, front, w1, w2, rest)
}

pub proof fn lemma_run(s: Seq<u8>, class: spec_fn(u8) -> bool, i: int, at: int)
    requires
        0 <= i <= at <= s.len(),
        forall|j: int| i <= j < at ==> class(#[trigger] s[j]),
        at < s.len() ==> !class(s[at]),
    ensures
        run_end(s, class, i) == at,
    decreases at - i,
{
    if i < at {
        lemma_run(s, class, i + 1, at);
    }
}

pub proof fn lemma_run_back(s: Seq<u8>, class: spec_fn(u8) -> bool, i: int)
    requires
        0 <= i,
    ensures
        ({
            let end = run_end(s, class, i);
            &&& i <= end
            &&& i <= s.len() ==> end <= s.len()
            &&& forall|j: int| i <= j < end ==> class(#[trigger] s[j])
            &&& end < s.len() ==> !class(s[end])
        }),
    decreases s.len() - i,
{
    if i < s.len() && class(s[i]) {
        lemma_run_back(s, class, i + 1);
    }
}

pub proof fn lemma_next_quote(s: Seq<u8>, i: int, at: int)
    requires
        0 <= i <= at < s.len(),
        forall|j: int| i <= j < at ==> #[trigger] s[j] != 0x22,
        s[at] == 0x22,
    ensures
        next_byte(s, 0x22, i) == at,
    decreases at - i,
{
    if i < at {
        lemma_next_quote(s, i + 1, at);
    }
}

pub proof fn lemma_next_quote_back(s: Seq<u8>, i: int)
    requires
        0 <= i <= s.len(),
    ensures
        ({
            let at = next_byte(s, 0x22, i);
            &&& i <= at <= s.len()
            &&& forall|j: int| i <= j < at ==> #[trigger] s[j] != 0x22
            &&& at < s.len() ==> s[at] == 0x22
        }),
    decreases s.len() - i,
{
    if i < s.len() && s[i] != 0x22 {
        lemma_next_quote_back(s, i + 1);
    }
}

#[verifier::rlimit(50)]
proof fn lemma_member(
    s: Seq<u8>,
    name: Seq<u8>,
    front: Seq<u8>,
    w1: Seq<u8>,
    w2: Seq<u8>,
    rest: Seq<u8>,
)
    requires
        member_at(s, name, front, w1, w2, rest),
    ensures
        value_start(s, quoted(name)) == Some(s.len() - rest.len()),
        s.skip(s.len() - rest.len()) == rest,
{
    let key = quoted(name);
    let pos = front.len() as int;
    let a = pos + key.len();
    let colon = a + w1.len();
    let at = colon + 1 + w2.len();
    let space = |b: u8| is_space(b);
    lemma_first(s, key, pos);
    assert(s.len() == at + rest.len());
    assert(s[colon] == 0x3A);
    assert(s.skip(at) =~= rest);
    assert(s[at] == rest[0]);
    assert(rest.take(1)[0] == rest[0]);
    assert forall|j: int| a <= j < colon implies space(#[trigger] s[j]) by {
        assert(s[j] == w1[j - a]);
    }
    assert forall|j: int| colon + 1 <= j < at implies space(#[trigger] s[j]) by {
        assert(s[j] == w2[j - colon - 1]);
    }
    lemma_run(s, space, a, colon);
    lemma_run(s, space, colon + 1, at);
}

#[verifier::rlimit(50)]
proof fn lemma_member_back(s: Seq<u8>, name: Seq<u8>)
    requires
        value_start(s, quoted(name)) is Some,
    ensures
        ({
            let at = value_start(s, quoted(name))->0;
            &&& 0 <= at < s.len()
            &&& has_member(s, name, s.skip(at))
        }),
{
    let key = quoted(name);
    lemma_found(s, key);
    let pos = first_pos(s, key)->0;
    let a = pos + key.len();
    let space = |b: u8| is_space(b);
    lemma_run_back(s, space, a);
    let colon = past_spaces(s, a);
    lemma_run_back(s, space, colon + 1);
    let at = past_spaces(s, colon + 1);
    let front = s.take(pos);
    let w1 = s.subrange(a, colon);
    let w2 = s.subrange(colon + 1, at);
    let rest = s.skip(at);
    assert forall|i: int| 0 <= i < w1.len() implies #[trigger] w1[i] == 0x20 || w1[i] == 0x09 || w1[i]
        == 0x0A || w1[i] == 0x0D by {
        assert(space(s[a + i]));
    }
    assert forall|i: int| 0 <= i < w2.len() implies #[trigger] w2[i] == 0x20 || w2[i] == 0x09 || w2[i]
        == 0x0A || w2[i] == 0x0D by {
        assert(space(s[colon + 1 + i]));
    }
    assert(s.subrange(pos, a) == key);
    assert(!space(s[at]));
    assert(rest.take(1)[0] == s[at]);
    assert(s =~= front + key + w1 + seq![0x3Au8] + w2 + rest) by {
        assert forall|i: int| 0 <= i < s.len() implies #[trigger] s[i] == (front + key + w1
            + seq![0x3Au8] + w2 + rest)[i] by {
            if pos <= i < a {
                assert(s.subrange(pos, a)[i - pos] == s[i]);
            }
        }
    }
    assert(member_at(s, name, front, w1, w2, rest));
}

/// The value of a member is found behind its name, a colon and white space, and nowhere
/// else: it is found exactly where the text has a member of that name.
pub proof fn law_value_is_found_behind_its_name(s: Seq<u8>, name: Seq<u8>, rest: Seq<u8>)
    ensures
        has_member(s, name, rest) <==> {
            &&& value_start(s, quoted(name)) matches Some(at)
            &&& 0 <= at < s.len()
            &&& s.skip(at) == rest
        },
{
    if has_member(s, name, rest) {
        let (front, w1, w2) = choose|front: Seq<u8>, w1: Seq<u8>, w2: Seq<u8>|
            member_at(s, name, front, w1, w2, rest);
        lemma_member(s, name, front, w1, w2, rest);
    }
    if value_start(s, quoted(name)) is Some {
        lemma_member_back(s, name);
    }
}

/// The member called `name` is the flag `set`: its word is `true` or `false`.
pub open spec fn says_flag(s: Seq<u8>, name: Seq<u8>, set: bool) -> bool {
    exists|rest: Seq<u8>| #[trigger]
        has_member(s, name, rest) && starts_with(
            rest,
            if set {
                seq![0x74u8, 0x72, 0x75, 0x65]
            } else {
                seq![0x66u8, 0x61, 0x6C, 0x73, 0x65]
            },
        )
}

proof fn lemma_words()
    ensures
        text("true") == seq![0x74u8, 0x72, 0x75, 0x65],
        text("false") == seq![0x66u8, 0x61, 0x6C, 0x73, 0x65],
        text("null") == seq![0x6Eu8, 0x75, 0x6C, 0x6C],
{
    reveal_strlit("true");
    reveal_strlit("false");
    reveal_strlit("null");
    assert("true".is_ascii());
    assert("false".is_ascii());
    assert("null".is_ascii());
    assert(text("true") =~= seq![0x74u8, 0x72, 0x75, 0x65]);
    assert(text("false") =~= seq![0x66u8, 0x61, 0x6C, 0x73, 0x65]);
    assert(text("null") =~= seq![0x6Eu8, 0x75, 0x6C, 0x6C]);
}

proof fn lemma_occurs(s: Seq<u8>, at: int, word: Seq<u8>)
    requires
        0 <= at <= s.len(),
    ensures
        occurs_at(s, word, at) == starts_with(s.skip(at), word),
{
    let n = word.len() as int;
    if at + n <= s.len() {
        assert(s.skip(at).take(n) =~= s.subrange(at, at + n));
    }
}

/// A flag is set exactly where the word behind its own name is `true`, and clear exactly
/// where it is `false`.
pub proof fn law_flag_is_its_word(s: Seq<u8>, name: Seq<u8>, set: bool)
    ensures
        flag(s, quoted(name)) == Some(set) <==> says_flag(s, name, set),
{
    lemma_words();
    let word = if set {
        seq![0x74u8, 0x72, 0x75, 0x65]
    } else {
        seq![0x66u8, 0x61, 0x6C, 0x73, 0x65]
    };
    if let Some(at) = value_start(s, quoted(name)) {
        lemma_member_back(s, name);
        let rest = s.skip(at);
        lemma_occurs(s, at, text("true"));
        lemma_occurs(s, at, text("false"));
        if starts_with(rest, text("true")) && starts_with(rest, text("false")) {
            assert(rest.take(4)[0] == rest.take(5)[0]);
        }
    }
    if says_flag(s, name, set) {
        let rest = choose|rest: Seq<u8>| #[trigger]
            has_member(s, name, rest) && starts_with(rest, word);
        law_value_is_found_behind_its_name(s, name, rest);
    }
}

/// `rest` starts with the string `x`, between quotes.
pub open spec fn is_string(rest: Seq<u8>, x: Seq<u8>) -> bool {
    !x.contains(0x22) && starts_with(rest, quoted(x))
}

/// The member called `name` is the string `x`.
pub open spec fn says_string(s: Seq<u8>, name: Seq<u8>, x: Seq<u8>) -> bool {
    exists|rest: Seq<u8>| #[trigger] has_member(s, name, rest) && is_string(rest, x)
}

#[verifier::rlimit(50)]
proof fn lemma_string(s: Seq<u8>, at: int, x: Seq<u8>)
    requires
        0 <= at < s.len(),
    ensures
        is_string(s.skip(at), x) <==> {
            let end = next_byte(s, 0x22, at + 1);
            &&& s[at] == 0x22
            &&& end < s.len()
            &&& x == s.subrange(at + 1, end)
        },
{
    let rest = s.skip(at);
    let n = x.len() as int;
    if is_string(rest, x) {
        let q = rest.take(n + 2);
        assert(q[0] == rest[0]);
        assert(q[n + 1] == rest[n + 1]);
        assert forall|j: int| at + 1 <= j < at + 1 + n implies #[trigger] s[j] != 0x22 by {
            assert(q[j - at] == rest[j - at]);
            assert(q[j - at] == x[j - at - 1]);
            assert(x.contains(x[j - at - 1]));
        }
        lemma_next_quote(s, at + 1, at + 1 + n);
        assert(x =~= s.subrange(at + 1, at + 1 + n)) by {
            assert forall|i: int| 0 <= i < n implies #[trigger] x[i] == s[at + 1 + i] by {
                assert(q[i + 1] == rest[i + 1]);
            }
        }
    }
    lemma_next_quote_back(s, at + 1);
    let end = next_byte(s, 0x22, at + 1);
    if s[at] == 0x22 && end < s.len() && x == s.subrange(at + 1, end) {
        if x.contains(0x22) {
            let i = choose|i: int| 0 <= i < x.len() && x[i] == 0x22;
            assert(s[at + 1 + i] == 0x22);
        }
        assert(rest.take(n + 2) =~= quoted(x));
    }
}

/// A string is what stands between the quotes behind its own name.
pub proof fn law_string_is_what_is_quoted(s: Seq<u8>, name: Seq<u8>, x: Seq<u8>)
    ensures
        string(s, quoted(name)) == Some(x) <==> says_string(s, name, x),
{
    if let Some(at) = value_start(s, quoted(name)) {
        lemma_member_back(s, name);
        lemma_string(s, at, x);
    }
    if says_string(s, name, x) {
        let rest = choose|rest: Seq<u8>| #[trigger]
            has_member(s, name, rest) && is_string(rest, x);
        law_value_is_found_behind_its_name(s, name, rest);
    }
}

/// `rest` starts with the digits `digits`, and no digit follows them.
pub open spec fn is_number_of(rest: Seq<u8>, digits: Seq<u8>) -> bool {
    &&& are_digits(digits)
    &&& starts_with(rest, digits)
    &&& digits.len() < rest.len() ==> !(0x30 <= rest[digits.len() as int] <= 0x39)
}

/// The member called `name` is the count `n`, which is within the range of `u32`.
pub open spec fn says_count(s: Seq<u8>, name: Seq<u8>, n: int) -> bool {
    &&& n <= u32::MAX
    &&& exists|rest: Seq<u8>, digits: Seq<u8>| #[trigger]
        has_member(s, name, rest) && #[trigger] is_number_of(rest, digits) && n == decimal(digits)
}

proof fn lemma_digits(s: Seq<u8>, at: int, digits: Seq<u8>)
    requires
        0 <= at < s.len(),
    ensures
        is_number_of(s.skip(at), digits) <==> {
            let end = past_digits(s, at);
            at < end && digits == s.subrange(at, end)
        },
{
    let rest = s.skip(at);
    let n = digits.len() as int;
    let digit = |b: u8| is_digit(b);
    if is_number_of(rest, digits) {
        assert forall|j: int| at <= j < at + n implies digit(#[trigger] s[j]) by {
            assert(rest.take(n)[j - at] == rest[j - at]);
            assert(0x30 <= digits[j - at] <= 0x39);
        }
        lemma_run(s, digit, at, at + n);
        assert(rest.take(n) =~= s.subrange(at, at + n));
    }
    lemma_run_back(s, digit, at);
    let end = past_digits(s, at);
    if at < end && digits == s.subrange(at, end) {
        assert(rest.take(n) =~= digits);
        assert forall|i: int| 0 <= i < n implies 0x30 <= #[trigger] digits[i] <= 0x39 by {
            assert(digit(s[at + i]));
        }
    }
}

/// A count is the number that the digits behind its own name spell.
pub proof fn law_count_is_its_digits(s: Seq<u8>, name: Seq<u8>, n: int)
    ensures
        count(s, quoted(name)) == Some(n) <==> says_count(s, name, n),
{
    if let Some(at) = value_start(s, quoted(name)) {
        lemma_member_back(s, name);
        lemma_digits(s, at, s.subrange(at, past_digits(s, at)));
        assert(count(s, quoted(name)) == Some(n) ==> says_count(s, name, n));
    }
    if says_count(s, name, n) {
        let (rest, digits) = choose|rest: Seq<u8>, digits: Seq<u8>| #[trigger]
            has_member(s, name, rest) && #[trigger] is_number_of(rest, digits) && n == decimal(
                digits,
            );
        law_value_is_found_behind_its_name(s, name, rest);
        let at = value_start(s, quoted(name))->0;
        lemma_digits(s, at, digits);
    }
}

/// Digits and nothing else, if any.
pub open spec fn maybe_digits(s: Seq<u8>) -> bool {
    forall|i: int| 0 <= i < s.len() ==> 0x30 <= #[trigger] s[i] <= 0x39
}

/// A plus or a minus, if any.
pub open spec fn maybe_sign(s: Seq<u8>) -> bool {
    s.len() == 0 || s == seq![0x2Bu8] || s == seq![0x2Du8]
}

/// The parts of a decimal number.
pub struct DecimalParts {
    pub sign: Seq<u8>,
    pub whole: Seq<u8>,
    /// The digits behind the point, where there is one.
    pub fraction: Option<Seq<u8>>,
    /// The mark, the sign and the digits of the exponent, where there is one.
    pub exponent: Option<(u8, Seq<u8>, Seq<u8>)>,
}

/// The parts make a decimal number: there is a digit in front of the point or behind it,
/// and one in the exponent.
pub open spec fn are_parts(d: DecimalParts) -> bool {
    &&& maybe_sign(d.sign)
    &&& maybe_digits(d.whole)
    &&& match d.fraction {
        Some(f) => maybe_digits(f) && d.whole.len() + f.len() > 0,
        None => d.whole.len() > 0,
    }
    &&& match d.exponent {
        Some((mark, sign, digits)) => (mark == 0x65 || mark == 0x45) && maybe_sign(sign) && are_digits(
            digits,
        ),
        None => true,
    }
}

/// The digits of a decimal number, with its point.
pub open spec fn mantissa_text(d: DecimalParts) -> Seq<u8> {
    match d.fraction {
        Some(f) => d.whole + seq![0x2Eu8] + f,
        None => d.whole,
    }
}

/// How a decimal number is spelled.
pub open spec fn parts_text(d: DecimalParts) -> Seq<u8> {
    d.sign + mantissa_text(d) + match d.exponent {
        Some((mark, sign, digits)) => seq![mark] + sign + digits,
        None => Seq::empty(),
    }
}

#[verifier::rlimit(50)]
proof fn lemma_mantissa(d: DecimalParts)
    requires
        are_parts(d),
    ensures
        is_mantissa(mantissa_text(d)),
        forall|i: int|
            0 <= i < mantissa_text(d).len() ==> #[trigger] mantissa_text(d)[i] == 0x2E || is_digit(
                mantissa_text(d)[i],
            ),
        mantissa_text(d).len() > 0,
{
    let t = mantissa_text(d);
    let digit = |b: u8| is_digit(b);
    let whole = d.whole.len() as int;
    assert forall|j: int| 0 <= j < whole implies digit(#[trigger] t[j]) by {
        assert(t[j] == d.whole[j]);
    }
    match d.fraction {
        Some(f) => {
            assert(t[whole] == 0x2E);
            lemma_run(t, digit, 0, whole);
            assert forall|j: int| whole + 1 <= j < t.len() implies digit(#[trigger] t[j]) by {
                assert(t[j] == f[j - whole - 1]);
            }
            lemma_run(t, digit, whole + 1, t.len() as int);
            assert forall|i: int| 0 <= i < t.len() implies #[trigger] t[i] == 0x2E || is_digit(t[i]) by {
                if i < whole {
                    assert(digit(t[i]));
                } else if i > whole {
                    assert(digit(t[i]));
                }
            }
        },
        None => {
            lemma_run(t, digit, 0, whole);
            assert forall|i: int| 0 <= i < t.len() implies #[trigger] t[i] == 0x2E || is_digit(t[i]) by {
                assert(digit(t[i]));
            }
        },
    }
}

proof fn lemma_unsigned(sign: Seq<u8>, t: Seq<u8>)
    requires
        maybe_sign(sign),
        t.len() > 0,
        t[0] != 0x2B && t[0] != 0x2D,
    ensures
        unsigned(sign + t) == t,
{
    let s = sign + t;
    if sign.len() == 0 {
        assert(s =~= t);
    } else {
        assert(s[0] == sign[0]);
        assert(s.subrange(1, s.len() as int) =~= t);
    }
}

proof fn lemma_unsigned_back(t: Seq<u8>) -> (sign: Seq<u8>)
    ensures
        maybe_sign(sign),
        t == sign + unsigned(t),
{
    if t.len() > 0 && (t[0] == 0x2D || t[0] == 0x2B) {
        let sign = t.take(1);
        assert(sign =~= seq![t[0]]);
        assert(t =~= sign + unsigned(t));
        sign
    } else {
        let sign: Seq<u8> = Seq::empty();
        assert(t =~= sign + unsigned(t));
        sign
    }
}

/// A text is taken as a decimal number exactly where it is made of the parts of one.
pub proof fn law_decimal_is_its_parts(t: Seq<u8>)
    ensures
        is_decimal(t) <==> exists|d: DecimalParts| are_parts(d) && t == #[trigger] parts_text(d),
{
    if exists|d: DecimalParts| are_parts(d) && t == #[trigger] parts_text(d) {
        let d = choose|d: DecimalParts| are_parts(d) && t == #[trigger] parts_text(d);
        lemma_parts_are_decimal(d);
    }
    if is_decimal(t) {
        let d = lemma_decimal_has_parts(t);
        assert(t == parts_text(d));
    }
}

#[verifier::rlimit(50)]
proof fn lemma_parts_are_decimal(d: DecimalParts)
    requires
        are_parts(d),
    ensures
        is_decimal(parts_text(d)),
{
    lemma_mantissa(d);
    let t = parts_text(d);
    let m = mantissa_text(d);
    let tail = match d.exponent {
        Some((mark, sign, digits)) => seq![mark] + sign + digits,
        None => Seq::empty(),
    };
    let u = m + tail;
    assert(t =~= d.sign + u);
    assert(u[0] == m[0]);
    lemma_unsigned(d.sign, u);
    let class = |b: u8| b != 0x65 && b != 0x45;
    assert forall|j: int| 0 <= j < m.len() implies class(#[trigger] u[j]) by {
        assert(u[j] == m[j]);
    }
    if tail.len() > 0 {
        assert(u[m.len() as int] == tail[0]);
    }
    lemma_run(u, class, 0, m.len() as int);
    assert(exponent_mark(u) == m.len());
    assert(u.take(m.len() as int) =~= m);
    if let Some((mark, sign, digits)) = d.exponent {
        let e = u.subrange(m.len() as int + 1, u.len() as int);
        assert(e =~= sign + digits);
        assert(0x30 <= digits[0] <= 0x39);
        lemma_unsigned(sign, digits);
        let digit = |b: u8| is_digit(b);
        assert forall|j: int| 0 <= j < digits.len() implies digit(#[trigger] digits[j]) by {
            assert(0x30 <= digits[j] <= 0x39);
        }
        lemma_run(digits, digit, 0, digits.len() as int);
    }
}

proof fn lemma_mantissa_has_parts(m: Seq<u8>) -> (r: (Seq<u8>, Option<Seq<u8>>))
    requires
        is_mantissa(m),
    ensures
        maybe_digits(r.0),
        match r.1 {
            Some(f) => maybe_digits(f) && r.0.len() + f.len() > 0 && m == r.0 + seq![0x2Eu8] + f,
            None => r.0.len() > 0 && m == r.0,
        },
{
    let digit = |b: u8| is_digit(b);
    lemma_run_back(m, digit, 0);
    let w = past_digits(m, 0);
    let whole = m.take(w);
    assert forall|i: int| 0 <= i < whole.len() implies 0x30 <= #[trigger] whole[i] <= 0x39 by {
        assert(digit(m[i]));
    }
    if w == m.len() {
        assert(m =~= whole);
        (whole, None)
    } else {
        lemma_run_back(m, digit, w + 1);
        let f = m.skip(w + 1);
        assert forall|i: int| 0 <= i < f.len() implies 0x30 <= #[trigger] f[i] <= 0x39 by {
            assert(digit(m[w + 1 + i]));
        }
        assert(m =~= whole + seq![0x2Eu8] + f);
        (whole, Some(f))
    }
}

proof fn lemma_all_digits(s: Seq<u8>)
    requires
        s.len() > 0,
        past_digits(s, 0) == s.len(),
    ensures
        are_digits(s),
{
    let digit = |b: u8| is_digit(b);
    lemma_run_back(s, digit, 0);
    assert forall|i: int| 0 <= i < s.len() implies 0x30 <= #[trigger] s[i] <= 0x39 by {
        assert(digit(s[i]));
    }
}

#[verifier::rlimit(50)]
proof fn lemma_decimal_has_parts(t: Seq<u8>) -> (d: DecimalParts)
    requires
        is_decimal(t),
    ensures
        are_parts(d),
        t == parts_text(d),
{
    let sign = lemma_unsigned_back(t);
    let u = unsigned(t);
    let class = |b: u8| b != 0x65 && b != 0x45;
    lemma_run_back(u, class, 0);
    let mark = exponent_mark(u);
    let m = u.take(mark);
    let (whole, fraction) = lemma_mantissa_has_parts(m);
    if mark < u.len() {
        let e = u.subrange(mark + 1, u.len() as int);
        let esign = lemma_unsigned_back(e);
        let digits = unsigned(e);
        lemma_all_digits(digits);
        let d = DecimalParts { sign, whole, fraction, exponent: Some((u[mark], esign, digits)) };
        assert(mantissa_text(d) == m);
        let tail = seq![u[mark]] + esign + digits;
        assert(tail =~= seq![u[mark]] + e);
        assert(u =~= m + tail);
        assert(parts_text(d) == sign + m + tail);
        assert(t =~= sign + m + tail);
        d
    } else {
        let d = DecimalParts { sign, whole, fraction, exponent: None };
        assert(mantissa_text(d) == m);
        assert(u =~= m);
        assert(t =~= parts_text(d));
        d
    }
}

/// A byte that a decimal number can hold: a digit, a sign, a point or the mark of an
/// exponent.
pub open spec fn in_number(b: u8) -> bool {
    0x30 <= b <= 0x39 || b == 0x2B || b == 0x2D || b == 0x2E || b == 0x45 || b == 0x65
}

/// `rest` starts with the decimal number `t`, and no more of one follows.
pub open spec fn is_decimal_of(rest: Seq<u8>, t: Seq<u8>) -> bool {
    &&& exists|d: DecimalParts| are_parts(d) && t == #[trigger] parts_text(d)
    &&& starts_with(rest, t)
    &&& t.len() < rest.len() ==> !in_number(rest[t.len() as int])
}

/// The member called `name` is the decimal number `t`.
pub open spec fn says_number(s: Seq<u8>, name: Seq<u8>, t: Seq<u8>) -> bool {
    exists|rest: Seq<u8>| #[trigger] has_member(s, name, rest) && is_decimal_of(rest, t)
}

#[verifier::rlimit(50)]
proof fn lemma_parts_are_in_number(d: DecimalParts)
    requires
        are_parts(d),
    ensures
        forall|i: int| 0 <= i < parts_text(d).len() ==> in_number(#[trigger] parts_text(d)[i]),
{
    lemma_mantissa(d);
    let t = parts_text(d);
    let m = mantissa_text(d);
    let a = d.sign.len() as int;
    let b = a + m.len();
    assert forall|i: int| 0 <= i < t.len() implies in_number(#[trigger] t[i]) by {
        if i < a {
            assert(t[i] == d.sign[i]);
        } else if i < b {
            assert(t[i] == m[i - a]);
        } else if let Some((mark, sign, digits)) = d.exponent {
            let tail = seq![mark] + sign + digits;
            assert(t[i] == tail[i - b]);
            if i == b {
            } else if i - b < 1 + sign.len() {
                assert(tail[i - b] == sign[i - b - 1]);
            } else {
                assert(tail[i - b] == digits[i - b - 1 - sign.len()]);
                assert(0x30 <= digits[i - b - 1 - sign.len()] <= 0x39);
            }
        }
    }
}

#[verifier::rlimit(50)]
proof fn lemma_number_text(s: Seq<u8>, at: int, t: Seq<u8>)
    requires
        0 <= at < s.len(),
    ensures
        is_decimal_of(s.skip(at), t) <==> t == s.subrange(at, past_number(s, at)) && is_decimal(t),
{
    let rest = s.skip(at);
    let n = t.len() as int;
    let class = |b: u8| is_number_byte(b);
    law_decimal_is_its_parts(t);
    if is_decimal_of(rest, t) {
        let d = choose|d: DecimalParts| are_parts(d) && t == #[trigger] parts_text(d);
        lemma_parts_are_in_number(d);
        assert forall|j: int| at <= j < at + n implies class(#[trigger] s[j]) by {
            assert(rest.take(n)[j - at] == s[j]);
            assert(in_number(t[j - at]));
        }
        if at + n < s.len() {
            assert(s[at + n] == rest[n]);
        }
        lemma_run(s, class, at, at + n);
        assert(rest.take(n) =~= s.subrange(at, at + n));
    }
    lemma_run_back(s, class, at);
    let end = past_number(s, at);
    if t == s.subrange(at, end) && is_decimal(t) {
        assert(rest.take(n) =~= t);
        if n < rest.len() {
            assert(rest[n] == s[end]);
        }
    }
}

/// A number is the decimal number behind its own name, as it is spelled there.
pub proof fn law_number_is_its_text(s: Seq<u8>, name: Seq<u8>, t: Seq<u8>)
    ensures
        number(s, quoted(name)) == Some(t) <==> says_number(s, name, t),
{
    if let Some(at) = value_start(s, quoted(name)) {
        lemma_member_back(s, name);
        lemma_number_text(s, at, t);
    }
    if says_number(s, name, t) {
        let rest = choose|rest: Seq<u8>| #[trigger]
            has_member(s, name, rest) && is_decimal_of(rest, t);
        law_value_is_found_behind_its_name(s, name, rest);
    }
}

/// A byte of a string, or two where the first is a backslash.
pub enum StringPart {
    Plain(u8),
    Escaped(u8),
}

/// A part of the text of an object.
pub enum Piece {
    /// A byte outside of strings and inner objects.
    Byte(u8),
    /// A string.
    Text(Seq<StringPart>),
    /// An inner object.
    Group(Seq<Piece>),
}

/// How the parts of a string are spelled.
pub open spec fn string_text(parts: Seq<StringPart>) -> Seq<u8>
    decreases parts.len(),
{
    if parts.len() == 0 {
        Seq::empty()
    } else {
        (match parts[0] {
            StringPart::Plain(b) => seq![b],
            StringPart::Escaped(b) => seq![0x5Cu8, b],
        }) + string_text(parts.drop_first())
    }
}

/// Neither quotes nor backslashes stand in a string but behind a backslash.
pub open spec fn are_string_parts(parts: Seq<StringPart>) -> bool {
    forall|i: int|
        0 <= i < parts.len() ==> ((#[trigger] parts[i]) matches StringPart::Plain(b) ==> b != 0x22 && b
            != 0x5C)
}

/// How pieces are spelled: strings between quotes, and inner objects between braces.
pub open spec fn pieces_text(ps: Seq<Piece>) -> Seq<u8>
    decreases ps,
{
    if ps.len() == 0 {
        Seq::empty()
    } else {
        (match ps[0] {
            Piece::Byte(b) => seq![b],
            Piece::Text(parts) => quoted(string_text(parts)),
            Piece::Group(inner) => seq![0x7Bu8] + pieces_text(inner) + seq![0x7Du8],
        }) + pieces_text(ps.drop_first())
    }
}

/// Quotes and braces stand at the ends of strings and inner objects alone, or inside of
/// strings.
pub open spec fn are_pieces(ps: Seq<Piece>) -> bool
    decreases ps,
{
    if ps.len() == 0 {
        true
    } else {
        &&& match ps[0] {
            Piece::Byte(b) => b != 0x22 && b != 0x7B && b != 0x7D,
            Piece::Text(parts) => are_string_parts(parts),
            Piece::Group(inner) => are_pieces(inner),
        }
        &&& are_pieces(ps.drop_first())
    }
}

#[verifier::rlimit(50)]
proof fn lemma_scan_string(s: Seq<u8>, i: int, parts: Seq<StringPart>, depth: int)
    requires
        0 <= i,
        are_string_parts(parts),
        starts_with(s.skip(i), string_text(parts)),
        i <= s.len(),
    ensures
        closing_from(s, i, Nesting { depth, in_str: true, esc: false }) == closing_from(
            s,
            i + string_text(parts).len(),
            Nesting { depth, in_str: true, esc: false },
        ),
        i + string_text(parts).len() <= s.len(),
    decreases parts.len(),
{
    let t = string_text(parts);
    let n = Nesting { depth, in_str: true, esc: false };
    if parts.len() > 0 {
        let rest = parts.drop_first();
        let u = string_text(rest);
        assert forall|j: int| 0 <= j < t.len() implies #[trigger] s[i + j] == t[j] by {
            assert(s.skip(i).take(t.len() as int)[j] == s[i + j]);
        }
        match parts[0] {
            StringPart::Plain(b) => {
                assert(t[0] == b);
                assert(s[i + 0] == b);
                assert(read(n, s[i]) == n);
                assert(s.skip(i + 1).take(u.len() as int) =~= u) by {
                    assert forall|j: int| 0 <= j < u.len() implies s[i + 1 + j] == #[trigger] u[j] by {
                        assert(t[1 + j] == u[j]);
                        assert(s[i + (1 + j)] == t[1 + j]);
                    }
                }
                lemma_scan_string(s, i + 1, rest, depth);
            },
            StringPart::Escaped(b) => {
                assert(t[0] == 0x5C && t[1] == b);
                assert(s[i + 0] == 0x5C);
                assert(s[i + 1] == b);
                let esc = Nesting { depth, in_str: true, esc: true };
                assert(read(n, s[i]) == esc);
                assert(read(esc, s[i + 1]) == n);
                assert(closing_from(s, i, n) == closing_from(s, i + 1, esc));
                assert(closing_from(s, i + 1, esc) == closing_from(s, i + 2, n));
                assert(s.skip(i + 2).take(u.len() as int) =~= u) by {
                    assert forall|j: int| 0 <= j < u.len() implies s[i + 2 + j] == #[trigger] u[j] by {
                        assert(t[2 + j] == u[j]);
                        assert(s[i + (2 + j)] == t[2 + j]);
                    }
                }
                lemma_scan_string(s, i + 2, rest, depth);
            },
        }
    }
}

proof fn lemma_front(s: Seq<u8>, i: int, a: Seq<u8>, b: Seq<u8>)
    requires
        0 <= i <= s.len(),
        starts_with(s.skip(i), a + b),
    ensures
        starts_with(s.skip(i), a),
        i + a.len() <= s.len(),
        starts_with(s.skip(i + a.len()), b),
        forall|j: int| 0 <= j < a.len() ==> s[i + j] == #[trigger] a[j],
{
    let t = a + b;
    let n = a.len() as int;
    assert(s.skip(i).take(t.len() as int).len() == t.len());
    assert(s.skip(i).take(n) =~= a) by {
        assert(t.take(n) =~= a);
        assert(s.skip(i).take(t.len() as int).take(n) =~= s.skip(i).take(n));
    }
    assert(s.skip(i + n).take(b.len() as int) =~= b) by {
        assert(t.skip(n) =~= b);
        assert(s.skip(i).take(t.len() as int).skip(n) =~= s.skip(i + n).take(b.len() as int));
    }
    assert forall|j: int| 0 <= j < n implies s[i + j] == #[trigger] a[j] by {
        assert(s.skip(i).take(n)[j] == s[i + j]);
    }
}

#[verifier::rlimit(50)]
proof fn lemma_scan(s: Seq<u8>, i: int, ps: Seq<Piece>, depth: int)
    requires
        0 <= i <= s.len(),
        depth >= 1,
        are_pieces(ps),
        starts_with(s.skip(i), pieces_text(ps)),
    ensures
        closing_from(s, i, Nesting { depth, in_str: false, esc: false }) == closing_from(
            s,
            i + pieces_text(ps).len(),
            Nesting { depth, in_str: false, esc: false },
        ),
        i + pieces_text(ps).len() <= s.len(),
    decreases ps,
{
    let n = Nesting { depth, in_str: false, esc: false };
    if ps.len() > 0 {
        let rest = ps.drop_first();
        let u = pieces_text(rest);
        match ps[0] {
            Piece::Byte(b) => {
                let a = seq![b];
                lemma_front(s, i, a, u);
                assert(s[i + 0] == a[0]);
                assert(read(n, s[i]) == n);
                lemma_scan(s, i + 1, rest, depth);
            },
            Piece::Text(parts) => {
                let x = string_text(parts);
                let inside = Nesting { depth, in_str: true, esc: false };
                lemma_front(s, i, quoted(x), u);
                assert(quoted(x) =~= seq![0x22u8] + (x + seq![0x22u8]));
                lemma_front(s, i, seq![0x22u8], x + seq![0x22u8]);
                assert(s[i + 0] == seq![0x22u8][0]);
                lemma_front(s, i + 1, x, seq![0x22u8]);
                let j = i + 1 + x.len();
                lemma_front(s, j, seq![0x22u8], Seq::empty());
                assert(s[j + 0] == seq![0x22u8][0]);
                assert(read(n, s[i]) == inside);
                lemma_scan_string(s, i + 1, parts, depth);
                assert(read(inside, s[j]) == n);
                lemma_scan(s, j + 1, rest, depth);
            },
            Piece::Group(inner) => {
                let x = pieces_text(inner);
                let deeper = Nesting { depth: depth + 1, in_str: false, esc: false };
                let whole = seq![0x7Bu8] + x + seq![0x7Du8];
                lemma_front(s, i, whole, u);
                assert(whole =~= seq![0x7Bu8] + (x + seq![0x7Du8]));
                lemma_front(s, i, seq![0x7Bu8], x + seq![0x7Du8]);
                assert(s[i + 0] == seq![0x7Bu8][0]);
                lemma_front(s, i + 1, x, seq![0x7Du8]);
                let j = i + 1 + x.len();
                lemma_front(s, j, seq![0x7Du8], Seq::empty());
                assert(s[j + 0] == seq![0x7Du8][0]);
                assert(read(n, s[i]) == deeper);
                lemma_scan(s, i + 1, inner, depth + 1);
                assert(read(deeper, s[j]) == n);
                lemma_scan(s, j + 1, rest, depth);
            },
        }
    }
}

/// `rest` starts with the object that is made of `ps`, between braces.
pub open spec fn is_object(rest: Seq<u8>, ps: Seq<Piece>) -> bool {
    &&& are_pieces(ps)
    &&& starts_with(rest, seq![0x7Bu8] + pieces_text(ps) + seq![0x7Du8])
}

/// The member called `name` is the object that is made of `ps`.
pub open spec fn says_object(s: Seq<u8>, name: Seq<u8>, ps: Seq<Piece>) -> bool {
    exists|rest: Seq<u8>| #[trigger] has_member(s, name, rest) && is_object(rest, ps)
}

proof fn lemma_object(s: Seq<u8>, at: int, ps: Seq<Piece>)
    requires
        0 <= at < s.len(),
        is_object(s.skip(at), ps),
    ensures
        object_at(s, at) == Some(pieces_text(ps)),
{
    let x = pieces_text(ps);
    assert(seq![0x7Bu8] + x + seq![0x7Du8] =~= seq![0x7Bu8] + (x + seq![0x7Du8]));
    lemma_front(s, at, seq![0x7Bu8], x + seq![0x7Du8]);
    assert(s[at + 0] == seq![0x7Bu8][0]);
    lemma_front(s, at + 1, x, seq![0x7Du8]);
    let end = at + 1 + x.len();
    lemma_front(s, end, seq![0x7Du8], Seq::empty());
    assert(s[end + 0] == seq![0x7Du8][0]);
    let start = Nesting { depth: 0, in_str: false, esc: false };
    let open = Nesting { depth: 1, in_str: false, esc: false };
    assert(read(start, s[at]) == open);
    assert(closing_brace(s, at) == closing_from(s, at + 1, open));
    lemma_scan(s, at + 1, ps, 1);
    assert(closing_from(s, end, open) == Some(end));
    assert(s.subrange(at + 1, end) =~= x) by {
        assert(s.skip(at + 1).take(x.len() as int) =~= s.subrange(at + 1, end));
    }
}

#[verifier::rlimit(50)]
proof fn lemma_string_back(s: Seq<u8>, i: int, depth: int, end: int) -> (r: (Seq<StringPart>, int))
    requires
        0 <= i,
        closing_from(s, i, Nesting { depth, in_str: true, esc: false }) == Some(end),
    ensures
        are_string_parts(r.0),
        i <= r.1 < s.len(),
        s.subrange(i, r.1) == string_text(r.0),
        s[r.1] == 0x22,
        closing_from(s, r.1 + 1, Nesting { depth, in_str: false, esc: false }) == Some(end),
    decreases s.len() - i,
{
    let n = Nesting { depth, in_str: true, esc: false };
    if s[i] == 0x22 {
        let parts: Seq<StringPart> = Seq::empty();
        assert(s.subrange(i, i) =~= string_text(parts));
        assert(read(n, s[i]) == (Nesting { depth, in_str: false, esc: false }));
        (parts, i)
    } else if s[i] == 0x5C {
        let esc = Nesting { depth, in_str: true, esc: true };
        assert(read(n, s[i]) == esc);
        assert(closing_from(s, i + 1, esc) == Some(end));
        assert(read(esc, s[i + 1]) == n);
        let (rest, j) = lemma_string_back(s, i + 2, depth, end);
        let parts = seq![StringPart::Escaped(s[i + 1])] + rest;
        assert(parts.drop_first() =~= rest);
        assert(s.subrange(i, j) =~= seq![0x5Cu8, s[i + 1]] + s.subrange(i + 2, j));
        assert forall|k: int| 0 <= k < parts.len() implies ((#[trigger] parts[k])
            matches StringPart::Plain(b) ==> b != 0x22 && b != 0x5C) by {
            if k > 0 {
                assert(parts[k] == rest[k - 1]);
            }
        }
        (parts, j)
    } else {
        assert(read(n, s[i]) == n);
        let (rest, j) = lemma_string_back(s, i + 1, depth, end);
        let parts = seq![StringPart::Plain(s[i])] + rest;
        assert(parts.drop_first() =~= rest);
        assert(s.subrange(i, j) =~= seq![s[i]] + s.subrange(i + 1, j));
        assert forall|k: int| 0 <= k < parts.len() implies ((#[trigger] parts[k])
            matches StringPart::Plain(b) ==> b != 0x22 && b != 0x5C) by {
            if k > 0 {
                assert(parts[k] == rest[k - 1]);
            }
        }
        (parts, j)
    }
}

#[verifier::rlimit(50)]
proof fn lemma_scan_back(s: Seq<u8>, i: int, depth: int, end: int) -> (r: (Seq<Piece>, int))
    requires
        0 <= i,
        depth >= 1,
        closing_from(s, i, Nesting { depth, in_str: false, esc: false }) == Some(end),
    ensures
        are_pieces(r.0),
        i <= r.1 < s.len(),
        s.subrange(i, r.1) == pieces_text(r.0),
        s[r.1] == 0x7D,
        depth == 1 ==> r.1 == end,
        depth > 1 ==> closing_from(
            s,
            r.1 + 1,
            Nesting { depth: depth - 1, in_str: false, esc: false },
        ) == Some(end),
    decreases s.len() - i,
{
    let n = Nesting { depth, in_str: false, esc: false };
    if s[i] == 0x7D {
        let ps: Seq<Piece> = Seq::empty();
        assert(s.subrange(i, i) =~= pieces_text(ps));
        if depth > 1 {
            assert(read(n, s[i]) == (Nesting { depth: depth - 1, in_str: false, esc: false }));
        }
        (ps, i)
    } else if s[i] == 0x22 {
        assert(read(n, s[i]) == (Nesting { depth, in_str: true, esc: false }));
        let (parts, k) = lemma_string_back(s, i + 1, depth, end);
        let (rest, j) = lemma_scan_back(s, k + 1, depth, end);
        let ps = seq![Piece::Text(parts)] + rest;
        assert(ps.drop_first() =~= rest);
        assert(s.subrange(i, j) =~= quoted(s.subrange(i + 1, k)) + s.subrange(k + 1, j));
        (ps, j)
    } else if s[i] == 0x7B {
        assert(read(n, s[i]) == (Nesting { depth: depth + 1, in_str: false, esc: false }));
        let (inner, k) = lemma_scan_back(s, i + 1, depth + 1, end);
        let (rest, j) = lemma_scan_back(s, k + 1, depth, end);
        let ps = seq![Piece::Group(inner)] + rest;
        assert(ps.drop_first() =~= rest);
        assert(s.subrange(i, j) =~= seq![0x7Bu8] + s.subrange(i + 1, k) + seq![0x7Du8] + s.subrange(
            k + 1,
            j,
        ));
        (ps, j)
    } else {
        assert(read(n, s[i]) == n);
        let (rest, j) = lemma_scan_back(s, i + 1, depth, end);
        let ps = seq![Piece::Byte(s[i])] + rest;
        assert(ps.drop_first() =~= rest);
        assert(s.subrange(i, j) =~= seq![s[i]] + s.subrange(i + 1, j));
        (ps, j)
    }
}

proof fn lemma_object_back(s: Seq<u8>, at: int) -> (ps: Seq<Piece>)
    requires
        0 <= at < s.len(),
        object_at(s, at) is Some,
    ensures
        is_object(s.skip(at), ps),
        object_at(s, at) == Some(pieces_text(ps)),
{
    let start = Nesting { depth: 0, in_str: false, esc: false };
    let open = Nesting { depth: 1, in_str: false, esc: false };
    assert(read(start, s[at]) == open);
    let end = closing_brace(s, at)->0;
    assert(closing_from(s, at + 1, open) == Some(end));
    let (ps, j) = lemma_scan_back(s, at + 1, 1, end);
    let whole = seq![0x7Bu8] + pieces_text(ps) + seq![0x7Du8];
    assert(s.skip(at).take(whole.len() as int) =~= whole) by {
        assert(s.skip(at).take(whole.len() as int) =~= seq![s[at]] + s.subrange(at + 1, end)
            + seq![s[end]]);
    }
    ps
}

/// An object is what stands between its own braces behind its own name, whatever strings
/// and inner objects it holds, and there is one exactly where its braces match.
pub proof fn law_object_is_what_is_braced(s: Seq<u8>, name: Seq<u8>, x: Seq<u8>)
    ensures
        object(s, quoted(name)) == Some(x) <==> exists|ps: Seq<Piece>| #[trigger]
            says_object(s, name, ps) && x == pieces_text(ps),
{
    if exists|ps: Seq<Piece>| #[trigger] says_object(s, name, ps) && x == pieces_text(ps) {
        let ps = choose|ps: Seq<Piece>| #[trigger]
            says_object(s, name, ps) && x == pieces_text(ps);
        let rest = choose|rest: Seq<u8>| #[trigger]
            has_member(s, name, rest) && is_object(rest, ps);
        law_value_is_found_behind_its_name(s, name, rest);
        lemma_object(s, value_start(s, quoted(name))->0, ps);
    }
    if object(s, quoted(name)) == Some(x) {
        lemma_member_back(s, name);
        let ps = lemma_object_back(s, value_start(s, quoted(name))->0);
        assert(says_object(s, name, ps));
    }
}

/// White space and commas, and nothing else.
pub open spec fn is_gap(w: Seq<u8>) -> bool {
    forall|i: int|
        0 <= i < w.len() ==> #[trigger] w[i] == 0x20 || w[i] == 0x09 || w[i] == 0x0A || w[i] == 0x0D
            || w[i] == 0x2C
}

/// The entries of an array of strings from `i` on, with gaps in front of them, and `end`
/// behind them.
pub open spec fn entries_text(ids: Seq<Seq<u8>>, gaps: Seq<Seq<u8>>, i: int, end: Seq<u8>) -> Seq<u8>
    decreases ids.len() - i,
{
    if i >= ids.len() {
        end
    } else {
        gaps[i] + quoted(ids[i]) + entries_text(ids, gaps, i + 1, end)
    }
}

/// The entries of an array can be told apart.
pub open spec fn are_entries(ids: Seq<Seq<u8>>, gaps: Seq<Seq<u8>>) -> bool {
    &&& gaps.len() == ids.len()
    &&& forall|i: int| 0 <= i < ids.len() ==> !(#[trigger] ids[i]).contains(0x22)
    &&& forall|i: int| 0 <= i < gaps.len() ==> is_gap(#[trigger] gaps[i])
}

/// `rest` starts with an array of the strings `ids`.
pub open spec fn is_array(rest: Seq<u8>, ids: Seq<Seq<u8>>, gaps: Seq<Seq<u8>>, last: Seq<u8>) -> bool {
    &&& are_entries(ids, gaps)
    &&& is_gap(last)
    &&& starts_with(rest, seq![0x5Bu8] + entries_text(ids, gaps, 0, last + seq![0x5Du8]))
}

#[verifier::rlimit(50)]
proof fn lemma_entries(
    s: Seq<u8>,
    id: Seq<u8>,
    at: int,
    ids: Seq<Seq<u8>>,
    gaps: Seq<Seq<u8>>,
    i: int,
    last: Seq<u8>,
)
    requires
        are_entries(ids, gaps),
        is_gap(last),
        0 <= i <= ids.len(),
        0 <= at <= s.len(),
        starts_with(s.skip(at), entries_text(ids, gaps, i, last + seq![0x5Du8])),
    ensures
        listed_from(s, id, at) == Some(exists|j: int| i <= j < ids.len() && #[trigger] ids[j] == id),
    decreases ids.len() - i,
{
    let class = |b: u8| is_separator(b);
    if i >= ids.len() {
        lemma_front(s, at, last, seq![0x5Du8]);
        let end = at + last.len();
        lemma_front(s, end, seq![0x5Du8], Seq::empty());
        assert(s[end + 0] == seq![0x5Du8][0]);
        assert forall|j: int| at <= j < end implies class(#[trigger] s[j]) by {
            assert(s[at + (j - at)] == last[j - at]);
        }
        lemma_run(s, class, at, end);
    } else {
        let gap = gaps[i];
        let x = ids[i];
        let more = entries_text(ids, gaps, i + 1, last + seq![0x5Du8]);
        assert(gap + quoted(x) + more =~= gap + (quoted(x) + more));
        lemma_front(s, at, gap, quoted(x) + more);
        let open = at + gap.len();
        lemma_front(s, open, quoted(x), more);
        assert(is_gap(gap));
        assert forall|j: int| at <= j < open implies class(#[trigger] s[j]) by {
            assert(s[at + (j - at)] == gap[j - at]);
        }
        assert(s[open + 0] == quoted(x)[0]);
        lemma_run(s, class, at, open);
        assert(is_string(s.skip(open), x));
        lemma_string(s, open, x);
        let end = next_byte(s, 0x22, open + 1);
        assert(s.subrange(open + 1, end).len() == end - open - 1) by {
            lemma_next_quote_back(s, open + 1);
        }
        assert(end + 1 == open + quoted(x).len());
        lemma_entries(s, id, end + 1, ids, gaps, i + 1, last);
        if x == id {
            assert(ids[i] == id);
        }
    }
}

/// `rest` starts with an array whose first strings are `ids`.
pub open spec fn opens_array(rest: Seq<u8>, ids: Seq<Seq<u8>>, gaps: Seq<Seq<u8>>) -> bool {
    &&& are_entries(ids, gaps)
    &&& starts_with(rest, seq![0x5Bu8] + entries_text(ids, gaps, 0, Seq::empty()))
}

#[verifier::rlimit(50)]
proof fn lemma_open_entries(
    s: Seq<u8>,
    id: Seq<u8>,
    at: int,
    ids: Seq<Seq<u8>>,
    gaps: Seq<Seq<u8>>,
    i: int,
)
    requires
        are_entries(ids, gaps),
        0 <= i <= ids.len(),
        0 <= at <= s.len(),
        starts_with(s.skip(at), entries_text(ids, gaps, i, Seq::empty())),
        exists|j: int| i <= j < ids.len() && #[trigger] ids[j] == id,
    ensures
        listed_from(s, id, at) == Some(true),
    decreases ids.len() - i,
{
    let class = |b: u8| is_separator(b);
    let gap = gaps[i];
    let x = ids[i];
    let more = entries_text(ids, gaps, i + 1, Seq::empty());
    assert(gap + quoted(x) + more =~= gap + (quoted(x) + more));
    lemma_front(s, at, gap, quoted(x) + more);
    let open = at + gap.len();
    lemma_front(s, open, quoted(x), more);
    assert(is_gap(gap));
    assert forall|j: int| at <= j < open implies class(#[trigger] s[j]) by {
        assert(s[at + (j - at)] == gap[j - at]);
    }
    assert(s[open + 0] == quoted(x)[0]);
    lemma_run(s, class, at, open);
    assert(is_string(s.skip(open), x));
    lemma_string(s, open, x);
    let end = next_byte(s, 0x22, open + 1);
    lemma_next_quote_back(s, open + 1);
    assert(s.subrange(open + 1, end).len() == end - open - 1);
    assert(end + 1 == open + quoted(x).len());
    if x != id {
        lemma_open_entries(s, id, end + 1, ids, gaps, i + 1);
    }
}

proof fn lemma_entries_shift(
    x: Seq<u8>,
    gap: Seq<u8>,
    ids: Seq<Seq<u8>>,
    gaps: Seq<Seq<u8>>,
    i: int,
    end: Seq<u8>,
)
    requires
        0 <= i,
        gaps.len() == ids.len(),
    ensures
        entries_text(seq![x] + ids, seq![gap] + gaps, i + 1, end) == entries_text(ids, gaps, i, end),
    decreases ids.len() - i,
{
    if i < ids.len() {
        lemma_entries_shift(x, gap, ids, gaps, i + 1, end);
        assert((seq![x] + ids)[i + 1] == ids[i]);
        assert((seq![gap] + gaps)[i + 1] == gaps[i]);
    }
}

proof fn lemma_joined(s: Seq<u8>, i: int, a: Seq<u8>, b: Seq<u8>)
    requires
        0 <= i <= s.len(),
        starts_with(s.skip(i), a),
        starts_with(s.skip(i + a.len()), b),
    ensures
        starts_with(s.skip(i), a + b),
{
    let n = a.len() as int;
    assert(s.skip(i).skip(n) =~= s.skip(i + n));
    assert(s.skip(i).take((a + b).len() as int) =~= s.skip(i).take(n) + s.skip(i + n).take(
        b.len() as int,
    ));
}

/// The entries that a search for `id` has gone through, and what stands in front of the
/// bracket where it was not among them.
#[verifier::rlimit(50)]
proof fn lemma_entries_back(s: Seq<u8>, id: Seq<u8>, at: int) -> (r: (
    Seq<Seq<u8>>,
    Seq<Seq<u8>>,
    Seq<u8>,
))
    requires
        0 <= at <= s.len(),
        listed_from(s, id, at) is Some,
    ensures
        are_entries(r.0, r.1),
        listed_from(s, id, at) == Some(true) ==> r.0.contains(id) && starts_with(
            s.skip(at),
            entries_text(r.0, r.1, 0, Seq::empty()),
        ),
        listed_from(s, id, at) == Some(false) ==> !r.0.contains(id) && is_gap(r.2) && starts_with(
            s.skip(at),
            entries_text(r.0, r.1, 0, r.2 + seq![0x5Du8]),
        ),
    decreases s.len() - at,
{
    let class = |b: u8| is_separator(b);
    lemma_run_back(s, class, at);
    let open = past_separators(s, at);
    let gap = s.subrange(at, open);
    assert forall|i: int| 0 <= i < gap.len() implies #[trigger] gap[i] == 0x20 || gap[i] == 0x09
        || gap[i] == 0x0A || gap[i] == 0x0D || gap[i] == 0x2C by {
        assert(class(s[at + i]));
    }
    assert(s.skip(at).take(gap.len() as int) =~= gap);
    if s[open] == 0x5D {
        let ids: Seq<Seq<u8>> = Seq::empty();
        let gaps: Seq<Seq<u8>> = Seq::empty();
        assert(s.skip(open).take(1) =~= seq![0x5Du8]);
        lemma_joined(s, at, gap, seq![0x5Du8]);
        (ids, gaps, gap)
    } else {
        lemma_next_quote_back(s, open + 1);
        let end = next_byte(s, 0x22, open + 1);
        let x = s.subrange(open + 1, end);
        lemma_string(s, open, x);
        assert(is_string(s.skip(open), x));
        assert(quoted(x).len() == end + 1 - open);
        lemma_joined(s, at, gap, quoted(x));
        let first = gap + quoted(x);
        assert(at + first.len() == end + 1);
        if x == id {
            let ids = seq![x];
            let gaps = seq![gap];
            let none: Seq<u8> = Seq::empty();
            assert(ids[0] == x);
            assert(entries_text(ids, gaps, 1, none) == none);
            assert(entries_text(ids, gaps, 0, none) =~= first);
            (ids, gaps, none)
        } else {
            assert(listed_from(s, id, at) == listed_from(s, id, end + 1));
            let (ids, gaps, last) = lemma_entries_back(s, id, end + 1);
            let all = seq![x] + ids;
            let all_gaps = seq![gap] + gaps;
            let tail = if listed_from(s, id, at) == Some(true) {
                Seq::empty()
            } else {
                last + seq![0x5Du8]
            };
            lemma_entries_shift(x, gap, ids, gaps, 0, tail);
            assert(listed_from(s, id, at) == Some(true) || listed_from(s, id, at) == Some(false));
            assert(starts_with(s.skip(end + 1), entries_text(ids, gaps, 0, tail)));
            lemma_joined(s, at, first, entries_text(ids, gaps, 0, tail));
            assert(all[0] == x);
            assert(all_gaps[0] == gap);
            assert(entries_text(all, all_gaps, 0, tail) =~= first + entries_text(ids, gaps, 0, tail));
            assert forall|i: int| 0 <= i < all.len() implies !(#[trigger] all[i]).contains(0x22) by {
                if i > 0 {
                    assert(all[i] == ids[i - 1]);
                }
            }
            assert forall|i: int| 0 <= i < all_gaps.len() implies is_gap(#[trigger] all_gaps[i]) by {
                if i > 0 {
                    assert(all_gaps[i] == gaps[i - 1]);
                }
            }
            if ids.contains(id) {
                let j = choose|j: int| 0 <= j < ids.len() && ids[j] == id;
                assert(all[j + 1] == id);
            }
            if all.contains(id) {
                let j = choose|j: int| 0 <= j < all.len() && all[j] == id;
                assert(ids[j - 1] == id);
            }
            (all, all_gaps, last)
        }
    }
}

/// `rest` starts with the array of known merchants: it holds `id`, or it is whole and does
/// not.
pub open spec fn array_says(
    rest: Seq<u8>,
    ids: Seq<Seq<u8>>,
    gaps: Seq<Seq<u8>>,
    last: Seq<u8>,
    id: Seq<u8>,
    listed: bool,
) -> bool {
    if listed {
        opens_array(rest, ids, gaps) && ids.contains(id)
    } else {
        is_array(rest, ids, gaps, last) && !ids.contains(id)
    }
}

/// The customer's array of known merchants holds `id`, or it is whole and does not.
pub open spec fn lists(customer: Seq<u8>, id: Seq<u8>, listed: bool) -> bool {
    exists|rest: Seq<u8>, ids: Seq<Seq<u8>>, gaps: Seq<Seq<u8>>, last: Seq<u8>|
        has_member(customer, text("known_merchants"), rest) && #[trigger] array_says(
            rest,
            ids,
            gaps,
            last,
            id,
            listed,
        )
}

#[verifier::rlimit(50)]
proof fn lemma_lists(customer: Seq<u8>, id: Seq<u8>, listed: bool)
    requires
        lists(customer, id, listed),
    ensures
        known(customer, id) == Some(listed),
{
    lemma_name_known_merchants();
    let name = text("known_merchants");
    let (rest, ids, gaps, last) = choose|
        rest: Seq<u8>,
        ids: Seq<Seq<u8>>,
        gaps: Seq<Seq<u8>>,
        last: Seq<u8>,
    |
        has_member(customer, text("known_merchants"), rest) && #[trigger] array_says(
            rest,
            ids,
            gaps,
            last,
            id,
            listed,
        );
    law_value_is_found_behind_its_name(customer, name, rest);
    let at = value_start(customer, quoted(name))->0;
    let tail = if listed {
        Seq::empty()
    } else {
        last + seq![0x5Du8]
    };
    lemma_front(customer, at, seq![0x5Bu8], entries_text(ids, gaps, 0, tail));
    assert(customer[at + 0] == seq![0x5Bu8][0]);
    if listed {
        let j = choose|j: int| 0 <= j < ids.len() && ids[j] == id;
        assert(ids[j] == id);
        lemma_open_entries(customer, id, at + 1, ids, gaps, 0);
    } else {
        lemma_entries(customer, id, at + 1, ids, gaps, 0, last);
    }
}

/// A merchant is known exactly where it is one of the strings of the customer's array,
/// wherever in it, and unknown exactly where that array is whole and does not hold it.
#[verifier::rlimit(50)]
pub proof fn law_known_merchants_are_those_listed(customer: Seq<u8>, id: Seq<u8>, listed: bool)
    ensures
        known(customer, id) == Some(listed) <==> lists(customer, id, listed),
{
    lemma_name_known_merchants();
    let name = text("known_merchants");
    if lists(customer, id, listed) {
        lemma_lists(customer, id, listed);
    }
    if known(customer, id) == Some(listed) {
        lemma_member_back(customer, name);
        let at = value_start(customer, quoted(name))->0;
        let rest = customer.skip(at);
        let (ids, gaps, last) = lemma_entries_back(customer, id, at + 1);
        let tail = if listed {
            Seq::empty()
        } else {
            last + seq![0x5Du8]
        };
        assert(rest.take(1) =~= seq![0x5Bu8]);
        lemma_joined(customer, at, seq![0x5Bu8], entries_text(ids, gaps, 0, tail));
        assert(has_member(customer, text("known_merchants"), rest));
        assert(array_says(rest, ids, gaps, last, id, listed));
    }
}

proof fn lemma_name_transaction()
    ensures
        quoted(text("transaction")) == text("\"transaction\""),
{
    reveal_strlit("transaction");
    reveal_strlit("\"transaction\"");
    assert("transaction".is_ascii());
    assert("\"transaction\"".is_ascii());
    assert(quoted(text("transaction")) =~= text("\"transaction\""));
}

proof fn lemma_name_customer()
    ensures
        quoted(text("customer")) == text("\"customer\""),
{
    reveal_strlit("customer");
    reveal_strlit("\"customer\"");
    assert("customer".is_ascii());
    assert("\"customer\"".is_ascii());
    assert(quoted(text("customer")) =~= text("\"customer\""));
}

proof fn lemma_name_merchant()
    ensures
        quoted(text("merchant")) == text("\"merchant\""),
{
    reveal_strlit("merchant");
    reveal_strlit("\"merchant\"");
    assert("merchant".is_ascii());
    assert("\"merchant\"".is_ascii());
    assert(quoted(text("merchant")) =~= text("\"merchant\""));
}

proof fn lemma_name_terminal()
    ensures
        quoted(text("terminal")) == text("\"terminal\""),
{
    reveal_strlit("terminal");
    reveal_strlit("\"terminal\"");
    assert("terminal".is_ascii());
    assert("\"terminal\"".is_ascii());
    assert(quoted(text("terminal")) =~= text("\"terminal\""));
}

proof fn lemma_name_last_transaction()
    ensures
        quoted(text("last_transaction")) == text("\"last_transaction\""),
{
    reveal_strlit("last_transaction");
    reveal_strlit("\"last_transaction\"");
    assert("last_transaction".is_ascii());
    assert("\"last_transaction\"".is_ascii());
    assert(quoted(text("last_transaction")) =~= text("\"last_transaction\""));
}

proof fn lemma_name_amount()
    ensures
        quoted(text("amount")) == text("\"amount\""),
{
    reveal_strlit("amount");
    reveal_strlit("\"amount\"");
    assert("amount".is_ascii());
    assert("\"amount\"".is_ascii());
    assert(quoted(text("amount")) =~= text("\"amount\""));
}

proof fn lemma_name_installments()
    ensures
        quoted(text("installments")) == text("\"installments\""),
{
    reveal_strlit("installments");
    reveal_strlit("\"installments\"");
    assert("installments".is_ascii());
    assert("\"installments\"".is_ascii());
    assert(quoted(text("installments")) =~= text("\"installments\""));
}

proof fn lemma_name_requested_at()
    ensures
        quoted(text("requested_at")) == text("\"requested_at\""),
{
    reveal_strlit("requested_at");
    reveal_strlit("\"requested_at\"");
    assert("requested_at".is_ascii());
    assert("\"requested_at\"".is_ascii());
    assert(quoted(text("requested_at")) =~= text("\"requested_at\""));
}

proof fn lemma_name_avg_amount()
    ensures
        quoted(text("avg_amount")) == text("\"avg_amount\""),
{
    reveal_strlit("avg_amount");
    reveal_strlit("\"avg_amount\"");
    assert("avg_amount".is_ascii());
    assert("\"avg_amount\"".is_ascii());
    assert(quoted(text("avg_amount")) =~= text("\"avg_amount\""));
}

proof fn lemma_name_tx_count_24h()
    ensures
        quoted(text("tx_count_24h")) == text("\"tx_count_24h\""),
{
    reveal_strlit("tx_count_24h");
    reveal_strlit("\"tx_count_24h\"");
    assert("tx_count_24h".is_ascii());
    assert("\"tx_count_24h\"".is_ascii());
    assert(quoted(text("tx_count_24h")) =~= text("\"tx_count_24h\""));
}

proof fn lemma_name_known_merchants()
    ensures
        quoted(text("known_merchants")) == text("\"known_merchants\""),
{
    reveal_strlit("known_merchants");
    reveal_strlit("\"known_merchants\"");
    assert("known_merchants".is_ascii());
    assert("\"known_merchants\"".is_ascii());
    assert(quoted(text("known_merchants")) =~= text("\"known_merchants\""));
}

proof fn lemma_name_id()
    ensures
        quoted(text("id")) == text("\"id\""),
{
    reveal_strlit("id");
    reveal_strlit("\"id\"");
    assert("id".is_ascii());
    assert("\"id\"".is_ascii());
    assert(quoted(text("id")) =~= text("\"id\""));
}

proof fn lemma_name_mcc()
    ensures
        quoted(text("mcc")) == text("\"mcc\""),
{
    reveal_strlit("mcc");
    reveal_strlit("\"mcc\"");
    assert("mcc".is_ascii());
    assert("\"mcc\"".is_ascii());
    assert(quoted(text("mcc")) =~= text("\"mcc\""));
}

proof fn lemma_name_is_online()
    ensures
        quoted(text("is_online")) == text("\"is_online\""),
{
    reveal_strlit("is_online");
    reveal_strlit("\"is_online\"");
    assert("is_online".is_ascii());
    assert("\"is_online\"".is_ascii());
    assert(quoted(text("is_online")) =~= text("\"is_online\""));
}

proof fn lemma_name_card_present()
    ensures
        quoted(text("card_present")) == text("\"card_present\""),
{
    reveal_strlit("card_present");
    reveal_strlit("\"card_present\"");
    assert("card_present".is_ascii());
    assert("\"card_present\"".is_ascii());
    assert(quoted(text("card_present")) =~= text("\"card_present\""));
}

proof fn lemma_name_km_from_home()
    ensures
        quoted(text("km_from_home")) == text("\"km_from_home\""),
{
    reveal_strlit("km_from_home");
    reveal_strlit("\"km_from_home\"");
    assert("km_from_home".is_ascii());
    assert("\"km_from_home\"".is_ascii());
    assert(quoted(text("km_from_home")) =~= text("\"km_from_home\""));
}

proof fn lemma_name_timestamp()
    ensures
        quoted(text("timestamp")) == text("\"timestamp\""),
{
    reveal_strlit("timestamp");
    reveal_strlit("\"timestamp\"");
    assert("timestamp".is_ascii());
    assert("\"timestamp\"".is_ascii());
    assert(quoted(text("timestamp")) =~= text("\"timestamp\""));
}

proof fn lemma_name_km_from_current()
    ensures
        quoted(text("km_from_current")) == text("\"km_from_current\""),
{
    reveal_strlit("km_from_current");
    reveal_strlit("\"km_from_current\"");
    assert("km_from_current".is_ascii());
    assert("\"km_from_current\"".is_ascii());
    assert(quoted(text("km_from_current")) =~= text("\"km_from_current\""));
}

/// The text of the object on the transaction says what `v` says of it.
pub open spec fn says_transaction(s: Seq<u8>, v: PayloadView) -> bool {
    &&& says_number(s, text("amount"), v.amount)
    &&& says_count(s, text("installments"), v.installments)
    &&& says_string(s, text("requested_at"), v.requested_at)
}

/// The text of the object on the customer says what `v` says of it, where the merchant is
/// called `id`.
pub open spec fn says_customer(s: Seq<u8>, id: Seq<u8>, v: PayloadView) -> bool {
    &&& says_number(s, text("avg_amount"), v.customer_avg_amount)
    &&& says_count(s, text("tx_count_24h"), v.tx_count_24h)
    &&& lists(s, id, v.merchant_id_in_known)
}

/// The text of the object on the merchant, who is called `id`, says what `v` says of it.
pub open spec fn says_merchant(s: Seq<u8>, id: Seq<u8>, v: PayloadView) -> bool {
    &&& says_string(s, text("id"), id)
    &&& says_string(s, text("mcc"), v.merchant_mcc)
    &&& says_number(s, text("avg_amount"), v.merchant_avg_amount)
}

/// The text of the object on the terminal says what `v` says of it.
pub open spec fn says_terminal(s: Seq<u8>, v: PayloadView) -> bool {
    &&& says_flag(s, text("is_online"), v.is_online)
    &&& says_flag(s, text("card_present"), v.card_present)
    &&& says_number(s, text("km_from_home"), v.km_from_home)
}

/// The body says which transaction came before, or `null` where there is none.
pub open spec fn says_last(body: Seq<u8>, last: Option<LastTxView>) -> bool {
    match last {
        Some(l) => exists|ps: Seq<Piece>| #[trigger]
            says_object(body, text("last_transaction"), ps) && says_string(
                pieces_text(ps),
                text("timestamp"),
                l.timestamp,
            ) && says_number(pieces_text(ps), text("km_from_current"), l.km_from_current),
        None => exists|rest: Seq<u8>| #[trigger]
            has_member(body, text("last_transaction"), rest) && starts_with(
                rest,
                seq![0x6Eu8, 0x75, 0x6C, 0x6C],
            ),
    }
}

/// The body has the objects on the transaction, the customer, the merchant and the
/// terminal, made of these pieces.
pub open spec fn has_sections(
    body: Seq<u8>,
    t: Seq<Piece>,
    c: Seq<Piece>,
    m: Seq<Piece>,
    k: Seq<Piece>,
) -> bool {
    &&& says_object(body, text("transaction"), t)
    &&& says_object(body, text("customer"), c)
    &&& says_object(body, text("merchant"), m)
    &&& says_object(body, text("terminal"), k)
}

/// The body says what `v` says: each field of `v` stands in it under its own name.
pub open spec fn describes(body: Seq<u8>, v: PayloadView) -> bool {
    &&& says_last(body, v.last_tx)
    &&& exists|t: Seq<Piece>, c: Seq<Piece>, m: Seq<Piece>, k: Seq<Piece>, id: Seq<u8>|
        #![trigger has_sections(body, t, c, m, k), says_merchant(pieces_text(m), id, v)]
        {
            &&& has_sections(body, t, c, m, k)
            &&& says_transaction(pieces_text(t), v)
            &&& says_customer(pieces_text(c), id, v)
            &&& says_merchant(pieces_text(m), id, v)
            &&& says_terminal(pieces_text(k), v)
        }
}

#[verifier::rlimit(50)]
proof fn lemma_last_is_read(body: Seq<u8>, last: Option<LastTxView>)
    ensures
        last_tx(body) == Some(last) <==> says_last(body, last),
{
    lemma_words();
    lemma_name_last_transaction();
    lemma_name_timestamp();
    lemma_name_km_from_current();
    let name = text("last_transaction");
    if says_last(body, last) {
        match last {
            Some(l) => {
                let ps = choose|ps: Seq<Piece>| #[trigger]
                    says_object(body, text("last_transaction"), ps) && says_string(
                        pieces_text(ps),
                        text("timestamp"),
                        l.timestamp,
                    ) && says_number(pieces_text(ps), text("km_from_current"), l.km_from_current);
                law_object_is_what_is_braced(body, name, pieces_text(ps));
                law_string_is_what_is_quoted(pieces_text(ps), text("timestamp"), l.timestamp);
                law_number_is_its_text(
                    pieces_text(ps),
                    text("km_from_current"),
                    l.km_from_current,
                );
                lemma_member_back(body, name);
                let at = value_start(body, quoted(name))->0;
                lemma_occurs(body, at, text("null"));
                if starts_with(body.skip(at), text("null")) {
                    assert(body.skip(at).take(4)[0] == body[at]);
                    assert(body[at] == 0x7B);
                }
            },
            None => {
                let rest = choose|rest: Seq<u8>| #[trigger]
                    has_member(body, text("last_transaction"), rest) && starts_with(
                        rest,
                        seq![0x6Eu8, 0x75, 0x6C, 0x6C],
                    );
                law_value_is_found_behind_its_name(body, name, rest);
                lemma_occurs(body, value_start(body, quoted(name))->0, text("null"));
            },
        }
    }
    if last_tx(body) == Some(last) {
        lemma_member_back(body, name);
        let at = value_start(body, quoted(name))->0;
        lemma_occurs(body, at, text("null"));
        if let Some(l) = last {
            let ps = lemma_object_back(body, at);
            assert(says_object(body, name, ps));
            law_string_is_what_is_quoted(pieces_text(ps), text("timestamp"), l.timestamp);
            law_number_is_its_text(pieces_text(ps), text("km_from_current"), l.km_from_current);
        }
    }
}

/// The fields of `v` as the laws on members have them, given the texts of the objects.
#[verifier::rlimit(50)]
proof fn lemma_fields(
    t: Seq<u8>,
    c: Seq<u8>,
    m: Seq<u8>,
    k: Seq<u8>,
    id: Seq<u8>,
    v: PayloadView,
)
    ensures
        says_transaction(t, v) <==> {
            &&& number(t, text("\"amount\"")) == Some(v.amount)
            &&& count(t, text("\"installments\"")) == Some(v.installments)
            &&& string(t, text("\"requested_at\"")) == Some(v.requested_at)
        },
        says_customer(c, id, v) <==> {
            &&& number(c, text("\"avg_amount\"")) == Some(v.customer_avg_amount)
            &&& count(c, text("\"tx_count_24h\"")) == Some(v.tx_count_24h)
            &&& known(c, id) == Some(v.merchant_id_in_known)
        },
        says_merchant(m, id, v) <==> {
            &&& string(m, text("\"id\"")) == Some(id)
            &&& string(m, text("\"mcc\"")) == Some(v.merchant_mcc)
            &&& number(m, text("\"avg_amount\"")) == Some(v.merchant_avg_amount)
        },
        says_terminal(k, v) <==> {
            &&& flag(k, text("\"is_online\"")) == Some(v.is_online)
            &&& flag(k, text("\"card_present\"")) == Some(v.card_present)
            &&& number(k, text("\"km_from_home\"")) == Some(v.km_from_home)
        },
{
    lemma_name_amount();
    lemma_name_installments();
    lemma_name_requested_at();
    lemma_name_avg_amount();
    lemma_name_tx_count_24h();
    lemma_name_id();
    lemma_name_mcc();
    lemma_name_is_online();
    lemma_name_card_present();
    lemma_name_km_from_home();
    law_number_is_its_text(t, text("amount"), v.amount);
    law_count_is_its_digits(t, text("installments"), v.installments);
    law_string_is_what_is_quoted(t, text("requested_at"), v.requested_at);
    law_number_is_its_text(c, text("avg_amount"), v.customer_avg_amount);
    law_count_is_its_digits(c, text("tx_count_24h"), v.tx_count_24h);
    law_known_merchants_are_those_listed(c, id, v.merchant_id_in_known);
    law_string_is_what_is_quoted(m, text("id"), id);
    law_string_is_what_is_quoted(m, text("mcc"), v.merchant_mcc);
    law_number_is_its_text(m, text("avg_amount"), v.merchant_avg_amount);
    law_flag_is_its_word(k, text("is_online"), v.is_online);
    law_flag_is_its_word(k, text("card_present"), v.card_present);
    law_number_is_its_text(k, text("km_from_home"), v.km_from_home);
}

proof fn lemma_section_names()
    ensures
        quoted(text("transaction")) == text(KEY_TRANSACTION),
        quoted(text("customer")) == text(KEY_CUSTOMER),
        quoted(text("merchant")) == text(KEY_MERCHANT),
        quoted(text("terminal")) == text(KEY_TERMINAL),
{
    lemma_name_transaction();
    lemma_name_customer();
    lemma_name_merchant();
    lemma_name_terminal();
}

/// A transaction is read from a body exactly where the body describes it: each of its
/// fields is what stands under its own name in its own object, whatever the other fields
/// are and in whatever order and spacing they come. Where a field is missing or is not of
/// its kind, nothing is read.
#[verifier::rlimit(50)]
pub proof fn law_transaction_is_what_is_described(body: Seq<u8>, v: PayloadView)
    ensures
        payload(body) == Some(v) <==> describes(body, v),
{
    lemma_section_names();
    lemma_last_is_read(body, v.last_tx);
    if describes(body, v) {
        let (t, c, m, k, id) = choose|
            t: Seq<Piece>,
            c: Seq<Piece>,
            m: Seq<Piece>,
            k: Seq<Piece>,
            id: Seq<u8>,
        |
            #![trigger has_sections(body, t, c, m, k), says_merchant(pieces_text(m), id, v)]
            {
                &&& has_sections(body, t, c, m, k)
                &&& says_transaction(pieces_text(t), v)
                &&& says_customer(pieces_text(c), id, v)
                &&& says_merchant(pieces_text(m), id, v)
                &&& says_terminal(pieces_text(k), v)
            };
        law_object_is_what_is_braced(body, text("transaction"), pieces_text(t));
        law_object_is_what_is_braced(body, text("customer"), pieces_text(c));
        law_object_is_what_is_braced(body, text("merchant"), pieces_text(m));
        law_object_is_what_is_braced(body, text("terminal"), pieces_text(k));
        lemma_fields(pieces_text(t), pieces_text(c), pieces_text(m), pieces_text(k), id, v);
    }
    if payload(body) == Some(v) {
        let xt = object(body, text(KEY_TRANSACTION))->0;
        let xc = object(body, text(KEY_CUSTOMER))->0;
        let xm = object(body, text(KEY_MERCHANT))->0;
        let xk = object(body, text(KEY_TERMINAL))->0;
        law_object_is_what_is_braced(body, text("transaction"), xt);
        law_object_is_what_is_braced(body, text("customer"), xc);
        law_object_is_what_is_braced(body, text("merchant"), xm);
        law_object_is_what_is_braced(body, text("terminal"), xk);
        let t = choose|ps: Seq<Piece>| #[trigger]
            says_object(body, text("transaction"), ps) && xt == pieces_text(ps);
        let c = choose|ps: Seq<Piece>| #[trigger]
            says_object(body, text("customer"), ps) && xc == pieces_text(ps);
        let m = choose|ps: Seq<Piece>| #[trigger]
            says_object(body, text("merchant"), ps) && xm == pieces_text(ps);
        let k = choose|ps: Seq<Piece>| #[trigger]
            says_object(body, text("terminal"), ps) && xk == pieces_text(ps);
        let id = string(xm, text("\"id\""))->0;
        lemma_fields(xt, xc, xm, xk, id, v);
        assert(has_sections(body, t, c, m, k));
        assert(says_merchant(pieces_text(m), id, v));
    }
}

} // verus!
