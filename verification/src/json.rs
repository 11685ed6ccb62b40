//! Reading the fields of a transaction out of its JSON text.
//!
//! Fields are looked up by their quoted names, without building a tree. Decimal
//! numbers are handed out as the text that spells them.

use vstd::prelude::*;

use crate::bytes::{
    decimal, find_byte, find_bytes, first_pos, is_digit, next_byte, occurs_at, run_end, same_bytes,
    text, word_at,
};

verus! {

/// Name of the object on the transaction itself.
pub const KEY_TRANSACTION: &'static str = "\"transaction\"";

/// Name of the object on the card holder.
pub const KEY_CUSTOMER: &'static str = "\"customer\"";

/// Name of the object on the merchant.
pub const KEY_MERCHANT: &'static str = "\"merchant\"";

/// Name of the object on the terminal.
pub const KEY_TERMINAL: &'static str = "\"terminal\"";

/// Name of the object on the transaction before this one.
pub const KEY_LAST_TX: &'static str = "\"last_transaction\"";

/// The transaction before the one to be scored.
#[derive(Debug)]
pub struct LastTx<'a> {
    pub timestamp: &'a [u8],
    pub km_from_current: &'a [u8],
}

/// A transaction to be scored.
#[derive(Debug)]
pub struct Payload<'a> {
    pub amount: &'a [u8],
    pub installments: u32,
    pub requested_at: &'a [u8],
    pub customer_avg_amount: &'a [u8],
    pub tx_count_24h: u32,
    pub merchant_id_in_known: bool,
    pub merchant_mcc: &'a [u8],
    pub merchant_avg_amount: &'a [u8],
    pub is_online: bool,
    pub card_present: bool,
    pub km_from_home: &'a [u8],
    pub last_tx: Option<LastTx<'a>>,
}

/// The values of a [`LastTx`].
pub struct LastTxView {
    pub timestamp: Seq<u8>,
    pub km_from_current: Seq<u8>,
}

/// The values of a [`Payload`].
pub struct PayloadView {
    pub amount: Seq<u8>,
    pub installments: int,
    pub requested_at: Seq<u8>,
    pub customer_avg_amount: Seq<u8>,
    pub tx_count_24h: int,
    pub merchant_id_in_known: bool,
    pub merchant_mcc: Seq<u8>,
    pub merchant_avg_amount: Seq<u8>,
    pub is_online: bool,
    pub card_present: bool,
    pub km_from_home: Seq<u8>,
    pub last_tx: Option<LastTxView>,
}

impl<'a> View for LastTx<'a> {
    type V = LastTxView;

    open spec fn view(&self) -> LastTxView {
        LastTxView { timestamp: self.timestamp@, km_from_current: self.km_from_current@ }
    }
}

impl<'a> View for Payload<'a> {
    type V = PayloadView;

    open spec fn view(&self) -> PayloadView {
        PayloadView {
            amount: self.amount@,
            installments: self.installments as int,
            requested_at: self.requested_at@,
            customer_avg_amount: self.customer_avg_amount@,
            tx_count_24h: self.tx_count_24h as int,
            merchant_id_in_known: self.merchant_id_in_known,
            merchant_mcc: self.merchant_mcc@,
            merchant_avg_amount: self.merchant_avg_amount@,
            is_online: self.is_online,
            card_present: self.card_present,
            km_from_home: self.km_from_home@,
            last_tx: match self.last_tx {
                Some(last) => Some(last@),
                None => None,
            },
        }
    }
}

/// White space between the parts of a JSON text.
pub open spec fn is_space(b: u8) -> bool {
    b == 0x20 || b == 0x09 || b == 0x0A || b == 0x0D
}

/// What may stand between the entries of an array.
pub open spec fn is_separator(b: u8) -> bool {
    is_space(b) || b == 0x2C
}

/// A byte that a decimal number can hold.
pub open spec fn is_number_byte(b: u8) -> bool {
    b == 0x2D || b == 0x2B || b == 0x2E || b == 0x65 || b == 0x45 || is_digit(b)
}

pub open spec fn past_spaces(s: Seq<u8>, i: int) -> int {
    run_end(s, |b: u8| is_space(b), i)
}

pub open spec fn past_separators(s: Seq<u8>, i: int) -> int {
    run_end(s, |b: u8| is_separator(b), i)
}

pub open spec fn past_number(s: Seq<u8>, i: int) -> int {
    run_end(s, |b: u8| is_number_byte(b), i)
}

pub open spec fn past_digits(s: Seq<u8>, i: int) -> int {
    run_end(s, |b: u8| is_digit(b), i)
}

/// Where the value behind the first occurrence of `key` starts.
pub open spec fn value_start(s: Seq<u8>, key: Seq<u8>) -> Option<int> {
    match first_pos(s, key) {
        None => None,
        Some(pos) => {
            let colon = past_spaces(s, pos + key.len());
            let start = past_spaces(s, colon + 1);
            if colon < s.len() && s[colon] == 0x3A && start < s.len() {
                Some(start)
            } else {
                None
            }
        },
    }
}

/// How far a scan for the end of an object has come.
pub struct Nesting {
    /// Objects that are open.
    pub depth: int,
    /// The scan is inside a string.
    pub in_str: bool,
    /// The byte before was a backslash inside the string.
    pub esc: bool,
}

/// The byte `c` closes the outermost object.
pub open spec fn closes(n: Nesting, c: u8) -> bool {
    !n.in_str && c == 0x7D && n.depth == 1
}

/// The state after the byte `c`.
pub open spec fn read(n: Nesting, c: u8) -> Nesting {
    if n.in_str {
        Nesting {
            in_str: n.esc || c != 0x22,
            esc: !n.esc && c == 0x5C,
            ..n
        }
    } else if c == 0x22 {
        Nesting { in_str: true, ..n }
    } else if c == 0x7B {
        Nesting { depth: n.depth + 1, ..n }
    } else if c == 0x7D {
        Nesting { depth: n.depth - 1, ..n }
    } else {
        n
    }
}

/// The position from `i` on of the brace that closes the outermost object.
pub open spec fn closing_from(s: Seq<u8>, i: int, n: Nesting) -> Option<int>
    decreases s.len() - i,
{
    if i >= s.len() {
        None
    } else if closes(n, s[i]) {
        Some(i)
    } else {
        closing_from(s, i + 1, read(n, s[i]))
    }
}

/// The position of the brace that closes the object opened at `open`.
pub open spec fn closing_brace(s: Seq<u8>, open: int) -> Option<int> {
    closing_from(s, open, Nesting { depth: 0, in_str: false, esc: false })
}

/// What stands between the braces of the object at `at`.
pub open spec fn object_at(s: Seq<u8>, at: int) -> Option<Seq<u8>> {
    if s[at] == 0x7B {
        match closing_brace(s, at) {
            Some(end) => Some(s.subrange(at + 1, end)),
            None => None,
        }
    } else {
        None
    }
}

/// What stands between the braces of the object called `key`.
pub open spec fn object(s: Seq<u8>, key: Seq<u8>) -> Option<Seq<u8>> {
    match value_start(s, key) {
        Some(at) => object_at(s, at),
        None => None,
    }
}

/// What stands between the quotes of the string called `key`.
pub open spec fn string(s: Seq<u8>, key: Seq<u8>) -> Option<Seq<u8>> {
    match value_start(s, key) {
        Some(at) => {
            let end = next_byte(s, 0x22, at + 1);
            if s[at] == 0x22 && end < s.len() {
                Some(s.subrange(at + 1, end))
            } else {
                None
            }
        },
        None => None,
    }
}

/// Digits with at most one point among them, and at least one digit.
pub open spec fn is_mantissa(t: Seq<u8>) -> bool {
    let whole = past_digits(t, 0);
    if whole == t.len() {
        whole > 0
    } else {
        &&& t[whole] == 0x2E
        &&& past_digits(t, whole + 1) == t.len()
        &&& t.len() > 1
    }
}

/// Position of the first `e` or `E`, or the length.
pub open spec fn exponent_mark(t: Seq<u8>) -> int {
    run_end(t, |b: u8| b != 0x65 && b != 0x45, 0)
}

/// The text behind a leading sign.
pub open spec fn unsigned(t: Seq<u8>) -> Seq<u8> {
    if t.len() > 0 && (t[0] == 0x2D || t[0] == 0x2B) {
        t.subrange(1, t.len() as int)
    } else {
        t
    }
}

/// `t` spells a decimal number: a sign that may be left out, digits with at most
/// one point, and an exponent that may be left out.
pub open spec fn is_decimal(t: Seq<u8>) -> bool {
    let u = unsigned(t);
    let mark = exponent_mark(u);
    &&& is_mantissa(u.take(mark))
    &&& mark < u.len() ==> {
        let e = unsigned(u.subrange(mark + 1, u.len() as int));
        e.len() > 0 && past_digits(e, 0) == e.len()
    }
}

/// The text of the decimal number called `key`.
pub open spec fn number(s: Seq<u8>, key: Seq<u8>) -> Option<Seq<u8>> {
    match value_start(s, key) {
        Some(at) => {
            let t = s.subrange(at, past_number(s, at));
            if is_decimal(t) {
                Some(t)
            } else {
                None
            }
        },
        None => None,
    }
}

/// The value of the count called `key`, where it is within the range of `u32`.
pub open spec fn count(s: Seq<u8>, key: Seq<u8>) -> Option<int> {
    match value_start(s, key) {
        Some(at) => {
            let end = past_digits(s, at);
            let v = decimal(s.subrange(at, end));
            if at < end && v <= u32::MAX {
                Some(v)
            } else {
                None
            }
        },
        None => None,
    }
}

/// The value of the flag called `key`.
pub open spec fn flag(s: Seq<u8>, key: Seq<u8>) -> Option<bool> {
    match value_start(s, key) {
        Some(at) => if occurs_at(s, text("true"), at) {
            Some(true)
        } else if occurs_at(s, text("false"), at) {
            Some(false)
        } else {
            None
        },
        None => None,
    }
}

/// Whether `id` is among the strings of the array that goes on at `i`. There is
/// no answer where the array is broken off, or holds something else, before `id`.
pub open spec fn listed_from(s: Seq<u8>, id: Seq<u8>, i: int) -> Option<bool>
    decreases s.len() - i,
{
    let at = past_separators(s, i);
    if i < 0 || at < i || at >= s.len() {
        None
    } else if s[at] == 0x5D {
        Some(false)
    } else if s[at] == 0x22 {
        let end = next_byte(s, 0x22, at + 1);
        if !(at < end < s.len()) {
            None
        } else if s.subrange(at + 1, end) == id {
            Some(true)
        } else {
            listed_from(s, id, end + 1)
        }
    } else {
        None
    }
}

/// Whether `id` is one of the customer's known merchants.
pub open spec fn known(customer: Seq<u8>, id: Seq<u8>) -> Option<bool> {
    match value_start(customer, text("\"known_merchants\"")) {
        Some(at) => if customer[at] == 0x5B {
            listed_from(customer, id, at + 1)
        } else {
            None
        },
        None => None,
    }
}

/// The transaction before, which may be `null`.
pub open spec fn last_tx(body: Seq<u8>) -> Option<Option<LastTxView>> {
    match value_start(body, text(KEY_LAST_TX)) {
        Some(at) => if occurs_at(body, text("null"), at) {
            Some(None)
        } else {
            match object_at(body, at) {
                Some(inner) => match (
                    string(inner, text("\"timestamp\"")),
                    number(inner, text("\"km_from_current\"")),
                ) {
                    (Some(timestamp), Some(km_from_current)) => Some(
                        Some(LastTxView { timestamp, km_from_current }),
                    ),
                    _ => None,
                },
                None => None,
            }
        },
        None => None,
    }
}

/// The transaction that `body` describes, where every field is there.
pub open spec fn payload(body: Seq<u8>) -> Option<PayloadView> {
    match (
        object(body, text(KEY_TRANSACTION)),
        object(body, text(KEY_CUSTOMER)),
        object(body, text(KEY_MERCHANT)),
        object(body, text(KEY_TERMINAL)),
        last_tx(body),
    ) {
        (Some(transaction), Some(customer), Some(merchant), Some(terminal), Some(last_tx)) => {
            match string(merchant, text("\"id\"")) {
                None => None,
                Some(merchant_id) => match (
                    (
                        string(merchant, text("\"mcc\"")),
                        number(merchant, text("\"avg_amount\"")),
                        number(customer, text("\"avg_amount\"")),
                        count(customer, text("\"tx_count_24h\"")),
                        known(customer, merchant_id),
                        number(transaction, text("\"amount\"")),
                    ),
                    (
                        count(transaction, text("\"installments\"")),
                        string(transaction, text("\"requested_at\"")),
                        flag(terminal, text("\"is_online\"")),
                        flag(terminal, text("\"card_present\"")),
                        number(terminal, text("\"km_from_home\"")),
                    ),
                ) {
                    (
                        (
                            Some(merchant_mcc),
                            Some(merchant_avg_amount),
                            Some(customer_avg_amount),
                            Some(tx_count_24h),
                            Some(merchant_id_in_known),
                            Some(amount),
                        ),
                        (
                            Some(installments),
                            Some(requested_at),
                            Some(is_online),
                            Some(card_present),
                            Some(km_from_home),
                        ),
                    ) => Some(
                        PayloadView {
                            amount,
                            installments,
                            requested_at,
                            customer_avg_amount,
                            tx_count_24h,
                            merchant_id_in_known,
                            merchant_mcc,
                            merchant_avg_amount,
                            is_online,
                            card_present,
                            km_from_home,
                            last_tx,
                        },
                    ),
                    _ => None,
                },
            }
        },
        _ => None,
    }
}

/// Reads the transaction that `body` describes.
pub fn parse<'a>(body: &'a [u8]) -> (r: Option<Payload<'a>>)
    ensures
        match r {
            Some(p) => payload(body@) == Some(p@),
            None => payload(body@) is None,
        },
{
    let transaction = find_object_with(body, KEY_TRANSACTION.as_bytes())?;
    let customer = find_object_with(body, KEY_CUSTOMER.as_bytes())?;
    let merchant = find_object_with(body, KEY_MERCHANT.as_bytes())?;
    let terminal = find_object_with(body, KEY_TERMINAL.as_bytes())?;

    let merchant_id = obj_string(merchant, "\"id\"".as_bytes())?;
    let merchant_mcc = obj_string(merchant, "\"mcc\"".as_bytes())?;
    let merchant_avg_amount = obj_number(merchant, "\"avg_amount\"".as_bytes())?;

    let customer_avg_amount = obj_number(customer, "\"avg_amount\"".as_bytes())?;
    let tx_count_24h = obj_number_u32(customer, "\"tx_count_24h\"".as_bytes())?;
    let merchant_id_in_known = known_merchants_contains(customer, merchant_id)?;

    let amount = obj_number(transaction, "\"amount\"".as_bytes())?;
    let installments = obj_number_u32(transaction, "\"installments\"".as_bytes())?;
    let requested_at = obj_string(transaction, "\"requested_at\"".as_bytes())?;

    let is_online = obj_bool(terminal, "\"is_online\"".as_bytes())?;
    let card_present = obj_bool(terminal, "\"card_present\"".as_bytes())?;
    let km_from_home = obj_number(terminal, "\"km_from_home\"".as_bytes())?;

    let last_tx = parse_last_tx(body)?;

    Some(
        Payload {
            amount,
            installments,
            requested_at,
            customer_avg_amount,
            tx_count_24h,
            merchant_id_in_known,
            merchant_mcc,
            merchant_avg_amount,
            is_online,
            card_present,
            km_from_home,
            last_tx,
        },
    )
}

/// The first position from `from` on that holds no white space.
pub fn skip_ws(buf: &[u8], from: usize) -> (r: usize)
    requires
        from <= buf@.len(),
    ensures
        r == past_spaces(buf@, from as int),
        from <= r <= buf@.len(),
{
    let ghost class = |b: u8| is_space(b);
    let mut i = from;
    while i < buf.len() && (buf[i] == 0x20 || buf[i] == 0x09 || buf[i] == 0x0A || buf[i] == 0x0D)
        invariant
            from <= i <= buf@.len(),
            class == (|b: u8| is_space(b)),
            run_end(buf@, class, from as int) == run_end(buf@, class, i as int),
        decreases buf@.len() - i,
    {
        i += 1;
    }
    i
}

/// Where the value behind the first occurrence of `key` starts.
pub fn find_value_start(buf: &[u8], key: &[u8]) -> (r: Option<usize>)
    ensures
        match r {
            Some(at) => value_start(buf@, key@) == Some(at as int) && at < buf@.len(),
            None => value_start(buf@, key@) is None,
        },
{
    let n = buf.len();
    let pos = find_bytes(buf, key)?;
    let colon = skip_ws(buf, pos + key.len());
    if colon >= n || buf[colon] != 0x3A {
        return None;
    }
    let start = skip_ws(buf, colon + 1);
    if start >= n {
        return None;
    }
    Some(start)
}

/// The position of the brace that closes the object opened at `open`.
pub fn matching_brace(buf: &[u8], open: usize) -> (r: Option<usize>)
    requires
        open < buf@.len(),
        buf@[open as int] == 0x7B,
    ensures
        match r {
            Some(end) => closing_brace(buf@, open as int) == Some(end as int) && open < end
                < buf@.len(),
            None => closing_brace(buf@, open as int) is None,
        },
{
    let mut depth: usize = 0;
    let mut in_str = false;
    let mut esc = false;
    let mut i = open;
    while i < buf.len()
        invariant
            open <= i <= buf@.len(),
            buf@[open as int] == 0x7B,
            depth <= i - open,
            i == open ==> !in_str,
            i > open ==> depth >= 1,
            closing_brace(buf@, open as int) == closing_from(
                buf@,
                i as int,
                Nesting { depth: depth as int, in_str, esc },
            ),
            !in_str ==> !esc,
        decreases buf@.len() - i,
    {
        let c = buf[i];
        if in_str {
            if esc {
                esc = false;
            } else if c == 0x5C {
                esc = true;
            } else if c == 0x22 {
                in_str = false;
            }
        } else {
            match c {
                0x22 => {
                    in_str = true;
                },
                0x7B => {
                    depth += 1;
                },
                0x7D => {
                    depth -= 1;
                    if depth == 0 {
                        return Some(i);
                    }
                },
                _ => {},
            }
        }
        i += 1;
    }
    None
}

/// What stands between the braces of the object called `key`.
pub fn find_object_with<'a>(buf: &'a [u8], key: &[u8]) -> (r: Option<&'a [u8]>)
    ensures
        match r {
            Some(inner) => object(buf@, key@) == Some(inner@),
            None => object(buf@, key@) is None,
        },
{
    let p = find_value_start(buf, key)?;
    if buf[p] != 0x7B {
        return None;
    }
    let end = matching_brace(buf, p)?;
    Some(&buf[p + 1..end])
}

/// What stands between the quotes of the string called `key`.
pub fn obj_string<'a>(buf: &'a [u8], key: &[u8]) -> (r: Option<&'a [u8]>)
    ensures
        match r {
            Some(s) => string(buf@, key@) == Some(s@),
            None => string(buf@, key@) is None,
        },
{
    let p = find_value_start(buf, key)?;
    if buf[p] != 0x22 {
        return None;
    }
    let end = find_byte(buf, 0x22, p + 1)?;
    Some(&buf[p + 1..end])
}

/// The end of the digits from `from` on.
pub fn skip_digits(buf: &[u8], from: usize) -> (r: usize)
    requires
        from <= buf@.len(),
    ensures
        r == past_digits(buf@, from as int),
        from <= r <= buf@.len(),
        forall|j: int| from <= j < r ==> is_digit(#[trigger] buf@[j]),
{
    let ghost class = |b: u8| is_digit(b);
    let mut i = from;
    while i < buf.len() && 0x30 <= buf[i] && buf[i] <= 0x39
        invariant
            from <= i <= buf@.len(),
            class == (|b: u8| is_digit(b)),
            run_end(buf@, class, from as int) == run_end(buf@, class, i as int),
            forall|j: int| from <= j < i ==> is_digit(#[trigger] buf@[j]),
        decreases buf@.len() - i,
    {
        i += 1;
    }
    i
}

/// Whether `t` is digits with at most one point among them, and at least one digit.
pub fn spells_mantissa(t: &[u8]) -> (r: bool)
    ensures
        r == is_mantissa(t@),
{
    let whole = skip_digits(t, 0);
    if whole == t.len() {
        whole > 0
    } else {
        t[whole] == 0x2E && skip_digits(t, whole + 1) == t.len() && t.len() > 1
    }
}

/// The text behind a leading sign.
pub fn skip_sign<'a>(t: &'a [u8]) -> (r: &'a [u8])
    ensures
        r@ == unsigned(t@),
{
    if t.len() > 0 && (t[0] == 0x2D || t[0] == 0x2B) {
        &t[1..t.len()]
    } else {
        t
    }
}

/// Whether `t` spells a decimal number.
pub fn spells_decimal(t: &[u8]) -> (r: bool)
    ensures
        r == is_decimal(t@),
{
    let u = skip_sign(t);
    let ghost class = |b: u8| b != 0x65 && b != 0x45;
    let mut mark: usize = 0;
    while mark < u.len() && u[mark] != 0x65 && u[mark] != 0x45
        invariant
            mark <= u@.len(),
            class == (|b: u8| b != 0x65 && b != 0x45),
            run_end(u@, class, 0) == run_end(u@, class, mark as int),
        decreases u@.len() - mark,
    {
        mark += 1;
    }
    let m = &u[0..mark];
    assert(m@ =~= u@.take(mark as int));
    if !spells_mantissa(m) {
        return false;
    }
    if mark < u.len() {
        let e = skip_sign(&u[mark + 1..u.len()]);
        e.len() > 0 && skip_digits(e, 0) == e.len()
    } else {
        true
    }
}

/// The text of the decimal number called `key`.
pub fn obj_number<'a>(buf: &'a [u8], key: &[u8]) -> (r: Option<&'a [u8]>)
    ensures
        match r {
            Some(t) => number(buf@, key@) == Some(t@) && is_decimal(t@),
            None => number(buf@, key@) is None,
        },
{
    let p = find_value_start(buf, key)?;
    let ghost class = |b: u8| is_number_byte(b);
    let mut e = p;
    while e < buf.len() && (buf[e] == 0x2D || buf[e] == 0x2B || buf[e] == 0x2E || buf[e] == 0x65
        || buf[e] == 0x45 || (0x30 <= buf[e] && buf[e] <= 0x39))
        invariant
            p <= e <= buf@.len(),
            class == (|b: u8| is_number_byte(b)),
            run_end(buf@, class, p as int) == run_end(buf@, class, e as int),
        decreases buf@.len() - e,
    {
        e += 1;
    }
    let t = &buf[p..e];
    if spells_decimal(t) {
        Some(t)
    } else {
        None
    }
}

proof fn lemma_decimal_grows(t: Seq<u8>, i: int)
    requires
        0 <= i <= t.len(),
        forall|j: int| 0 <= j < t.len() ==> is_digit(#[trigger] t[j]),
    ensures
        0 <= decimal(t.take(i)) <= decimal(t),
    decreases t.len(),
{
    if i < t.len() {
        lemma_decimal_grows(t.drop_last(), i);
        assert(t.drop_last().take(i) =~= t.take(i));
    } else {
        assert(t.take(i) =~= t);
        if t.len() > 0 {
            lemma_decimal_grows(t.drop_last(), i - 1);
            assert(t.drop_last().take(i - 1) =~= t.drop_last());
        }
    }
}

/// The number that the digits of `t` spell, where it is within the range of `u32`.
pub fn parse_u32(t: &[u8]) -> (r: Option<u32>)
    requires
        forall|j: int| 0 <= j < t@.len() ==> is_digit(#[trigger] t@[j]),
    ensures
        match r {
            Some(v) => v == decimal(t@),
            None => decimal(t@) > u32::MAX,
        },
{
    let mut v: u64 = 0;
    let mut i: usize = 0;
    assert(t@.take(0) =~= Seq::empty());
    while i < t.len()
        invariant
            i <= t@.len(),
            forall|j: int| 0 <= j < t@.len() ==> is_digit(#[trigger] t@[j]),
            v == decimal(t@.take(i as int)),
            v <= u32::MAX,
        decreases t@.len() - i,
    {
        assert(t@.take(i + 1).drop_last() =~= t@.take(i as int));
        assert(is_digit(t@[i as int]));
        v = v * 10 + (t[i] - 0x30) as u64;
        i += 1;
        proof {
            lemma_decimal_grows(t@, i as int);
        }
        if v > u32::MAX as u64 {
            return None;
        }
    }
    assert(t@.take(i as int) =~= t@);
    Some(v as u32)
}

/// The value of the count called `key`.
pub fn obj_number_u32(buf: &[u8], key: &[u8]) -> (r: Option<u32>)
    ensures
        match r {
            Some(v) => count(buf@, key@) == Some(v as int),
            None => count(buf@, key@) is None,
        },
{
    let p = find_value_start(buf, key)?;
    let e = skip_digits(buf, p);
    if e == p {
        return None;
    }
    let t = &buf[p..e];
    parse_u32(t)
}

/// The value of the flag called `key`.
pub fn obj_bool(buf: &[u8], key: &[u8]) -> (r: Option<bool>)
    ensures
        r == flag(buf@, key@),
{
    let p = find_value_start(buf, key)?;
    if word_at(buf, "true".as_bytes(), p) {
        Some(true)
    } else if word_at(buf, "false".as_bytes(), p) {
        Some(false)
    } else {
        None
    }
}

/// Whether `merchant_id` is one of the customer's known merchants.
pub fn known_merchants_contains(customer: &[u8], merchant_id: &[u8]) -> (r: Option<bool>)
    ensures
        r == known(customer@, merchant_id@),
{
    let p = find_value_start(customer, "\"known_merchants\"".as_bytes())?;
    if customer[p] != 0x5B {
        return None;
    }
    let mut i = p + 1;
    loop
        invariant
            i <= customer@.len(),
            known(customer@, merchant_id@) == listed_from(customer@, merchant_id@, i as int),
        decreases customer@.len() - i,
    {
        let at = skip_array_ws_comma(customer, i);
        if at >= customer.len() {
            return None;
        }
        match customer[at] {
            0x5D => {
                return Some(false);
            },
            0x22 => {
                let end = find_byte(customer, 0x22, at + 1)?;
                if same_bytes(&customer[at + 1..end], merchant_id) {
                    return Some(true);
                }
                i = end + 1;
            },
            _ => {
                return None;
            },
        }
    }
}

/// The first position from `from` on that holds neither white space nor a comma.
pub fn skip_array_ws_comma(buf: &[u8], from: usize) -> (r: usize)
    requires
        from <= buf@.len(),
    ensures
        r == past_separators(buf@, from as int),
        from <= r <= buf@.len(),
{
    let ghost class = |b: u8| is_separator(b);
    let mut i = from;
    while i < buf.len() && (buf[i] == 0x20 || buf[i] == 0x09 || buf[i] == 0x0A || buf[i] == 0x0D
        || buf[i] == 0x2C)
        invariant
            from <= i <= buf@.len(),
            class == (|b: u8| is_separator(b)),
            run_end(buf@, class, from as int) == run_end(buf@, class, i as int),
        decreases buf@.len() - i,
    {
        i += 1;
    }
    i
}

/// Reads the transaction before, which may be `null`.
pub fn parse_last_tx<'a>(body: &'a [u8]) -> (r: Option<Option<LastTx<'a>>>)
    ensures
        match r {
            Some(Some(last)) => last_tx(body@) == Some(Some(last@)),
            Some(None) => last_tx(body@) == Some(None::<LastTxView>),
            None => last_tx(body@) is None,
        },
{
    let p = find_value_start(body, KEY_LAST_TX.as_bytes())?;
    if word_at(body, "null".as_bytes(), p) {
        return Some(None);
    }
    if body[p] != 0x7B {
        return None;
    }
    let end = matching_brace(body, p)?;
    let inner = &body[p + 1..end];
    let timestamp = obj_string(inner, "\"timestamp\"".as_bytes())?;
    let km_from_current = obj_number(inner, "\"km_from_current\"".as_bytes())?;
    Some(Some(LastTx { timestamp, km_from_current }))
}

/// The state of a scan that started at `open`, in front of position `i`.
pub open spec fn nesting_at(s: Seq<u8>, open: int, i: int) -> Nesting
    decreases i - open,
{
    if i <= open {
        Nesting { depth: 0, in_str: false, esc: false }
    } else {
        read(nesting_at(s, open, i - 1), s[i - 1])
    }
}

proof fn lemma_closing(s: Seq<u8>, open: int, i: int, end: int)
    requires
        0 <= open < i <= s.len(),
        nesting_at(s, open, i).depth >= 1,
        closing_from(s, i, nesting_at(s, open, i)) == Some(end),
    ensures
        i <= end < s.len(),
        closes(nesting_at(s, open, end), s[end]),
        forall|j: int| i <= j <= end ==> (#[trigger] nesting_at(s, open, j)).depth >= 1,
    decreases s.len() - i,
{
    if i < s.len() && !closes(nesting_at(s, open, i), s[i]) {
        assert(nesting_at(s, open, i + 1) == read(nesting_at(s, open, i), s[i]));
        lemma_closing(s, open, i + 1, end);
        assert forall|j: int| i <= j <= end implies (#[trigger] nesting_at(s, open, j)).depth
            >= 1 by {}
    }
}

/// An object ends with its own brace: the one that is found stands outside of strings
/// and closes the outermost object, which is open all the way to it.
pub proof fn law_object_ends_with_its_own_brace(s: Seq<u8>, open: int, end: int)
    requires
        0 <= open < s.len(),
        s[open] == 0x7B,
        closing_brace(s, open) == Some(end),
    ensures
        open < end < s.len(),
        s[end] == 0x7D,
        !nesting_at(s, open, end).in_str,
        nesting_at(s, open, end).depth == 1,
        forall|j: int| open < j <= end ==> (#[trigger] nesting_at(s, open, j)).depth >= 1,
{
    assert(nesting_at(s, open, open) == (Nesting { depth: 0, in_str: false, esc: false }));
    assert(nesting_at(s, open, open + 1) == read(nesting_at(s, open, open), s[open]));
    lemma_closing(s, open, open + 1, end);
}

} // verus!
