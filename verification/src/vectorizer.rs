//! From a transaction to the features by which it is compared.

use vstd::prelude::*;

use crate::bytes::{same_bytes, text};
use crate::json::Payload;
use crate::DIM;

verus! {

/// What the `i`-th byte adds as a digit.
pub open spec fn digit(s: Seq<u8>, i: int) -> int {
    s[i] - 0x30
}

/// The two-digit number at `i`.
pub open spec fn two_digits(s: Seq<u8>, i: int) -> int {
    digit(s, i) * 10 + digit(s, i + 1)
}

/// The four-digit number at the front.
pub open spec fn year_of(s: Seq<u8>) -> int {
    digit(s, 0) * 1000 + digit(s, 1) * 100 + digit(s, 2) * 10 + digit(s, 3)
}

/// The hour, of which everything above 23 counts as 23.
pub open spec fn hour_of(s: Seq<u8>) -> int {
    if two_digits(s, 11) < 23 {
        two_digits(s, 11)
    } else {
        23
    }
}

/// The `n` bytes at `i` are there, none of them below `'0'`.
pub open spec fn digits_at(s: Seq<u8>, i: int, n: int) -> bool {
    &&& i + n <= s.len()
    &&& forall|j: int| i <= j < i + n ==> #[trigger] s[j] >= 0x30
}

/// `s` has the shape of a point in time, `2026-03-11T20:23:35`, and its day is one
/// that can be counted.
pub open spec fn is_timestamp(s: Seq<u8>) -> bool {
    &&& digits_at(s, 0, 4)
    &&& digits_at(s, 5, 2)
    &&& digits_at(s, 8, 2)
    &&& digits_at(s, 11, 2)
    &&& digits_at(s, 14, 2)
    &&& digits_at(s, 17, 2)
    &&& !(two_digits(s, 5) == 3 && two_digits(s, 8) == 0)
}

/// Months since March.
pub open spec fn month_from_march(m: int) -> int {
    if m > 2 {
        m - 3
    } else {
        m + 9
    }
}

/// Days from 1970-01-01 to a date of the Gregorian calendar. A year is counted
/// from March on, so that the leap day comes last.
pub open spec fn days_of(y: int, m: int, d: int) -> int {
    let year = if m <= 2 {
        y - 1
    } else {
        y
    };
    365 * year + year / 4 - year / 100 + year / 400 + (153 * month_from_march(m) + 2) / 5 + d
        - 719469
}

/// Day of the week, of which Monday is 0.
pub open spec fn weekday_of(y: int, m: int, d: int) -> int {
    (days_of(y, m, d) + 3) % 7
}

/// Seconds from 1970-01-01 to a point in time.
pub open spec fn epoch_of(s: Seq<u8>) -> int {
    days_of(year_of(s), two_digits(s, 5), two_digits(s, 8)) * 86400 + hour_of(s) * 3600
        + two_digits(s, 14) * 60 + two_digits(s, 17)
}

/// Whole minutes between two points in time, whichever is the later one.
pub open spec fn minutes_apart(a: Seq<u8>, b: Seq<u8>) -> int {
    let d = epoch_of(a) - epoch_of(b);
    (if d < 0 {
        -d
    } else {
        d
    }) / 60
}

/// The date is one whose days can be counted in machine integers.
pub open spec fn is_countable(y: int, m: int, d: int) -> bool {
    &&& i32::MIN + 399 <= if m <= 2 {
        y - 1
    } else {
        y
    }
    &&& 153 * month_from_march(m) + 2 <= u32::MAX
    &&& 1 <= (153 * month_from_march(m) + 2) / 5 + d
    &&& (153 * month_from_march(m) + 2) / 5 + d + 145731 <= u32::MAX
}

/// The year of a timestamp.
pub fn iso_year(s: &[u8]) -> (r: i32)
    requires
        digits_at(s@, 0, 4),
    ensures
        r == year_of(s@),
{
    (s[0] - 0x30) as i32 * 1000 + (s[1] - 0x30) as i32 * 100 + (s[2] - 0x30) as i32 * 10 + (s[3]
        - 0x30) as i32
}

/// The month of a timestamp.
pub fn iso_month(s: &[u8]) -> (r: u32)
    requires
        digits_at(s@, 5, 2),
    ensures
        r == two_digits(s@, 5),
{
    (s[5] - 0x30) as u32 * 10 + (s[6] - 0x30) as u32
}

/// The day of a timestamp.
pub fn iso_day(s: &[u8]) -> (r: u32)
    requires
        digits_at(s@, 8, 2),
    ensures
        r == two_digits(s@, 8),
{
    (s[8] - 0x30) as u32 * 10 + (s[9] - 0x30) as u32
}

/// The hour of a timestamp, at most 23.
pub fn iso_hour(s: &[u8]) -> (r: u32)
    requires
        digits_at(s@, 11, 2),
    ensures
        r == hour_of(s@),
{
    let h = (s[11] - 0x30) as u32 * 10 + (s[12] - 0x30) as u32;
    if h < 23 {
        h
    } else {
        23
    }
}

/// The minute of a timestamp.
pub fn iso_minute(s: &[u8]) -> (r: u32)
    requires
        digits_at(s@, 14, 2),
    ensures
        r == two_digits(s@, 14),
{
    (s[14] - 0x30) as u32 * 10 + (s[15] - 0x30) as u32
}

/// The second of a timestamp.
pub fn iso_second(s: &[u8]) -> (r: u32)
    requires
        digits_at(s@, 17, 2),
    ensures
        r == two_digits(s@, 17),
{
    (s[17] - 0x30) as u32 * 10 + (s[18] - 0x30) as u32
}

/// Days from 1970-01-01 to a date.
#[verifier::rlimit(50)]
pub fn days_from_civil(y: i32, m: u32, d: u32) -> (r: i64)
    requires
        is_countable(y as int, m as int, d as int),
    ensures
        r == days_of(y as int, m as int, d as int),
        -1_000_000_000_000 <= r <= 1_000_000_000_000,
{
    let y: i32 = y - if m <= 2 {
        1
    } else {
        0
    };
    let era: i32 = if y >= 0 {
        y / 400
    } else {
        -1 - (-1 - y) / 400
    };
    let yoe = (y - era * 400) as u32;
    let mp = if m > 2 {
        m - 3
    } else {
        m + 9
    };
    let doy = (153 * mp + 2) / 5 + d - 1;
    let doe = yoe * 365 + yoe / 4 - yoe / 100 + doy;
    era as i64 * 146097 + doe as i64 - 719468
}

/// Day of the week of a date, of which Monday is 0.
#[verifier::rlimit(50)]
pub fn weekday_mon0(y: i32, m: u32, d: u32) -> (r: u32)
    requires
        is_countable(y as int, m as int, d as int),
    ensures
        r == weekday_of(y as int, m as int, d as int),
        r < 7,
{
    let days = days_from_civil(y, m, d) + 3;
    let w = if days >= 0 {
        days % 7
    } else {
        6 - (-1 - days) % 7
    };
    w as u32
}

/// Seconds from 1970-01-01 to a timestamp.
#[verifier::rlimit(50)]
pub fn iso_to_epoch_seconds(s: &[u8]) -> (r: i64)
    requires
        is_timestamp(s@),
    ensures
        r == epoch_of(s@),
        -100_000_000_000_000_000 <= r <= 100_000_000_000_000_000,
{
    let days = days_from_civil(iso_year(s), iso_month(s), iso_day(s));
    days * 86400 + iso_hour(s) as i64 * 3600 + iso_minute(s) as i64 * 60 + iso_second(s) as i64
}

/// Whole minutes between two timestamps.
pub fn minutes_between_abs(a: &[u8], b: &[u8]) -> (r: i64)
    requires
        is_timestamp(a@),
        is_timestamp(b@),
    ensures
        r == minutes_apart(a@, b@),
        r >= 0,
{
    let d = iso_to_epoch_seconds(a) - iso_to_epoch_seconds(b);
    let d = if d < 0 {
        -d
    } else {
        d
    };
    d / 60
}

/// A leap year of the Gregorian calendar.
pub open spec fn is_leap(y: int) -> bool {
    y % 4 == 0 && (y % 100 != 0 || y % 400 == 0)
}

/// Days in a month.
pub open spec fn month_length(y: int, m: int) -> int {
    if m == 2 {
        if is_leap(y) {
            29
        } else {
            28
        }
    } else if m == 4 || m == 6 || m == 9 || m == 11 {
        30
    } else {
        31
    }
}

/// A date of the Gregorian calendar.
pub open spec fn is_date(y: int, m: int, d: int) -> bool {
    1 <= m <= 12 && 1 <= d <= month_length(y, m)
}

/// The day after a date: year, month and day.
pub open spec fn day_after(y: int, m: int, d: int) -> (int, int, int) {
    if d < month_length(y, m) {
        (y, m, d + 1)
    } else if m < 12 {
        (y, m + 1, 1)
    } else {
        (y + 1, 1, 1)
    }
}

proof fn lemma_div_step(y: int, n: int)
    requires
        n > 1,
    ensures
        y / n - (y - 1) / n == (if y % n == 0 {
            1int
        } else {
            0
        }),
{
    let q = y / n;
    let r = y % n;
    vstd::arithmetic::div_mod::lemma_fundamental_div_mod(y, n);
    vstd::arithmetic::div_mod::lemma_mod_bound(y, n);
    assert(n * q == q * n) by (nonlinear_arith);
    if r == 0 {
        assert(y - 1 == (q - 1) * n + (n - 1)) by (nonlinear_arith)
            requires
                y == q * n,
        ;
        vstd::arithmetic::div_mod::lemma_fundamental_div_mod_converse(y - 1, n, q - 1, n - 1);
    } else {
        vstd::arithmetic::div_mod::lemma_fundamental_div_mod_converse(y - 1, n, q, r - 1);
    }
}

proof fn lemma_centuries(y: int)
    ensures
        y % 100 == 0 ==> y % 4 == 0,
        y % 400 == 0 ==> y % 100 == 0,
{
    if y % 100 == 0 {
        assert(y == 4 * (25 * (y / 100)));
    }
    if y % 400 == 0 {
        assert(y == 100 * (4 * (y / 400)));
    }
}

#[verifier::spinoff_prover]
#[verifier::rlimit(60)]
proof fn lemma_day_after(y: int, m: int, d: int)
    requires
        is_date(y, m, d),
    ensures
        ({
            let (y1, m1, d1) = day_after(y, m, d);
            &&& is_date(y1, m1, d1)
            &&& days_of(y1, m1, d1) == days_of(y, m, d) + 1
        }),
{
    lemma_div_step(y, 4);
    lemma_div_step(y, 100);
    lemma_div_step(y, 400);
    lemma_centuries(y);
    if d == month_length(y, m) {
        if m == 2 {
            assert(days_of(y, 3, 1) == days_of(y, 2, d) + 1);
        } else if m == 12 {
            assert(days_of(y + 1, 1, 1) == days_of(y, 12, 31) + 1);
        } else if m == 1 {
            assert(days_of(y, 2, 1) == days_of(y, 1, 31) + 1);
        }
    }
}

proof fn lemma_day_of_week(n: int)
    ensures
        (n + 1) % 7 == (n % 7 + 1) % 7,
{
}

/// Days are counted as the calendar has them: from one date to the next it is one
/// day, over the ends of months, leap years and centuries, and the days of the
/// week take turns.
pub proof fn law_days_follow_the_calendar(y: int, m: int, d: int)
    requires
        is_date(y, m, d),
    ensures
        ({
            let (y1, m1, d1) = day_after(y, m, d);
            &&& is_date(y1, m1, d1)
            &&& days_of(y1, m1, d1) == days_of(y, m, d) + 1
            &&& weekday_of(y1, m1, d1) == (weekday_of(y, m, d) + 1) % 7
        }),
{
    lemma_day_after(y, m, d);
    lemma_day_of_week(days_of(y, m, d) + 3);
}

/// The minutes between two points in time do not depend on their order.
pub proof fn law_minutes_are_symmetric(a: Seq<u8>, b: Seq<u8>)
    ensures
        minutes_apart(a, b) == minutes_apart(b, a),
        minutes_apart(a, a) == 0,
{
}

/// The hour and the day of the week never leave the range from 0 to 1 that they are
/// divided into.
pub proof fn law_time_of_day_needs_no_cut(s: Seq<u8>)
    requires
        digits_at(s, 11, 2),
    ensures
        0 <= hour_of(s) <= 23,
        0 <= weekday_of(year_of(s), two_digits(s, 5), two_digits(s, 8)) <= 6,
{
}

/// Whether the `n` bytes at `i` are there, none of them below `'0'`.
pub fn has_digits_at(s: &[u8], i: usize, n: usize) -> (r: bool)
    requires
        i + n <= usize::MAX,
    ensures
        r == digits_at(s@, i as int, n as int),
{
    if i + n > s.len() {
        return false;
    }
    let mut j = i;
    while j < i + n
        invariant
            i <= j <= i + n <= s@.len(),
            i + n <= usize::MAX,
            forall|k: int| i <= k < j ==> #[trigger] s@[k] >= 0x30,
        decreases i + n - j,
    {
        if s[j] < 0x30 {
            return false;
        }
        j += 1;
    }
    true
}

/// Whether the fields of `s` can be read as a point in time.
pub fn readable_timestamp(s: &[u8]) -> (r: bool)
    ensures
        r == is_timestamp(s@),
{
    has_digits_at(s, 0, 4) && has_digits_at(s, 5, 2) && has_digits_at(s, 8, 2) && has_digits_at(
        s,
        11,
        2,
    ) && has_digits_at(s, 14, 2) && has_digits_at(s, 17, 2) && !(iso_month(s) == 3 && iso_day(s)
        == 0)
}

/// The points in time of a transaction can be read.
pub open spec fn has_timestamps(p: &Payload<'_>) -> bool {
    &&& is_timestamp(p.requested_at@)
    &&& p.last_tx matches Some(last) ==> is_timestamp(last.timestamp@)
}

/// Whether the points in time of a transaction can be read.
pub fn readable_timestamps(p: &Payload<'_>) -> (r: bool)
    ensures
        r == has_timestamps(p),
{
    readable_timestamp(p.requested_at) && match &p.last_tx {
        Some(last) => readable_timestamp(last.timestamp),
        None => true,
    }
}

/// Risk of a merchant category, in hundredths.
pub open spec fn risk_of(mcc: Seq<u8>) -> int {
    if mcc == text("5411") {
        15
    } else if mcc == text("5812") {
        30
    } else if mcc == text("5912") {
        20
    } else if mcc == text("5944") {
        45
    } else if mcc == text("7801") {
        80
    } else if mcc == text("7802") {
        75
    } else if mcc == text("7995") {
        85
    } else if mcc == text("4511") {
        35
    } else if mcc == text("5311") {
        25
    } else {
        50
    }
}

/// Risk of a merchant category, in hundredths.
pub fn mcc_risk(mcc: &[u8]) -> (r: u8)
    ensures
        r == risk_of(mcc@),
{
    if same_bytes(mcc, "5411".as_bytes()) {
        15
    } else if same_bytes(mcc, "5812".as_bytes()) {
        30
    } else if same_bytes(mcc, "5912".as_bytes()) {
        20
    } else if same_bytes(mcc, "5944".as_bytes()) {
        45
    } else if same_bytes(mcc, "7801".as_bytes()) {
        80
    } else if same_bytes(mcc, "7802".as_bytes()) {
        75
    } else if same_bytes(mcc, "7995".as_bytes()) {
        85
    } else if same_bytes(mcc, "4511".as_bytes()) {
        35
    } else if same_bytes(mcc, "5311".as_bytes()) {
        25
    } else {
        50
    }
}

/// How one feature of a transaction is worked out. A quotient is cut off at 0 and
/// at 1.
#[derive(Debug, Clone, Copy)]
pub enum Feature<'a> {
    /// The decimal number `text`, divided by `over`.
    Amount { text: &'a [u8], over: u32 },
    /// The decimal number `text`, divided by the decimal number `base` and by
    /// `over`. Where `base` is not above 0, the feature is 1.
    Ratio { text: &'a [u8], base: &'a [u8], over: u32 },
    /// `value`, divided by `over`.
    Count { value: i64, over: u32 },
    /// 1 where the flag is set, else 0.
    Flag(bool),
    /// A number of hundredths.
    Hundredths(u8),
    /// -1, in place of what is not known.
    Absent,
}

/// The amount that counts as 1.
pub const MAX_AMOUNT: u32 = 10_000;

/// The number of installments that counts as 1.
pub const MAX_INSTALLMENTS: u32 = 12;

/// How many times the usual amount counts as 1.
pub const AMOUNT_VS_AVG_RATIO: u32 = 10;

/// The minutes since the last transaction that count as 1.
pub const MAX_MINUTES: u32 = 1440;

/// The distance that counts as 1.
pub const MAX_KM: u32 = 1000;

/// The number of transactions in a day that counts as 1.
pub const MAX_TX_COUNT_24H: u32 = 20;

/// The usual amount of a merchant that counts as 1.
pub const MAX_MERCHANT_AVG_AMOUNT: u32 = 10_000;

/// Time since the last transaction.
pub open spec fn time_feature<'a>(p: &Payload<'a>) -> Feature<'a> {
    match p.last_tx {
        Some(last) => Feature::Count {
            value: minutes_apart(p.requested_at@, last.timestamp@) as i64,
            over: MAX_MINUTES,
        },
        None => Feature::Absent,
    }
}

/// Distance from the last transaction.
pub open spec fn distance_feature<'a>(p: &Payload<'a>) -> Feature<'a> {
    match p.last_tx {
        Some(last) => Feature::Amount { text: last.km_from_current, over: MAX_KM },
        None => Feature::Absent,
    }
}

/// The features of a transaction.
pub open spec fn features<'a>(p: &Payload<'a>) -> Seq<Feature<'a>> {
    seq![
        Feature::Amount { text: p.amount, over: MAX_AMOUNT },
        Feature::Count { value: p.installments as i64, over: MAX_INSTALLMENTS },
        Feature::Ratio {
            text: p.amount,
            base: p.customer_avg_amount,
            over: AMOUNT_VS_AVG_RATIO,
        },
        Feature::Count { value: hour_of(p.requested_at@) as i64, over: 23 },
        Feature::Count {
            value: weekday_of(
                year_of(p.requested_at@),
                two_digits(p.requested_at@, 5),
                two_digits(p.requested_at@, 8),
            ) as i64,
            over: 6,
        },
        time_feature(p),
        distance_feature(p),
        Feature::Amount { text: p.km_from_home, over: MAX_KM },
        Feature::Count { value: p.tx_count_24h as i64, over: MAX_TX_COUNT_24H },
        Feature::Flag(p.is_online),
        Feature::Flag(p.card_present),
        Feature::Flag(!p.merchant_id_in_known),
        Feature::Hundredths(risk_of(p.merchant_mcc@) as u8),
        Feature::Amount { text: p.merchant_avg_amount, over: MAX_MERCHANT_AVG_AMOUNT },
    ]
}

/// Works out the features of a transaction.
#[verifier::rlimit(50)]
pub fn vectorize<'a>(p: &Payload<'a>) -> (r: [Feature<'a>; DIM])
    requires
        has_timestamps(p),
    ensures
        r@ == features(p),
{
    let hour = iso_hour(p.requested_at);
    let weekday = weekday_mon0(
        iso_year(p.requested_at),
        iso_month(p.requested_at),
        iso_day(p.requested_at),
    );
    let (mins_last, km_last) = match &p.last_tx {
        Some(last) => {
            let mins = minutes_between_abs(p.requested_at, last.timestamp);
            (
                Feature::Count { value: mins, over: MAX_MINUTES },
                Feature::Amount { text: last.km_from_current, over: MAX_KM },
            )
        },
        None => (Feature::Absent, Feature::Absent),
    };
    let r = [
        Feature::Amount { text: p.amount, over: MAX_AMOUNT },
        Feature::Count { value: p.installments as i64, over: MAX_INSTALLMENTS },
        Feature::Ratio { text: p.amount, base: p.customer_avg_amount, over: AMOUNT_VS_AVG_RATIO },
        Feature::Count { value: hour as i64, over: 23 },
        Feature::Count { value: weekday as i64, over: 6 },
        mins_last,
        km_last,
        Feature::Amount { text: p.km_from_home, over: MAX_KM },
        Feature::Count { value: p.tx_count_24h as i64, over: MAX_TX_COUNT_24H },
        Feature::Flag(p.is_online),
        Feature::Flag(p.card_present),
        Feature::Flag(!p.merchant_id_in_known),
        Feature::Hundredths(mcc_risk(p.merchant_mcc)),
        Feature::Amount { text: p.merchant_avg_amount, over: MAX_MERCHANT_AVG_AMOUNT },
    ];
    assert(r@ =~= features(p));
    r
}

} // verus!
