//! What the features of a transaction say of the moments at which it and the one
//! before it took place.
//!
//! A [`Moment`] is a date and a time of day; [`written`] is how it is spelled. The laws
//! relate what is read from the text to a clock that ticks second by second.

use vstd::prelude::*;

use crate::bytes::text;
use crate::eval::{has_fields, minutes_from, seconds_of, terms_of, Facts, Field, Term};
use crate::json::Payload;
use crate::vectorizer::{
    day_after, days_of, epoch_of, features, has_timestamps, hour_of, is_date, is_timestamp,
    law_days_follow_the_calendar, risk_of, two_digits, weekday_of, year_of, Feature,
};

verus! {

/// A moment of the Gregorian calendar.
pub struct Moment {
    pub year: int,
    pub month: int,
    pub day: int,
    pub hour: int,
    pub minute: int,
    pub second: int,
}

/// The date and the time of day exist, and the year has four digits.
pub open spec fn is_moment(m: Moment) -> bool {
    &&& 0 <= m.year <= 9999
    &&& is_date(m.year, m.month, m.day)
    &&& 0 <= m.hour < 24
    &&& 0 <= m.minute < 60
    &&& 0 <= m.second < 60
}

/// The last digit of a number.
pub open spec fn last_digit(n: int) -> u8 {
    (0x30 + n % 10) as u8
}

/// How a moment is spelled, up to the second: `2026-03-11T20:23:35`.
pub open spec fn written(m: Moment) -> Seq<u8> {
    seq![
        last_digit(m.year / 1000),
        last_digit(m.year / 100),
        last_digit(m.year / 10),
        last_digit(m.year),
        0x2D,
        last_digit(m.month / 10),
        last_digit(m.month),
        0x2D,
        last_digit(m.day / 10),
        last_digit(m.day),
        0x54,
        last_digit(m.hour / 10),
        last_digit(m.hour),
        0x3A,
        last_digit(m.minute / 10),
        last_digit(m.minute),
        0x3A,
        last_digit(m.second / 10),
        last_digit(m.second),
    ]
}

/// `s` starts with the spelling of `m`.
pub open spec fn says_moment(s: Seq<u8>, m: Moment) -> bool {
    written(m).is_prefix_of(s)
}

/// The moment one second later.
pub open spec fn second_after(m: Moment) -> Moment {
    if m.second < 59 {
        Moment { second: m.second + 1, ..m }
    } else if m.minute < 59 {
        Moment { minute: m.minute + 1, second: 0, ..m }
    } else if m.hour < 23 {
        Moment { hour: m.hour + 1, minute: 0, second: 0, ..m }
    } else {
        let (year, month, day) = day_after(m.year, m.month, m.day);
        Moment { year, month, day, hour: 0, minute: 0, second: 0 }
    }
}

/// The moment `k` seconds later.
pub open spec fn later(m: Moment, k: int) -> Moment
    decreases k,
{
    if k <= 0 {
        m
    } else {
        second_after(later(m, k - 1))
    }
}

proof fn lemma_number_of_two(n: int)
    requires
        0 <= n < 100,
    ensures
        (last_digit(n / 10) - 0x30) * 10 + (last_digit(n) - 0x30) == n,
        last_digit(n / 10) >= 0x30,
        last_digit(n) >= 0x30,
{
}

proof fn lemma_number_of_four(n: int)
    requires
        0 <= n <= 9999,
    ensures
        (last_digit(n / 1000) - 0x30) * 1000 + (last_digit(n / 100) - 0x30) * 100 + (last_digit(
            n / 10,
        ) - 0x30) * 10 + (last_digit(n) - 0x30) == n,
        last_digit(n / 1000) >= 0x30,
        last_digit(n / 100) >= 0x30,
        last_digit(n / 10) >= 0x30,
        last_digit(n) >= 0x30,
{
    assert(n / 100 == n / 1000 * 10 + n / 100 % 10);
    assert(n / 10 == n / 100 * 10 + n / 10 % 10);
}

/// A moment that is written down is read as itself: each part of the date and of the
/// time of day, whatever follows.
#[verifier::rlimit(50)]
pub proof fn law_written_moment_is_read(s: Seq<u8>, m: Moment)
    requires
        is_moment(m),
        says_moment(s, m),
    ensures
        is_timestamp(s),
        has_fields(s),
        year_of(s) == m.year,
        two_digits(s, 5) == m.month,
        two_digits(s, 8) == m.day,
        two_digits(s, 11) == m.hour,
        hour_of(s) == m.hour,
        two_digits(s, 14) == m.minute,
        two_digits(s, 17) == m.second,
{
    lemma_number_of_four(m.year);
    lemma_number_of_two(m.month);
    lemma_number_of_two(m.day);
    lemma_number_of_two(m.hour);
    lemma_number_of_two(m.minute);
    lemma_number_of_two(m.second);
    let w = written(m);
    assert(w.len() == 19);
    assert forall|i: int| 0 <= i < 19 implies #[trigger] s[i] == w[i] by {}
    assert(s[0] == w[0] && s[1] == w[1] && s[2] == w[2] && s[3] == w[3]);
    assert(s[5] == w[5] && s[6] == w[6] && s[8] == w[8] && s[9] == w[9]);
    assert(s[11] == w[11] && s[12] == w[12] && s[14] == w[14] && s[15] == w[15]);
    assert(s[17] == w[17] && s[18] == w[18]);
}

/// The clock ticks: of two texts, the second of which spells the moment one second
/// after that of the first, the second is one second farther on, over the ends of
/// minutes, hours, days, months and years.
#[verifier::rlimit(50)]
pub proof fn law_clock_ticks(s: Seq<u8>, t: Seq<u8>, m: Moment)
    requires
        is_moment(m),
        is_moment(second_after(m)),
        says_moment(s, m),
        says_moment(t, second_after(m)),
    ensures
        epoch_of(t) == epoch_of(s) + 1,
        seconds_of(t) == seconds_of(s) + 1,
{
    law_written_moment_is_read(s, m);
    law_written_moment_is_read(t, second_after(m));
    law_days_follow_the_calendar(m.year, m.month, m.day);
}

proof fn lemma_later_is_moment(m: Moment, k: int)
    requires
        is_moment(m),
        0 <= k,
        later(m, k).year <= 9999,
    ensures
        is_moment(later(m, k)),
        m.year <= later(m, k).year,
        k > 0 ==> later(m, k - 1).year <= 9999,
    decreases k,
{
    if k > 0 {
        let before = later(m, k - 1);
        lemma_later_year(m, k - 1);
        assert(before.year <= later(m, k).year);
        lemma_later_is_moment(m, k - 1);
        law_days_follow_the_calendar(before.year, before.month, before.day);
    }
}

proof fn lemma_later_year(m: Moment, k: int)
    requires
        0 <= k,
    ensures
        m.year <= later(m, k).year,
    decreases k,
{
    if k > 0 {
        lemma_later_year(m, k - 1);
    }
}

/// Moments lie as far apart as the clock has ticked between them: `k` seconds later
/// is `k` seconds farther on.
#[verifier::rlimit(50)]
pub proof fn law_seconds_between_moments(s: Seq<u8>, t: Seq<u8>, m: Moment, k: int)
    requires
        is_moment(m),
        0 <= k,
        later(m, k).year <= 9999,
        says_moment(s, m),
        says_moment(t, later(m, k)),
    ensures
        epoch_of(t) - epoch_of(s) == k,
        seconds_of(t) - seconds_of(s) == k,
    decreases k,
{
    lemma_later_is_moment(m, k);
    if k > 0 {
        let before = later(m, k - 1);
        let u = written(before);
        lemma_later_is_moment(m, k - 1);
        law_seconds_between_moments(s, u, m, k - 1);
        law_clock_ticks(u, t, before);
    } else {
        law_written_moment_is_read(s, m);
        law_written_moment_is_read(t, m);
    }
}

/// The date `k` days after 1970-01-01.
pub open spec fn nth_date(k: int) -> (int, int, int)
    decreases k,
{
    if k <= 0 {
        (1970, 1, 1)
    } else {
        let (y, m, d) = nth_date(k - 1);
        day_after(y, m, d)
    }
}

/// Days are counted from 1970-01-01, which was a Thursday: the date `k` days later has
/// the number `k`, and its day of the week is `k` days behind Thursday.
pub proof fn law_days_are_counted_from_1970(k: int)
    requires
        0 <= k,
    ensures
        ({
            let (y, m, d) = nth_date(k);
            &&& is_date(y, m, d)
            &&& days_of(y, m, d) == k
            &&& weekday_of(y, m, d) == (3 + k) % 7
        }),
    decreases k,
{
    if k > 0 {
        law_days_are_counted_from_1970(k - 1);
        let (y, m, d) = nth_date(k - 1);
        law_days_follow_the_calendar(y, m, d);
    }
}

/// The time feature counts whole minutes: its value times 60 is at most the difference
/// of the two points in time in seconds, whichever is the later one, and the difference
/// is less than 60 more. It is 1 from a day on, and -1 where there is no transaction
/// before.
#[verifier::rlimit(50)]
pub proof fn law_time_feature_counts_minutes(p: &Payload<'_>)
    requires
        p.last_tx matches Some(last) ==> {
            &&& is_timestamp(p.requested_at@)
            &&& is_timestamp(last.timestamp@)
        },
    ensures
        p.last_tx is None ==> features(p)[5] is Absent && features(p)[6] is Absent,
        p.last_tx matches Some(last) ==> {
            let d = epoch_of(p.requested_at@) - epoch_of(last.timestamp@);
            let apart = if d < 0 {
                -d
            } else {
                d
            };
            &&& features(p)[5] matches Feature::Count { value, over }
            &&& value * 60 <= apart < value * 60 + 60
            &&& over == 1440
            &&& (value >= over <==> apart >= 86400)
        },
{
    if let Some(last) = p.last_tx {
        lemma_epoch_bound(p.requested_at@);
        lemma_epoch_bound(last.timestamp@);
    }
}

#[verifier::rlimit(50)]
proof fn lemma_epoch_bound(s: Seq<u8>)
    ensures
        -100_000_000_000_000 <= epoch_of(s) <= 100_000_000_000_000,
{
    let y = year_of(s);
    assert(-60_000 <= y <= 300_000);
    let m = two_digits(s, 5);
    let d = two_digits(s, 8);
    assert(-600 <= m <= 3000 && -600 <= d <= 3000);
    assert(-150_000_000 <= days_of(y, m, d) <= 150_000_000);
}

/// The time feature never gets smaller as the transaction before lies farther back.
pub proof fn law_time_feature_grows(p: &Payload<'_>, q: &Payload<'_>)
    requires
        p.last_tx matches Some(a) && is_timestamp(a.timestamp@),
        q.last_tx matches Some(b) && is_timestamp(b.timestamp@),
        is_timestamp(p.requested_at@),
        is_timestamp(q.requested_at@),
        0 <= epoch_of(p.requested_at@) - epoch_of(p.last_tx->0.timestamp@) <= epoch_of(
            q.requested_at@,
        ) - epoch_of(q.last_tx->0.timestamp@),
    ensures
        features(p)[5] matches Feature::Count { value: less, .. } && features(q)[5]
            matches Feature::Count { value: more, .. } && less <= more,
{
    law_time_feature_counts_minutes(p);
    law_time_feature_counts_minutes(q);
}

/// The time features of moments that are written down: where one of the two points in
/// time is `k` seconds after the other, the feature is the whole minutes in `k`, out of
/// those of a day.
#[verifier::rlimit(50)]
pub proof fn law_time_feature_of_written_moments(p: &Payload<'_>, m: Moment, k: int)
    requires
        is_moment(m),
        0 <= k,
        later(m, k).year <= 9999,
        p.last_tx matches Some(last) && {
            ||| says_moment(last.timestamp@, m) && says_moment(p.requested_at@, later(m, k))
            ||| says_moment(p.requested_at@, m) && says_moment(last.timestamp@, later(m, k))
        },
    ensures
        features(p)[5] matches Feature::Count { value, over } && value == k / 60 && over == 1440,
{
    let last = p.last_tx->0.timestamp@;
    let at = p.requested_at@;
    lemma_later_is_moment(m, k);
    if says_moment(last, m) && says_moment(at, later(m, k)) {
        law_seconds_between_moments(last, at, m, k);
        law_written_moment_is_read(last, m);
        law_written_moment_is_read(at, later(m, k));
    } else {
        law_seconds_between_moments(at, last, m, k);
        law_written_moment_is_read(at, m);
        law_written_moment_is_read(last, later(m, k));
    }
    law_time_feature_counts_minutes(p);
}

proof fn lemma_weekday_range(y: int, m: int, d: int)
    ensures
        0 <= weekday_of(y, m, d) < 7,
{
}

/// The hour and the day of the week are those of the moment that is written down: the
/// hour out of 23, and the days since Monday out of 6.
#[verifier::spinoff_prover]
#[verifier::rlimit(50)]
pub proof fn law_features_of_the_time_of_day(p: &Payload<'_>, m: Moment)
    requires
        is_moment(m),
        says_moment(p.requested_at@, m),
    ensures
        features(p)[3] matches Feature::Count { value, over } && value == m.hour && over == 23,
        features(p)[4] matches Feature::Count { value, over } && value == weekday_of(
            m.year,
            m.month,
            m.day,
        ) && over == 6,
{
    law_written_moment_is_read(p.requested_at@, m);
    lemma_weekday_range(m.year, m.month, m.day);
    let at = p.requested_at@;
    let w = weekday_of(year_of(at), two_digits(at, 5), two_digits(at, 8));
    assert(features(p)[4] == (Feature::Count { value: w as i64, over: 6 }));
}

/// The day of the week of a transaction `k` days after 1970-01-01, a Thursday.
pub proof fn law_feature_of_the_day_of_the_week(p: &Payload<'_>, m: Moment, k: int)
    requires
        is_moment(m),
        says_moment(p.requested_at@, m),
        0 <= k,
        (m.year, m.month, m.day) == nth_date(k),
    ensures
        features(p)[4] matches Feature::Count { value, over } && value == (3 + k) % 7 && over == 6,
{
    law_features_of_the_time_of_day(p, m);
    law_days_are_counted_from_1970(k);
}

/// Each of the other features is drawn from its own field: the amounts, distances and
/// counts over what counts as 1, and the flags as they are, but for the merchant, whose
/// flag is set where it is not known.
pub proof fn law_features_are_drawn_from_their_fields(p: &Payload<'_>)
    ensures
        features(p).len() == 14,
        features(p)[0] matches Feature::Amount { text, over } && text@ == p.amount@ && over
            == 10_000,
        features(p)[1] matches Feature::Count { value, over } && value == p.installments && over
            == 12,
        features(p)[2] matches Feature::Ratio { text, base, over } && text@ == p.amount@ && base@
            == p.customer_avg_amount@ && over == 10,
        p.last_tx matches Some(last) ==> (features(p)[6] matches Feature::Amount { text, over }
            && text@ == last.km_from_current@ && over == 1000),
        p.last_tx is None ==> features(p)[6] is Absent,
        features(p)[7] matches Feature::Amount { text, over } && text@ == p.km_from_home@ && over
            == 1000,
        features(p)[8] matches Feature::Count { value, over } && value == p.tx_count_24h && over
            == 20,
        features(p)[9] matches Feature::Flag(set) && set == p.is_online,
        features(p)[10] matches Feature::Flag(set) && set == p.card_present,
        features(p)[11] matches Feature::Flag(set) && set != p.merchant_id_in_known,
        features(p)[13] matches Feature::Amount { text, over } && text@ == p.merchant_avg_amount@
            && over == 10_000,
{
}

/// The time of day adds up: of two points in time on the same date, the later one is
/// ahead by its hours, minutes and seconds, whatever numbers they are. The hour of the
/// service is cut off at 23, that of the yardstick is taken as it is.
#[verifier::rlimit(50)]
pub proof fn law_time_of_day_adds_up(s: Seq<u8>, t: Seq<u8>)
    requires
        s.len() >= 19,
        t.len() >= 19,
        s.take(10) == t.take(10),
    ensures
        two_digits(s, 11) <= 23 ==> hour_of(s) == two_digits(s, 11),
        two_digits(s, 11) > 23 ==> hour_of(s) == 23,
        epoch_of(t) - epoch_of(s) == 3600 * (hour_of(t) - hour_of(s)) + 60 * (two_digits(t, 14)
            - two_digits(s, 14)) + (two_digits(t, 17) - two_digits(s, 17)),
        seconds_of(t) - seconds_of(s) == 3600 * (two_digits(t, 11) - two_digits(s, 11)) + 60 * (
        two_digits(t, 14) - two_digits(s, 14)) + (two_digits(t, 17) - two_digits(s, 17)),
{
    assert forall|i: int| 0 <= i < 10 implies #[trigger] s[i] == t[i] by {
        assert(s.take(10)[i] == s[i]);
        assert(t.take(10)[i] == t[i]);
    }
    assert(s[0] == t[0] && s[1] == t[1] && s[2] == t[2] && s[3] == t[3]);
    assert(s[5] == t[5] && s[6] == t[6] && s[8] == t[8] && s[9] == t[9]);
}

/// The merchant categories whose risk is known, with the risk in hundredths.
pub open spec fn known_risks() -> Seq<(Seq<u8>, int)> {
    seq![
        (seq![0x34u8, 0x35, 0x31, 0x31], 35),
        (seq![0x35u8, 0x33, 0x31, 0x31], 25),
        (seq![0x35u8, 0x34, 0x31, 0x31], 15),
        (seq![0x35u8, 0x38, 0x31, 0x32], 30),
        (seq![0x35u8, 0x39, 0x31, 0x32], 20),
        (seq![0x35u8, 0x39, 0x34, 0x34], 45),
        (seq![0x37u8, 0x38, 0x30, 0x31], 80),
        (seq![0x37u8, 0x38, 0x30, 0x32], 75),
        (seq![0x37u8, 0x39, 0x39, 0x35], 85),
    ]
}

proof fn lemma_categories()
    ensures
        text("4511") == seq![0x34u8, 0x35, 0x31, 0x31],
        text("5311") == seq![0x35u8, 0x33, 0x31, 0x31],
        text("5411") == seq![0x35u8, 0x34, 0x31, 0x31],
        text("5812") == seq![0x35u8, 0x38, 0x31, 0x32],
        text("5912") == seq![0x35u8, 0x39, 0x31, 0x32],
        text("5944") == seq![0x35u8, 0x39, 0x34, 0x34],
        text("7801") == seq![0x37u8, 0x38, 0x30, 0x31],
        text("7802") == seq![0x37u8, 0x38, 0x30, 0x32],
        text("7995") == seq![0x37u8, 0x39, 0x39, 0x35],
{
    reveal_strlit("4511");
    reveal_strlit("5311");
    reveal_strlit("5411");
    reveal_strlit("5812");
    reveal_strlit("5912");
    reveal_strlit("5944");
    reveal_strlit("7801");
    reveal_strlit("7802");
    reveal_strlit("7995");
    assert("4511".is_ascii() && "5311".is_ascii() && "5411".is_ascii());
    assert("5812".is_ascii() && "5912".is_ascii() && "5944".is_ascii());
    assert("7801".is_ascii() && "7802".is_ascii() && "7995".is_ascii());
}

/// The risk of a merchant is that of its category, all four digits of it, and one half
/// where the category is not known.
#[verifier::rlimit(50)]
pub proof fn law_risk_goes_by_the_category(p: &Payload<'_>)
    ensures
        forall|i: int|
            0 <= i < known_risks().len() && (#[trigger] known_risks()[i]).0 == p.merchant_mcc@ ==> (
            features(p)[12] matches Feature::Hundredths(r) && r == known_risks()[i].1),
        (forall|i: int|
            0 <= i < known_risks().len() ==> (#[trigger] known_risks()[i]).0 != p.merchant_mcc@)
            ==> (features(p)[12] matches Feature::Hundredths(r) && r == 50),
{
    lemma_categories();
    let mcc = p.merchant_mcc@;
    let known = known_risks();
    assert(known.len() == 9);
    assert(known[0].0 != mcc ==> mcc != text("4511"));
    assert(known[1].0 != mcc ==> mcc != text("5311"));
    assert(known[2].0 != mcc ==> mcc != text("5411"));
    assert(known[3].0 != mcc ==> mcc != text("5812"));
    assert(known[4].0 != mcc ==> mcc != text("5912"));
    assert(known[5].0 != mcc ==> mcc != text("5944"));
    assert(known[6].0 != mcc ==> mcc != text("7801"));
    assert(known[7].0 != mcc ==> mcc != text("7802"));
    assert(known[8].0 != mcc ==> mcc != text("7995"));
    assert(features(p)[12] == Feature::Hundredths(risk_of(mcc) as u8));
    assert forall|i: int| 0 <= i < known.len() && (#[trigger] known[i]).0 == mcc implies risk_of(mcc)
        == known[i].1 by {
        let a = known[i].0;
        assert(a[0] == mcc[0] && a[1] == mcc[1] && a[2] == mcc[2] && a[3] == mcc[3]);
    }
}

/// The time term of the yardstick counts whole minutes from the transaction before to
/// this one: those in `k` where this one is `k` seconds later, and as many below zero
/// where it is `k` seconds earlier.
pub proof fn law_time_term_of_written_moments(f: &Facts<'_>, m: Moment, k: int)
    requires
        is_moment(m),
        0 <= k,
        later(m, k).year <= 9999,
        f.last_timestamp is Some,
    ensures
        says_moment(f.last_timestamp->0@, m) && says_moment(f.requested_at@, later(m, k)) ==> (
        terms_of(f)[5] matches Term::Count { value, over } && value == k / 60 && over == 1440),
        says_moment(f.requested_at@, m) && says_moment(f.last_timestamp->0@, later(m, k)) ==> (
        terms_of(f)[5] matches Term::Count { value, over } && value == -(k / 60) && over == 1440),
{
    let last = f.last_timestamp->0@;
    let at = f.requested_at@;
    if says_moment(last, m) && says_moment(at, later(m, k)) {
        law_seconds_between_moments(last, at, m, k);
        lemma_time_term(f, k);
    }
    if says_moment(at, m) && says_moment(last, later(m, k)) {
        law_seconds_between_moments(at, last, m, k);
        lemma_time_term(f, -k);
    }
}

#[verifier::spinoff_prover]
#[verifier::rlimit(50)]
proof fn lemma_time_term(f: &Facts<'_>, d: int)
    requires
        f.last_timestamp is Some,
        seconds_of(f.requested_at@) - seconds_of(f.last_timestamp->0@) == d,
    ensures
        terms_of(f)[5] matches Term::Count { value, over } && over == 1440 && value == if d >= 0 {
            d / 60
        } else {
            -((-d) / 60)
        },
{
    lemma_seconds_bound(f.requested_at@);
    lemma_seconds_bound(f.last_timestamp->0@);
    let v = minutes_from(f.requested_at@, f.last_timestamp->0@);
    assert(terms_of(f)[5] == (Term::Count { value: v as i64, over: 1440 }));
}

#[verifier::rlimit(50)]
proof fn lemma_seconds_bound(s: Seq<u8>)
    ensures
        -100_000_000_000_000 <= seconds_of(s) <= 100_000_000_000_000,
{
    let y = year_of(s);
    assert(-60_000 <= y <= 300_000);
    let m = two_digits(s, 5);
    let d = two_digits(s, 8);
    assert(-600 <= m <= 3000 && -600 <= d <= 3000);
    assert(-150_000_000 <= days_of(y, m, d) <= 150_000_000);
}

/// The yardstick and the service work out the same features of a transaction: each is
/// drawn from the same fact, over the same number. The times between two transactions
/// differ in their sign alone, where the hours are below 24.
#[verifier::rlimit(50)]
pub proof fn law_terms_agree_with_features(f: &Facts<'_>, p: &Payload<'_>)
    requires
        f.requested_at@ == p.requested_at@,
        f.last_timestamp is Some <==> p.last_tx is Some,
        f.last_timestamp is Some ==> f.last_timestamp->0@ == p.last_tx->0.timestamp@,
        f.is_online == p.is_online,
        f.card_present == p.card_present,
        f.merchant_known == p.merchant_id_in_known,
        f.mcc@ == p.merchant_mcc@,
        two_digits(f.requested_at@, 11) < 24,
        f.last_timestamp is Some ==> two_digits(f.last_timestamp->0@, 11) < 24,
    ensures
        terms_of(f).len() == 14,
        terms_of(f)[0] == (Term::Quotient { of: Field::Amount, over: 10_000 }),
        terms_of(f)[1] == (Term::Quotient { of: Field::Installments, over: 12 }),
        terms_of(f)[2] == (Term::Ratio {
            of: Field::Amount,
            base: Field::CustomerAverage,
            over: 10,
        }),
        forall|i: int|
            #![trigger terms_of(f)[i]]
            3 <= i <= 4 ==> (terms_of(f)[i] matches Term::Count { value, over } && features(p)[i] == (
            Feature::Count { value, over })),
        f.last_timestamp is Some ==> {
            &&& terms_of(f)[5] matches Term::Count { value, over }
            &&& (features(p)[5] == (Feature::Count { value, over }) || features(p)[5] == (
            Feature::Count { value: (-value) as i64, over }))
            &&& terms_of(f)[6] == (Term::Quotient { of: Field::KmFromLast, over: 1000 })
        },
        f.last_timestamp is None ==> terms_of(f)[5] is Absent && terms_of(f)[6] is Absent,
        terms_of(f)[7] == (Term::Quotient { of: Field::KmFromHome, over: 1000 }),
        terms_of(f)[8] == (Term::Quotient { of: Field::Transactions, over: 20 }),
        forall|i: int|
            #![trigger terms_of(f)[i]]
            9 <= i <= 11 ==> (terms_of(f)[i] matches Term::Flag(set) && features(p)[i]
                == Feature::Flag(set)),
        terms_of(f)[12] matches Term::Hundredths(r) && features(p)[12]
            == Feature::Hundredths(r),
        terms_of(f)[13] == (Term::Quotient { of: Field::MerchantAverage, over: 10_000 }),
{
    if f.last_timestamp is Some {
        lemma_seconds_bound(f.requested_at@);
        lemma_seconds_bound(f.last_timestamp->0@);
        assert(seconds_of(f.requested_at@) == epoch_of(f.requested_at@));
        assert(seconds_of(f.last_timestamp->0@) == epoch_of(f.last_timestamp->0@));
    }
}

/// Transactions whose moments are written down can be read, whichever of the two moments
/// is the later one.
pub proof fn law_written_moments_can_be_read(p: &Payload<'_>, f: &Facts<'_>, m: Moment, last: Moment)
    requires
        is_moment(m),
        is_moment(last),
        says_moment(p.requested_at@, m),
        p.last_tx is Some ==> says_moment(p.last_tx->0.timestamp@, last),
        says_moment(f.requested_at@, m),
        f.last_timestamp is Some ==> says_moment(f.last_timestamp->0@, last),
    ensures
        has_timestamps(p),
        f.well_formed(),
{
    law_written_moment_is_read(p.requested_at@, m);
    law_written_moment_is_read(f.requested_at@, m);
    if p.last_tx is Some {
        law_written_moment_is_read(p.last_tx->0.timestamp@, last);
    }
    if f.last_timestamp is Some {
        law_written_moment_is_read(f.last_timestamp->0@, last);
    }
}

} // verus!
