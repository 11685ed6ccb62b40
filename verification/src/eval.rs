//! The yardstick for the search: every reference vector is looked at, and the
//! verdicts are held against those that are known.

use vstd::prelude::*;

use crate::exact::lemma_keeps_run;
use crate::ivf::{
    kept, lemma_sq_dist_bound, lemma_sq_dist_mono, sq_dist, try_insert_top5, ClusterIndex,
};
use crate::knn::{
    at_most_five, closer, distinct_ids, held, insert_all, is_nearest, keeps, kept_ok,
    law_nearest_count_unique, law_order_does_not_matter, lemma_held, lemma_keeps_all,
    nothing_kept, pairs_up, picked_sum, reordered, slot_holds, Kept, Top5,
};
use crate::vectorizer::{
    days_of, digits_at, has_digits_at, hour_of as hour_at, mcc_risk, risk_of, two_digits, weekday_of, year_of,
};
use crate::DIM;

verus! {

/// The fields of a point in time are there.
pub open spec fn has_fields(s: Seq<u8>) -> bool {
    &&& digits_at(s, 0, 4)
    &&& digits_at(s, 5, 2)
    &&& digits_at(s, 8, 2)
    &&& digits_at(s, 11, 2)
    &&& digits_at(s, 14, 2)
    &&& digits_at(s, 17, 2)
}

/// Whether the fields of a point in time are there.
pub fn readable_fields(s: &[u8]) -> (r: bool)
    ensures
        r == has_fields(s@),
{
    has_digits_at(s, 0, 4) && has_digits_at(s, 5, 2) && has_digits_at(s, 8, 2) && has_digits_at(
        s,
        11,
        2,
    ) && has_digits_at(s, 14, 2) && has_digits_at(s, 17, 2)
}

/// Seconds from 1970-01-01 to a point in time, with the hour as it is written.
pub open spec fn seconds_of(s: Seq<u8>) -> int {
    days_of(year_of(s), two_digits(s, 5), two_digits(s, 8)) * 86400 + two_digits(s, 11) * 3600
        + two_digits(s, 14) * 60 + two_digits(s, 17)
}

/// Whole minutes from `last` to `req`, negative where `req` is the earlier one.
pub open spec fn minutes_from(req: Seq<u8>, last: Seq<u8>) -> int {
    let d = seconds_of(req) - seconds_of(last);
    if d >= 0 {
        d / 60
    } else {
        -((-d) / 60)
    }
}

/// The two-digit number at `i`.
pub fn d2(s: &[u8], i: usize) -> (r: i64)
    requires
        digits_at(s@, i as int, 2),
    ensures
        r == two_digits(s@, i as int),
        0 <= r <= 2277,
{
    (s[i] - 0x30) as i64 * 10 + (s[i + 1] - 0x30) as i64
}

/// The four-digit number at the front.
pub fn iso_year(s: &[u8]) -> (r: i64)
    requires
        digits_at(s@, 0, 4),
    ensures
        r == year_of(s@),
        0 <= r <= 229977,
{
    (s[0] - 0x30) as i64 * 1000 + (s[1] - 0x30) as i64 * 100 + (s[2] - 0x30) as i64 * 10 + (s[3]
        - 0x30) as i64
}

/// Days from 1970-01-01 to the date of a timestamp.
#[verifier::rlimit(50)]
fn days_from_civil(y: i64, m: i64, d: i64) -> (r: i64)
    requires
        0 <= y <= 1_000_000,
        0 <= m <= 1_000_000,
        0 <= d <= 1_000_000,
    ensures
        r == days_of(y as int, m as int, d as int),
        -1_000_000_000 <= r <= 1_000_000_000,
{
    let y = y - if m <= 2 {
        1
    } else {
        0
    };
    let era = if y >= 0 {
        y / 400
    } else {
        -1
    };
    let yoe = y - era * 400;
    let mm = if m > 2 {
        m - 3
    } else {
        m + 9
    };
    let doy = (153 * mm + 2) / 5 + d - 1;
    let doe = yoe * 365 + yoe / 4 - yoe / 100 + doy;
    era * 146097 + doe - 719468
}

/// Seconds from 1970-01-01 to a timestamp.
#[verifier::rlimit(50)]
pub fn epoch_secs(s: &[u8]) -> (r: i64)
    requires
        has_fields(s@),
    ensures
        r == seconds_of(s@),
        -100_000_000_000_000 <= r <= 100_000_000_000_000,
{
    let y = iso_year(s);
    let mo = d2(s, 5);
    let da = d2(s, 8);
    let h = d2(s, 11);
    let mi = d2(s, 14);
    let se = d2(s, 17);
    days_from_civil(y, mo, da) * 86400 + h * 3600 + mi * 60 + se
}

/// The hour of a timestamp, at most 23.
pub fn hour_of(s: &[u8]) -> (r: i64)
    requires
        digits_at(s@, 11, 2),
    ensures
        r == hour_at(s@),
{
    let h = d2(s, 11);
    if h < 23 {
        h
    } else {
        23
    }
}

/// The day of the week of a timestamp, of which Monday is 0.
#[verifier::rlimit(50)]
pub fn weekday_mon0(s: &[u8]) -> (r: i64)
    requires
        digits_at(s@, 0, 4),
        digits_at(s@, 5, 2),
        digits_at(s@, 8, 2),
    ensures
        r == weekday_of(year_of(s@), two_digits(s@, 5), two_digits(s@, 8)),
{
    let days = days_from_civil(iso_year(s), d2(s, 5), d2(s, 8)) + 3;
    if days >= 0 {
        days % 7
    } else {
        6 - (-1 - days) % 7
    }
}

/// Whole minutes from `last` to `req`.
pub fn minutes_signed(req: &[u8], last: &[u8]) -> (r: i64)
    requires
        has_fields(req@),
        has_fields(last@),
    ensures
        r == minutes_from(req@, last@),
{
    let d = epoch_secs(req) - epoch_secs(last);
    if d >= 0 {
        d / 60
    } else {
        -((-d) / 60)
    }
}

/// Whether `id` is in the list.
pub fn known_contains(list: &Vec<String>, id: &String) -> (r: bool)
    ensures
        r == exists|i: int| 0 <= i < list@.len() && (#[trigger] list@[i])@ == id@,
{
    let mut i: usize = 0;
    while i < list.len()
        invariant
            i <= list@.len(),
            forall|j: int| 0 <= j < i ==> (#[trigger] list@[j])@ != id@,
        decreases list@.len() - i,
    {
        if list[i] == *id {
            return true;
        }
        i += 1;
    }
    false
}

/// A number of a transaction.
#[derive(Debug, Clone, Copy, PartialEq, Eq, Structural)]
pub enum Field {
    Amount,
    Installments,
    CustomerAverage,
    KmFromLast,
    KmFromHome,
    Transactions,
    MerchantAverage,
}

/// How one feature of a transaction is worked out. A quotient is cut off at 0 and
/// at 1.
#[derive(Debug, Clone, Copy, PartialEq, Eq, Structural)]
pub enum Term {
    /// `of`, divided by `over`.
    Quotient { of: Field, over: u32 },
    /// `of`, divided by `base` and by `over`. Where `base` is not above 0, it is 1.
    Ratio { of: Field, base: Field, over: u32 },
    /// `value`, divided by `over`.
    Count { value: i64, over: u32 },
    /// 1 where the flag is set, else 0.
    Flag(bool),
    /// A number of hundredths.
    Hundredths(u8),
    /// -1, in place of what is not known.
    Absent,
}

/// What is known of a transaction beside its numbers.
pub struct Facts<'a> {
    pub requested_at: &'a [u8],
    pub last_timestamp: Option<&'a [u8]>,
    pub is_online: bool,
    pub card_present: bool,
    pub merchant_known: bool,
    pub mcc: &'a [u8],
}

impl<'a> Facts<'a> {
    /// The points in time can be read.
    pub open spec fn well_formed(&self) -> bool {
        &&& has_fields(self.requested_at@)
        &&& self.last_timestamp matches Some(last) ==> has_fields(last@)
    }
}

/// Time since the last transaction.
pub open spec fn time_term(f: &Facts<'_>) -> Term {
    match f.last_timestamp {
        Some(last) => Term::Count {
            value: minutes_from(f.requested_at@, last@) as i64,
            over: 1440,
        },
        None => Term::Absent,
    }
}

/// Distance from the last transaction.
pub open spec fn distance_term(f: &Facts<'_>) -> Term {
    match f.last_timestamp {
        Some(_) => Term::Quotient { of: Field::KmFromLast, over: 1000 },
        None => Term::Absent,
    }
}

/// The features of a transaction.
pub open spec fn terms_of(f: &Facts<'_>) -> Seq<Term> {
    let at = f.requested_at@;
    seq![
        Term::Quotient { of: Field::Amount, over: 10_000 },
        Term::Quotient { of: Field::Installments, over: 12 },
        Term::Ratio { of: Field::Amount, base: Field::CustomerAverage, over: 10 },
        Term::Count { value: hour_at(at) as i64, over: 23 },
        Term::Count {
            value: weekday_of(year_of(at), two_digits(at, 5), two_digits(at, 8)) as i64,
            over: 6,
        },
        time_term(f),
        distance_term(f),
        Term::Quotient { of: Field::KmFromHome, over: 1000 },
        Term::Quotient { of: Field::Transactions, over: 20 },
        Term::Flag(f.is_online),
        Term::Flag(f.card_present),
        Term::Flag(!f.merchant_known),
        Term::Hundredths(risk_of(f.mcc@) as u8),
        Term::Quotient { of: Field::MerchantAverage, over: 10_000 },
    ]
}

/// Works out the features of a transaction.
#[verifier::rlimit(50)]
pub fn vector_terms(f: &Facts<'_>) -> (r: [Term; DIM])
    requires
        f.well_formed(),
    ensures
        r@ == terms_of(f),
{
    let hour = hour_of(f.requested_at);
    let weekday = weekday_mon0(f.requested_at);
    let (mins, km_last) = match f.last_timestamp {
        Some(last) => (
            Term::Count { value: minutes_signed(f.requested_at, last), over: 1440 },
            Term::Quotient { of: Field::KmFromLast, over: 1000 },
        ),
        None => (Term::Absent, Term::Absent),
    };
    let r = [
        Term::Quotient { of: Field::Amount, over: 10_000 },
        Term::Quotient { of: Field::Installments, over: 12 },
        Term::Ratio { of: Field::Amount, base: Field::CustomerAverage, over: 10 },
        Term::Count { value: hour, over: 23 },
        Term::Count { value: weekday, over: 6 },
        mins,
        km_last,
        Term::Quotient { of: Field::KmFromHome, over: 1000 },
        Term::Quotient { of: Field::Transactions, over: 20 },
        Term::Flag(f.is_online),
        Term::Flag(f.card_present),
        Term::Flag(!f.merchant_known),
        Term::Hundredths(mcc_risk(f.mcc)),
        Term::Quotient { of: Field::MerchantAverage, over: 10_000 },
    ];
    assert(r@ =~= terms_of(f));
    r
}

/// Reference vector `i` of those that lie one behind the other in `refs`.
pub open spec fn reference(refs: Seq<i16>, i: int) -> Seq<i16> {
    refs.subrange(14 * i, 14 * i + 14)
}

/// Reference vector `i`, as seen from the query `q`.
pub open spec fn oracle_item(q: Seq<i16>, refs: Seq<i16>, labels: Seq<u8>, i: int) -> Top5 {
    Top5 {
        dist: sq_dist(q, reference(refs, i), 14) as i64,
        label: labels[i],
        orig_id: i as u32,
    }
}

/// The first `n` reference vectors, as seen from the query `q`.
pub open spec fn oracle_items(q: Seq<i16>, refs: Seq<i16>, labels: Seq<u8>, n: int) -> Seq<Top5> {
    Seq::new(n as nat, |i: int| oracle_item(q, refs, labels, i))
}

/// Number of frauds among the first `n` kept entries.
pub open spec fn frauds(top: Seq<Top5>, n: int) -> int
    decreases n,
{
    if n <= 0 {
        0
    } else {
        frauds(top, n - 1) + if top[n - 1].label == 1 {
            1int
        } else {
            0
        }
    }
}

/// What is kept of all reference vectors.
pub open spec fn oracle_kept(q: Seq<i16>, refs: Seq<i16>, labels: Seq<u8>) -> Kept {
    insert_all(nothing_kept(), oracle_items(q, refs, labels, labels.len() as int))
}

/// The squared distance of a reference vector, or `None` as soon as it is found to
/// be above `worst_d`.
fn dist_up_to(q: &[i16; DIM], refs: &[i16], i: usize, worst_d: i64) -> (r: Option<i64>)
    requires
        14 * (i + 1) <= refs@.len(),
    ensures
        match r {
            Some(d) => d == sq_dist(q@, reference(refs@, i as int), 14),
            None => sq_dist(q@, reference(refs@, i as int), 14) > worst_d,
        },
{
    let total = refs.len();
    let base = i * 14;
    let mut d: i64 = 0;
    let mut j: usize = 0;
    while j < DIM
        invariant
            j <= 14,
            base == 14 * i,
            base + 14 <= total == refs@.len(),
            d == sq_dist(q@, reference(refs@, i as int), j as int),
        decreases 14 - j,
    {
        let diff = (q[j] as i32 - refs[base + j] as i32) as i64;
        proof {
            lemma_sq_dist_bound(q@, reference(refs@, i as int), j as int);
            lemma_sq_dist_bound(q@, reference(refs@, i as int), j + 1);
            assert(diff == q@[j as int] - reference(refs@, i as int)[j as int]);
            assert(0 <= diff * diff <= 4294836225) by (nonlinear_arith)
                requires
                    -65535 <= diff <= 65535,
            ;
        }
        d += diff * diff;
        j += 1;
        if d > worst_d {
            proof {
                lemma_sq_dist_mono(q@, reference(refs@, i as int), j as int, 14);
            }
            return None;
        }
    }
    Some(d)
}

/// Counts the frauds among the five nearest reference vectors by looking at all of
/// them. Of two at the same distance the one with the lower number is nearer.
pub fn exact_fraud_count(q: &[i16; DIM], refs: &[i16], labels: &[u8]) -> (r: u8)
    requires
        refs@.len() >= 14 * labels@.len(),
        labels@.len() <= u32::MAX,
    ensures
        r == frauds(oracle_kept(q@, refs@, labels@).top, 5),
{
    let sentinel_entry = Top5 { dist: i64::MAX, label: 0, orig_id: u32::MAX };
    let mut top = [sentinel_entry; 5];
    let mut worst: usize = 0;
    let n = labels.len();
    proof {
        assert(kept(top@, worst) =~= nothing_kept());
        assert(oracle_items(q@, refs@, labels@, 0) =~= Seq::empty());
    }
    let mut i: usize = 0;
    while i < n
        invariant
            i <= n == labels@.len(),
            refs@.len() >= 14 * n,
            n <= u32::MAX,
            kept_ok(kept(top@, worst)),
            kept(top@, worst) == insert_all(
                nothing_kept(),
                oracle_items(q@, refs@, labels@, i as int),
            ),
        decreases n - i,
    {
        let ghost item = oracle_item(q@, refs@, labels@, i as int);
        let ghost k = kept(top@, worst);
        proof {
            let now = oracle_items(q@, refs@, labels@, i + 1);
            assert(now.drop_last() =~= oracle_items(q@, refs@, labels@, i as int));
            assert(now.last() == item);
            lemma_sq_dist_bound(q@, reference(refs@, i as int), 14);
        }
        match dist_up_to(q, refs, i, top[worst].dist) {
            Some(d) => {
                try_insert_top5(&mut top, &mut worst, d, labels[i], i as u32);
            },
            None => {
                assert(!closer(item, k.top[k.worst]));
            },
        }
        i += 1;
    }
    let mut count: u8 = 0;
    let mut t: usize = 0;
    while t < 5
        invariant
            t <= 5,
            count <= t,
            count == frauds(top@, t as int),
        decreases 5 - t,
    {
        if top[t].label == 1 {
            count += 1;
        }
        t += 1;
    }
    count
}

/// Labels tell frauds from the rest.
pub open spec fn are_labels(labels: Seq<u8>) -> bool {
    forall|i: int| 0 <= i < labels.len() ==> (#[trigger] labels[i]) <= 1
}

/// Number of frauds among the picked ones of the first `n` items.
pub open spec fn picked_frauds(items: Seq<Top5>, sel: Set<int>, n: int) -> int
    decreases n,
{
    if n <= 0 {
        0
    } else {
        picked_frauds(items, sel, n - 1) + if sel.contains(n - 1) && items[n - 1].label == 1 {
            1int
        } else {
            0
        }
    }
}

/// `count` is the number of frauds among five nearest of `items`.
pub open spec fn nearest_frauds(items: Seq<Top5>, count: int) -> bool {
    exists|sel: Set<int>|
        is_nearest(items, sel) && count == #[trigger] picked_frauds(items, sel, items.len() as int)
}

proof fn lemma_picked_frauds_empty(items: Seq<Top5>, n: int)
    ensures
        picked_frauds(items, Set::empty(), n) == 0,
    decreases n,
{
    if n > 0 {
        lemma_picked_frauds_empty(items, n - 1);
    }
}

proof fn lemma_picked_frauds_insert(items: Seq<Top5>, sel: Set<int>, x: int, n: int)
    requires
        !sel.contains(x),
        0 <= x,
    ensures
        picked_frauds(items, sel.insert(x), n) == picked_frauds(items, sel, n) + if x < n
            && items[x].label == 1 {
            1int
        } else {
            0
        },
    decreases n,
{
    if n > 0 {
        lemma_picked_frauds_insert(items, sel, x, n - 1);
    }
}

proof fn lemma_held_frauds(k: Kept, items: Seq<Top5>, seen: Set<int>, src: Seq<int>, n: int)
    requires
        keeps(k, items, seen, src),
        0 <= n <= 5,
    ensures
        picked_frauds(items, held(src, n), items.len() as int) == frauds(k.top, n),
        0 <= frauds(k.top, n) <= n,
    decreases n,
{
    if n <= 0 {
        lemma_picked_frauds_empty(items, items.len() as int);
    } else {
        lemma_held_frauds(k, items, seen, src, n - 1);
        lemma_held(k, items, seen, src, n - 1);
        assert(slot_holds(k, items, seen, src, n - 1));
        let x = src[n - 1];
        if x >= 0 {
            assert(!held(src, n - 1).contains(x));
            lemma_picked_frauds_insert(items, held(src, n - 1), x, items.len() as int);
        }
    }
}

/// Looking at all reference vectors finds the five nearest: it counts those of them
/// that are labelled as frauds.
pub proof fn law_oracle_finds_nearest(q: Seq<i16>, refs: Seq<i16>, labels: Seq<u8>)
    ensures
        nearest_frauds(
            oracle_items(q, refs, labels, labels.len() as int),
            frauds(oracle_kept(q, refs, labels).top, 5),
        ),
        0 <= frauds(oracle_kept(q, refs, labels).top, 5) <= 5,
{
    let all = oracle_items(q, refs, labels, labels.len() as int);
    let k0 = nothing_kept();
    let src0 = seq![-1int, -1, -1, -1, -1];
    assert forall|i: int| 0 <= i < all.len() implies (#[trigger] all[i]).dist < i64::MAX by {
        lemma_sq_dist_bound(q, reference(refs, i), 14);
    }
    assert forall|s: int| 0 <= s < 5 implies #[trigger] slot_holds(k0, all, Set::empty(), src0, s) by {}
    let src = lemma_keeps_run(k0, all, Set::empty(), src0, 0, all);
    let seen = Set::<int>::empty().union(Set::new(|g: int| 0 <= g < 0 + all.len()));
    let k = oracle_kept(q, refs, labels);
    lemma_keeps_all(k, all, seen, src);
    lemma_held_frauds(k, all, seen, src, 5);
}

proof fn lemma_labels_count_frauds(items: Seq<Top5>, sel: Set<int>, n: int)
    requires
        n <= items.len(),
        forall|i: int| 0 <= i < items.len() ==> (#[trigger] items[i]).label <= 1,
    ensures
        picked_frauds(items, sel, n) == picked_sum(items, sel, n),
    decreases n,
{
    if n > 0 {
        lemma_labels_count_frauds(items, sel, n - 1);
        assert(items[n - 1].label <= 1);
    }
}

/// The thorough search of the index answers what looking at all reference vectors
/// answers, where the index holds the same vectors, labels and numbers in any order:
/// `place` gives for each position in the index the number of the reference, and
/// `found` for each reference its position.
pub proof fn law_exact_search_agrees_with_oracle(
    ds: &ClusterIndex,
    q: Seq<i16>,
    order: Seq<usize>,
    refs: Seq<i16>,
    labels: Seq<u8>,
    place: Seq<int>,
    found: Seq<int>,
)
    requires
        ds.well_formed(),
        ds.boxes_enclose(),
        forall|t: int| 0 <= t < order.len() ==> (#[trigger] order[t]) < ds.k,
        are_labels(labels),
        labels.len() <= u32::MAX,
        pairs_up(place, found, labels.len() as int),
        reordered(
            ds.all_items(q),
            oracle_items(q, refs, labels, labels.len() as int),
            place,
        ),
    ensures
        ds.search_result(q, order, i64::MIN, false) == frauds(oracle_kept(q, refs, labels).top, 5),
{
    let all = oracle_items(q, refs, labels, labels.len() as int);
    let a = ds.search_result(q, order, i64::MIN, false);
    let b = frauds(oracle_kept(q, refs, labels).top, 5);
    crate::exact::law_exact_search_finds_nearest(ds, q, order);
    law_order_does_not_matter(ds.all_items(q), all, place, found, a);
    law_oracle_finds_nearest(q, refs, labels);
    let n = all.len() as int;
    let sel = choose|sel: Set<int>|
        is_nearest(all, sel) && b == #[trigger] picked_frauds(all, sel, n);
    lemma_labels_count_frauds(all, sel, n);
    assert(b == at_most_five(picked_sum(all, sel, n)));
    assert(distinct_ids(all));
    law_nearest_count_unique(all, a, b);
}

/// How the verdicts compare with those that are known.
#[derive(Debug, Clone, Copy, PartialEq, Eq, Structural)]
pub struct Tally {
    /// Turned down, though it should have been approved.
    pub false_positives: usize,
    /// Approved, though it should have been turned down.
    pub false_negatives: usize,
    /// Cases on the edge between the verdicts.
    pub edge_total: usize,
    /// Cases on the edge that were got wrong.
    pub edge_wrong: usize,
}

/// A verdict, the verdict that is known, and whether the case is on the edge.
pub type Outcome = (bool, bool, bool);

/// Number of outcomes that `wanted` holds of.
pub open spec fn how_many(r: Seq<Outcome>, wanted: spec_fn(Outcome) -> bool) -> int
    decreases r.len(),
{
    if r.len() == 0 {
        0
    } else {
        how_many(r.drop_last(), wanted) + if wanted(r.last()) {
            1int
        } else {
            0
        }
    }
}

/// Holds the verdicts against those that are known.
pub fn tally(results: &[Outcome]) -> (r: Tally)
    ensures
        r.false_positives == how_many(results@, |o: Outcome| !o.0 && o.1),
        r.false_negatives == how_many(results@, |o: Outcome| o.0 && !o.1),
        r.edge_total == how_many(results@, |o: Outcome| o.2),
        r.edge_wrong == how_many(results@, |o: Outcome| o.2 && o.0 != o.1),
{
    let ghost is_fp = |o: Outcome| !o.0 && o.1;
    let ghost is_fn = |o: Outcome| o.0 && !o.1;
    let ghost is_edge = |o: Outcome| o.2;
    let ghost is_wrong = |o: Outcome| o.2 && o.0 != o.1;
    let mut t = Tally { false_positives: 0, false_negatives: 0, edge_total: 0, edge_wrong: 0 };
    let mut i: usize = 0;
    while i < results.len()
        invariant
            i <= results@.len(),
            is_fp == (|o: Outcome| !o.0 && o.1),
            is_fn == (|o: Outcome| o.0 && !o.1),
            is_edge == (|o: Outcome| o.2),
            is_wrong == (|o: Outcome| o.2 && o.0 != o.1),
            t.false_positives <= i,
            t.false_negatives <= i,
            t.edge_total <= i,
            t.edge_wrong <= i,
            t.false_positives == how_many(results@.take(i as int), is_fp),
            t.false_negatives == how_many(results@.take(i as int), is_fn),
            t.edge_total == how_many(results@.take(i as int), is_edge),
            t.edge_wrong == how_many(results@.take(i as int), is_wrong),
        decreases results@.len() - i,
    {
        assert(results@.take(i + 1).drop_last() =~= results@.take(i as int));
        let (approved, expected, edge) = results[i];
        if edge {
            t.edge_total += 1;
        }
        if approved != expected {
            if edge {
                t.edge_wrong += 1;
            }
            if expected {
                t.false_positives += 1;
            } else {
                t.false_negatives += 1;
            }
        }
        i += 1;
    }
    assert(results@.take(i as int) =~= results@);
    t
}

/// The weight of the errors: a fraud that was approved counts three times.
pub fn weighted_errors(t: &Tally) -> (r: usize)
    requires
        t.false_positives + 3 * t.false_negatives <= usize::MAX,
    ensures
        r == t.false_positives + 3 * t.false_negatives,
{
    t.false_positives + 3 * t.false_negatives
}

/// The yardstick counts the frauds among those picked, whatever the other labels are.
pub proof fn law_picked_frauds_are_counted_once(items: Seq<Top5>, sel: Set<int>, n: int)
    requires
        0 <= n <= items.len(),
    ensures
        Set::new(|i: int| 0 <= i < n && sel.contains(i) && items[i].label == 1).finite(),
        picked_frauds(items, sel, n) == Set::new(
            |i: int| 0 <= i < n && sel.contains(i) && items[i].label == 1,
        ).len(),
    decreases n,
{
    let s = Set::new(|i: int| 0 <= i < n && sel.contains(i) && items[i].label == 1);
    if n > 0 {
        law_picked_frauds_are_counted_once(items, sel, n - 1);
        let less = Set::new(|i: int| 0 <= i < n - 1 && sel.contains(i) && items[i].label == 1);
        if sel.contains(n - 1) && items[n - 1].label == 1 {
            assert(s =~= less.insert(n - 1));
        } else {
            assert(s =~= less);
        }
    } else {
        assert(s =~= Set::empty());
    }
}

/// Outcomes are counted once each.
pub proof fn law_outcomes_are_counted_once(r: Seq<Outcome>, wanted: spec_fn(Outcome) -> bool)
    ensures
        Set::new(|i: int| 0 <= i < r.len() && wanted(r[i])).finite(),
        how_many(r, wanted) == Set::new(|i: int| 0 <= i < r.len() && wanted(r[i])).len(),
    decreases r.len(),
{
    let s = Set::new(|i: int| 0 <= i < r.len() && wanted(r[i]));
    if r.len() > 0 {
        let part = r.drop_last();
        let n = part.len() as int;
        law_outcomes_are_counted_once(part, wanted);
        let less = Set::new(|i: int| 0 <= i < part.len() && wanted(part[i]));
        assert(r.last() == r[n]);
        if wanted(r.last()) {
            assert(s =~= less.insert(n));
        } else {
            assert(s =~= less);
        }
    } else {
        assert(s =~= Set::empty());
    }
}

} // verus!
