//! Why the search of the whole index finds the five nearest neighbours, though it
//! passes over the clusters whose box is too far away.

use vstd::prelude::*;

use crate::ivf::{lemma_sq_dist_bound, sq_dist, ClusterIndex};
use crate::knn::{
    all_real, at_most_five, held, insert_all, is_nearest_of, keeps, kept_ok, label_sum,
    lemma_insert_one_ok, lemma_keeps_all, lemma_keeps_insert, lemma_keeps_nearest_of,
    lemma_keeps_skip, nearest_count, nothing_kept, picked_sum, slot_holds, votes, Kept, Top5,
};
use crate::DIM;

verus! {

/// The position of the first vector of cluster `c` among all vectors.
pub open spec fn base(ds: &ClusterIndex, q: Seq<i16>, c: int) -> int {
    ds.items_below(q, c).len() as int
}

/// The positions of the vectors of the clusters for which `visited` holds.
pub open spec fn covered(ds: &ClusterIndex, q: Seq<i16>, visited: spec_fn(int) -> bool) -> Set<int> {
    Set::new(
        |g: int|
            exists|c: int|
                0 <= c < ds.k && visited(c) && #[trigger] base(ds, q, c) <= g < base(ds, q, c + 1),
    )
}

proof fn lemma_base_step(ds: &ClusterIndex, q: Seq<i16>, c: int)
    requires
        0 <= c,
    ensures
        base(ds, q, c + 1) == base(ds, q, c) + ds.cluster_items(q, c).len(),
        base(ds, q, c) <= base(ds, q, c + 1),
{
}

proof fn lemma_base_mono(ds: &ClusterIndex, q: Seq<i16>, a: int, b: int)
    requires
        0 <= a <= b,
    ensures
        base(ds, q, a) <= base(ds, q, b),
    decreases b - a,
{
    if a < b {
        lemma_base_mono(ds, q, a, b - 1);
        lemma_base_step(ds, q, b - 1);
    }
}

proof fn lemma_items_index(ds: &ClusterIndex, q: Seq<i16>, c: int, k: int, i: int)
    requires
        0 <= c < k,
        0 <= i < ds.cluster_items(q, c).len(),
    ensures
        base(ds, q, c) + i < base(ds, q, k),
        ds.items_below(q, k)[base(ds, q, c) + i] == ds.cluster_items(q, c)[i],
    decreases k - c,
{
    if c + 1 < k {
        lemma_items_index(ds, q, c, k - 1, i);
    }
}

/// The cluster that holds the vector at position `g`.
proof fn lemma_cluster_of(ds: &ClusterIndex, q: Seq<i16>, k: int, g: int) -> (c: int)
    requires
        0 <= k,
        0 <= g < base(ds, q, k),
    ensures
        0 <= c < k,
        base(ds, q, c) <= g < base(ds, q, c + 1),
    decreases k,
{
    if k <= 0 {
        assert(false);
        0
    } else if g < base(ds, q, k - 1) {
        lemma_cluster_of(ds, q, k - 1, g)
    } else {
        k - 1
    }
}

proof fn lemma_all_real(ds: &ClusterIndex, q: Seq<i16>, k: int)
    requires
        0 <= k,
    ensures
        all_real(ds.items_below(q, k)),
        forall|g: int|
            0 <= g < ds.items_below(q, k).len() ==> (#[trigger] ds.items_below(q, k)[g]).dist >= 0,
    decreases k,
{
    if k > 0 {
        lemma_all_real(ds, q, k - 1);
        let last = ds.cluster_items(q, k - 1);
        assert forall|i: int| 0 <= i < last.len() implies 0 <= (#[trigger] last[i]).dist < i64::MAX by {
            lemma_sq_dist_bound(q, ds.vector(ds.block_offsets[k - 1] as int, i), 14);
        }
    }
}

/// A run of unseen items, shown one after the other.
pub proof fn lemma_keeps_run(
    k: Kept,
    all: Seq<Top5>,
    seen: Set<int>,
    src: Seq<int>,
    at: int,
    items: Seq<Top5>,
) -> (r: Seq<int>)
    requires
        keeps(k, all, seen, src),
        all_real(all),
        0 <= at,
        at + items.len() <= all.len(),
        forall|i: int| 0 <= i < items.len() ==> #[trigger] items[i] == all[at + i],
        forall|g: int| at <= g < at + items.len() ==> !#[trigger] seen.contains(g),
    ensures
        keeps(
            insert_all(k, items),
            all,
            seen.union(Set::new(|g: int| at <= g < at + items.len())),
            r,
        ),
    decreases items.len(),
{
    let n = items.len() as int;
    if n == 0 {
        assert(seen.union(Set::new(|g: int| at <= g < at + n)) =~= seen);
        src
    } else {
        let part = items.drop_last();
        let r1 = lemma_keeps_run(k, all, seen, src, at, part);
        let seen1 = seen.union(Set::new(|g: int| at <= g < at + part.len()));
        let g = at + n - 1;
        assert(items[n - 1] == all[g]);
        let r2 = lemma_keeps_insert(insert_all(k, part), all, seen1, r1, g);
        assert(seen1.insert(g) =~= seen.union(Set::new(|g: int| at <= g < at + n)));
        r2
    }
}

proof fn lemma_scan_keeps(
    ds: &ClusterIndex,
    q: Seq<i16>,
    k: Kept,
    visited: spec_fn(int) -> bool,
    after: spec_fn(int) -> bool,
    src: Seq<int>,
    c: int,
) -> (r: Seq<int>)
    requires
        0 <= c < ds.k,
        !visited(c),
        forall|x: int| #[trigger] after(x) == (visited(x) || x == c),
        keeps(k, ds.all_items(q), covered(ds, q, visited), src),
    ensures
        keeps(
            insert_all(k, ds.cluster_items(q, c)),
            ds.all_items(q),
            covered(ds, q, after),
            r,
        ),
{
    let all = ds.all_items(q);
    let items = ds.cluster_items(q, c);
    let at = base(ds, q, c);
    let seen = covered(ds, q, visited);
    lemma_all_real(ds, q, ds.k as int);
    lemma_base_step(ds, q, c);
    lemma_base_mono(ds, q, c + 1, ds.k as int);
    assert forall|i: int| 0 <= i < items.len() implies #[trigger] items[i] == all[at + i] by {
        lemma_items_index(ds, q, c, ds.k as int, i);
    }
    assert forall|g: int| at <= g < at + items.len() implies !#[trigger] seen.contains(g) by {
        if seen.contains(g) {
            let x = choose|x: int|
                0 <= x < ds.k && visited(x) && #[trigger] base(ds, q, x) <= g < base(ds, q, x + 1);
            if x < c {
                lemma_base_mono(ds, q, x + 1, c);
            } else {
                lemma_base_mono(ds, q, c + 1, x);
            }
        }
    }
    let r = lemma_keeps_run(k, all, seen, src, at, items);
    lemma_covered_step(ds, q, visited, after, c);
    r
}

proof fn lemma_covered_step(
    ds: &ClusterIndex,
    q: Seq<i16>,
    visited: spec_fn(int) -> bool,
    after: spec_fn(int) -> bool,
    c: int,
)
    requires
        0 <= c < ds.k,
        forall|x: int| #[trigger] after(x) == (visited(x) || x == c),
    ensures
        covered(ds, q, after) == covered(ds, q, visited).union(
            Set::new(
                |g: int| base(ds, q, c) <= g < base(ds, q, c) + ds.cluster_items(q, c).len(),
            ),
        ),
{
    lemma_base_step(ds, q, c);
    let a = covered(ds, q, after);
    let b = covered(ds, q, visited).union(
        Set::new(|g: int| base(ds, q, c) <= g < base(ds, q, c) + ds.cluster_items(q, c).len()),
    );
    assert forall|g: int| a.contains(g) implies b.contains(g) by {
        let x = choose|x: int|
            0 <= x < ds.k && after(x) && #[trigger] base(ds, q, x) <= g < base(ds, q, x + 1);
        if x != c {
            assert(visited(x));
        }
    }
    assert forall|g: int| b.contains(g) implies a.contains(g) by {
        if covered(ds, q, visited).contains(g) {
            let x = choose|x: int|
                0 <= x < ds.k && visited(x) && #[trigger] base(ds, q, x) <= g < base(ds, q, x + 1);
            assert(after(x));
        } else {
            assert(after(c));
        }
    }
    assert(a =~= b);
}

proof fn lemma_box_below_dist(ds: &ClusterIndex, q: Seq<i16>, c: int, i: int, n: int)
    requires
        ds.boxes_enclose(),
        0 <= c < ds.k,
        0 <= i < ds.size(c),
        0 <= n <= DIM,
    ensures
        ds.box_dist(q, c, n) <= sq_dist(q, ds.vector(ds.block_offsets[c] as int, i), n),
    decreases n,
{
    if n > 0 {
        lemma_box_below_dist(ds, q, c, i, n - 1);
        let j = n - 1;
        let v = ds.vector(ds.block_offsets[c] as int, i);
        assert(ds.bbox_min[c * 14 + j] <= v[j] <= ds.bbox_max[c * 14 + j]);
        let gap = ds.box_gap(q[j], c, j);
        let d = q[j] - v[j];
        assert(gap * gap <= d * d) by (nonlinear_arith)
            requires
                0 <= gap,
                gap <= d || gap <= -d,
        ;
    }
}

/// Probing without an early stop sees exactly the vectors of the clusters probed.
proof fn lemma_probed_keeps(ds: &ClusterIndex, q: Seq<i16>, order: Seq<usize>, i: int) -> (src: Seq<int>)
    requires
        0 <= i <= order.len(),
        forall|t: int| 0 <= t < order.len() ==> (#[trigger] order[t]) < ds.k,
    ensures
        !ds.probed(q, order, Some(i64::MIN), i).done,
        keeps(
            ds.probed(q, order, Some(i64::MIN), i).kept,
            ds.all_items(q),
            covered(ds, q, |c: int| order.take(i).contains(c as usize)),
            src,
        ),
    decreases i,
{
    let limit = Some(i64::MIN);
    let all = ds.all_items(q);
    let visited = |c: int| order.take(i).contains(c as usize);
    if i <= 0 {
        let src = seq![-1int, -1, -1, -1, -1];
        assert(order.take(i).len() == 0);
        assert(covered(ds, q, visited) =~= Set::empty());
        let k = nothing_kept();
        assert(kept_ok(k));
        assert forall|s: int| 0 <= s < 5 implies #[trigger] slot_holds(k, all, Set::empty(), src, s) by {}
        src
    } else {
        let before = |c: int| order.take(i - 1).contains(c as usize);
        let src1 = lemma_probed_keeps(ds, q, order, i - 1);
        let p = ds.probed(q, order, limit, i - 1);
        let c = order[i - 1];
        assert forall|x: int| 0 <= x < ds.k implies #[trigger] visited(x) == (before(x) || x == c) by {
            if order.take(i - 1).contains(x as usize) {
                let t = order.take(i - 1).index_of(x as usize);
                assert(order.take(i)[t] == x as usize);
            }
            if x == c {
                assert(order.take(i)[i - 1] == x as usize);
            }
            if order.take(i).contains(x as usize) && x != c {
                let t = order.take(i).index_of(x as usize);
                assert(order.take(i - 1)[t] == x as usize);
            }
        }
        if order.take(i - 1).contains(c) {
            assert(before(c as int));
            assert(covered(ds, q, visited) =~= covered(ds, q, before)) by {
                lemma_covered_same(ds, q, visited, before);
            }
            src1
        } else {
            let after = |x: int| before(x) || x == c;
            let src2 = lemma_scan_keeps(ds, q, p.kept, before, after, src1, c as int);
            lemma_covered_same(ds, q, visited, after);
            let k = ds.probed(q, order, limit, i).kept;
            lemma_all_real(ds, q, ds.k as int);
            assert(slot_holds(k, all, covered(ds, q, after), src2, k.worst));
            src2
        }
    }
}

proof fn lemma_covered_same(
    ds: &ClusterIndex,
    q: Seq<i16>,
    a: spec_fn(int) -> bool,
    b: spec_fn(int) -> bool,
)
    requires
        forall|x: int| 0 <= x < ds.k ==> #[trigger] a(x) == b(x),
    ensures
        covered(ds, q, a) == covered(ds, q, b),
{
    assert forall|g: int| covered(ds, q, a).contains(g) == covered(ds, q, b).contains(g) by {
        if covered(ds, q, a).contains(g) {
            let x = choose|x: int|
                0 <= x < ds.k && a(x) && #[trigger] base(ds, q, x) <= g < base(ds, q, x + 1);
            assert(a(x) == b(x));
            assert(base(ds, q, x) <= g);
        }
        if covered(ds, q, b).contains(g) {
            let x = choose|x: int|
                0 <= x < ds.k && b(x) && #[trigger] base(ds, q, x) <= g < base(ds, q, x + 1);
            assert(a(x) == b(x));
            assert(base(ds, q, x) <= g);
        }
    }
    assert(covered(ds, q, a) =~= covered(ds, q, b));
}

/// Going through the rest of the clusters accounts for every vector of theirs.
proof fn lemma_swept_keeps(
    ds: &ClusterIndex,
    q: Seq<i16>,
    order: Seq<usize>,
    k0: Kept,
    src0: Seq<int>,
    c: int,
) -> (src: Seq<int>)
    requires
        0 <= c <= ds.k,
        ds.boxes_enclose(),
        keeps(
            k0,
            ds.all_items(q),
            covered(ds, q, |x: int| order.contains(x as usize)),
            src0,
        ),
    ensures
        keeps(
            ds.swept(q, order, k0, c),
            ds.all_items(q),
            covered(ds, q, |x: int| order.contains(x as usize) || x < c),
            src,
        ),
    decreases c,
{
    let all = ds.all_items(q);
    let now = |x: int| order.contains(x as usize) || x < c;
    if c <= 0 {
        let start = |x: int| order.contains(x as usize);
        lemma_covered_same(ds, q, start, now);
        src0
    } else {
        let before = |x: int| order.contains(x as usize) || x < c - 1;
        let src1 = lemma_swept_keeps(ds, q, order, k0, src0, c - 1);
        let k = ds.swept(q, order, k0, c - 1);
        if order.contains((c - 1) as usize) {
            lemma_covered_same(ds, q, before, now);
            src1
        } else if ds.box_dist(q, c - 1, 14) > k.top[k.worst].dist {
            let at = base(ds, q, c - 1);
            let items = ds.cluster_items(q, c - 1);
            let more = Set::new(|g: int| at <= g < at + items.len());
            lemma_all_real(ds, q, ds.k as int);
            assert forall|g: int| #[trigger] more.contains(g) implies 0 <= g < all.len() && k.top[k.worst].dist
                < all[g].dist by {
                let i = g - at;
                lemma_items_index(ds, q, c - 1, ds.k as int, i);
                lemma_box_below_dist(ds, q, c - 1, i, 14);
                lemma_sq_dist_bound(q, ds.vector(ds.block_offsets[c - 1] as int, i), 14);
            }
            lemma_keeps_skip(k, all, covered(ds, q, before), src1, more);
            let after = |x: int| before(x) || x == c - 1;
            lemma_covered_step(ds, q, before, after, c - 1);
            lemma_covered_same(ds, q, after, now);
            src1
        } else {
            let after = |x: int| before(x) || x == c - 1;
            let src2 = lemma_scan_keeps(ds, q, k, before, after, src1, c - 1);
            lemma_covered_same(ds, q, after, now);
            src2
        }
    }
}

/// Where the probes leave the verdict open, with two or three frauds found, a
/// fast search answers what the search of the whole index answers.
pub proof fn law_open_verdict_is_searched_exactly(
    ds: &ClusterIndex,
    q: Seq<i16>,
    order: Seq<usize>,
    limit: i64,
)
    requires
        2 <= label_sum(ds.probed(q, order, Some(limit), order.len() as int).kept.top, 5) <= 3,
    ensures
        ds.search_result(q, order, limit, true) == ds.search_result(q, order, limit, false),
{
}

/// The search of the whole index finds five nearest: without an early stop, its
/// answer is the number of frauds among five nearest of all reference vectors,
/// whichever clusters are probed first.
pub proof fn law_exact_search_finds_nearest(ds: &ClusterIndex, q: Seq<i16>, order: Seq<usize>)
    requires
        ds.well_formed(),
        ds.boxes_enclose(),
        forall|t: int| 0 <= t < order.len() ==> (#[trigger] order[t]) < ds.k,
    ensures
        nearest_count(ds.all_items(q), ds.search_result(q, order, i64::MIN, false)),
{
    let n = order.len() as int;
    let p = ds.probed(q, order, Some(i64::MIN), n);
    let src0 = lemma_probed_keeps(ds, q, order, n);
    assert(order.take(n) =~= order);
    let src = lemma_swept_keeps(ds, q, order, p.kept, src0, ds.k as int);
    let k = ds.swept(q, order, p.kept, ds.k as int);
    let now = |x: int| order.contains(x as usize) || x < ds.k;
    let seen = covered(ds, q, now);
    assert forall|g: int| 0 <= g < ds.all_items(q).len() implies #[trigger] seen.contains(g) by {
        let c = lemma_cluster_of(ds, q, ds.k as int, g);
        assert(now(c));
        assert(base(ds, q, c) <= g);
    }
    lemma_keeps_all(k, ds.all_items(q), seen, src);
}

/// The places of the vectors of the clusters in `order`, among all vectors.
pub open spec fn probed_places(ds: &ClusterIndex, q: Seq<i16>, order: Seq<usize>) -> Set<int> {
    covered(ds, q, |c: int| order.contains(c as usize))
}

proof fn lemma_probed_without_limit(ds: &ClusterIndex, q: Seq<i16>, order: Seq<usize>, i: int)
    requires
        0 <= i <= order.len(),
        forall|t: int| 0 <= t < order.len() ==> (#[trigger] order[t]) < ds.k,
    ensures
        ds.probed(q, order, None, i).kept == ds.probed(q, order, Some(i64::MIN), i).kept,
        !ds.probed(q, order, None, i).done,
        !ds.probed(q, order, Some(i64::MIN), i).done,
    decreases i,
{
    let src = lemma_probed_keeps(ds, q, order, i);
    if i > 0 {
        lemma_probed_without_limit(ds, q, order, i - 1);
    }
}

/// Probing clusters counts the frauds among five nearest of the vectors that these
/// clusters hold, in whatever order they are probed and however often one is named.
#[verifier::rlimit(50)]
pub proof fn law_probing_counts_nearest_of_probed(ds: &ClusterIndex, q: Seq<i16>, order: Seq<usize>)
    requires
        forall|t: int| 0 <= t < order.len() ==> (#[trigger] order[t]) < ds.k,
    ensures
        exists|sel: Set<int>|
            is_nearest_of(ds.all_items(q), probed_places(ds, q, order), sel) && votes(
                ds.probed(q, order, None, order.len() as int).kept,
            ) == at_most_five(
                #[trigger] picked_sum(ds.all_items(q), sel, ds.all_items(q).len() as int),
            ),
{
    let n = order.len() as int;
    let src = lemma_probed_keeps(ds, q, order, n);
    lemma_probed_without_limit(ds, q, order, n);
    let k = ds.probed(q, order, Some(i64::MIN), n).kept;
    assert(order.take(n) =~= order);
    let visited = |c: int| order.take(n).contains(c as usize);
    lemma_covered_same(ds, q, visited, |c: int| order.contains(c as usize));
    lemma_keeps_nearest_of(k, ds.all_items(q), probed_places(ds, q, order), src);
    assert(picked_sum(ds.all_items(q), held(src, 5), ds.all_items(q).len() as int) == label_sum(
        k.top,
        5,
    ));
}

/// A fast search takes the verdict of the probed clusters where it is clear, and looks at
/// the whole index where two or three frauds leave it open.
pub proof fn law_fast_search_looks_twice_where_needed(ds: &ClusterIndex, q: Seq<i16>, order: Seq<usize>)
    requires
        forall|t: int| 0 <= t < order.len() ==> (#[trigger] order[t]) < ds.k,
    ensures
        ({
            let found = label_sum(ds.probed(q, order, None, order.len() as int).kept.top, 5);
            let fast = ds.search_result(q, order, i64::MIN, true);
            &&& (found == 2 || found == 3) ==> fast == ds.search_result(q, order, i64::MIN, false)
            &&& !(found == 2 || found == 3) ==> fast == at_most_five(found)
        }),
{
    lemma_probed_without_limit(ds, q, order, order.len() as int);
}

proof fn lemma_insert_all_ok(k: Kept, items: Seq<Top5>)
    requires
        kept_ok(k),
    ensures
        kept_ok(insert_all(k, items)),
    decreases items.len(),
{
    if items.len() > 0 {
        lemma_insert_all_ok(k, items.drop_last());
        lemma_insert_one_ok(insert_all(k, items.drop_last()), items.last());
    }
}

/// A search stops early exactly where all five entries that it keeps are within the
/// distance that is set, and it answers with these. Without an early stop the answer is
/// the same for every search of the whole index.
#[verifier::rlimit(50)]
pub proof fn law_early_stop_is_within_its_distance(
    ds: &ClusterIndex,
    q: Seq<i16>,
    order: Seq<usize>,
    limit: i64,
    i: int,
)
    requires
        limit < i64::MAX,
    ensures
        ({
            let p = ds.probed(q, order, Some(limit), i);
            &&& kept_ok(p.kept)
            &&& p.done <==> forall|s: int| 0 <= s < 5 ==> (#[trigger] p.kept.top[s]).dist <= limit
        }),
        ds.probed(q, order, Some(limit), order.len() as int).done ==> ds.search_result(
            q,
            order,
            limit,
            false,
        ) == votes(ds.probed(q, order, Some(limit), order.len() as int).kept),
    decreases i,
{
    let p = ds.probed(q, order, Some(limit), i);
    if i <= 0 {
        assert(p.kept.top[0].dist == i64::MAX);
        assert(kept_ok(p.kept));
    } else {
        law_early_stop_is_within_its_distance(ds, q, order, limit, i - 1);
        let before = ds.probed(q, order, Some(limit), i - 1);
        if !(before.done || order.take(i - 1).contains(order[i - 1])) {
            lemma_insert_all_ok(before.kept, ds.cluster_items(q, order[i - 1] as int));
            assert(kept_ok(p.kept));
            let w = p.kept.worst;
            if p.done {
                assert forall|s: int| 0 <= s < 5 implies (#[trigger] p.kept.top[s]).dist <= limit by {
                    assert(!crate::knn::closer(p.kept.top[w], p.kept.top[s]));
                }
            } else {
                assert(p.kept.top[w].dist > limit);
            }
        }
    }
}

} // verus!
