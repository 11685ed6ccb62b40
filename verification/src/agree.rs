//! Why a search of the built index answers what looking at all reference vectors
//! answers.
//!
//! The two break ties in different ways: the index goes by the places where it keeps
//! the vectors, and looking at all of them goes by their numbers. They agree where
//! this does not matter for the vote.

use vstd::prelude::*;

use crate::clusters::is_clustered;
use crate::complete::{
    are_references, is_reference, law_thorough_search_counts_nearest_references,
};
use crate::dataset::{Dataset, STORE_DIM};
use crate::eval::{
    are_labels, frauds, law_oracle_finds_nearest, oracle_items, oracle_kept, picked_frauds,
    reference,
};
use crate::ivf::{lemma_sq_dist_bound, sq_dist, ClusterIndex};
use crate::knn::{
    at_most_five, closer, is_nearest, law_order_does_not_matter, nearest_count, pairs_up,
    picked_sum, reordered, Top5,
};
use crate::write::is_index_file;

verus! {

/// The squared distance from `q` to reference vector `i`.
pub open spec fn ref_dist(q: Seq<i16>, vs: Seq<[i16; STORE_DIM]>, i: int) -> int {
    sq_dist(q, vs[i]@.take(14), 14)
}

/// `refs` holds the features of the reference vectors, one vector behind the other.
pub open spec fn lie_in(vs: Seq<[i16; STORE_DIM]>, refs: Seq<i16>) -> bool {
    forall|i: int| 0 <= i < vs.len() ==> #[trigger] reference(refs, i) == vs[i]@.take(14)
}

/// `sel` are five of the first `n` numbers, or all of them where there are fewer.
pub open spec fn picks_five(sel: Set<int>, n: int) -> bool {
    &&& sel.finite()
    &&& sel.len() == at_most_five(n)
    &&& forall|i: int| #[trigger] sel.contains(i) ==> 0 <= i < n
}

/// `sel` are five nearest of the reference vectors: none that is left out is nearer
/// than one of them.
pub open spec fn five_nearest(q: Seq<i16>, vs: Seq<[i16; STORE_DIM]>, sel: Set<int>) -> bool {
    &&& picks_five(sel, vs.len() as int)
    &&& forall|i: int, j: int|
        #![trigger sel.contains(i), sel.contains(j)]
        sel.contains(i) && 0 <= j < vs.len() && !sel.contains(j) ==> ref_dist(q, vs, i)
            <= ref_dist(q, vs, j)
}

/// Number of frauds among those of the first `n` reference vectors that `sel` holds.
pub open spec fn frauds_in(ls: Seq<u8>, sel: Set<int>, n: int) -> int
    decreases n,
{
    if n <= 0 {
        0
    } else {
        frauds_in(ls, sel, n - 1) + if sel.contains(n - 1) && ls[n - 1] == 1 {
            1int
        } else {
            0
        }
    }
}

/// The vote does not depend on how ties are broken: any five nearest of the reference
/// vectors have the same number of frauds among them.
pub open spec fn vote_is_settled(q: Seq<i16>, vs: Seq<[i16; STORE_DIM]>, ls: Seq<u8>) -> bool {
    forall|a: Set<int>, b: Set<int>|
        #![trigger five_nearest(q, vs, a), five_nearest(q, vs, b)]
        five_nearest(q, vs, a) && five_nearest(q, vs, b) ==> frauds_in(ls, a, ls.len() as int)
            == frauds_in(ls, b, ls.len() as int)
}

/// Five of the reference vectors are strictly nearer than all the others.
pub open spec fn strictly_nearest(q: Seq<i16>, vs: Seq<[i16; STORE_DIM]>, sel: Set<int>) -> bool {
    &&& picks_five(sel, vs.len() as int)
    &&& forall|i: int, j: int|
        #![trigger sel.contains(i), sel.contains(j)]
        sel.contains(i) && 0 <= j < vs.len() && !sel.contains(j) ==> ref_dist(q, vs, i)
            < ref_dist(q, vs, j)
}

/// There are no more than five reference vectors, or the fifth smallest distance is
/// below the sixth: five of them are strictly nearer than all the others.
pub open spec fn no_tie_at_the_edge(q: Seq<i16>, vs: Seq<[i16; STORE_DIM]>) -> bool {
    vs.len() <= 5 || exists|sel: Set<int>| strictly_nearest(q, vs, sel)
}

proof fn lemma_same_pick(a: Set<int>, b: Set<int>, n: int)
    requires
        picks_five(a, n),
        picks_five(b, n),
        a.subset_of(b),
    ensures
        a == b,
{
    if !b.subset_of(a) {
        let x = choose|x: int| b.contains(x) && !a.contains(x);
        assert(a.subset_of(b.remove(x)));
        vstd::set_lib::lemma_len_subset(a, b.remove(x));
    }
    assert(a =~= b);
}

proof fn lemma_only_pick(q: Seq<i16>, vs: Seq<[i16; STORE_DIM]>, sel: Set<int>, a: Set<int>)
    requires
        strictly_nearest(q, vs, sel),
        five_nearest(q, vs, a),
    ensures
        a == sel,
{
    if !a.subset_of(sel) {
        let x = choose|x: int| a.contains(x) && !sel.contains(x);
        if sel.subset_of(a) {
            lemma_same_pick(sel, a, vs.len() as int);
        }
        let y = choose|y: int| sel.contains(y) && !a.contains(y);
        assert(ref_dist(q, vs, x) <= ref_dist(q, vs, y));
        assert(ref_dist(q, vs, y) < ref_dist(q, vs, x));
    }
    lemma_same_pick(a, sel, vs.len() as int);
}

/// Where no tie lies at the edge of the five nearest, the vote is settled.
pub proof fn law_vote_is_settled_without_a_tie(
    q: Seq<i16>,
    vs: Seq<[i16; STORE_DIM]>,
    ls: Seq<u8>,
)
    requires
        no_tie_at_the_edge(q, vs),
    ensures
        vote_is_settled(q, vs, ls),
{
    let n = vs.len() as int;
    let sel = if vs.len() <= 5 {
        vstd::set_lib::set_int_range(0, n)
    } else {
        choose|sel: Set<int>| strictly_nearest(q, vs, sel)
    };
    vstd::set_lib::lemma_int_range(0, n);
    assert(strictly_nearest(q, vs, sel));
    assert forall|a: Set<int>, b: Set<int>|
        #![trigger five_nearest(q, vs, a), five_nearest(q, vs, b)]
        five_nearest(q, vs, a) && five_nearest(q, vs, b) implies frauds_in(ls, a, ls.len() as int)
        == frauds_in(ls, b, ls.len() as int) by {
        lemma_only_pick(q, vs, sel, a);
        lemma_only_pick(q, vs, sel, b);
    }
}

/// The items are those of the reference vectors, in their order, but for the numbers.
spec fn are_all(
    items: Seq<Top5>,
    q: Seq<i16>,
    vs: Seq<[i16; STORE_DIM]>,
    ls: Seq<u8>,
) -> bool {
    &&& items.len() == vs.len() == ls.len()
    &&& forall|i: int| 0 <= i < items.len() ==> is_reference(#[trigger] items[i], q, vs, ls, i)
}

/// Five nearest of the items are five nearest of the reference vectors.
proof fn lemma_nearest_items(
    items: Seq<Top5>,
    q: Seq<i16>,
    vs: Seq<[i16; STORE_DIM]>,
    ls: Seq<u8>,
    sel: Set<int>,
)
    requires
        are_all(items, q, vs, ls),
        is_nearest(items, sel),
    ensures
        five_nearest(q, vs, sel),
{
    assert forall|i: int, j: int|
        #![trigger sel.contains(i), sel.contains(j)]
        sel.contains(i) && 0 <= j < vs.len() && !sel.contains(j) implies ref_dist(q, vs, i)
        <= ref_dist(q, vs, j) by {
        assert(!closer(items[j], items[i]));
        assert(is_reference(items[i], q, vs, ls, i));
        assert(is_reference(items[j], q, vs, ls, j));
        lemma_sq_dist_bound(q, vs[i]@.take(14), 14);
        lemma_sq_dist_bound(q, vs[j]@.take(14), 14);
    }
}

proof fn lemma_frauds_in_items(
    items: Seq<Top5>,
    q: Seq<i16>,
    vs: Seq<[i16; STORE_DIM]>,
    ls: Seq<u8>,
    sel: Set<int>,
    n: int,
)
    requires
        are_all(items, q, vs, ls),
        n <= items.len(),
    ensures
        picked_frauds(items, sel, n) == frauds_in(ls, sel, n),
        are_labels(ls) ==> picked_sum(items, sel, n) == frauds_in(ls, sel, n),
    decreases n,
{
    if n > 0 {
        lemma_frauds_in_items(items, q, vs, ls, sel, n - 1);
        assert(is_reference(items[n - 1], q, vs, ls, n - 1));
    }
}

/// The answer of looking at all reference vectors, as five nearest of them.
proof fn lemma_oracle_pick(
    q: Seq<i16>,
    vs: Seq<[i16; STORE_DIM]>,
    ls: Seq<u8>,
    refs: Seq<i16>,
) -> (sel: Set<int>)
    requires
        ls.len() == vs.len(),
        lie_in(vs, refs),
    ensures
        five_nearest(q, vs, sel),
        frauds_in(ls, sel, ls.len() as int) == frauds(oracle_kept(q, refs, ls).top, 5),
        0 <= frauds_in(ls, sel, ls.len() as int) <= 5,
{
    let n = ls.len() as int;
    let items = oracle_items(q, refs, ls, n);
    let count = frauds(oracle_kept(q, refs, ls).top, 5);
    law_oracle_finds_nearest(q, refs, ls);
    let sel = choose|sel: Set<int>|
        is_nearest(items, sel) && count == #[trigger] picked_frauds(items, sel, n);
    assert forall|i: int| 0 <= i < items.len() implies is_reference(#[trigger] items[i], q, vs, ls, i) by {
        assert(reference(refs, i) == vs[i]@.take(14));
    }
    lemma_nearest_items(items, q, vs, ls, sel);
    lemma_frauds_in_items(items, q, vs, ls, sel, n);
    sel
}

/// A count of the frauds among five nearest of the items of a search, as five nearest
/// of the reference vectors.
proof fn lemma_search_pick(
    items: Seq<Top5>,
    q: Seq<i16>,
    vs: Seq<[i16; STORE_DIM]>,
    ls: Seq<u8>,
    placed: Seq<usize>,
    count: int,
) -> (sel: Set<int>)
    requires
        vs.len() <= usize::MAX,
        ls.len() == vs.len(),
        are_labels(ls),
        are_references(items, q, vs, ls, placed),
        forall|i: int| 0 <= i < vs.len() ==> #[trigger] placed.contains(i as usize),
        nearest_count(items, count),
    ensures
        five_nearest(q, vs, sel),
        count == at_most_five(frauds_in(ls, sel, ls.len() as int)),
{
    let n = vs.len() as int;
    let place = Seq::new(placed.len(), |g: int| placed[g] as int);
    let found = Seq::new(vs.len(), |i: int| placed.index_of(i as usize));
    assert(place.no_duplicates());
    place.unique_seq_to_set();
    vstd::set_lib::lemma_int_range(0, n);
    assert forall|i: int| place.to_set().contains(i) == (0 <= i < n) by {
        if 0 <= i < n {
            assert(placed.contains(i as usize));
            assert(place[placed.index_of(i as usize)] == i);
        }
        if place.contains(i) {
            let g = place.index_of(i);
            assert(placed[g] < vs.len());
        }
    }
    assert(place.to_set() =~= vstd::set_lib::set_int_range(0, n));
    assert(placed.len() == n);
    assert forall|g: int| 0 <= g < n implies 0 <= #[trigger] place[g] < n && found[place[g]] == g by {
        assert(placed[g] < vs.len());
        assert(placed.contains(placed[g]));
    }
    assert forall|i: int| 0 <= i < n implies 0 <= #[trigger] found[i] < n && place[found[i]] == i by {
        assert(placed.contains(i as usize));
    }
    assert(pairs_up(place, found, n));
    let sorted = Seq::new(vs.len(), |i: int| items[found[i]]);
    assert(reordered(items, sorted, place)) by {
        assert forall|g: int| 0 <= g < items.len() implies #[trigger] items[g] == sorted[place[g]] by {
            assert(found[place[g]] == g);
        }
    }
    law_order_does_not_matter(items, sorted, place, found, count);
    assert forall|i: int| 0 <= i < sorted.len() implies is_reference(
        #[trigger] sorted[i],
        q,
        vs,
        ls,
        i,
    ) by {
        let g = found[i];
        assert(place[g] == i);
        assert(is_reference(items[g], q, vs, ls, placed[g] as int));
    }
    let sel = choose|sel: Set<int>|
        is_nearest(sorted, sel) && count == at_most_five(#[trigger] picked_sum(sorted, sel, n));
    lemma_nearest_items(sorted, q, vs, ls, sel);
    lemma_frauds_in_items(sorted, q, vs, ls, sel, n);
    sel
}

/// The built index answers what looking at all reference vectors answers: an index
/// loaded from the file of the reference vectors gives, in a thorough search, the count
/// of frauds that looking at all of them gives, wherever the vote does not depend on
/// how ties are broken.
pub proof fn law_built_index_agrees_with_oracle(
    vs: Seq<[i16; STORE_DIM]>,
    ls: Seq<u8>,
    leaf: int,
    file: Seq<u8>,
    ds: &Dataset,
    idx: &ClusterIndex,
    q: Seq<i16>,
    order: Seq<usize>,
    refs: Seq<i16>,
)
    requires
        is_index_file(vs, ls, leaf, file),
        0 < vs.len() <= usize::MAX,
        ls.len() == vs.len(),
        are_labels(ls),
        ds.well_formed(),
        ds.is_file(file),
        is_clustered(ds, idx),
        forall|t: int| 0 <= t < order.len() ==> (#[trigger] order[t]) < idx.k,
        lie_in(vs, refs),
        vote_is_settled(q, vs, ls),
    ensures
        idx.search_result(q, order, i64::MIN, false) == frauds(oracle_kept(q, refs, ls).top, 5),
{
    let count = idx.search_result(q, order, i64::MIN, false);
    let placed = law_thorough_search_counts_nearest_references(
        vs,
        ls,
        leaf,
        file,
        ds,
        idx,
        q,
        order,
    );
    let a = lemma_search_pick(idx.all_items(q), q, vs, ls, placed, count as int);
    let b = lemma_oracle_pick(q, vs, ls, refs);
    assert(five_nearest(q, vs, a) && five_nearest(q, vs, b));
}

/// The built index answers what looking at all reference vectors answers wherever the
/// fifth and the sixth smallest distance differ, or there are no more than five
/// reference vectors.
pub proof fn law_built_index_agrees_without_a_tie(
    vs: Seq<[i16; STORE_DIM]>,
    ls: Seq<u8>,
    leaf: int,
    file: Seq<u8>,
    ds: &Dataset,
    idx: &ClusterIndex,
    q: Seq<i16>,
    order: Seq<usize>,
    refs: Seq<i16>,
)
    requires
        is_index_file(vs, ls, leaf, file),
        0 < vs.len() <= usize::MAX,
        ls.len() == vs.len(),
        are_labels(ls),
        ds.well_formed(),
        ds.is_file(file),
        is_clustered(ds, idx),
        forall|t: int| 0 <= t < order.len() ==> (#[trigger] order[t]) < idx.k,
        lie_in(vs, refs),
        no_tie_at_the_edge(q, vs),
    ensures
        idx.search_result(q, order, i64::MIN, false) == frauds(oracle_kept(q, refs, ls).top, 5),
{
    law_vote_is_settled_without_a_tie(q, vs, ls);
    law_built_index_agrees_with_oracle(vs, ls, leaf, file, ds, idx, q, order, refs);
}

} // verus!
