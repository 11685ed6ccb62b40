//! The five nearest neighbours of a query, kept while reference vectors stream by.
//!
//! Neighbours are ordered by squared distance, and at equal distance by the
//! number of the reference vector. [`Kept`] models the five best entries seen so
//! far; [`is_nearest`] says what the five nearest of a collection are.

use vstd::prelude::*;

verus! {

/// Number of neighbours that vote on a transaction.
pub const KNN_K: usize = 5;

/// A neighbour: its squared distance to the query, its label and its number.
#[derive(Clone, Copy, Debug, PartialEq, Eq, Structural)]
pub struct Top5 {
    pub dist: i64,
    pub label: u8,
    pub orig_id: u32,
}

/// Placeholder of an empty slot: farther than every reference vector.
pub open spec fn sentinel() -> Top5 {
    Top5 { dist: i64::MAX, label: 0, orig_id: u32::MAX }
}

/// `a` comes before `b` in the order of neighbours.
pub open spec fn closer(a: Top5, b: Top5) -> bool {
    a.dist < b.dist || (a.dist == b.dist && a.orig_id < b.orig_id)
}

/// The five entries kept so far, and the slot of the farthest of them.
#[verifier::ext_equal]
pub struct Kept {
    pub top: Seq<Top5>,
    pub worst: int,
}

/// The farthest of the first `n` entries; at equal rank the first one.
pub open spec fn worst_of(top: Seq<Top5>, n: int) -> int
    decreases n,
{
    if n <= 1 {
        0
    } else {
        let w = worst_of(top, n - 1);
        if closer(top[w], top[n - 1]) {
            n - 1
        } else {
            w
        }
    }
}

/// Five empty slots.
pub open spec fn nothing_kept() -> Kept {
    Kept { top: seq![sentinel(), sentinel(), sentinel(), sentinel(), sentinel()], worst: 0 }
}

/// What is kept once `c` has been seen too: it takes the place of the farthest
/// entry if it is closer.
pub open spec fn insert_one(k: Kept, c: Top5) -> Kept {
    if closer(c, k.top[k.worst]) {
        let top = k.top.update(k.worst, c);
        Kept { top, worst: worst_of(top, 5) }
    } else {
        k
    }
}

/// What is kept once all of `items` have been seen, one after the other.
pub open spec fn insert_all(k: Kept, items: Seq<Top5>) -> Kept
    decreases items.len(),
{
    if items.len() == 0 {
        k
    } else {
        insert_one(insert_all(k, items.drop_last()), items.last())
    }
}

/// Sum of the labels of the first `n` entries.
pub open spec fn label_sum(top: Seq<Top5>, n: int) -> int
    decreases n,
{
    if n <= 0 {
        0
    } else {
        label_sum(top, n - 1) + top[n - 1].label
    }
}

/// `n`, but no more than the number of neighbours that vote.
pub open spec fn at_most_five(n: int) -> int {
    if n < 5 {
        n
    } else {
        5
    }
}

/// The number of frauds among the kept entries, at most five.
pub open spec fn votes(k: Kept) -> int {
    at_most_five(label_sum(k.top, 5))
}

/// The invariant of the kept entries: five slots, and `worst` is a farthest one.
pub open spec fn kept_ok(k: Kept) -> bool {
    &&& k.top.len() == 5
    &&& 0 <= k.worst < 5
    &&& forall|s: int| 0 <= s < 5 ==> !closer(k.top[k.worst], #[trigger] k.top[s])
}

/// `sel` picks five nearest of `items` (or all of them, where there are fewer):
/// nothing left out is closer than anything picked.
pub open spec fn is_nearest(items: Seq<Top5>, sel: Set<int>) -> bool {
    &&& sel.finite()
    &&& sel.len() == if items.len() < 5 {
        items.len()
    } else {
        5
    }
    &&& forall|i: int| #[trigger] sel.contains(i) ==> 0 <= i < items.len()
    &&& forall|i: int, j: int|
        #![trigger sel.contains(i), items[j]]
        sel.contains(i) && 0 <= j < items.len() && !sel.contains(j) ==> !closer(items[j], items[i])
}

/// Sum of the labels of the picked ones among the first `n` items.
pub open spec fn picked_sum(items: Seq<Top5>, sel: Set<int>, n: int) -> int
    decreases n,
{
    if n <= 0 {
        0
    } else {
        picked_sum(items, sel, n - 1) + if sel.contains(n - 1) {
            items[n - 1].label as int
        } else {
            0
        }
    }
}

/// `count` is the number of frauds among five nearest of `items`, at most five.
pub open spec fn nearest_count(items: Seq<Top5>, count: int) -> bool {
    exists|sel: Set<int>|
        is_nearest(items, sel) && count == at_most_five(
            #[trigger] picked_sum(items, sel, items.len() as int),
        )
}

/// No two items have the same number.
pub open spec fn distinct_ids(items: Seq<Top5>) -> bool {
    forall|i: int, j: int|
        #![trigger items[i], items[j]]
        0 <= i < j < items.len() ==> items[i].orig_id != items[j].orig_id
}

/// Every item is at a distance that a reference vector can have.
pub open spec fn all_real(items: Seq<Top5>) -> bool {
    forall|i: int| 0 <= i < items.len() ==> (#[trigger] items[i]).dist < i64::MAX
}

pub proof fn lemma_worst_of(top: Seq<Top5>, n: int)
    requires
        1 <= n <= top.len(),
    ensures
        0 <= worst_of(top, n) < n,
        forall|s: int| 0 <= s < n ==> !closer(top[worst_of(top, n)], #[trigger] top[s]),
    decreases n,
{
    if n > 1 {
        lemma_worst_of(top, n - 1);
    }
}

pub proof fn lemma_insert_one_ok(k: Kept, c: Top5)
    requires
        kept_ok(k),
    ensures
        kept_ok(insert_one(k, c)),
{
    if closer(c, k.top[k.worst]) {
        lemma_worst_of(k.top.update(k.worst, c), 5);
    }
}

/// Slot `s` holds `items[src[s]]`, or nothing where `src[s]` is -1.
pub open spec fn slot_holds(k: Kept, items: Seq<Top5>, seen: Set<int>, src: Seq<int>, s: int) -> bool {
    ||| src[s] == -1 && k.top[s] == sentinel()
    ||| seen.contains(src[s]) && k.top[s] == items[src[s]]
}

/// The entries kept are, slot by slot, `items[src[s]]` (or nothing, where
/// `src[s]` is -1), and no item of `seen` that is not kept is closer than one
/// that is.
pub open spec fn keeps(k: Kept, items: Seq<Top5>, seen: Set<int>, src: Seq<int>) -> bool {
    &&& kept_ok(k)
    &&& src.len() == 5
    &&& forall|j: int| #[trigger] seen.contains(j) ==> 0 <= j < items.len()
    &&& forall|s: int| 0 <= s < 5 ==> #[trigger] slot_holds(k, items, seen, src, s)
    &&& forall|s: int, t: int|
        #![trigger src[s], src[t]]
        0 <= s < t < 5 && src[s] >= 0 ==> src[s] != src[t]
    &&& forall|j: int, s: int|
        #![trigger seen.contains(j), src[s]]
        seen.contains(j) && !src.contains(j) && 0 <= s < 5 ==> src[s] >= 0 && !closer(
            items[j],
            items[src[s]],
        )
}

pub proof fn lemma_keeps_insert(k: Kept, items: Seq<Top5>, seen: Set<int>, src: Seq<int>, g: int) -> (r: Seq<int>)
    requires
        keeps(k, items, seen, src),
        all_real(items),
        0 <= g < items.len(),
        !seen.contains(g),
    ensures
        keeps(insert_one(k, items[g]), items, seen.insert(g), r),
{
    let c = items[g];
    let w = k.worst;
    lemma_insert_one_ok(k, c);
    let k2 = insert_one(k, c);
    let seen2 = seen.insert(g);
    assert(c.dist < i64::MAX);
    assert(slot_holds(k, items, seen, src, w));
    assert forall|s: int| 0 <= s < 5 implies #[trigger] slot_holds(k, items, seen, src, s) && !closer(
        k.top[w],
        k.top[s],
    ) by {}
    if closer(c, k.top[w]) {
        let src2 = src.update(w, g);
        assert forall|s: int| 0 <= s < 5 implies #[trigger] slot_holds(k2, items, seen2, src2, s) by {
            assert(slot_holds(k, items, seen, src, s));
        }
        assert forall|s: int, t: int|
            #![trigger src2[s], src2[t]]
            0 <= s < t < 5 && src2[s] >= 0 implies src2[s] != src2[t] by {
            assert(slot_holds(k, items, seen, src, s));
            assert(slot_holds(k, items, seen, src, t));
        }
        assert forall|j: int, s: int|
            #![trigger seen2.contains(j), src2[s]]
            seen2.contains(j) && !src2.contains(j) && 0 <= s < 5 implies src2[s] >= 0 && !closer(
            items[j],
            items[src2[s]],
        ) by {
            assert(src2[w] == g);
            assert(seen.contains(j));
            assert(slot_holds(k, items, seen, src, s));
            if src.contains(j) {
                let t = choose|t: int| 0 <= t < 5 && src[t] == j;
                if t != w {
                    assert(src2[t] == j);
                }
                assert(items[j] == k.top[w]);
            } else {
                assert(src[s] >= 0);
                assert(src[w] >= 0);
            }
        }
        src2
    } else {
        assert forall|s: int| 0 <= s < 5 implies #[trigger] slot_holds(k2, items, seen2, src, s) by {
            assert(slot_holds(k, items, seen, src, s));
        }
        assert forall|j: int, s: int|
            #![trigger seen2.contains(j), src[s]]
            seen2.contains(j) && !src.contains(j) && 0 <= s < 5 implies src[s] >= 0 && !closer(
            items[j],
            items[src[s]],
        ) by {
            assert(slot_holds(k, items, seen, src, s));
            if j != g {
                assert(seen.contains(j));
            }
        }
        src
    }
}

/// Items that are farther than everything kept may be passed over.
pub proof fn lemma_keeps_skip(
    k: Kept,
    items: Seq<Top5>,
    seen: Set<int>,
    src: Seq<int>,
    more: Set<int>,
)
    requires
        keeps(k, items, seen, src),
        all_real(items),
        forall|g: int|
            #[trigger] more.contains(g) ==> 0 <= g < items.len() && k.top[k.worst].dist < items[g].dist,
    ensures
        keeps(k, items, seen.union(more), src),
{
    let seen2 = seen.union(more);
    assert(slot_holds(k, items, seen, src, k.worst));
    assert forall|s: int| 0 <= s < 5 implies #[trigger] slot_holds(k, items, seen2, src, s) by {
        assert(slot_holds(k, items, seen, src, s));
    }
    assert forall|j: int, s: int|
        #![trigger seen2.contains(j), src[s]]
        seen2.contains(j) && !src.contains(j) && 0 <= s < 5 implies src[s] >= 0 && !closer(
        items[j],
        items[src[s]],
    ) by {
        assert(slot_holds(k, items, seen, src, s));
        assert(!closer(k.top[k.worst], k.top[s]));
        if seen.contains(j) {
        } else {
            assert(more.contains(j));
            assert(items[j].dist < i64::MAX);
        }
    }
}

pub proof fn lemma_picked_insert(items: Seq<Top5>, sel: Set<int>, x: int, n: int)
    requires
        !sel.contains(x),
        0 <= x,
    ensures
        picked_sum(items, sel.insert(x), n) == picked_sum(items, sel, n) + if x < n {
            items[x].label as int
        } else {
            0
        },
    decreases n,
{
    if n > 0 {
        lemma_picked_insert(items, sel, x, n - 1);
    }
}

pub proof fn lemma_picked_empty(items: Seq<Top5>, n: int)
    ensures
        picked_sum(items, Set::empty(), n) == 0,
    decreases n,
{
    if n > 0 {
        lemma_picked_empty(items, n - 1);
    }
}

/// The items that the first `n` slots hold.
pub open spec fn held(src: Seq<int>, n: int) -> Set<int>
    decreases n,
{
    if n <= 0 {
        Set::empty()
    } else if src[n - 1] >= 0 {
        held(src, n - 1).insert(src[n - 1])
    } else {
        held(src, n - 1)
    }
}

pub proof fn lemma_held(k: Kept, items: Seq<Top5>, seen: Set<int>, src: Seq<int>, n: int)
    requires
        keeps(k, items, seen, src),
        0 <= n <= 5,
    ensures
        held(src, n).finite(),
        held(src, n).len() <= n,
        (forall|s: int| 0 <= s < n ==> #[trigger] src[s] >= 0) ==> held(src, n).len() == n,
        (exists|s: int| 0 <= s < n && #[trigger] src[s] < 0) ==> held(src, n).len() < n,
        forall|x: int|
            #[trigger] held(src, n).contains(x) <==> x >= 0 && exists|s: int|
                0 <= s < n && #[trigger] src[s] == x,
        picked_sum(items, held(src, n), items.len() as int) == label_sum(k.top, n),
    decreases n,
{
    if n <= 0 {
        lemma_picked_empty(items, items.len() as int);
    } else {
        lemma_held(k, items, seen, src, n - 1);
        assert(slot_holds(k, items, seen, src, n - 1));
        let before = held(src, n - 1);
        let x = src[n - 1];
        if x >= 0 {
            assert(!before.contains(x));
            lemma_picked_insert(items, before, x, items.len() as int);
            assert forall|y: int| #[trigger] held(src, n).contains(y) implies y >= 0 && exists|s: int|
                0 <= s < n && #[trigger] src[s] == y by {
                if y == x {
                    assert(src[n - 1] == y);
                } else {
                    assert(before.contains(y));
                }
            }
        } else {
            assert(src[n - 1] < 0);
            assert forall|y: int| #[trigger] held(src, n).contains(y) implies y >= 0 && exists|s: int|
                0 <= s < n && #[trigger] src[s] == y by {
                assert(before.contains(y));
            }
        }
    }
}

/// Once every item has been seen, the entries kept are five nearest.
pub proof fn lemma_keeps_all(k: Kept, items: Seq<Top5>, seen: Set<int>, src: Seq<int>)
    requires
        keeps(k, items, seen, src),
        forall|i: int| 0 <= i < items.len() ==> #[trigger] seen.contains(i),
    ensures
        is_nearest(items, held(src, 5)),
        nearest_count(items, votes(k)),
{
    let sel = held(src, 5);
    let n = items.len() as int;
    lemma_held(k, items, seen, src, 5);
    assert forall|i: int| #[trigger] sel.contains(i) implies 0 <= i < n by {
        let s = choose|s: int| 0 <= s < 5 && src[s] == i;
        assert(slot_holds(k, items, seen, src, s));
    }
    let all = vstd::set_lib::set_int_range(0, n);
    vstd::set_lib::lemma_int_range(0, n);
    assert(sel.subset_of(all));
    vstd::set_lib::lemma_len_subset(sel, all);
    if exists|s: int| 0 <= s < 5 && #[trigger] src[s] < 0 {
        let e = choose|s: int| 0 <= s < 5 && #[trigger] src[s] < 0;
        assert forall|i: int| all.contains(i) implies sel.contains(i) by {
            assert(seen.contains(i));
            if !src.contains(i) {
                assert(src[e] >= 0);
            }
            let s = choose|s: int| 0 <= s < 5 && src[s] == i;
            assert(src[s] == i);
        }
        assert(sel =~= all);
    }
    assert forall|i: int, j: int|
        #![trigger sel.contains(i), items[j]]
        sel.contains(i) && 0 <= j < n && !sel.contains(j) implies !closer(items[j], items[i]) by {
        let s = choose|s: int| 0 <= s < 5 && src[s] == i;
        assert(seen.contains(j));
        if src.contains(j) {
            let t = choose|t: int| 0 <= t < 5 && src[t] == j;
            assert(src[t] == j);
        }
        assert(src[s] == i);
    }
    assert(is_nearest(items, sel));
    assert(picked_sum(items, sel, n) == label_sum(k.top, 5));
}

/// `sel` picks five nearest of the items at the places `seen` (or all of them, where there
/// are fewer): nothing that is left out of them is closer than anything picked.
pub open spec fn is_nearest_of(items: Seq<Top5>, seen: Set<int>, sel: Set<int>) -> bool {
    &&& sel.finite()
    &&& sel.subset_of(seen)
    &&& sel.len() <= 5
    &&& sel.len() < 5 ==> sel == seen
    &&& forall|i: int, j: int|
        #![trigger sel.contains(i), seen.contains(j)]
        sel.contains(i) && seen.contains(j) && !sel.contains(j) ==> !closer(items[j], items[i])
}

/// Whatever has been seen, the entries kept are five nearest of it.
pub proof fn lemma_keeps_nearest_of(k: Kept, items: Seq<Top5>, seen: Set<int>, src: Seq<int>)
    requires
        keeps(k, items, seen, src),
    ensures
        is_nearest_of(items, seen, held(src, 5)),
        picked_sum(items, held(src, 5), items.len() as int) == label_sum(k.top, 5),
{
    let sel = held(src, 5);
    lemma_held(k, items, seen, src, 5);
    assert forall|i: int| #[trigger] sel.contains(i) implies seen.contains(i) by {
        let s = choose|s: int| 0 <= s < 5 && src[s] == i;
        assert(slot_holds(k, items, seen, src, s));
    }
    if sel.len() < 5 {
        assert(exists|s: int| 0 <= s < 5 && #[trigger] src[s] < 0);
        let e = choose|s: int| 0 <= s < 5 && #[trigger] src[s] < 0;
        assert forall|i: int| seen.contains(i) implies sel.contains(i) by {
            if !src.contains(i) {
                assert(src[e] >= 0);
            }
            let s = choose|s: int| 0 <= s < 5 && src[s] == i;
            assert(src[s] == i);
        }
        assert(sel =~= seen);
    }
    assert forall|i: int, j: int|
        #![trigger sel.contains(i), seen.contains(j)]
        sel.contains(i) && seen.contains(j) && !sel.contains(j) implies !closer(items[j], items[i]) by {
        let s = choose|s: int| 0 <= s < 5 && src[s] == i;
        if src.contains(j) {
            let t = choose|t: int| 0 <= t < 5 && src[t] == j;
            assert(src[t] == j);
        }
        assert(src[s] == i);
    }
}

/// Where the numbers are distinct there is one way only to pick five nearest.
pub proof fn lemma_nearest_unique(items: Seq<Top5>, a: Set<int>, b: Set<int>)
    requires
        distinct_ids(items),
        is_nearest(items, a),
        is_nearest(items, b),
    ensures
        a == b,
{
    if !a.subset_of(b) {
        let x = choose|x: int| a.contains(x) && !b.contains(x);
        if b.subset_of(a) {
            assert(b.subset_of(a.remove(x)));
            vstd::set_lib::lemma_len_subset(b, a.remove(x));
        }
        let y = choose|y: int| b.contains(y) && !a.contains(y);
        assert(!closer(items[y], items[x]));
        assert(!closer(items[x], items[y]));
        assert(false);
    }
    if !b.subset_of(a) {
        let x = choose|x: int| b.contains(x) && !a.contains(x);
        assert(a.subset_of(b.remove(x)));
        vstd::set_lib::lemma_len_subset(a, b.remove(x));
        assert(false);
    }
    assert(a =~= b);
}

/// The vote is settled by the items alone where their numbers are distinct: two
/// counts of the frauds among five nearest are equal.
pub proof fn law_nearest_count_unique(items: Seq<Top5>, a: int, b: int)
    requires
        distinct_ids(items),
        nearest_count(items, a),
        nearest_count(items, b),
    ensures
        a == b,
{
    let n = items.len() as int;
    let sa = choose|sel: Set<int>|
        is_nearest(items, sel) && a == at_most_five(#[trigger] picked_sum(items, sel, n));
    let sb = choose|sel: Set<int>|
        is_nearest(items, sel) && b == at_most_five(#[trigger] picked_sum(items, sel, n));
    lemma_nearest_unique(items, sa, sb);
}

/// `f` and `g` pair the positions below `n` up with each other.
pub open spec fn pairs_up(f: Seq<int>, g: Seq<int>, n: int) -> bool {
    &&& f.len() == n
    &&& g.len() == n
    &&& forall|i: int| 0 <= i < n ==> 0 <= #[trigger] f[i] < n && g[f[i]] == i
    &&& forall|j: int| 0 <= j < n ==> 0 <= #[trigger] g[j] < n && f[g[j]] == j
}

/// `a` holds the items of `b` in another order: that at `i` is the one at `f[i]`.
pub open spec fn reordered(a: Seq<Top5>, b: Seq<Top5>, f: Seq<int>) -> bool {
    &&& a.len() == b.len()
    &&& forall|i: int| 0 <= i < a.len() ==> #[trigger] a[i] == b[f[i]]
}

proof fn lemma_carry(a: Seq<Top5>, b: Seq<Top5>, f: Seq<int>, g: Seq<int>, sel: Set<int>) -> (r: Set<
    int,
>)
    requires
        pairs_up(f, g, a.len() as int),
        reordered(a, b, f),
        sel.finite(),
        forall|i: int| #[trigger] sel.contains(i) ==> 0 <= i < a.len(),
    ensures
        r.finite(),
        r.len() == sel.len(),
        forall|j: int| #[trigger] r.contains(j) ==> 0 <= j < b.len() && sel.contains(g[j]),
        forall|j: int| 0 <= j < b.len() && sel.contains(#[trigger] g[j]) ==> r.contains(j),
        picked_sum(b, r, b.len() as int) == picked_sum(a, sel, a.len() as int),
    decreases sel.len(),
{
    let n = a.len() as int;
    if sel.len() == 0 {
        lemma_picked_empty(a, n);
        lemma_picked_empty(b, n);
        assert(sel =~= Set::empty());
        Set::empty()
    } else {
        let x = sel.choose();
        let less = sel.remove(x);
        let r0 = lemma_carry(a, b, f, g, less);
        let y = f[x];
        assert(g[y] == x);
        assert(!r0.contains(y));
        lemma_picked_insert(b, r0, y, n);
        lemma_picked_insert(a, less, x, n);
        assert(less.insert(x) =~= sel);
        assert(a[x] == b[y]);
        let r = r0.insert(y);
        assert forall|j: int| 0 <= j < b.len() && sel.contains(#[trigger] g[j]) implies r.contains(
            j,
        ) by {
            if g[j] == x {
                assert(f[g[j]] == j);
            }
        }
        r
    }
}

/// The order in which the items come does not matter for the vote.
pub proof fn law_order_does_not_matter(
    a: Seq<Top5>,
    b: Seq<Top5>,
    f: Seq<int>,
    g: Seq<int>,
    count: int,
)
    requires
        pairs_up(f, g, a.len() as int),
        reordered(a, b, f),
        nearest_count(a, count),
    ensures
        nearest_count(b, count),
{
    let n = a.len() as int;
    let sel = choose|sel: Set<int>|
        is_nearest(a, sel) && count == at_most_five(#[trigger] picked_sum(a, sel, n));
    let r = lemma_carry(a, b, f, g, sel);
    assert forall|i: int, j: int|
        #![trigger r.contains(i), b[j]]
        r.contains(i) && 0 <= j < b.len() && !r.contains(j) implies !closer(b[j], b[i]) by {
        assert(sel.contains(g[i]));
        assert(!sel.contains(g[j]));
        assert(a[g[i]] == b[f[g[i]]]);
        assert(a[g[j]] == b[f[g[j]]]);
        assert(!closer(a[g[j]], a[g[i]]));
    }
    assert(is_nearest(b, r));
}

/// What is picked is nearer than what is left out, and at the same distance it has a
/// number that is no higher.
pub proof fn law_ties_go_to_the_lower_number(items: Seq<Top5>, sel: Set<int>, i: int, j: int)
    requires
        is_nearest(items, sel),
        sel.contains(i),
        0 <= j < items.len(),
        !sel.contains(j),
    ensures
        items[i].dist < items[j].dist || (items[i].dist == items[j].dist && items[i].orig_id
            <= items[j].orig_id),
{
    assert(!closer(items[j], items[i]));
}

/// The sum of labels counts the frauds: where a label is 1 for a fraud and 0 for anything
/// else, it is the number of frauds among those picked.
pub proof fn law_labels_count_the_frauds(items: Seq<Top5>, sel: Set<int>, n: int)
    requires
        0 <= n <= items.len(),
        forall|i: int| 0 <= i < n ==> (#[trigger] items[i]).label <= 1,
    ensures
        Set::new(|i: int| 0 <= i < n && sel.contains(i) && items[i].label == 1).finite(),
        picked_sum(items, sel, n) == Set::new(
            |i: int| 0 <= i < n && sel.contains(i) && items[i].label == 1,
        ).len(),
    decreases n,
{
    let s = Set::new(|i: int| 0 <= i < n && sel.contains(i) && items[i].label == 1);
    if n > 0 {
        law_labels_count_the_frauds(items, sel, n - 1);
        let less = Set::new(|i: int| 0 <= i < n - 1 && sel.contains(i) && items[i].label == 1);
        assert(items[n - 1].label <= 1);
        if sel.contains(n - 1) && items[n - 1].label == 1 {
            assert(s =~= less.insert(n - 1));
        } else {
            assert(s =~= less);
        }
    } else {
        assert(s =~= Set::empty());
    }
}

/// The vote is the sum of the labels of the kept entries, cut off at five.
pub proof fn law_vote_is_cut_off_at_five(k: Kept)
    requires
        k.top.len() == 5,
    ensures
        label_sum(k.top, 5) == k.top[0].label + k.top[1].label + k.top[2].label + k.top[3].label
            + k.top[4].label,
        label_sum(k.top, 5) <= 5 ==> votes(k) == label_sum(k.top, 5),
        label_sum(k.top, 5) > 5 ==> votes(k) == 5,
{
    reveal_with_fuel(label_sum, 6);
}

} // verus!
