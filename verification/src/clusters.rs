//! The clusters that a search goes through, taken from an index file: one for each
//! partition, made of the leaves of its tree.

use vstd::prelude::*;

use crate::dataset::Dataset;
use crate::ivf::{ClusterIndex, MAX_K};
use crate::DIM;

verus! {

/// Feature `j` of the vector in a slot.
pub open spec fn slot_value(ds: &Dataset, slot: int, j: int) -> i16 {
    ds.blocks@[slot / 8 * 112 + j / 2 * 16 + slot % 8 * 2 + j % 2]
}

/// The slots of a leaf.
pub open spec fn leaf_slots(ds: &Dataset, node: int) -> Seq<int> {
    Seq::new(ds.node_len@[node] as nat, |i: int| ds.node_start@[node] * 8 + i)
}

/// The slots of the leaves among the nodes from `a` to `b`.
pub open spec fn slots_between(ds: &Dataset, a: int, b: int) -> Seq<int>
    decreases b - a,
{
    if b <= a {
        Seq::empty()
    } else if ds.node_left@[b - 1] < 0 {
        slots_between(ds, a, b - 1) + leaf_slots(ds, b - 1)
    } else {
        slots_between(ds, a, b - 1)
    }
}

/// Where the nodes of partition `p` end.
pub open spec fn part_end(ds: &Dataset, p: int) -> int {
    if p + 1 < ds.k {
        ds.part_roots@[p + 1] as int
    } else {
        ds.nodes()
    }
}

/// The slots of partition `p`.
pub open spec fn part_slots(ds: &Dataset, p: int) -> Seq<int> {
    slots_between(ds, ds.part_roots@[p] as int, part_end(ds, p))
}

/// Number of slots of the partitions below `p`.
pub open spec fn slots_below(ds: &Dataset, p: int) -> int
    decreases p,
{
    if p <= 0 {
        0
    } else {
        slots_below(ds, p - 1) + part_slots(ds, p - 1).len()
    }
}

/// A leaf refers to slots that are there.
pub open spec fn leaf_ok(ds: &Dataset, node: int) -> bool {
    ds.node_left@[node] < 0 ==> {
        &&& ds.node_start@[node] >= 0
        &&& ds.node_len@[node] >= 0
        &&& ds.node_start@[node] * 8 + ds.node_len@[node] <= ds.labels@.len()
    }
}

/// The nodes of partition `p` are there.
pub open spec fn part_ok(ds: &Dataset, p: int) -> bool {
    0 <= ds.part_roots@[p] <= part_end(ds, p) <= ds.nodes()
}

/// The index can be searched: its partitions and leaves refer to what is there, and
/// there are not too many of them.
pub open spec fn searchable(ds: &Dataset) -> bool {
    &&& ds.k <= MAX_K
    &&& ds.labels@.len() <= u32::MAX
    &&& forall|p: int| 0 <= p < ds.k ==> #[trigger] part_ok(ds, p)
    &&& forall|node: int| 0 <= node < ds.nodes() ==> #[trigger] leaf_ok(ds, node)
    &&& slots_below(ds, ds.k as int) <= u32::MAX
}

/// Cluster `c` holds the vectors of the slots `slots`, with their labels, and has
/// the slots for their numbers.
pub open spec fn holds_slots(idx: &ClusterIndex, c: int, ds: &Dataset, slots: Seq<int>) -> bool {
    &&& idx.size(c) == slots.len()
    &&& forall|i: int, j: int|
        0 <= i < slots.len() && 0 <= j < 14 ==> #[trigger] idx.vector(
            idx.block_offsets@[c] as int,
            i,
        )[j] == slot_value(ds, slots[i], j)
    &&& forall|i: int|
        0 <= i < slots.len() ==> #[trigger] idx.labels@[idx.offsets@[c] + i]
            == ds.labels@[slots[i]]
    &&& forall|i: int|
        0 <= i < slots.len() ==> #[trigger] idx.orig_ids@[idx.offsets@[c] + i] == slots[i]
}

/// Every slot is there.
spec fn in_store(ds: &Dataset, slots: Seq<usize>) -> bool {
    forall|i: int| 0 <= i < slots.len() ==> (#[trigger] slots[i]) < ds.labels@.len()
}

/// The slots of a sequence of positions.
spec fn as_ints(s: Seq<usize>) -> Seq<int> {
    Seq::new(s.len(), |i: int| s[i] as int)
}

/// Whether a leaf refers to slots that are there.
fn check_leaf(ds: &Dataset, node: usize) -> (r: bool)
    requires
        ds.well_formed(),
        node < ds.nodes(),
    ensures
        r == leaf_ok(ds, node as int),
{
    if ds.node_left[node] >= 0 {
        return true;
    }
    let start = ds.node_start[node];
    let len = ds.node_len[node];
    start >= 0 && len >= 0 && start as u64 * 8 + len as u64 <= ds.labels.len() as u64
}

/// Whether the leaves refer to slots that are there.
fn check_leaves(ds: &Dataset) -> (r: bool)
    requires
        ds.well_formed(),
    ensures
        r == forall|node: int| 0 <= node < ds.nodes() ==> #[trigger] leaf_ok(ds, node),
{
    let n = ds.node_left.len();
    let mut node: usize = 0;
    while node < n
        invariant
            ds.well_formed(),
            node <= n == ds.nodes(),
            forall|i: int| 0 <= i < node ==> #[trigger] leaf_ok(ds, i),
        decreases n - node,
    {
        if !check_leaf(ds, node) {
            assert(!leaf_ok(ds, node as int));
            return false;
        }
        node += 1;
    }
    true
}

/// Where the nodes of partition `p` end.
fn end_of_part(ds: &Dataset, p: usize) -> (r: i64)
    requires
        ds.well_formed(),
        p < ds.k,
    ensures
        r == part_end(ds, p as int),
{
    if p + 1 < ds.k {
        ds.part_roots[p + 1] as i64
    } else {
        ds.node_left.len() as i64
    }
}

/// Whether the nodes of the partitions are there.
fn check_parts(ds: &Dataset) -> (r: bool)
    requires
        ds.well_formed(),
    ensures
        r == forall|p: int| 0 <= p < ds.k ==> #[trigger] part_ok(ds, p),
{
    let mut p: usize = 0;
    while p < ds.k
        invariant
            ds.well_formed(),
            p <= ds.k,
            forall|i: int| 0 <= i < p ==> #[trigger] part_ok(ds, i),
        decreases ds.k - p,
    {
        let root = ds.part_roots[p] as i64;
        let end = end_of_part(ds, p);
        if root < 0 || root > end || end > ds.node_left.len() as i64 {
            assert(!part_ok(ds, p as int));
            return false;
        }
        p += 1;
    }
    true
}

/// The slots of the leaves among the nodes from `a` to `b`, or `None` where there
/// are more than `most`.
fn collect_slots(ds: &Dataset, a: usize, b: usize, most: usize) -> (r: Option<Vec<usize>>)
    requires
        ds.well_formed(),
        a <= b <= ds.nodes(),
        most <= u32::MAX,
        forall|node: int| 0 <= node < ds.nodes() ==> #[trigger] leaf_ok(ds, node),
    ensures
        match r {
            Some(slots) => {
                &&& as_ints(slots@) == slots_between(ds, a as int, b as int)
                &&& slots@.len() <= most
                &&& in_store(ds, slots@)
            },
            None => slots_between(ds, a as int, b as int).len() > most,
        },
{
    let total = ds.labels.len();
    let mut slots: Vec<usize> = Vec::new();
    let mut node: usize = a;
    assert(as_ints(slots@) =~= Seq::empty());
    while node < b
        invariant
            ds.well_formed(),
            a <= node <= b <= ds.nodes(),
            most <= u32::MAX,
            total == ds.labels@.len(),
            forall|i: int| 0 <= i < ds.nodes() ==> #[trigger] leaf_ok(ds, i),
            as_ints(slots@) == slots_between(ds, a as int, node as int),
            slots@.len() <= most,
            in_store(ds, slots@),
        decreases b - node,
    {
        proof {
            assert(leaf_ok(ds, node as int));
        }
        if ds.node_left[node] < 0 {
            let start = ds.node_start[node] as usize * 8;
            let len = ds.node_len[node] as usize;
            if len > most || slots.len() > most - len {
                proof {
                    lemma_slots_grow(ds, a as int, node + 1, b as int);
                }
                return None;
            }
            let ghost before = slots@;
            let mut i: usize = 0;
            while i < len
                invariant
                    i <= len,
                    start + len <= ds.labels@.len(),
                    ds.labels@.len() <= usize::MAX,
                    in_store(ds, slots@),
                    slots@.len() == before.len() + i,
                    as_ints(slots@) == as_ints(before) + Seq::new(i as nat, |j: int| start + j),
                decreases len - i,
            {
                let ghost s1 = slots@;
                slots.push(start + i);
                assert(as_ints(slots@) =~= as_ints(s1).push(start + i));
                assert(Seq::new((i + 1) as nat, |j: int| start + j) =~= Seq::new(
                    i as nat,
                    |j: int| start + j,
                ).push(start + i));
                assert(as_ints(before) + Seq::new(i as nat, |j: int| start + j).push(start + i)
                    =~= (as_ints(before) + Seq::new(i as nat, |j: int| start + j)).push(start + i));
                i += 1;
            }
            assert(leaf_slots(ds, node as int) =~= Seq::new(len as nat, |j: int| start + j));
        }
        node += 1;
    }
    Some(slots)
}

proof fn lemma_slots_grow(ds: &Dataset, a: int, b: int, c: int)
    requires
        a <= b <= c,
    ensures
        slots_between(ds, a, b).len() <= slots_between(ds, a, c).len(),
    decreases c - b,
{
    if b < c {
        lemma_slots_grow(ds, a, b, c - 1);
    }
}

proof fn lemma_below_grows(ds: &Dataset, p: int, q: int)
    requires
        0 <= p <= q,
    ensures
        0 <= slots_below(ds, p) <= slots_below(ds, q),
    decreases q,
{
    if p < q {
        lemma_below_grows(ds, p, q - 1);
    } else if p > 0 {
        lemma_below_grows(ds, p - 1, p - 1);
    }
}

/// `a` begins `b`.
spec fn begins<T>(a: Seq<T>, b: Seq<T>) -> bool {
    &&& a.len() <= b.len()
    &&& forall|i: int|
        #![trigger a[i]]
        #![trigger b[i]]
        0 <= i < a.len() ==> a[i] == b[i]
}

/// The vectors of `slots` lie in `blocks` from block `at` on, feature by feature.
spec fn in_blocks(ds: &Dataset, blocks: Seq<i16>, at: int, slots: Seq<usize>) -> bool {
    forall|i: int, j: int|
        #![trigger slot_value(ds, slots[i] as int, j)]
        0 <= i < slots.len() && 0 <= j < 14 ==> blocks[(at + i / 8) * 112 + j * 8 + i % 8]
            == slot_value(ds, slots[i] as int, j)
}

/// Feature `j` of the vector in a slot.
fn value_of(ds: &Dataset, slot: usize, j: usize) -> (r: i16)
    requires
        ds.well_formed(),
        slot < ds.labels@.len(),
        j < 14,
    ensures
        r == slot_value(ds, slot as int, j as int),
{
    let n = ds.blocks.len();
    assert(slot / 8 * 112 + 112 <= n);
    let at = slot / 8 * 112 + j / 2 * 16 + slot % 8 * 2 + j % 2;
    ds.blocks[at]
}

/// Appends the vectors of `slots` in blocks of their own.
fn append_blocks(ds: &Dataset, slots: &Vec<usize>, blocks: &mut Vec<i16>)
    requires
        ds.well_formed(),
        in_store(ds, slots@),
        old(blocks)@.len() % 112 == 0,
    ensures
        begins(old(blocks)@, final(blocks)@),
        final(blocks)@.len() == old(blocks)@.len() + (slots@.len() + 7) / 8 * 112,
        in_blocks(ds, final(blocks)@, old(blocks)@.len() as int / 112, slots@),
{
    let ghost before = blocks@;
    let ghost at = before.len() as int / 112;
    let n = slots.len();
    let mut i: usize = 0;
    while i < n
        invariant
            ds.well_formed(),
            in_store(ds, slots@),
            i <= n == slots@.len(),
            before.len() == at * 112,
            begins(before, blocks@),
            blocks@.len() == (at + (i + 7) / 8) * 112,
            in_blocks(ds, blocks@, at, slots@.take(i as int)),
        decreases n - i,
    {
        let ghost blocks0 = blocks@;
        if i % 8 == 0 {
            let mut o: usize = 0;
            while o < 112
                invariant
                    o <= 112,
                    begins(blocks0, blocks@),
                    blocks@.len() == blocks0.len() + o,
                decreases 112 - o,
            {
                blocks.push(i16::MAX);
                o += 1;
            }
        }
        let base = blocks.len() - 112;
        assert(base == (at + i as int / 8) * 112);
        let ghost blocks1 = blocks@;
        let mut j: usize = 0;
        while j < DIM
            invariant
                ds.well_formed(),
                i < slots@.len(),
                slots@[i as int] < ds.labels@.len(),
                j <= 14,
                blocks@.len() == base + 112 == blocks1.len(),
                base + 112 <= usize::MAX,
                forall|p: int|
                    0 <= p < blocks@.len() && !(exists|e: int|
                        0 <= e < j && p == #[trigger] lane_at(base as int, e, i as int))
                        ==> #[trigger] blocks@[p] == blocks1[p],
                forall|e: int|
                    0 <= e < j ==> blocks@[#[trigger] lane_at(base as int, e, i as int)]
                        == slot_value(ds, slots@[i as int] as int, e),
            decreases 14 - j,
        {
            let v = value_of(ds, slots[i], j);
            assert(base + j * 8 + i % 8 == lane_at(base as int, j as int, i as int));
            blocks.set(base + j * 8 + i % 8, v);
            j += 1;
        }
        proof {
            let now = slots@.take(i + 1);
            assert forall|k: int, e: int|
                #![trigger slot_value(ds, now[k] as int, e)]
                0 <= k < now.len() && 0 <= e < 14 implies blocks@[(at + k / 8) * 112 + e * 8 + k % 8]
                == slot_value(ds, now[k] as int, e) by {
                let p = (at + k / 8) * 112 + e * 8 + k % 8;
                if k == i {
                    assert(p == lane_at(base as int, e, i as int));
                } else {
                    assert(slots@.take(i as int)[k] == now[k]);
                    assert(blocks0[p] == slot_value(ds, slots@.take(i as int)[k] as int, e));
                    lemma_other_lane(at, base as int, i as int, k, e);
                    assert(blocks1[p] == blocks0[p]);
                }
            }
            assert forall|p: int| 0 <= p < before.len() implies #[trigger] blocks@[p] == before[p] by {
                assert(blocks1[p] == before[p]);
                assert(p < base);
            }
        }
        i += 1;
    }
    assert(slots@.take(n as int) =~= slots@);
}

/// Where feature `e` of vector `i` of a cluster lies in the block at `base`.
spec fn lane_at(base: int, e: int, i: int) -> int {
    base + e * 8 + i % 8
}

proof fn lemma_other_lane(at: int, base: int, i: int, k: int, e: int)
    requires
        0 <= k < i,
        0 <= e < 14,
        base == (at + i / 8) * 112,
    ensures
        (at + k / 8) * 112 + e * 8 + k % 8 < base + 112,
        forall|f: int|
            0 <= f < 14 ==> (at + k / 8) * 112 + e * 8 + k % 8 != #[trigger] lane_at(base, f, i),
{
    let a = i / 8;
    let b = k / 8;
    let p = (at + b) * 112 + e * 8 + k % 8;
    assert(b <= a);
    if b < a {
        assert((at + b) * 112 + 112 <= base);
        assert(p < base);
    } else {
        assert(k % 8 < i % 8);
        assert forall|f: int| 0 <= f < 14 implies p != #[trigger] lane_at(base, f, i) by {
            assert(p - base == e * 8 + k % 8);
            if e <= f {
                assert(e * 8 + k % 8 < f * 8 + i % 8);
            } else {
                assert(e * 8 >= f * 8 + 8);
            }
        }
    }
}

/// The lowest value of feature `j` among the first `n` of the slots.
pub open spec fn lowest_in(ds: &Dataset, slots: Seq<int>, j: int, n: int) -> i16
    decreases n,
{
    if n <= 0 {
        i16::MAX
    } else {
        let m = lowest_in(ds, slots, j, n - 1);
        let v = slot_value(ds, slots[n - 1], j);
        if v < m {
            v
        } else {
            m
        }
    }
}

/// The highest value of feature `j` among the first `n` of the slots.
pub open spec fn highest_in(ds: &Dataset, slots: Seq<int>, j: int, n: int) -> i16
    decreases n,
{
    if n <= 0 {
        i16::MIN
    } else {
        let m = highest_in(ds, slots, j, n - 1);
        let v = slot_value(ds, slots[n - 1], j);
        if v > m {
            v
        } else {
            m
        }
    }
}

proof fn lemma_between(ds: &Dataset, slots: Seq<int>, j: int, n: int, i: int)
    requires
        0 <= i < n <= slots.len(),
    ensures
        lowest_in(ds, slots, j, n) <= slot_value(ds, slots[i], j) <= highest_in(ds, slots, j, n),
    decreases n,
{
    if i < n - 1 {
        lemma_between(ds, slots, j, n - 1, i);
    }
}

/// The lowest and the highest value of feature `j` among the slots.
fn range_of(ds: &Dataset, slots: &Vec<usize>, j: usize) -> (r: (i16, i16))
    requires
        ds.well_formed(),
        in_store(ds, slots@),
        j < 14,
    ensures
        r.0 == lowest_in(ds, as_ints(slots@), j as int, slots@.len() as int),
        r.1 == highest_in(ds, as_ints(slots@), j as int, slots@.len() as int),
{
    let mut lo = i16::MAX;
    let mut hi = i16::MIN;
    let mut i: usize = 0;
    while i < slots.len()
        invariant
            ds.well_formed(),
            in_store(ds, slots@),
            j < 14,
            i <= slots@.len(),
            lo == lowest_in(ds, as_ints(slots@), j as int, i as int),
            hi == highest_in(ds, as_ints(slots@), j as int, i as int),
        decreases slots@.len() - i,
    {
        let v = value_of(ds, slots[i], j);
        if v < lo {
            lo = v;
        }
        if v > hi {
            hi = v;
        }
        i += 1;
    }
    (lo, hi)
}

/// The columns of the clusters while they are put together.
struct Columns {
    offsets: Vec<u32>,
    block_offsets: Vec<u32>,
    blocks: Vec<i16>,
    labels: Vec<u8>,
    orig_ids: Vec<u32>,
    bbox_min: Vec<i16>,
    bbox_max: Vec<i16>,
}

/// Cluster `c` is complete.
spec fn is_done(ds: &Dataset, x: &Columns, c: int) -> bool {
    let slots = part_slots(ds, c);
    let at = x.block_offsets@[c] as int;
    let from = x.offsets@[c] as int;
    &&& from == slots_below(ds, c)
    &&& x.offsets@[c + 1] == slots_below(ds, c + 1)
    &&& at + (slots.len() + 7) / 8 == x.block_offsets@[c + 1]
    &&& x.block_offsets@[c + 1] * 112 <= x.blocks@.len()
    &&& from + slots.len() <= x.labels@.len()
    &&& from + slots.len() <= x.orig_ids@.len()
    &&& forall|i: int, j: int|
        #![trigger slot_value(ds, slots[i], j)]
        0 <= i < slots.len() && 0 <= j < 14 ==> x.blocks@[(at + i / 8) * 112 + j * 8 + i % 8]
            == slot_value(ds, slots[i], j)
    &&& forall|i: int|
        0 <= i < slots.len() ==> #[trigger] x.labels@[from + i] == ds.labels@[slots[i]]
    &&& forall|i: int| 0 <= i < slots.len() ==> #[trigger] x.orig_ids@[from + i] == slots[i]
    &&& forall|j: int|
        0 <= j < 14 ==> #[trigger] x.bbox_min@[c * 14 + j] == lowest_in(
            ds,
            slots,
            j,
            slots.len() as int,
        )
    &&& forall|j: int|
        0 <= j < 14 ==> #[trigger] x.bbox_max@[c * 14 + j] == highest_in(
            ds,
            slots,
            j,
            slots.len() as int,
        )
}

/// The first `c` clusters are complete, and there is nothing else.
spec fn are_done(ds: &Dataset, x: &Columns, c: int) -> bool {
    &&& x.offsets@.len() == c + 1
    &&& x.block_offsets@.len() == c + 1
    &&& x.offsets@[c] == x.labels@.len() == x.orig_ids@.len() == slots_below(ds, c)
    &&& x.block_offsets@[c] * 112 == x.blocks@.len()
    &&& x.block_offsets@[c] <= x.offsets@[c]
    &&& x.bbox_min@.len() == c * 14
    &&& x.bbox_max@.len() == c * 14
    &&& forall|d: int| 0 <= d < c ==> #[trigger] is_done(ds, x, d)
}

proof fn lemma_done_stays(ds: &Dataset, x: &Columns, y: &Columns, d: int, c: int)
    requires
        0 <= d < c,
        is_done(ds, x, d),
        x.offsets@.len() == c + 1,
        x.block_offsets@.len() == c + 1,
        x.bbox_min@.len() == c * 14,
        x.bbox_max@.len() == c * 14,
        begins(x.offsets@, y.offsets@),
        begins(x.block_offsets@, y.block_offsets@),
        begins(x.blocks@, y.blocks@),
        begins(x.labels@, y.labels@),
        begins(x.orig_ids@, y.orig_ids@),
        begins(x.bbox_min@, y.bbox_min@),
        begins(x.bbox_max@, y.bbox_max@),
    ensures
        is_done(ds, y, d),
{
    let slots = part_slots(ds, d);
    let at = x.block_offsets@[d] as int;
    let from = x.offsets@[d] as int;
    assert(y.block_offsets@[d] == at && y.offsets@[d] == from);
    assert(y.block_offsets@[d + 1] == x.block_offsets@[d + 1]);
    assert(y.offsets@[d + 1] == x.offsets@[d + 1]);
    assert forall|i: int, j: int|
        #![trigger slot_value(ds, slots[i], j)]
        0 <= i < slots.len() && 0 <= j < 14 implies y.blocks@[(at + i / 8) * 112 + j * 8 + i % 8]
        == slot_value(ds, slots[i], j) by {
        let p = (at + i / 8) * 112 + j * 8 + i % 8;
        assert(x.blocks@[p] == slot_value(ds, slots[i], j));
        assert(i / 8 < (slots.len() + 7) / 8);
        assert(at + i / 8 + 1 <= x.block_offsets@[d + 1]);
        assert(p < x.blocks@.len());
        if at + i / 8 < 0 {
            assert(false);
        }
    }
    assert forall|i: int| 0 <= i < slots.len() implies #[trigger] y.labels@[from + i]
        == ds.labels@[slots[i]] by {
        assert(x.labels@[from + i] == ds.labels@[slots[i]]);
    }
    assert forall|i: int| 0 <= i < slots.len() implies #[trigger] y.orig_ids@[from + i]
        == slots[i] by {
        assert(x.orig_ids@[from + i] == slots[i]);
    }
    assert forall|j: int| 0 <= j < 14 implies #[trigger] y.bbox_min@[d * 14 + j] == lowest_in(
        ds,
        slots,
        j,
        slots.len() as int,
    ) by {
        assert(x.bbox_min@[d * 14 + j] == lowest_in(ds, slots, j, slots.len() as int));
    }
    assert forall|j: int| 0 <= j < 14 implies #[trigger] y.bbox_max@[d * 14 + j] == highest_in(
        ds,
        slots,
        j,
        slots.len() as int,
    ) by {
        assert(x.bbox_max@[d * 14 + j] == highest_in(ds, slots, j, slots.len() as int));
    }
}

/// Puts cluster `c` together, out of the slots of its partition.
fn append_cluster(ds: &Dataset, x: Columns, c: usize, slots: &Vec<usize>) -> (r: Columns)
    requires
        ds.well_formed(),
        ds.labels@.len() <= u32::MAX,
        c < MAX_K,
        are_done(ds, &x, c as int),
        in_store(ds, slots@),
        as_ints(slots@) == part_slots(ds, c as int),
        slots_below(ds, c + 1) <= u32::MAX,
    ensures
        are_done(ds, &r, c + 1),
{
    let ghost x0 = x;
    let mut offsets = x.offsets;
    let mut block_offsets = x.block_offsets;
    let mut blocks = x.blocks;
    let mut labels = x.labels;
    let mut orig_ids = x.orig_ids;
    let mut bbox_min = x.bbox_min;
    let mut bbox_max = x.bbox_max;
    let n = slots.len();
    let ghost want = part_slots(ds, c as int);
    assert(want.len() == n);
    append_blocks(ds, slots, &mut blocks);
    let mut i: usize = 0;
    while i < n
        invariant
            ds.well_formed(),
            ds.labels@.len() <= u32::MAX,
            in_store(ds, slots@),
            i <= n == slots@.len(),
            want == as_ints(slots@),
            begins(x0.labels@, labels@),
            begins(x0.orig_ids@, orig_ids@),
            labels@.len() == x0.labels@.len() + i,
            orig_ids@.len() == x0.orig_ids@.len() + i,
            forall|k: int|
                0 <= k < i ==> #[trigger] labels@[x0.labels@.len() + k] == ds.labels@[want[k]],
            forall|k: int|
                0 <= k < i ==> #[trigger] orig_ids@[x0.orig_ids@.len() + k] == want[k],
        decreases n - i,
    {
        let slot = slots[i];
        labels.push(ds.labels[slot]);
        orig_ids.push(slot as u32);
        i += 1;
    }
    let mut j: usize = 0;
    while j < DIM
        invariant
            ds.well_formed(),
            in_store(ds, slots@),
            n == slots@.len(),
            want == as_ints(slots@),
            j <= 14,
            begins(x0.bbox_min@, bbox_min@),
            begins(x0.bbox_max@, bbox_max@),
            x0.bbox_min@.len() == c * 14,
            x0.bbox_max@.len() == c * 14,
            bbox_min@.len() == c * 14 + j,
            bbox_max@.len() == c * 14 + j,
            forall|e: int|
                0 <= e < j ==> #[trigger] bbox_min@[c * 14 + e] == lowest_in(
                    ds,
                    want,
                    e,
                    n as int,
                ),
            forall|e: int|
                0 <= e < j ==> #[trigger] bbox_max@[c * 14 + e] == highest_in(
                    ds,
                    want,
                    e,
                    n as int,
                ),
        decreases 14 - j,
    {
        let (lo, hi) = range_of(ds, slots, j);
        bbox_min.push(lo);
        bbox_max.push(hi);
        j += 1;
    }
    let total = offsets[c] + n as u32;
    let own_blocks = n / 8 + if n % 8 == 0 {
        0
    } else {
        1
    };
    let block_total = block_offsets[c] + own_blocks as u32;
    offsets.push(total);
    block_offsets.push(block_total);
    let x = Columns { offsets, block_offsets, blocks, labels, orig_ids, bbox_min, bbox_max };
    proof {
        assert forall|d: int| 0 <= d < c + 1 implies #[trigger] is_done(ds, &x, d) by {
            if d < c {
                assert(is_done(ds, &x0, d));
                lemma_done_stays(ds, &x0, &x, d, c as int);
            } else {
                let at = x.block_offsets@[d] as int;
                assert(at == x0.blocks@.len() as int / 112);
                assert forall|i: int, j: int|
                    #![trigger slot_value(ds, want[i], j)]
                    0 <= i < want.len() && 0 <= j < 14 implies x.blocks@[(at + i / 8) * 112 + j * 8
                    + i % 8] == slot_value(ds, want[i], j) by {
                    assert(want[i] == slots@[i] as int);
                    assert(x.blocks@[(at + i / 8) * 112 + j * 8 + i % 8] == slot_value(
                        ds,
                        slots@[i] as int,
                        j,
                    ));
                }
            }
        }
    }
    x
}

/// The middle between two values.
pub open spec fn middle(lo: i16, hi: i16) -> int {
    (lo + hi) / 2
}

/// The middle between two values.
fn middle_of(lo: i16, hi: i16) -> (r: i16)
    ensures
        r == middle(lo, hi),
{
    let s = lo as i32 + hi as i32;
    let m = if s >= 0 {
        s / 2
    } else {
        -1 - (-1 - s) / 2
    };
    m as i16
}

/// The middles of the boxes, feature by feature.
fn centres(bbox_min: &Vec<i16>, bbox_max: &Vec<i16>, k: usize, k_pad: usize) -> (r: Vec<i16>)
    requires
        k <= k_pad <= MAX_K,
        bbox_min@.len() == k * 14,
        bbox_max@.len() == k * 14,
    ensures
        r@.len() == 14 * k_pad,
        forall|j: int, c: int|
            #![trigger r@[j * k_pad + c]]
            0 <= j < 14 && 0 <= c < k ==> r@[j * k_pad + c] == middle(
                bbox_min@[c * 14 + j],
                bbox_max@[c * 14 + j],
            ),
{
    let mut out: Vec<i16> = Vec::new();
    let mut j: usize = 0;
    while j < DIM
        invariant
            j <= 14,
            k <= k_pad <= MAX_K,
            bbox_min@.len() == k * 14,
            bbox_max@.len() == k * 14,
            out@.len() == j * k_pad,
            forall|e: int, c: int|
                #![trigger out@[e * k_pad + c]]
                0 <= e < j && 0 <= c < k ==> out@[e * k_pad + c] == middle(
                    bbox_min@[c * 14 + e],
                    bbox_max@[c * 14 + e],
                ),
        decreases 14 - j,
    {
        let ghost before = out@;
        let mut c: usize = 0;
        while c < k_pad
            invariant
                j < 14,
                c <= k_pad,
                k <= k_pad <= MAX_K,
                bbox_min@.len() == k * 14,
                bbox_max@.len() == k * 14,
                before.len() == j * k_pad,
                out@.len() == j * k_pad + c,
                begins(before, out@),
                forall|d: int|
                    0 <= d < c && d < k ==> #[trigger] out@[j * k_pad + d] == middle(
                        bbox_min@[d * 14 + j],
                        bbox_max@[d * 14 + j],
                    ),
            decreases k_pad - c,
        {
            if c < k {
                out.push(middle_of(bbox_min[c * 14 + j], bbox_max[c * 14 + j]));
            } else {
                out.push(i16::MAX);
            }
            c += 1;
        }
        proof {
            assert forall|e: int, c: int|
                #![trigger out@[e * k_pad + c]]
                0 <= e < j + 1 && 0 <= c < k implies out@[e * k_pad + c] == middle(
                bbox_min@[c * 14 + e],
                bbox_max@[c * 14 + e],
            ) by {
                if e < j {
                    assert(e * k_pad + c < j * k_pad) by (nonlinear_arith)
                        requires
                            0 <= e < j,
                            0 <= c < k_pad,
                    ;
                    assert(0 <= e * k_pad) by (nonlinear_arith)
                        requires
                            0 <= e,
                            0 <= k_pad,
                    ;
                    assert(before[e * k_pad + c] == out@[e * k_pad + c]);
                }
            }
            assert((j + 1) * k_pad == j * k_pad + k_pad) by (nonlinear_arith);
        }
        j += 1;
    }
    out
}

/// `idx` has one cluster for each partition of `ds`, with the smallest box round it
/// and the middle of the box for its centroid.
pub open spec fn is_clustered(ds: &Dataset, idx: &ClusterIndex) -> bool {
    &&& idx.well_formed()
    &&& idx.boxes_enclose()
    &&& idx.n == ds.n
    &&& idx.k == ds.k
    &&& forall|c: int| 0 <= c < ds.k ==> #[trigger] holds_slots(idx, c, ds, part_slots(ds, c))
    &&& forall|c: int, j: int|
        #![trigger idx.bbox_min@[c * 14 + j]]
        0 <= c < ds.k && 0 <= j < 14 ==> idx.bbox_min@[c * 14 + j] == lowest_in(
            ds,
            part_slots(ds, c),
            j,
            part_slots(ds, c).len() as int,
        )
    &&& forall|c: int, j: int|
        #![trigger idx.bbox_max@[c * 14 + j]]
        0 <= c < ds.k && 0 <= j < 14 ==> idx.bbox_max@[c * 14 + j] == highest_in(
            ds,
            part_slots(ds, c),
            j,
            part_slots(ds, c).len() as int,
        )
    &&& forall|j: int, c: int|
        #![trigger idx.centroids_soa_i16@[j * idx.k_pad + c]]
        0 <= j < 14 && 0 <= c < ds.k ==> idx.centroids_soa_i16@[j * idx.k_pad + c] == middle(
            idx.bbox_min@[c * 14 + j],
            idx.bbox_max@[c * 14 + j],
        )
}

/// The clusters of an index, where it can be searched.
pub fn clusters(ds: &Dataset) -> (r: Option<ClusterIndex>)
    requires
        ds.well_formed(),
    ensures
        match r {
            Some(idx) => searchable(ds) && is_clustered(ds, &idx),
            None => !searchable(ds),
        },
{
    if ds.k > MAX_K || ds.labels.len() as u64 > u32::MAX as u64 || !check_parts(ds)
        || !check_leaves(ds) {
        return None;
    }
    let k = ds.k;
    let mut x = Columns {
        offsets: vec![0],
        block_offsets: vec![0],
        blocks: Vec::new(),
        labels: Vec::new(),
        orig_ids: Vec::new(),
        bbox_min: Vec::new(),
        bbox_max: Vec::new(),
    };
    let mut c: usize = 0;
    while c < k
        invariant
            ds.well_formed(),
            k == ds.k <= MAX_K,
            ds.labels@.len() <= u32::MAX,
            forall|p: int| 0 <= p < ds.k ==> #[trigger] part_ok(ds, p),
            forall|node: int| 0 <= node < ds.nodes() ==> #[trigger] leaf_ok(ds, node),
            c <= k,
            are_done(ds, &x, c as int),
            slots_below(ds, c as int) <= u32::MAX,
        decreases k - c,
    {
        proof {
            assert(part_ok(ds, c as int));
            lemma_below_grows(ds, c as int, c as int);
        }
        let root = ds.part_roots[c] as usize;
        let end = end_of_part(ds, c) as usize;
        let room = u32::MAX as usize - x.labels.len();
        let slots = match collect_slots(ds, root, end, room) {
            Some(slots) => slots,
            None => {
                proof {
                    lemma_below_grows(ds, c + 1, k as int);
                }
                return None;
            },
        };
        x = append_cluster(ds, x, c, &slots);
        c += 1;
    }
    let k_pad = (k + 7) / 8 * 8;
    let centroids_soa_i16 = centres(&x.bbox_min, &x.bbox_max, k, k_pad);
    let idx = ClusterIndex {
        n: ds.n,
        k,
        k_pad,
        centroids_soa_i16,
        bbox_min: x.bbox_min,
        bbox_max: x.bbox_max,
        offsets: x.offsets,
        block_offsets: x.block_offsets,
        blocks: x.blocks,
        labels: x.labels,
        orig_ids: x.orig_ids,
    };
    proof {
        lemma_clustered(ds, &x, &idx);
    }
    Some(idx)
}

proof fn lemma_clustered(ds: &Dataset, x: &Columns, idx: &ClusterIndex)
    requires
        ds.k <= MAX_K,
        are_done(ds, x, ds.k as int),
        idx.n == ds.n,
        idx.k == ds.k,
        idx.k <= idx.k_pad <= MAX_K,
        idx.centroids_soa_i16@.len() == 14 * idx.k_pad,
        idx.bbox_min == x.bbox_min,
        idx.bbox_max == x.bbox_max,
        idx.offsets == x.offsets,
        idx.block_offsets == x.block_offsets,
        idx.blocks == x.blocks,
        idx.labels == x.labels,
        idx.orig_ids == x.orig_ids,
    ensures
        idx.well_formed(),
        idx.boxes_enclose(),
        forall|c: int| 0 <= c < ds.k ==> #[trigger] holds_slots(idx, c, ds, part_slots(ds, c)),
        forall|c: int, j: int|
            #![trigger idx.bbox_min@[c * 14 + j]]
            0 <= c < ds.k && 0 <= j < 14 ==> idx.bbox_min@[c * 14 + j] == lowest_in(
                ds,
                part_slots(ds, c),
                j,
                part_slots(ds, c).len() as int,
            ),
        forall|c: int, j: int|
            #![trigger idx.bbox_max@[c * 14 + j]]
            0 <= c < ds.k && 0 <= j < 14 ==> idx.bbox_max@[c * 14 + j] == highest_in(
                ds,
                part_slots(ds, c),
                j,
                part_slots(ds, c).len() as int,
            ),
{
    assert forall|c: int| 0 <= c < ds.k implies #[trigger] holds_slots(
        idx,
        c,
        ds,
        part_slots(ds, c),
    ) by {
        assert(is_done(ds, x, c));
        let slots = part_slots(ds, c);
        let at = idx.block_offsets@[c] as int;
        assert(idx.size(c) == slots.len());
        assert forall|i: int, j: int|
            0 <= i < slots.len() && 0 <= j < 14 implies #[trigger] idx.vector(at, i)[j]
            == slot_value(ds, slots[i], j) by {
            assert(x.blocks@[(at + i / 8) * 112 + j * 8 + i % 8] == slot_value(ds, slots[i], j));
        }
    }
    assert forall|c: int| 0 <= c < idx.k implies #[trigger] idx.cluster_ok(c) by {
        assert(is_done(ds, x, c));
    }
    assert forall|c: int, j: int|
        #![trigger idx.bbox_min@[c * 14 + j]]
        0 <= c < ds.k && 0 <= j < 14 implies idx.bbox_min@[c * 14 + j] == lowest_in(
        ds,
        part_slots(ds, c),
        j,
        part_slots(ds, c).len() as int,
    ) by {
        assert(is_done(ds, x, c));
    }
    assert forall|c: int, j: int|
        #![trigger idx.bbox_max@[c * 14 + j]]
        0 <= c < ds.k && 0 <= j < 14 implies idx.bbox_max@[c * 14 + j] == highest_in(
        ds,
        part_slots(ds, c),
        j,
        part_slots(ds, c).len() as int,
    ) by {
        assert(is_done(ds, x, c));
    }
    lemma_boxes(ds, idx);
}

proof fn lemma_boxes(ds: &Dataset, idx: &ClusterIndex)
    requires
        idx.k == ds.k,
        forall|c: int| 0 <= c < ds.k ==> #[trigger] holds_slots(idx, c, ds, part_slots(ds, c)),
        forall|c: int, j: int|
            #![trigger idx.bbox_min@[c * 14 + j]]
            0 <= c < ds.k && 0 <= j < 14 ==> idx.bbox_min@[c * 14 + j] == lowest_in(
                ds,
                part_slots(ds, c),
                j,
                part_slots(ds, c).len() as int,
            ),
        forall|c: int, j: int|
            #![trigger idx.bbox_max@[c * 14 + j]]
            0 <= c < ds.k && 0 <= j < 14 ==> idx.bbox_max@[c * 14 + j] == highest_in(
                ds,
                part_slots(ds, c),
                j,
                part_slots(ds, c).len() as int,
            ),
    ensures
        idx.boxes_enclose(),
{
    assert forall|c: int, i: int, j: int|
        #![trigger idx.vector(idx.block_offsets[c] as int, i)[j]]
        0 <= c < idx.k && 0 <= i < idx.size(c) && 0 <= j < DIM implies idx.bbox_min[c * 14 + j]
        <= idx.vector(idx.block_offsets[c] as int, i)[j] <= idx.bbox_max[c * 14 + j] by {
        let slots = part_slots(ds, c);
        assert(holds_slots(idx, c, ds, slots));
        lemma_between(ds, slots, j, slots.len() as int, i);
        assert(idx.bbox_min@[c * 14 + j] <= slot_value(ds, slots[i], j));
        assert(slot_value(ds, slots[i], j) <= idx.bbox_max@[c * 14 + j]);
    }
}

/// The centroid of a cluster is the middle of its box, and each side of the box touches a
/// vector of the cluster.
#[verifier::rlimit(50)]
pub proof fn law_centroid_is_the_middle_of_its_box(ds: &Dataset, idx: &ClusterIndex, c: int, j: int)
    requires
        is_clustered(ds, idx),
        0 <= c < ds.k,
        0 <= j < 14,
    ensures
        ({
            let lo = idx.bbox_min@[c * 14 + j] as int;
            let hi = idx.bbox_max@[c * 14 + j] as int;
            let mid = idx.centroids_soa_i16@[j * idx.k_pad + c] as int;
            let n = idx.size(c);
            &&& 2 * mid <= lo + hi < 2 * mid + 2
            &&& forall|i: int|
                0 <= i < n ==> lo <= #[trigger] idx.vector(idx.block_offsets@[c] as int, i)[j] <= hi
            &&& n > 0 ==> exists|i: int|
                0 <= i < n && #[trigger] idx.vector(idx.block_offsets@[c] as int, i)[j] == lo
            &&& n > 0 ==> exists|i: int|
                0 <= i < n && #[trigger] idx.vector(idx.block_offsets@[c] as int, i)[j] == hi
        }),
{
    let slots = part_slots(ds, c);
    let n = slots.len() as int;
    let at = idx.block_offsets@[c] as int;
    assert(holds_slots(idx, c, ds, slots));
    assert(idx.centroids_soa_i16@[j * idx.k_pad + c] == middle(
        idx.bbox_min@[c * 14 + j],
        idx.bbox_max@[c * 14 + j],
    ));
    lemma_extremes_in(ds, slots, j, n);
    assert forall|i: int| 0 <= i < n implies #[trigger] idx.vector(at, i)[j] == slot_value(
        ds,
        slots[i],
        j,
    ) by {}
    if n > 0 {
        let a = choose|i: int|
            0 <= i < n && slot_value(ds, #[trigger] slots[i], j) == lowest_in(ds, slots, j, n);
        assert(idx.vector(at, a)[j] == slot_value(ds, slots[a], j));
        let z = choose|i: int|
            0 <= i < n && slot_value(ds, #[trigger] slots[i], j) == highest_in(ds, slots, j, n);
        assert(idx.vector(at, z)[j] == slot_value(ds, slots[z], j));
    }
}

proof fn lemma_extremes_in(ds: &Dataset, slots: Seq<int>, j: int, n: int)
    requires
        0 <= n <= slots.len(),
    ensures
        forall|i: int|
            0 <= i < n ==> lowest_in(ds, slots, j, n) <= slot_value(ds, #[trigger] slots[i], j)
                <= highest_in(ds, slots, j, n),
        n > 0 ==> exists|i: int|
            0 <= i < n && slot_value(ds, #[trigger] slots[i], j) == lowest_in(ds, slots, j, n),
        n > 0 ==> exists|i: int|
            0 <= i < n && slot_value(ds, #[trigger] slots[i], j) == highest_in(ds, slots, j, n),
    decreases n,
{
    if n > 0 {
        lemma_extremes_in(ds, slots, j, n - 1);
        let v = slot_value(ds, slots[n - 1], j);
        if n == 1 {
            assert(lowest_in(ds, slots, j, 0) == i16::MAX);
            assert(highest_in(ds, slots, j, 0) == i16::MIN);
        }
    }
}

} // verus!
