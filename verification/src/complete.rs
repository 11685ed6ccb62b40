//! Why a search of a built index leaves out no reference vector, and looks at none of
//! them twice.

use vstd::prelude::*;

use crate::clusters::{
    holds_slots, is_clustered, leaf_ok, leaf_slots, part_end, part_ok, part_slots, searchable,
    slot_value, slots_below, slots_between,
};
use crate::dataset::{Dataset, STORE_DIM};
use crate::encode::law_file_gives_back_the_index;
use crate::exact::law_exact_search_finds_nearest;
use crate::ivf::{sq_dist, ClusterIndex};
use crate::knn::{nearest_count, Top5};
use crate::partitions::{
    block_value, is_built, is_columns, law_features_lie_in_pairs, lemma_bucket, lemma_tree_of_part,
    lemma_used_keys, lemma_used_keys_ascend, members, parts_of, start_of, starts_at, used_keys,
    Built,
};
use crate::tree::{law_tree_stores_each_vector_once, slot_of, splits, stored, tree_of};
use crate::write::{is_index_file, key_of, BuildNode, PartitionRoot, Slot};

verus! {

proof fn lemma_slots_join(ds: &Dataset, a: int, b: int, c: int)
    requires
        a <= b <= c,
    ensures
        slots_between(ds, a, c) == slots_between(ds, a, b) + slots_between(ds, b, c),
    decreases c - b,
{
    if b < c {
        lemma_slots_join(ds, a, b, c - 1);
        assert(slots_between(ds, a, c) =~= slots_between(ds, a, b) + slots_between(ds, b, c));
    } else {
        assert(slots_between(ds, a, c) =~= slots_between(ds, a, b) + slots_between(ds, b, c));
    }
}

/// What the slots `at` hold.
pub open spec fn held_in(slots: Seq<Slot>, at: Seq<int>) -> Seq<Slot> {
    Seq::new(at.len(), |i: int| slots[at[i]])
}

/// The columns of the nodes say what the nodes say.
spec fn same_nodes(ds: &Dataset, nodes: Seq<BuildNode>) -> bool {
    &&& forall|i: int| 0 <= i < nodes.len() ==> #[trigger] ds.node_left@[i] == nodes[i].left
    &&& forall|i: int| 0 <= i < nodes.len() ==> #[trigger] ds.node_start@[i] == start_of(nodes[i])
    &&& forall|i: int| 0 <= i < nodes.len() ==> #[trigger] ds.node_len@[i] == nodes[i].len
}

/// The leaves of a tree, one node after the other, are its leaves from left to right.
proof fn lemma_leaves_in_order(
    ds: &Dataset,
    vs: Seq<[i16; STORE_DIM]>,
    ls: Seq<u8>,
    leaf: int,
    nodes: Seq<BuildNode>,
    slots: Seq<Slot>,
    root: int,
    idx: Seq<usize>,
    node_end: int,
    slot_start: int,
    slot_end: int,
)
    requires
        tree_of(vs, ls, leaf, nodes, slots, root, idx, node_end, slot_start, slot_end),
        same_nodes(ds, nodes),
    ensures
        held_in(slots, slots_between(ds, root, node_end)) == stored(nodes, slots, root),
        slots_between(ds, root, node_end).len() == idx.len(),
        idx.len() <= slot_end - slot_start,
        forall|i: int|
            0 <= i < idx.len() ==> 0 <= #[trigger] slots_between(ds, root, node_end)[i] < slots.len(),
        forall|x: int|
            root <= x < node_end && (#[trigger] nodes[x]).left < 0 ==> nodes[x].start >= 0
                && nodes[x].start % 8 == 0 && nodes[x].len >= 0 && nodes[x].start + nodes[x].len
                <= slots.len(),
    decreases idx.len(),
{
    let n = nodes[root];
    let half = idx.len() as int / 2;
    let all = slots_between(ds, root, node_end);
    if idx.len() <= leaf {
        assert(ds.node_left@[root] == n.left);
        assert(ds.node_start@[root] == start_of(n));
        assert(ds.node_len@[root] == n.len);
        assert(slots_between(ds, root, root) =~= Seq::empty());
        assert(all =~= leaf_slots(ds, root));
        assert(n.start as int / 8 * 8 == n.start);
        assert(held_in(slots, all) =~= stored(nodes, slots, root));
    } else {
        let (sorted, mid_node, mid_slot) = choose|sorted: Seq<usize>, mid_node: int, mid_slot: int|
            {
                &&& #[trigger] splits(vs, n, root, idx, sorted, mid_node, mid_slot)
                &&& 0 < half < idx.len()
                &&& tree_of(
                    vs,
                    ls,
                    leaf,
                    nodes,
                    slots,
                    root + 1,
                    sorted.take(half),
                    mid_node,
                    slot_start,
                    mid_slot,
                )
                &&& tree_of(
                    vs,
                    ls,
                    leaf,
                    nodes,
                    slots,
                    mid_node,
                    sorted.skip(half),
                    node_end,
                    mid_slot,
                    slot_end,
                )
            };
        lemma_leaves_in_order(
            ds,
            vs,
            ls,
            leaf,
            nodes,
            slots,
            root + 1,
            sorted.take(half),
            mid_node,
            slot_start,
            mid_slot,
        );
        lemma_leaves_in_order(
            ds,
            vs,
            ls,
            leaf,
            nodes,
            slots,
            mid_node,
            sorted.skip(half),
            node_end,
            mid_slot,
            slot_end,
        );
        assert(ds.node_left@[root] == n.left);
        lemma_slots_join(ds, root, root + 1, node_end);
        lemma_slots_join(ds, root + 1, mid_node, node_end);
        assert(slots_between(ds, root, root) =~= Seq::empty());
        assert(slots_between(ds, root, root + 1) =~= Seq::empty());
        let a = slots_between(ds, root + 1, mid_node);
        let b = slots_between(ds, mid_node, node_end);
        assert(all =~= a + b);
        assert(stored(nodes, slots, root) == stored(nodes, slots, root + 1) + stored(
            nodes,
            slots,
            mid_node,
        ));
        assert(held_in(slots, all) =~= held_in(slots, a) + held_in(slots, b));
        assert forall|i: int| 0 <= i < idx.len() implies 0 <= #[trigger] all[i] < slots.len() by {
            if i < a.len() {
                assert(all[i] == a[i]);
            } else {
                assert(all[i] == b[i - a.len()]);
            }
        }
    }
}

proof fn lemma_nodes_are_sound(
    ds: &Dataset,
    vs: Seq<[i16; STORE_DIM]>,
    ls: Seq<u8>,
    leaf: int,
    nodes: Seq<BuildNode>,
    slots: Seq<Slot>,
    roots: Seq<PartitionRoot>,
    p: int,
    node_end: int,
    slot_end: int,
)
    requires
        0 <= p <= roots.len(),
        parts_of(vs, ls, leaf, nodes, slots, roots, p, node_end, slot_end),
        same_nodes(ds, nodes),
        node_end <= nodes.len(),
        slot_end <= slots.len(),
        ds.k == roots.len(),
        forall|i: int| 0 <= i < roots.len() ==> #[trigger] ds.part_roots@[i] == roots[i].root,
    ensures
        0 <= node_end,
        forall|x: int|
            0 <= x < node_end && (#[trigger] nodes[x]).left < 0 ==> nodes[x].start >= 0
                && nodes[x].start % 8 == 0 && nodes[x].len >= 0 && nodes[x].start + nodes[x].len
                <= slots.len(),
        forall|i: int|
            0 <= i < p - 1 ==> 0 <= #[trigger] ds.part_roots@[i] <= ds.part_roots@[i + 1]
                < node_end,
        p > 0 ==> 0 <= ds.part_roots@[p - 1] < node_end,
        p > 0 ==> slots_below(ds, p - 1) + slots_between(
            ds,
            ds.part_roots@[p - 1] as int,
            node_end,
        ).len() <= slot_end,
        p == 0 ==> slots_below(ds, p) == 0 <= slot_end,
    decreases p,
{
    if p > 0 {
        let (root, slot_start) = choose|root: int, slot_start: int|
            {
                &&& #[trigger] starts_at(roots[p - 1], root, slot_start)
                &&& parts_of(vs, ls, leaf, nodes, slots, roots, p - 1, root, slot_start)
                &&& tree_of(
                    vs,
                    ls,
                    leaf,
                    nodes,
                    slots,
                    root,
                    members(vs, roots[p - 1].key as int),
                    node_end,
                    slot_start,
                    slot_end,
                )
            };
        lemma_nodes_are_sound(ds, vs, ls, leaf, nodes, slots, roots, p - 1, root, slot_start);
        lemma_leaves_in_order(
            ds,
            vs,
            ls,
            leaf,
            nodes,
            slots,
            root,
            members(vs, roots[p - 1].key as int),
            node_end,
            slot_start,
            slot_end,
        );
        assert(ds.part_roots@[p - 1] == roots[p - 1].root);
        if p > 1 {
            assert(part_slots(ds, p - 2) == slots_between(ds, ds.part_roots@[p - 2] as int, root));
            assert(slots_below(ds, p - 1) == slots_below(ds, p - 2) + part_slots(ds, p - 2).len());
        }
    }
}

/// An index that was built can be searched.
pub proof fn law_built_index_can_be_searched(
    ds: &Dataset,
    vs: Seq<[i16; STORE_DIM]>,
    ls: Seq<u8>,
    leaf: int,
    b: &Built,
)
    requires
        is_built(vs, ls, leaf, b),
        is_columns(ds, b, vs.len() as int),
        b.slots@.len() <= u32::MAX,
    ensures
        searchable(ds),
{
    let k = b.roots@.len() as int;
    lemma_nodes_are_sound(
        ds,
        vs,
        ls,
        leaf,
        b.nodes@,
        b.slots@,
        b.roots@,
        k,
        b.nodes@.len() as int,
        b.slots@.len() as int,
    );
    lemma_used_keys_few(vs, 256);
    assert forall|p: int| 0 <= p < ds.k implies #[trigger] part_ok(ds, p) by {
        if p < k - 1 {
            assert(0 <= ds.part_roots@[p] <= ds.part_roots@[p + 1]);
        }
    }
    assert forall|x: int| 0 <= x < ds.nodes() implies #[trigger] leaf_ok(ds, x) by {
        let n = b.nodes@[x];
        assert(ds.node_left@[x] == n.left);
        assert(ds.node_start@[x] == start_of(n));
        assert(ds.node_len@[x] == n.len);
        if n.left < 0 {
            assert(n.start as int / 8 * 8 == n.start);
        }
    }
    if k > 0 {
        assert(part_end(ds, k - 1) == b.nodes@.len());
        assert(slots_below(ds, k) == slots_below(ds, k - 1) + part_slots(ds, k - 1).len());
    }
}

proof fn lemma_used_keys_few(vs: Seq<[i16; STORE_DIM]>, k: int)
    requires
        0 <= k,
    ensures
        used_keys(vs, k).len() <= k,
    decreases k,
{
    if k > 0 {
        lemma_used_keys_few(vs, k - 1);
    }
}

proof fn lemma_position(slot: int, j: int, blocks: int)
    requires
        0 <= slot < 8 * blocks,
        0 <= j < 14,
    ensures
        0 <= slot / 8,
        0 <= slot / 8 * 112 + j / 2 * 16 + slot % 8 * 2 + j % 2 < 112 * blocks,
        slot / 8 * 8 + slot % 8 == slot,
{
    assert(slot / 8 + 1 <= blocks);
    assert(j / 2 * 16 <= 96);
    assert(slot % 8 * 2 <= 14);
}

#[verifier::spinoff_prover]
#[verifier::rlimit(40)]
proof fn lemma_slot_values(ds: &Dataset, b: &Built, n: int, slot: int, j: int)
    requires
        is_columns(ds, b, n),
        0 <= slot < b.slots@.len(),
        0 <= j < 14,
    ensures
        slot_value(ds, slot, j) == b.slots@[slot].vector@[j],
{
    let block = slot / 8;
    let lane = slot % 8;
    let p = block * 112 + j / 2 * 16 + lane * 2 + j % 2;
    lemma_position(slot, j, ds.block_total());
    law_features_lie_in_pairs(b.slots@, block, lane, j);
    assert(ds.blocks@[p] == block_value(b.slots@, p));
}

/// `item` is what the search makes of reference vector `i`, but for its number.
pub open spec fn is_reference(
    item: Top5,
    q: Seq<i16>,
    vs: Seq<[i16; STORE_DIM]>,
    ls: Seq<u8>,
    i: int,
) -> bool {
    &&& item.dist == sq_dist(q, vs[i]@.take(14), 14) as i64
    &&& item.label == ls[i]
}

/// The items are those of the reference vectors `placed`, one by one, and none of
/// these comes twice.
pub open spec fn are_references(
    items: Seq<Top5>,
    q: Seq<i16>,
    vs: Seq<[i16; STORE_DIM]>,
    ls: Seq<u8>,
    placed: Seq<usize>,
) -> bool {
    &&& items.len() == placed.len()
    &&& placed.no_duplicates()
    &&& forall|g: int| 0 <= g < placed.len() ==> (#[trigger] placed[g]) < vs.len()
    &&& forall|g: int|
        0 <= g < placed.len() ==> is_reference(#[trigger] items[g], q, vs, ls, placed[g] as int)
}

proof fn lemma_same_dist(q: Seq<i16>, a: Seq<i16>, b: Seq<i16>, n: int)
    requires
        forall|j: int| 0 <= j < n ==> #[trigger] a[j] == b[j],
    ensures
        sq_dist(q, a, n) == sq_dist(q, b, n),
    decreases n,
{
    if n > 0 {
        lemma_same_dist(q, a, b, n - 1);
    }
}

/// The order in which cluster `c` holds the members of its partition.
proof fn lemma_cluster_references(
    ds: &Dataset,
    idx: &ClusterIndex,
    vs: Seq<[i16; STORE_DIM]>,
    ls: Seq<u8>,
    leaf: int,
    b: &Built,
    q: Seq<i16>,
    c: int,
) -> (placed: Seq<usize>)
    requires
        is_built(vs, ls, leaf, b),
        is_columns(ds, b, vs.len() as int),
        is_clustered(ds, idx),
        vs.len() <= usize::MAX,
        ls.len() == vs.len(),
        0 <= c < ds.k,
    ensures
        are_references(idx.cluster_items(q, c), q, vs, ls, placed),
        forall|i: int|
            0 <= i < vs.len() ==> (#[trigger] placed.contains(i as usize) <==> key_of(vs[i]@)
                == b.roots@[c].key),
{
    let key = b.roots@[c].key as int;
    let want = members(vs, key);
    let e = lemma_tree_of_part(
        vs,
        ls,
        leaf,
        b.nodes@,
        b.slots@,
        b.roots@,
        b.roots@.len() as int,
        b.nodes@.len() as int,
        b.slots@.len() as int,
        c,
    );
    let root = b.roots@[c].root as int;
    assert(ds.part_roots@[c] == root);
    if c + 1 < ds.k {
        assert(ds.part_roots@[c + 1] == b.roots@[c + 1].root);
    }
    assert(part_end(ds, c) == e.node_end);
    let at = part_slots(ds, c);
    lemma_leaves_in_order(
        ds,
        vs,
        ls,
        leaf,
        b.nodes@,
        b.slots@,
        root,
        want,
        e.node_end,
        e.slot_start,
        e.slot_end,
    );
    let placed = law_tree_stores_each_vector_once(
        vs,
        ls,
        leaf,
        b.nodes@,
        b.slots@,
        root,
        want,
        e.node_end,
        e.slot_start,
        e.slot_end,
    );
    let held = stored(b.nodes@, b.slots@, root);
    let items = idx.cluster_items(q, c);
    assert(holds_slots(idx, c, ds, at));
    want.to_multiset_ensures();
    placed.to_multiset_ensures();
    if vs.len() > 0 {
        lemma_bucket(vs, key, vs.len() as int, 0);
    }
    want.lemma_multiset_has_no_duplicates();
    placed.lemma_multiset_has_no_duplicates_conv();
    assert forall|g: int| 0 <= g < placed.len() implies (#[trigger] placed[g]) < vs.len() by {
        assert(placed.contains(placed[g]));
        assert(placed.to_multiset().count(placed[g]) > 0);
        assert(want.contains(placed[g]));
        crate::partitions::lemma_bucket_in_range(vs, key, vs.len() as int);
    }
    assert forall|g: int| 0 <= g < placed.len() implies is_reference(
        #[trigger] items[g],
        q,
        vs,
        ls,
        placed[g] as int,
    ) by {
        let slot = at[g];
        let v = idx.vector(idx.block_offsets@[c] as int, g);
        let i = placed[g] as int;
        assert(held_in(b.slots@, at)[g] == b.slots@[slot]);
        assert(held[g] == slot_of(vs, ls, i));
        assert(0 <= slot < b.slots@.len());
        assert forall|j: int| 0 <= j < 14 implies #[trigger] v[j] == vs[i]@.take(14)[j] by {
            lemma_slot_values(ds, b, vs.len() as int, slot, j);
            assert(v[j] == slot_value(ds, slot, j));
        }
        lemma_same_dist(q, v, vs[i]@.take(14), 14);
        assert(idx.labels@[idx.offsets@[c] + g] == ds.labels@[slot]);
        assert(ds.labels@[slot] == b.slots@[slot].label);
    }
    assert forall|i: int| 0 <= i < vs.len() implies (#[trigger] placed.contains(i as usize)
        <==> key_of(vs[i]@) == b.roots@[c].key) by {
        lemma_bucket(vs, key, vs.len() as int, i);
        assert(placed.to_multiset().count(i as usize) == want.to_multiset().count(i as usize));
    }
    placed
}

proof fn lemma_references_below(
    ds: &Dataset,
    idx: &ClusterIndex,
    vs: Seq<[i16; STORE_DIM]>,
    ls: Seq<u8>,
    leaf: int,
    b: &Built,
    q: Seq<i16>,
    c: int,
) -> (placed: Seq<usize>)
    requires
        is_built(vs, ls, leaf, b),
        is_columns(ds, b, vs.len() as int),
        is_clustered(ds, idx),
        0 < vs.len() <= usize::MAX,
        ls.len() == vs.len(),
        0 <= c <= ds.k,
    ensures
        are_references(idx.items_below(q, c), q, vs, ls, placed),
        forall|i: int|
            0 <= i < vs.len() ==> (#[trigger] placed.contains(i as usize) <==> exists|d: int|
                0 <= d < c && key_of(vs[i]@) == (#[trigger] b.roots@[d]).key),
    decreases c,
{
    if c == 0 {
        let placed: Seq<usize> = Seq::empty();
        placed
    } else {
        let first = lemma_references_below(ds, idx, vs, ls, leaf, b, q, c - 1);
        let last = lemma_cluster_references(ds, idx, vs, ls, leaf, b, q, c - 1);
        let placed = first + last;
        let a = idx.items_below(q, c - 1);
        let z = idx.cluster_items(q, c - 1);
        let items = idx.items_below(q, c);
        assert(items == a + z);
        lemma_used_keys_ascend(vs, 256);
        let key = b.roots@[c - 1].key;
        assert forall|x: int, y: int|
            0 <= x < first.len() && 0 <= y < last.len() implies first[x] != last[y] by {
            if first[x] == last[y] {
                let i = first[x] as int;
                assert(first[x] < vs.len());
                assert(first.contains(i as usize));
                assert(last.contains(i as usize));
                let d = choose|d: int|
                    0 <= d < c - 1 && key_of(vs[i]@) == (#[trigger] b.roots@[d]).key;
                assert(b.roots@[d].key == used_keys(vs, 256)[d]);
                assert(b.roots@[c - 1].key == used_keys(vs, 256)[c - 1]);
                assert(used_keys(vs, 256)[d] < used_keys(vs, 256)[c - 1]);
            }
        }
        assert(placed.no_duplicates()) by {
            assert forall|x: int, y: int|
                0 <= x < placed.len() && 0 <= y < placed.len() && x != y implies placed[x]
                != placed[y] by {
                if x < first.len() && y < first.len() {
                } else if x < first.len() {
                    assert(first[x] != last[y - first.len()]);
                } else if y < first.len() {
                    assert(first[y] != last[x - first.len()]);
                } else {
                    assert(last[x - first.len()] != last[y - first.len()]);
                }
            }
        }
        assert forall|g: int| 0 <= g < placed.len() implies (#[trigger] placed[g]) < vs.len() by {
            if g < first.len() {
                assert(first[g] < vs.len());
            } else {
                assert(last[g - first.len()] < vs.len());
            }
        }
        assert forall|g: int| 0 <= g < placed.len() implies is_reference(
            #[trigger] items[g],
            q,
            vs,
            ls,
            placed[g] as int,
        ) by {
            if g < first.len() {
                assert(items[g] == a[g]);
                assert(is_reference(a[g], q, vs, ls, first[g] as int));
            } else {
                assert(items[g] == z[g - first.len()]);
                assert(is_reference(z[g - first.len()], q, vs, ls, last[g - first.len()] as int));
            }
        }
        assert forall|i: int| 0 <= i < vs.len() implies (#[trigger] placed.contains(i as usize)
            <==> exists|d: int| 0 <= d < c && key_of(vs[i]@) == (#[trigger] b.roots@[d]).key) by {
            let u = i as usize;
            if placed.contains(u) {
                let g = placed.index_of(u);
                if g < first.len() {
                    assert(first[g] == u);
                    assert(first.contains(u));
                } else {
                    assert(last[g - first.len()] == u);
                    assert(last.contains(u));
                    assert(key_of(vs[i]@) == b.roots@[c - 1].key);
                }
            }
            if exists|d: int| 0 <= d < c && key_of(vs[i]@) == (#[trigger] b.roots@[d]).key {
                let d = choose|d: int|
                    0 <= d < c && key_of(vs[i]@) == (#[trigger] b.roots@[d]).key;
                if d < c - 1 {
                    assert(first.contains(u));
                    assert(placed[first.index_of(u)] == u);
                } else {
                    assert(last.contains(u));
                    assert(placed[first.len() + last.index_of(u)] == u);
                }
            }
        }
        placed
    }
}

/// From the reference vectors to the search, nothing is lost: what a search of the
/// built index goes through is every reference vector, with its distance to the
/// query and its label, exactly once. The result says in which order.
pub proof fn law_search_sees_every_reference_once(
    ds: &Dataset,
    idx: &ClusterIndex,
    vs: Seq<[i16; STORE_DIM]>,
    ls: Seq<u8>,
    leaf: int,
    b: &Built,
    q: Seq<i16>,
) -> (placed: Seq<usize>)
    requires
        is_built(vs, ls, leaf, b),
        is_columns(ds, b, vs.len() as int),
        is_clustered(ds, idx),
        0 < vs.len() <= usize::MAX,
        ls.len() == vs.len(),
    ensures
        are_references(idx.all_items(q), q, vs, ls, placed),
        forall|i: int| 0 <= i < vs.len() ==> #[trigger] placed.contains(i as usize),
{
    let placed = lemma_references_below(ds, idx, vs, ls, leaf, b, q, ds.k as int);
    assert forall|i: int| 0 <= i < vs.len() implies #[trigger] placed.contains(i as usize) by {
        let key = key_of(vs[i]@);
        lemma_bucket(vs, key, vs.len() as int, i);
        let p = lemma_used_keys(vs, key, 256);
        assert(b.roots@[p].key == used_keys(vs, 256)[p]);
    }
    placed
}

/// From the reference vectors to the answer: an index loaded from their index file can
/// be searched, its clusters hold every reference vector exactly once, in the order
/// `r`, and the thorough search counts the frauds among five nearest of them.
pub proof fn law_thorough_search_counts_nearest_references(
    vs: Seq<[i16; STORE_DIM]>,
    ls: Seq<u8>,
    leaf: int,
    file: Seq<u8>,
    ds: &Dataset,
    idx: &ClusterIndex,
    q: Seq<i16>,
    order: Seq<usize>,
) -> (r: Seq<usize>)
    requires
        is_index_file(vs, ls, leaf, file),
        0 < vs.len() <= usize::MAX,
        ls.len() == vs.len(),
        ds.well_formed(),
        ds.is_file(file),
        is_clustered(ds, idx),
        forall|t: int| 0 <= t < order.len() ==> (#[trigger] order[t]) < idx.k,
    ensures
        searchable(ds),
        are_references(idx.all_items(q), q, vs, ls, r),
        forall|i: int| 0 <= i < vs.len() ==> #[trigger] r.contains(i as usize),
        nearest_count(idx.all_items(q), idx.search_result(q, order, i64::MIN, false)),
{
    let (b, built) = choose|b: Built, built: Dataset|
        {
            &&& is_built(vs, ls, leaf, &b)
            &&& b.slots@.len() <= i32::MAX
            &&& #[trigger] is_columns(&built, &b, vs.len() as int)
            &&& built.is_file(file)
        };
    law_file_gives_back_the_index(&built, ds, file);
    assert(is_columns(ds, &b, vs.len() as int));
    law_built_index_can_be_searched(ds, vs, ls, leaf, &b);
    law_exact_search_finds_nearest(idx, q, order);
    law_search_sees_every_reference_once(ds, idx, vs, ls, leaf, &b, q)
}

} // verus!
