//! The tree of a partition.

use vstd::prelude::*;

use crate::dataset::{LANES, STORE_DIM};
use crate::write::{
    ascending, bounds, feature, highest, in_range, is_box, is_widest, lowest, sort_by_feature,
    widest_dim, width, BuildNode, Slot,
};

verus! {

/// What is stored of vector `i`.
pub open spec fn slot_of(vs: Seq<[i16; STORE_DIM]>, ls: Seq<u8>, i: int) -> Slot {
    Slot { vector: vs[i], label: ls[i] }
}

/// A slot that fills up a block.
pub open spec fn is_padding(s: Slot) -> bool {
    &&& forall|d: int| 0 <= d < 16 ==> #[trigger] s.vector@[d] == i16::MAX
    &&& s.label == 0
}

/// The node `n` is a leaf over the slots from `slot_start` to `slot_end`, which hold
/// the vectors `idx` and fill up the last block.
pub open spec fn is_leaf(
    vs: Seq<[i16; STORE_DIM]>,
    ls: Seq<u8>,
    n: BuildNode,
    slots: Seq<Slot>,
    idx: Seq<usize>,
    slot_start: int,
    slot_end: int,
) -> bool {
    &&& n.left == -1
    &&& n.right == -1
    &&& slot_end == slot_start + (idx.len() + 7) / 8 * 8
    &&& forall|i: int|
        0 <= i < idx.len() ==> #[trigger] slots[slot_start + i] == slot_of(vs, ls, idx[i] as int)
    &&& forall|i: int| idx.len() <= i < slot_end - slot_start ==> is_padding(
        #[trigger] slots[slot_start + i],
    )
}

/// `sorted` are the vectors `idx` in ascending order of the feature along which
/// their box, that of `n`, stretches farthest.
pub open spec fn is_order(
    vs: Seq<[i16; STORE_DIM]>,
    n: BuildNode,
    idx: Seq<usize>,
    sorted: Seq<usize>,
) -> bool {
    &&& sorted.len() == idx.len()
    &&& sorted.to_multiset() == idx.to_multiset()
    &&& exists|d: int| #[trigger] is_widest(n.min@, n.max@, d) && ascending(vs, sorted, d)
}

/// The inner node `n`, at `root`, has the first half of `sorted` to its left, and the
/// second half to its right, from node `mid_node` and slot `mid_slot` on.
pub open spec fn splits(
    vs: Seq<[i16; STORE_DIM]>,
    n: BuildNode,
    root: int,
    idx: Seq<usize>,
    sorted: Seq<usize>,
    mid_node: int,
    mid_slot: int,
) -> bool {
    &&& is_order(vs, n, idx, sorted)
    &&& n.left == root + 1
    &&& n.right == mid_node
    &&& 0 <= mid_slot
}

/// The nodes from `root` to `node_end` are a tree over the vectors `idx`, which its
/// leaves keep in the slots from `slot_start` to `slot_end`.
pub open spec fn tree_of(
    vs: Seq<[i16; STORE_DIM]>,
    ls: Seq<u8>,
    leaf: int,
    nodes: Seq<BuildNode>,
    slots: Seq<Slot>,
    root: int,
    idx: Seq<usize>,
    node_end: int,
    slot_start: int,
    slot_end: int,
) -> bool
    decreases idx.len(),
{
    let n = nodes[root];
    let half = idx.len() as int / 2;
    &&& 0 <= root < node_end <= nodes.len()
    &&& 0 <= slot_start <= slot_end <= slots.len()
    &&& slot_start % 8 == 0
    &&& slot_end % 8 == 0
    &&& is_box(vs, idx, idx.len() as int, n.min@, n.max@)
    &&& n.len == idx.len()
    &&& n.start == slot_start
    &&& if idx.len() <= leaf {
        node_end == root + 1 && is_leaf(vs, ls, n, slots, idx, slot_start, slot_end)
    } else {
        exists|sorted: Seq<usize>, mid_node: int, mid_slot: int|
            {
                &&& #[trigger] splits(vs, n, root, idx, sorted, mid_node, mid_slot)
                &&& 0 < half < idx.len()
                &&& tree_of(
                    vs,
                    ls,
                    leaf,
                    nodes,
                    slots,
                    root + 1,
                    sorted.take(half),
                    mid_node,
                    slot_start,
                    mid_slot,
                )
                &&& tree_of(
                    vs,
                    ls,
                    leaf,
                    nodes,
                    slots,
                    mid_node,
                    sorted.skip(half),
                    node_end,
                    mid_slot,
                    slot_end,
                )
            }
    }
}

/// The slots that the leaves of a tree over `n` vectors take up.
pub open spec fn slots_of(n: int, leaf: int) -> int
    decreases n,
{
    if n <= leaf || n <= 1 {
        (n + 7) / 8 * 8
    } else {
        slots_of(n / 2, leaf) + slots_of(n - n / 2, leaf)
    }
}

/// The nodes of a tree over `n` vectors.
pub open spec fn nodes_of(n: int, leaf: int) -> int
    decreases n,
{
    if n <= leaf || n <= 1 {
        1
    } else {
        1 + nodes_of(n / 2, leaf) + nodes_of(n - n / 2, leaf)
    }
}

pub proof fn lemma_sizes(n: int, leaf: int)
    requires
        0 <= n,
        1 <= leaf,
    ensures
        n <= slots_of(n, leaf) <= 8 * n,
        slots_of(n, leaf) % 8 == 0,
        1 <= nodes_of(n, leaf),
        n > 0 ==> 4 * (nodes_of(n, leaf) + 1) <= slots_of(n, leaf),
    decreases n,
{
    if n > leaf {
        lemma_sizes(n / 2, leaf);
        lemma_sizes(n - n / 2, leaf);
    }
}

/// Counts the slots that the leaves of a tree over `n` vectors take up.
pub fn slot_count(n: usize, leaf: usize) -> (r: u64)
    requires
        leaf >= 1,
        n <= i32::MAX,
    ensures
        r == slots_of(n as int, leaf as int),
    decreases n,
{
    proof {
        lemma_sizes(n as int, leaf as int);
    }
    if n <= leaf {
        (n as u64 + 7) / 8 * 8
    } else {
        proof {
            lemma_sizes(n as int / 2, leaf as int);
            lemma_sizes(n - n as int / 2, leaf as int);
        }
        slot_count(n / 2, leaf) + slot_count(n - n / 2, leaf)
    }
}

/// `a` and `b` agree from `from` to `to`.
pub open spec fn same_part<T>(a: Seq<T>, b: Seq<T>, from: int, to: int) -> bool {
    &&& to <= a.len()
    &&& to <= b.len()
    &&& forall|i: int|
        #![trigger a[i]]
        #![trigger b[i]]
        from <= i < to ==> a[i] == b[i]
}

pub proof fn lemma_tree_frame(
    vs: Seq<[i16; STORE_DIM]>,
    ls: Seq<u8>,
    leaf: int,
    nodes: Seq<BuildNode>,
    slots: Seq<Slot>,
    nodes2: Seq<BuildNode>,
    slots2: Seq<Slot>,
    root: int,
    idx: Seq<usize>,
    node_end: int,
    slot_start: int,
    slot_end: int,
)
    requires
        tree_of(vs, ls, leaf, nodes, slots, root, idx, node_end, slot_start, slot_end),
        same_part(nodes, nodes2, root, node_end),
        same_part(slots, slots2, slot_start, slot_end),
    ensures
        tree_of(vs, ls, leaf, nodes2, slots2, root, idx, node_end, slot_start, slot_end),
    decreases idx.len(),
{
    let n = nodes[root];
    let half = idx.len() as int / 2;
    assert(nodes2[root] == n);
    if idx.len() <= leaf {
        assert forall|i: int| 0 <= i < idx.len() implies #[trigger] slots2[slot_start + i] == slot_of(
            vs,
            ls,
            idx[i] as int,
        ) by {
            assert(slots[slot_start + i] == slot_of(vs, ls, idx[i] as int));
        }
        assert forall|i: int| idx.len() <= i < slot_end - slot_start implies is_padding(
            #[trigger] slots2[slot_start + i],
        ) by {
            assert(is_padding(slots[slot_start + i]));
        }
    } else {
        let (sorted, mid_node, mid_slot) = choose|sorted: Seq<usize>, mid_node: int, mid_slot: int|
            {
                &&& #[trigger] splits(vs, n, root, idx, sorted, mid_node, mid_slot)
                &&& 0 < half < idx.len()
                &&& tree_of(
                    vs,
                    ls,
                    leaf,
                    nodes,
                    slots,
                    root + 1,
                    sorted.take(half),
                    mid_node,
                    slot_start,
                    mid_slot,
                )
                &&& tree_of(
                    vs,
                    ls,
                    leaf,
                    nodes,
                    slots,
                    mid_node,
                    sorted.skip(half),
                    node_end,
                    mid_slot,
                    slot_end,
                )
            };
        lemma_tree_frame(
            vs,
            ls,
            leaf,
            nodes,
            slots,
            nodes2,
            slots2,
            root + 1,
            sorted.take(half),
            mid_node,
            slot_start,
            mid_slot,
        );
        lemma_tree_frame(
            vs,
            ls,
            leaf,
            nodes,
            slots,
            nodes2,
            slots2,
            mid_node,
            sorted.skip(half),
            node_end,
            mid_slot,
            slot_end,
        );
    }
}

proof fn lemma_same_multiset_in_range(a: Seq<usize>, b: Seq<usize>, n: int)
    requires
        a.to_multiset() == b.to_multiset(),
        in_range(a, n),
    ensures
        in_range(b, n),
        a.len() == b.len(),
{
    a.to_multiset_ensures();
    b.to_multiset_ensures();
    assert forall|i: int| 0 <= i < b.len() implies (#[trigger] b[i]) < n by {
        assert(b.contains(b[i]));
        assert(b.to_multiset().count(b[i]) > 0);
        assert(a.contains(b[i]));
    }
}

/// Stores the vectors `indices` in a leaf and fills up its last block.
fn store_leaf(
    vectors: &Vec<[i16; STORE_DIM]>,
    labels: &[u8],
    indices: &[usize],
    slots: &mut Vec<Slot>,
)
    requires
        in_range(indices@, vectors@.len() as int),
        in_range(indices@, labels@.len() as int),
        old(slots)@.len() % 8 == 0,
    ensures
        same_part(old(slots)@, final(slots)@, 0, old(slots)@.len() as int),
        final(slots)@.len() == old(slots)@.len() + (indices@.len() + 7) / 8 * 8,
        forall|i: int|
            0 <= i < indices@.len() ==> #[trigger] final(slots)@[old(slots)@.len() + i] == slot_of(
                vectors@,
                labels@,
                indices@[i] as int,
            ),
        forall|i: int|
            indices@.len() <= i < final(slots)@.len() - old(slots)@.len() ==> is_padding(
                #[trigger] final(slots)@[old(slots)@.len() + i],
            ),
{
    let ghost before = slots@;
    let mut i: usize = 0;
    while i < indices.len()
        invariant
            i <= indices@.len(),
            in_range(indices@, vectors@.len() as int),
            in_range(indices@, labels@.len() as int),
            slots@.len() == before.len() + i,
            same_part(before, slots@, 0, before.len() as int),
            forall|j: int|
                0 <= j < i ==> #[trigger] slots@[before.len() + j] == slot_of(
                    vectors@,
                    labels@,
                    indices@[j] as int,
                ),
        decreases indices@.len() - i,
    {
        let at = indices[i];
        slots.push(Slot { vector: vectors[at], label: labels[at] });
        i += 1;
    }
    let ghost total = before.len() + (indices@.len() + 7) / 8 * 8;
    while slots.len() % LANES != 0
        invariant
            before.len() % 8 == 0,
            before.len() + indices@.len() <= slots@.len() <= total,
            total == before.len() + (indices@.len() + 7) / 8 * 8,
            same_part(before, slots@, 0, before.len() as int),
            forall|j: int|
                0 <= j < indices@.len() ==> #[trigger] slots@[before.len() + j] == slot_of(
                    vectors@,
                    labels@,
                    indices@[j] as int,
                ),
            forall|j: int|
                indices@.len() <= j < slots@.len() - before.len() ==> is_padding(
                    #[trigger] slots@[before.len() + j],
                ),
        decreases total - slots@.len(),
    {
        let pad = Slot { vector: [i16::MAX; STORE_DIM], label: 0 };
        assert(is_padding(pad));
        slots.push(pad);
    }
}

/// Builds the tree over the vectors `indices` behind the nodes and slots that are
/// there already. The result is the number of its root.
pub fn build_tree(
    vectors: &Vec<[i16; STORE_DIM]>,
    labels: &[u8],
    indices: &[usize],
    leaf: usize,
    slots: &mut Vec<Slot>,
    nodes: &mut Vec<BuildNode>,
) -> (r: usize)
    requires
        leaf >= 1,
        in_range(indices@, vectors@.len() as int),
        in_range(indices@, labels@.len() as int),
        old(slots)@.len() % 8 == 0,
        old(slots)@.len() + slots_of(indices@.len() as int, leaf as int) <= i32::MAX,
        old(nodes)@.len() + nodes_of(indices@.len() as int, leaf as int) <= i32::MAX,
    ensures
        r == old(nodes)@.len(),
        same_part(old(nodes)@, final(nodes)@, 0, old(nodes)@.len() as int),
        same_part(old(slots)@, final(slots)@, 0, old(slots)@.len() as int),
        final(slots)@.len() % 8 == 0,
        final(slots)@.len() == old(slots)@.len() + slots_of(indices@.len() as int, leaf as int),
        final(nodes)@.len() == old(nodes)@.len() + nodes_of(indices@.len() as int, leaf as int),
        tree_of(
            vectors@,
            labels@,
            leaf as int,
            final(nodes)@,
            final(slots)@,
            r as int,
            indices@,
            final(nodes)@.len() as int,
            old(slots)@.len() as int,
            final(slots)@.len() as int,
        ),
    decreases indices@.len(),
{
    let ghost nodes0 = nodes@;
    let ghost slots0 = slots@;
    let (lo, hi) = bounds(vectors, indices);
    let node_idx = nodes.len();
    let start_slot = slots.len() as i32;
    let n = indices.len();
    proof {
        lemma_sizes(n as int, leaf as int);
    }
    if n <= leaf {
        nodes.push(
            BuildNode { left: -1, right: -1, start: start_slot, len: n as i32, min: lo, max: hi },
        );
        store_leaf(vectors, labels, indices, slots);
        return node_idx;
    }
    nodes.push(BuildNode { left: -1, right: -1, start: 0, len: n as i32, min: lo, max: hi });
    let split_dim = widest_dim(&lo, &hi);
    let mut sorted: Vec<usize> = vstd::slice::slice_to_vec(indices);
    assert(sorted@ =~= indices@);
    sort_by_feature(&mut sorted, vectors, split_dim);
    proof {
        lemma_same_multiset_in_range(indices@, sorted@, vectors@.len() as int);
        lemma_same_multiset_in_range(indices@, sorted@, labels@.len() as int);
        lemma_sizes(n as int / 2, leaf as int);
        lemma_sizes(n - n as int / 2, leaf as int);
    }
    let mid = n / 2;
    let left_idx = &sorted.as_slice()[0..mid];
    let right_idx = &sorted.as_slice()[mid..n];
    assert(left_idx@ =~= sorted@.take(mid as int));
    assert(right_idx@ =~= sorted@.skip(mid as int));

    let left = build_tree(vectors, labels, left_idx, leaf, slots, nodes);
    let ghost nodes1 = nodes@;
    let ghost slots1 = slots@;
    let right = build_tree(vectors, labels, right_idx, leaf, slots, nodes);
    let ghost nodes2 = nodes@;

    let node = BuildNode {
        left: left as i32,
        right: right as i32,
        start: start_slot,
        len: n as i32,
        min: lo,
        max: hi,
    };
    nodes.set(node_idx, node);
    proof {
        lemma_tree_frame(
            vectors@,
            labels@,
            leaf as int,
            nodes1,
            slots1,
            nodes@,
            slots@,
            left as int,
            left_idx@,
            nodes1.len() as int,
            slots0.len() as int,
            slots1.len() as int,
        );
        lemma_tree_frame(
            vectors@,
            labels@,
            leaf as int,
            nodes2,
            slots@,
            nodes@,
            slots@,
            right as int,
            right_idx@,
            nodes2.len() as int,
            slots1.len() as int,
            slots@.len() as int,
        );
        assert(is_widest(node.min@, node.max@, split_dim as int));
        assert(is_order(vectors@, node, indices@, sorted@));
        assert(splits(vectors@, node, node_idx as int, indices@, sorted@, right as int, slots1.len() as int));
        let half = indices@.len() as int / 2;
        assert(nodes@[node_idx as int] == node);
        assert(is_box(vectors@, indices@, indices@.len() as int, node.min@, node.max@));
        assert(tree_of(
            vectors@,
            labels@,
            leaf as int,
            nodes@,
            slots@,
            node_idx + 1,
            sorted@.take(half),
            right as int,
            slots0.len() as int,
            slots1.len() as int,
        ));
        assert(tree_of(
            vectors@,
            labels@,
            leaf as int,
            nodes@,
            slots@,
            right as int,
            sorted@.skip(half),
            nodes@.len() as int,
            slots1.len() as int,
            slots@.len() as int,
        ));
    }
    node_idx
}

/// What the leaves below a node hold, from left to right.
pub open spec fn stored(nodes: Seq<BuildNode>, slots: Seq<Slot>, root: int) -> Seq<Slot>
    decreases nodes.len() - root,
{
    let n = nodes[root];
    if !(0 <= root < nodes.len()) {
        Seq::empty()
    } else if n.left < 0 {
        slots.subrange(n.start as int, n.start + n.len)
    } else if root < n.left < nodes.len() && root < n.right < nodes.len() {
        stored(nodes, slots, n.left as int) + stored(nodes, slots, n.right as int)
    } else {
        Seq::empty()
    }
}

/// `held` are the vectors `placed`, one by one.
pub open spec fn holds_vectors(
    vs: Seq<[i16; STORE_DIM]>,
    ls: Seq<u8>,
    placed: Seq<usize>,
    held: Seq<Slot>,
) -> bool {
    &&& held.len() == placed.len()
    &&& forall|i: int|
        0 <= i < held.len() ==> #[trigger] held[i] == slot_of(vs, ls, placed[i] as int)
}

/// The vectors `placed` are the vectors `idx` in some order.
pub open spec fn rearranges(idx: Seq<usize>, placed: Seq<usize>) -> bool {
    placed.to_multiset() == idx.to_multiset()
}

/// The leaves of a tree hold its vectors and their labels, each of them exactly once.
/// The result is the order in which they hold them.
pub proof fn law_tree_stores_each_vector_once(
    vs: Seq<[i16; STORE_DIM]>,
    ls: Seq<u8>,
    leaf: int,
    nodes: Seq<BuildNode>,
    slots: Seq<Slot>,
    root: int,
    idx: Seq<usize>,
    node_end: int,
    slot_start: int,
    slot_end: int,
) -> (placed: Seq<usize>)
    requires
        tree_of(vs, ls, leaf, nodes, slots, root, idx, node_end, slot_start, slot_end),
    ensures
        rearranges(idx, placed),
        holds_vectors(vs, ls, placed, stored(nodes, slots, root)),
    decreases idx.len(),
{
    let n = nodes[root];
    let half = idx.len() as int / 2;
    if idx.len() <= leaf {
        let held = stored(nodes, slots, root);
        assert(held =~= slots.subrange(slot_start, slot_start + idx.len()));
        assert forall|i: int| 0 <= i < held.len() implies #[trigger] held[i] == slot_of(
            vs,
            ls,
            idx[i] as int,
        ) by {
            assert(slots[slot_start + i] == slot_of(vs, ls, idx[i] as int));
        }
        idx
    } else {
        let (sorted, mid_node, mid_slot) = choose|sorted: Seq<usize>, mid_node: int, mid_slot: int|
            {
                &&& #[trigger] splits(vs, n, root, idx, sorted, mid_node, mid_slot)
                &&& 0 < half < idx.len()
                &&& tree_of(
                    vs,
                    ls,
                    leaf,
                    nodes,
                    slots,
                    root + 1,
                    sorted.take(half),
                    mid_node,
                    slot_start,
                    mid_slot,
                )
                &&& tree_of(
                    vs,
                    ls,
                    leaf,
                    nodes,
                    slots,
                    mid_node,
                    sorted.skip(half),
                    node_end,
                    mid_slot,
                    slot_end,
                )
            };
        let a = law_tree_stores_each_vector_once(
            vs,
            ls,
            leaf,
            nodes,
            slots,
            root + 1,
            sorted.take(half),
            mid_node,
            slot_start,
            mid_slot,
        );
        let b = law_tree_stores_each_vector_once(
            vs,
            ls,
            leaf,
            nodes,
            slots,
            mid_node,
            sorted.skip(half),
            node_end,
            mid_slot,
            slot_end,
        );
        vstd::seq_lib::lemma_multiset_commutative(a, b);
        vstd::seq_lib::lemma_multiset_commutative(sorted.take(half), sorted.skip(half));
        assert(sorted.take(half) + sorted.skip(half) =~= sorted);
        assert(root < mid_node);
        let held = stored(nodes, slots, root);
        let left = stored(nodes, slots, root + 1);
        let right = stored(nodes, slots, mid_node);
        assert(held == left + right);
        assert forall|i: int| 0 <= i < held.len() implies #[trigger] held[i] == slot_of(
            vs,
            ls,
            (a + b)[i] as int,
        ) by {
            if i < left.len() {
                assert(left[i] == slot_of(vs, ls, a[i] as int));
            } else {
                assert(right[i - left.len()] == slot_of(vs, ls, b[i - left.len()] as int));
            }
        }
        a + b
    }
}

proof fn lemma_lowest(vs: Seq<[i16; STORE_DIM]>, idx: Seq<usize>, d: int, n: int, i: int)
    requires
        0 <= i < n <= idx.len(),
    ensures
        lowest(vs, idx, d, n) <= feature(vs, idx[i] as int, d) <= highest(vs, idx, d, n),
    decreases n,
{
    if i < n - 1 {
        lemma_lowest(vs, idx, d, n - 1, i);
    }
}

proof fn lemma_box_of_part(
    vs: Seq<[i16; STORE_DIM]>,
    idx: Seq<usize>,
    part: Seq<usize>,
    d: int,
    n: int,
)
    requires
        0 <= n <= part.len(),
        forall|i: int| 0 <= i < part.len() ==> idx.contains(#[trigger] part[i]),
    ensures
        lowest(vs, idx, d, idx.len() as int) <= lowest(vs, part, d, n),
        highest(vs, part, d, n) <= highest(vs, idx, d, idx.len() as int),
    decreases n,
{
    if n > 0 {
        lemma_box_of_part(vs, idx, part, d, n - 1);
        assert(idx.contains(part[n - 1]));
        lemma_lowest(vs, idx, d, idx.len() as int, idx.index_of(part[n - 1]));
    }
}

/// The vector of a slot lies within the box of a node.
pub open spec fn within(n: BuildNode, s: Slot) -> bool {
    forall|d: int| 0 <= d < 16 ==> n.min@[d] <= #[trigger] s.vector@[d] <= n.max@[d]
}

/// The box of `inner` lies within the box of `outer`.
pub open spec fn box_within(outer: BuildNode, inner: BuildNode) -> bool {
    forall|d: int|
        0 <= d < 16 ==> outer.min@[d] <= #[trigger] inner.min@[d] && inner.max@[d] <= outer.max@[d]
}

/// The box of a node encloses all vectors that the leaves below it hold.
pub proof fn law_box_encloses_what_is_stored(
    vs: Seq<[i16; STORE_DIM]>,
    ls: Seq<u8>,
    leaf: int,
    nodes: Seq<BuildNode>,
    slots: Seq<Slot>,
    root: int,
    idx: Seq<usize>,
    node_end: int,
    slot_start: int,
    slot_end: int,
)
    requires
        tree_of(vs, ls, leaf, nodes, slots, root, idx, node_end, slot_start, slot_end),
    ensures
        forall|i: int|
            0 <= i < stored(nodes, slots, root).len() ==> within(
                nodes[root],
                #[trigger] stored(nodes, slots, root)[i],
            ),
{
    let held = stored(nodes, slots, root);
    let placed = law_tree_stores_each_vector_once(
        vs,
        ls,
        leaf,
        nodes,
        slots,
        root,
        idx,
        node_end,
        slot_start,
        slot_end,
    );
    idx.to_multiset_ensures();
    placed.to_multiset_ensures();
    assert forall|i: int| 0 <= i < held.len() implies within(nodes[root], #[trigger] held[i]) by {
        assert(placed.contains(placed[i]));
        assert(placed.to_multiset().count(placed[i]) > 0);
        assert(idx.contains(placed[i]));
        let j = idx.index_of(placed[i]);
        assert forall|d: int| 0 <= d < 16 implies nodes[root].min@[d] <= #[trigger] held[i].vector@[d]
            <= nodes[root].max@[d] by {
            lemma_lowest(vs, idx, d, idx.len() as int, j);
        }
    }
}

/// The boxes of the children of a node lie within its own, and the children share
/// its vectors evenly.
pub proof fn law_children_lie_within(
    vs: Seq<[i16; STORE_DIM]>,
    ls: Seq<u8>,
    leaf: int,
    nodes: Seq<BuildNode>,
    slots: Seq<Slot>,
    root: int,
    idx: Seq<usize>,
    node_end: int,
    slot_start: int,
    slot_end: int,
)
    requires
        tree_of(vs, ls, leaf, nodes, slots, root, idx, node_end, slot_start, slot_end),
        nodes[root].left >= 0,
    ensures
        nodes[root].len > leaf,
        box_within(nodes[root], nodes[nodes[root].left as int]),
        box_within(nodes[root], nodes[nodes[root].right as int]),
        nodes[nodes[root].left as int].len + nodes[nodes[root].right as int].len == nodes[root].len,
        0 <= nodes[nodes[root].right as int].len - nodes[nodes[root].left as int].len <= 1,
{
    let n = nodes[root];
    let half = idx.len() as int / 2;
    let (sorted, mid_node, mid_slot) = choose|sorted: Seq<usize>, mid_node: int, mid_slot: int|
        {
            &&& #[trigger] splits(vs, n, root, idx, sorted, mid_node, mid_slot)
            &&& 0 < half < idx.len()
            &&& tree_of(
                vs,
                ls,
                leaf,
                nodes,
                slots,
                root + 1,
                sorted.take(half),
                mid_node,
                slot_start,
                mid_slot,
            )
            &&& tree_of(
                vs,
                ls,
                leaf,
                nodes,
                slots,
                mid_node,
                sorted.skip(half),
                node_end,
                mid_slot,
                slot_end,
            )
        };
    idx.to_multiset_ensures();
    sorted.to_multiset_ensures();
    assert forall|i: int| 0 <= i < sorted.len() implies idx.contains(#[trigger] sorted[i]) by {
        assert(sorted.contains(sorted[i]));
        assert(sorted.to_multiset().count(sorted[i]) > 0);
    }
    let a = nodes[root + 1];
    let b = nodes[mid_node];
    assert forall|d: int| 0 <= d < 16 implies n.min@[d] <= #[trigger] a.min@[d] && a.max@[d]
        <= n.max@[d] by {
        lemma_box_of_part(vs, idx, sorted.take(half), d, half);
        assert(a.max@[d] == highest(vs, sorted.take(half), d, half));
    }
    assert forall|d: int| 0 <= d < 16 implies n.min@[d] <= #[trigger] b.min@[d] && b.max@[d]
        <= n.max@[d] by {
        lemma_box_of_part(vs, idx, sorted.skip(half), d, sorted.skip(half).len() as int);
        assert(b.max@[d] == highest(vs, sorted.skip(half), d, sorted.skip(half).len() as int));
    }
}

/// Feature `d` is the first of those along which the box of `n` stretches farthest.
pub open spec fn stretches_farthest(n: BuildNode, d: int) -> bool {
    &&& 0 <= d < 14
    &&& forall|e: int|
        0 <= e < 14 ==> #[trigger] n.max@[e] - n.min@[e] <= n.max@[d] - n.min@[d]
    &&& forall|e: int|
        0 <= e < d ==> #[trigger] n.max@[e] - n.min@[e] < n.max@[d] - n.min@[d]
}

/// The children of a node part its vectors along the feature in which these differ most:
/// none that is stored below the left child lies beyond one that is stored below the
/// right child. A node without children holds no more vectors than a leaf may.
#[verifier::rlimit(50)]
pub proof fn law_children_part_the_vectors(
    vs: Seq<[i16; STORE_DIM]>,
    ls: Seq<u8>,
    leaf: int,
    nodes: Seq<BuildNode>,
    slots: Seq<Slot>,
    root: int,
    idx: Seq<usize>,
    node_end: int,
    slot_start: int,
    slot_end: int,
)
    requires
        tree_of(vs, ls, leaf, nodes, slots, root, idx, node_end, slot_start, slot_end),
    ensures
        nodes[root].left < 0 ==> nodes[root].len <= leaf,
        nodes[root].left >= 0 ==> exists|d: int| #[trigger]
            stretches_farthest(nodes[root], d) && forall|i: int, j: int|
                #![trigger stored(nodes, slots, nodes[root].left as int)[i], stored(
                    nodes,
                    slots,
                    nodes[root].right as int,
                )[j]]
                0 <= i < stored(nodes, slots, nodes[root].left as int).len() && 0 <= j < stored(
                    nodes,
                    slots,
                    nodes[root].right as int,
                ).len() ==> stored(nodes, slots, nodes[root].left as int)[i].vector@[d] <= stored(
                    nodes,
                    slots,
                    nodes[root].right as int,
                )[j].vector@[d],
{
    let n = nodes[root];
    let half = idx.len() as int / 2;
    if idx.len() > leaf {
        let (sorted, mid_node, mid_slot) = choose|sorted: Seq<usize>, mid_node: int, mid_slot: int|
            {
                &&& #[trigger] splits(vs, n, root, idx, sorted, mid_node, mid_slot)
                &&& 0 < half < idx.len()
                &&& tree_of(
                    vs,
                    ls,
                    leaf,
                    nodes,
                    slots,
                    root + 1,
                    sorted.take(half),
                    mid_node,
                    slot_start,
                    mid_slot,
                )
                &&& tree_of(
                    vs,
                    ls,
                    leaf,
                    nodes,
                    slots,
                    mid_node,
                    sorted.skip(half),
                    node_end,
                    mid_slot,
                    slot_end,
                )
            };
        let d = choose|d: int| #[trigger] is_widest(n.min@, n.max@, d) && ascending(vs, sorted, d);
        assert(stretches_farthest(n, d)) by {
            assert forall|e: int| 0 <= e < 14 implies #[trigger] n.max@[e] - n.min@[e] <= n.max@[d]
                - n.min@[d] by {
                assert(width(n.min@, n.max@, e) <= width(n.min@, n.max@, d));
            }
            assert forall|e: int| 0 <= e < d implies #[trigger] n.max@[e] - n.min@[e] < n.max@[d]
                - n.min@[d] by {
                assert(width(n.min@, n.max@, e) < width(n.min@, n.max@, d));
            }
        }
        let a = sorted.take(half);
        let b = sorted.skip(half);
        let pa = law_tree_stores_each_vector_once(
            vs, ls, leaf, nodes, slots, root + 1, a, mid_node, slot_start, mid_slot,
        );
        let pb = law_tree_stores_each_vector_once(
            vs, ls, leaf, nodes, slots, mid_node, b, node_end, mid_slot, slot_end,
        );
        let left = stored(nodes, slots, n.left as int);
        let right = stored(nodes, slots, n.right as int);
        a.to_multiset_ensures();
        b.to_multiset_ensures();
        pa.to_multiset_ensures();
        pb.to_multiset_ensures();
        assert forall|i: int, j: int|
            #![trigger left[i], right[j]]
            0 <= i < left.len() && 0 <= j < right.len() implies left[i].vector@[d] <= right[j].vector@[d] by {
            assert(pa.contains(pa[i]));
            assert(pa.to_multiset().count(pa[i]) > 0);
            assert(a.contains(pa[i]));
            assert(pb.contains(pb[j]));
            assert(pb.to_multiset().count(pb[j]) > 0);
            assert(b.contains(pb[j]));
            let x = a.index_of(pa[i]);
            let y = b.index_of(pb[j]);
            assert(sorted[x] == pa[i]);
            assert(sorted[half + y] == pb[j]);
            assert(feature(vs, sorted[x] as int, d) <= feature(vs, sorted[half + y] as int, d));
            assert(left[i] == slot_of(vs, ls, pa[i] as int));
            assert(right[j] == slot_of(vs, ls, pb[j] as int));
        }
    }
}

} // verus!
