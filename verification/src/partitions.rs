//! All partitions of a reference set, and the columns in which an index keeps them.

use vstd::prelude::*;

use crate::dataset::{index_parts, Dataset, LANES, STORE_DIM};
use crate::tree::{
    build_tree, holds_vectors, law_tree_stores_each_vector_once, lemma_sizes, lemma_tree_frame,
    rearranges, same_part, slot_count, slots_of, stored, tree_of,
};
use crate::write::{in_range, key_of, partition_key, BuildNode, PartitionRoot, Slot};

verus! {

/// The trees of all partitions.
pub struct Built {
    pub nodes: Vec<BuildNode>,
    pub slots: Vec<Slot>,
    pub roots: Vec<PartitionRoot>,
}

/// The vectors among the first `n` that belong to the partition `key`.
pub open spec fn bucket(vs: Seq<[i16; STORE_DIM]>, key: int, n: int) -> Seq<usize>
    decreases n,
{
    if n <= 0 {
        Seq::empty()
    } else if key_of(vs[n - 1]@) == key {
        bucket(vs, key, n - 1).push((n - 1) as usize)
    } else {
        bucket(vs, key, n - 1)
    }
}

/// The vectors of the partition `key`.
pub open spec fn members(vs: Seq<[i16; STORE_DIM]>, key: int) -> Seq<usize> {
    bucket(vs, key, vs.len() as int)
}

/// The keys below `k` of the partitions that hold a vector, in ascending order.
pub open spec fn used_keys(vs: Seq<[i16; STORE_DIM]>, k: int) -> Seq<u32>
    decreases k,
{
    if k <= 0 {
        Seq::empty()
    } else if members(vs, k - 1).len() > 0 {
        used_keys(vs, k - 1).push((k - 1) as u32)
    } else {
        used_keys(vs, k - 1)
    }
}

/// Number of vectors among the first `n` in the partitions below `k`.
pub open spec fn members_below(vs: Seq<[i16; STORE_DIM]>, k: int, n: int) -> int
    decreases k,
{
    if k <= 0 {
        0
    } else {
        members_below(vs, k - 1, n) + bucket(vs, k - 1, n).len()
    }
}

proof fn lemma_members_below(vs: Seq<[i16; STORE_DIM]>, k: int, n: int)
    requires
        0 <= n <= vs.len(),
        0 <= k,
    ensures
        0 <= members_below(vs, k, n) <= n,
        n > 0 ==> members_below(vs, k, n) == members_below(vs, k, n - 1) + (if 0 <= key_of(
            vs[n - 1]@,
        ) < k {
            1int
        } else {
            0
        }),
    decreases n, k,
{
    if n == 0 {
        if k > 0 {
            lemma_members_below(vs, k - 1, n);
        }
    } else {
        lemma_members_below(vs, k, n - 1);
        if k > 0 {
            lemma_members_below(vs, k - 1, n);
        }
    }
}

/// The slots of the partitions below `k`.
pub open spec fn slots_for(vs: Seq<[i16; STORE_DIM]>, leaf: int, k: int) -> int
    decreases k,
{
    if k <= 0 {
        0
    } else {
        slots_for(vs, leaf, k - 1) + slots_of(members(vs, k - 1).len() as int, leaf)
    }
}

/// The slots of the index of the vectors.
pub open spec fn slot_total(vs: Seq<[i16; STORE_DIM]>, leaf: int) -> int {
    slots_for(vs, leaf, 256)
}

proof fn lemma_slots_for(vs: Seq<[i16; STORE_DIM]>, leaf: int, j: int, k: int)
    requires
        1 <= leaf,
        0 <= j <= k,
    ensures
        slots_for(vs, leaf, j) <= slots_for(vs, leaf, k),
        members_below(vs, k, vs.len() as int) <= slots_for(vs, leaf, k) <= 8 * members_below(
            vs,
            k,
            vs.len() as int,
        ),
    decreases k,
{
    if k > 0 {
        lemma_sizes(members(vs, k - 1).len() as int, leaf);
        if j < k {
            lemma_slots_for(vs, leaf, j, k - 1);
        } else {
            lemma_slots_for(vs, leaf, k - 1, k - 1);
        }
    }
}

proof fn lemma_all_are_members(vs: Seq<[i16; STORE_DIM]>, n: int)
    requires
        0 <= n <= vs.len(),
    ensures
        members_below(vs, 256, n) == n,
    decreases n,
{
    lemma_members_below(vs, 256, n);
    if n > 0 {
        lemma_all_are_members(vs, n - 1);
    }
}

/// There is a slot for every vector, and there are at most eight.
pub proof fn lemma_slot_total(vs: Seq<[i16; STORE_DIM]>, leaf: int)
    requires
        1 <= leaf,
    ensures
        vs.len() <= slot_total(vs, leaf) <= 8 * vs.len(),
{
    lemma_slots_for(vs, leaf, 256, 256);
    lemma_all_are_members(vs, vs.len() as int);
}

/// Whether the slots of the index of the vectors can be numbered.
pub fn index_fits(vectors: &Vec<[i16; STORE_DIM]>, leaf: usize) -> (r: bool)
    requires
        leaf >= 1,
    ensures
        r == (slot_total(vectors@, leaf as int) <= i32::MAX),
{
    proof {
        lemma_slot_total(vectors@, leaf as int);
    }
    let n = vectors.len();
    if n > i32::MAX as usize {
        return false;
    }
    let buckets = sort_into_buckets(vectors);
    let mut total: u64 = 0;
    let mut key: usize = 0;
    while key < 256
        invariant
            leaf >= 1,
            n == vectors@.len() <= i32::MAX,
            key <= 256,
            buckets@.len() == 256,
            forall|k: int| 0 <= k < 256 ==> (#[trigger] buckets@[k])@ == members(vectors@, k),
            total == slots_for(vectors@, leaf as int, key as int),
            slot_total(vectors@, leaf as int) <= 8 * n,
        decreases 256 - key,
    {
        proof {
            lemma_slots_for(vectors@, leaf as int, key + 1, 256);
            lemma_members_below(vectors@, key + 1, n as int);
            lemma_members_below(vectors@, key as int, n as int);
        }
        let indices = &buckets[key];
        total += slot_count(indices.len(), leaf);
        key += 1;
    }
    total <= i32::MAX as u64
}

/// The first `p` trees take up the nodes below `node_end` and the slots below
/// `slot_end`, one behind the other.
pub open spec fn parts_of(
    vs: Seq<[i16; STORE_DIM]>,
    ls: Seq<u8>,
    leaf: int,
    nodes: Seq<BuildNode>,
    slots: Seq<Slot>,
    roots: Seq<PartitionRoot>,
    p: int,
    node_end: int,
    slot_end: int,
) -> bool
    decreases p,
{
    if p <= 0 {
        node_end == 0 && slot_end == 0
    } else {
        exists|root: int, slot_start: int|
            {
                &&& #[trigger] starts_at(roots[p - 1], root, slot_start)
                &&& parts_of(vs, ls, leaf, nodes, slots, roots, p - 1, root, slot_start)
                &&& tree_of(
                    vs,
                    ls,
                    leaf,
                    nodes,
                    slots,
                    root,
                    members(vs, roots[p - 1].key as int),
                    node_end,
                    slot_start,
                    slot_end,
                )
            }
    }
}

/// The tree of `part` starts at node `root` and slot `slot_start`.
pub open spec fn starts_at(part: PartitionRoot, root: int, slot_start: int) -> bool {
    part.root == root && 0 <= slot_start
}

/// `b` holds the trees of all partitions of the reference set, in ascending order
/// of their keys.
pub open spec fn is_built(vs: Seq<[i16; STORE_DIM]>, ls: Seq<u8>, leaf: int, b: &Built) -> bool {
    &&& b.roots@.len() == used_keys(vs, 256).len()
    &&& forall|p: int|
        0 <= p < b.roots@.len() ==> (#[trigger] b.roots@[p]).key == used_keys(vs, 256)[p]
    &&& parts_of(
        vs,
        ls,
        leaf,
        b.nodes@,
        b.slots@,
        b.roots@,
        b.roots@.len() as int,
        b.nodes@.len() as int,
        b.slots@.len() as int,
    )
}

proof fn lemma_parts_frame(
    vs: Seq<[i16; STORE_DIM]>,
    ls: Seq<u8>,
    leaf: int,
    nodes: Seq<BuildNode>,
    slots: Seq<Slot>,
    roots: Seq<PartitionRoot>,
    nodes2: Seq<BuildNode>,
    slots2: Seq<Slot>,
    roots2: Seq<PartitionRoot>,
    p: int,
    node_end: int,
    slot_end: int,
)
    requires
        0 <= p,
        parts_of(vs, ls, leaf, nodes, slots, roots, p, node_end, slot_end),
        same_part(nodes, nodes2, 0, node_end),
        same_part(slots, slots2, 0, slot_end),
        same_part(roots, roots2, 0, p),
    ensures
        parts_of(vs, ls, leaf, nodes2, slots2, roots2, p, node_end, slot_end),
        0 <= node_end,
        0 <= slot_end,
    decreases p,
{
    if p > 0 {
        let (root, slot_start) = choose|root: int, slot_start: int|
            {
                &&& #[trigger] starts_at(roots[p - 1], root, slot_start)
                &&& parts_of(vs, ls, leaf, nodes, slots, roots, p - 1, root, slot_start)
                &&& tree_of(
                    vs,
                    ls,
                    leaf,
                    nodes,
                    slots,
                    root,
                    members(vs, roots[p - 1].key as int),
                    node_end,
                    slot_start,
                    slot_end,
                )
            };
        assert(roots2[p - 1] == roots[p - 1]);
        lemma_parts_frame(
            vs,
            ls,
            leaf,
            nodes,
            slots,
            roots,
            nodes2,
            slots2,
            roots2,
            p - 1,
            root,
            slot_start,
        );
        lemma_tree_frame(
            vs,
            ls,
            leaf,
            nodes,
            slots,
            nodes2,
            slots2,
            root,
            members(vs, roots[p - 1].key as int),
            node_end,
            slot_start,
            slot_end,
        );
        assert(starts_at(roots2[p - 1], root, slot_start));
    }
}

pub proof fn lemma_roots_in_range(
    vs: Seq<[i16; STORE_DIM]>,
    ls: Seq<u8>,
    leaf: int,
    nodes: Seq<BuildNode>,
    slots: Seq<Slot>,
    roots: Seq<PartitionRoot>,
    p: int,
    node_end: int,
    slot_end: int,
)
    requires
        0 <= p <= roots.len(),
        parts_of(vs, ls, leaf, nodes, slots, roots, p, node_end, slot_end),
        node_end <= nodes.len(),
    ensures
        forall|i: int| 0 <= i < p ==> 0 <= (#[trigger] roots[i]).root < nodes.len(),
    decreases p,
{
    if p > 0 {
        let (root, slot_start) = choose|root: int, slot_start: int|
            {
                &&& #[trigger] starts_at(roots[p - 1], root, slot_start)
                &&& parts_of(vs, ls, leaf, nodes, slots, roots, p - 1, root, slot_start)
                &&& tree_of(
                    vs,
                    ls,
                    leaf,
                    nodes,
                    slots,
                    root,
                    members(vs, roots[p - 1].key as int),
                    node_end,
                    slot_start,
                    slot_end,
                )
            };
        lemma_roots_in_range(vs, ls, leaf, nodes, slots, roots, p - 1, root, slot_start);
    }
}

pub proof fn lemma_bucket_in_range(vs: Seq<[i16; STORE_DIM]>, key: int, n: int)
    requires
        0 <= n <= vs.len() <= usize::MAX,
    ensures
        in_range(bucket(vs, key, n), n),
    decreases n,
{
    if n > 0 {
        lemma_bucket_in_range(vs, key, n - 1);
    }
}

/// Sorts the vectors into their partitions.
fn sort_into_buckets(vectors: &Vec<[i16; STORE_DIM]>) -> (r: Vec<Vec<usize>>)
    ensures
        r@.len() == 256,
        forall|key: int| 0 <= key < 256 ==> (#[trigger] r@[key])@ == members(vectors@, key),
{
    let mut buckets: Vec<Vec<usize>> = Vec::new();
    let mut k: usize = 0;
    while k < 256
        invariant
            k <= 256,
            buckets@.len() == k,
            forall|key: int| 0 <= key < k ==> (#[trigger] buckets@[key])@ == bucket(
                vectors@,
                key,
                0,
            ),
        decreases 256 - k,
    {
        buckets.push(Vec::new());
        k += 1;
    }
    let mut i: usize = 0;
    while i < vectors.len()
        invariant
            i <= vectors@.len(),
            buckets@.len() == 256,
            forall|key: int|
                0 <= key < 256 ==> (#[trigger] buckets@[key])@ == bucket(vectors@, key, i as int),
        decreases vectors@.len() - i,
    {
        let at = partition_key(&vectors[i]) as usize;
        buckets[at].push(i);
        i += 1;
    }
    buckets
}

/// Builds the trees of all partitions of the vectors, whose leaves hold at most
/// `leaf` of them.
pub fn build(vectors: &Vec<[i16; STORE_DIM]>, labels: &[u8], leaf: usize) -> (r: Built)
    requires
        leaf >= 1,
        labels@.len() == vectors@.len(),
        slot_total(vectors@, leaf as int) <= i32::MAX,
    ensures
        is_built(vectors@, labels@, leaf as int, &r),
        r.roots@.len() <= 256,
        r.nodes@.len() <= i32::MAX,
        r.slots@.len() == slot_total(vectors@, leaf as int),
        r.slots@.len() % 8 == 0,
{
    let buckets = sort_into_buckets(vectors);
    let mut nodes: Vec<BuildNode> = Vec::new();
    let mut slots: Vec<Slot> = Vec::new();
    let mut roots: Vec<PartitionRoot> = Vec::new();
    let ghost total = vectors@.len() as int;
    proof {
        lemma_slot_total(vectors@, leaf as int);
    }
    let mut key: usize = 0;
    while key < 256
        invariant
            leaf >= 1,
            labels@.len() == vectors@.len() == total <= i32::MAX,
            slot_total(vectors@, leaf as int) <= i32::MAX,
            key <= 256,
            buckets@.len() == 256,
            forall|k: int| 0 <= k < 256 ==> (#[trigger] buckets@[k])@ == members(vectors@, k),
            roots@.len() == used_keys(vectors@, key as int).len(),
            roots@.len() <= key,
            forall|p: int|
                0 <= p < roots@.len() ==> (#[trigger] roots@[p]).key == used_keys(
                    vectors@,
                    key as int,
                )[p],
            slots@.len() % 8 == 0,
            slots@.len() == slots_for(vectors@, leaf as int, key as int),
            4 * nodes@.len() <= slots@.len(),
            parts_of(
                vectors@,
                labels@,
                leaf as int,
                nodes@,
                slots@,
                roots@,
                roots@.len() as int,
                nodes@.len() as int,
                slots@.len() as int,
            ),
        decreases 256 - key,
    {
        let indices = &buckets[key];
        proof {
            lemma_slots_for(vectors@, leaf as int, key + 1, 256);
            lemma_sizes(members(vectors@, key as int).len() as int, leaf as int);
            lemma_bucket_in_range(vectors@, key as int, total);
        }
        if indices.len() > 0 {
            let ghost nodes0 = nodes@;
            let ghost slots0 = slots@;
            let ghost roots0 = roots@;
            let root = build_tree(
                vectors,
                labels,
                indices.as_slice(),
                leaf,
                &mut slots,
                &mut nodes,
            );
            roots.push(PartitionRoot { key: key as u32, root: root as i32 });
            proof {
                lemma_parts_frame(
                    vectors@,
                    labels@,
                    leaf as int,
                    nodes0,
                    slots0,
                    roots0,
                    nodes@,
                    slots@,
                    roots@,
                    roots0.len() as int,
                    nodes0.len() as int,
                    slots0.len() as int,
                );
                let part = roots@[roots@.len() - 1];
                assert(starts_at(part, root as int, slots0.len() as int));
                assert(tree_of(
                    vectors@,
                    labels@,
                    leaf as int,
                    nodes@,
                    slots@,
                    root as int,
                    members(vectors@, part.key as int),
                    nodes@.len() as int,
                    slots0.len() as int,
                    slots@.len() as int,
                ));
                assert(parts_of(
                    vectors@,
                    labels@,
                    leaf as int,
                    nodes@,
                    slots@,
                    roots@,
                    roots@.len() - 1,
                    root as int,
                    slots0.len() as int,
                ));
            }
        }
        key += 1;
    }
    Built { nodes, slots, roots }
}

/// Where the index says that the slots of a node start: for a leaf it counts blocks.
pub open spec fn start_of(n: BuildNode) -> int {
    if n.left < 0 {
        n.start as int / 8
    } else {
        n.start as int
    }
}

/// The value at `p` in the blocks: pairs of features lie next to each other, lane by
/// lane.
pub open spec fn block_value(slots: Seq<Slot>, p: int) -> i16 {
    let o = p % 112;
    slots[(p / 112) * 8 + o % 16 / 2].vector@[o / 16 * 2 + o % 2]
}

/// The columns of `ds` hold the trees of `b`, made of `n` vectors.
pub open spec fn is_columns(ds: &Dataset, b: &Built, n: int) -> bool {
    let nodes = b.nodes@;
    let roots = b.roots@;
    &&& ds.well_formed()
    &&& ds.n == n
    &&& ds.k == roots.len()
    &&& ds.nodes() == nodes.len()
    &&& ds.labels@.len() == b.slots@.len()
    &&& forall|i: int| 0 <= i < roots.len() ==> #[trigger] ds.part_keys@[i] == roots[i].key
    &&& forall|i: int| 0 <= i < roots.len() ==> #[trigger] ds.part_roots@[i] == roots[i].root
    &&& forall|p: int|
        0 <= p < 16 * roots.len() ==> #[trigger] ds.part_min@[p]
            == nodes[roots[p / 16].root as int].min@[p % 16]
    &&& forall|p: int|
        0 <= p < 16 * roots.len() ==> #[trigger] ds.part_max@[p]
            == nodes[roots[p / 16].root as int].max@[p % 16]
    &&& forall|i: int| 0 <= i < nodes.len() ==> #[trigger] ds.node_left@[i] == nodes[i].left
    &&& forall|i: int| 0 <= i < nodes.len() ==> #[trigger] ds.node_right@[i] == nodes[i].right
    &&& forall|i: int| 0 <= i < nodes.len() ==> #[trigger] ds.node_start@[i] == start_of(nodes[i])
    &&& forall|i: int| 0 <= i < nodes.len() ==> #[trigger] ds.node_len@[i] == nodes[i].len
    &&& forall|p: int|
        0 <= p < 16 * nodes.len() ==> #[trigger] ds.node_min@[p] == nodes[p / 16].min@[p % 16]
    &&& forall|p: int|
        0 <= p < 16 * nodes.len() ==> #[trigger] ds.node_max@[p] == nodes[p / 16].max@[p % 16]
    &&& forall|p: int|
        0 <= p < ds.blocks@.len() ==> #[trigger] ds.blocks@[p] == block_value(b.slots@, p)
    &&& forall|i: int| 0 <= i < b.slots@.len() ==> #[trigger] ds.labels@[i] == b.slots@[i].label
}

/// Appends the corner of a box.
fn write_qv(out: &mut Vec<i16>, v: &[i16; STORE_DIM])
    ensures
        final(out)@ == old(out)@ + v@,
{
    let ghost before = out@;
    let mut i: usize = 0;
    while i < STORE_DIM
        invariant
            i <= 16,
            out@ == before + v@.take(i as int),
        decreases 16 - i,
    {
        out.push(v[i]);
        i += 1;
        assert(v@.take(i as int) =~= v@.take(i - 1).push(v@[i - 1]));
    }
    assert(v@.take(i as int) =~= v@);
}

proof fn lemma_in_block(i: int, o: int)
    requires
        0 <= o < 112,
    ensures
        (i * 112 + o) / 112 == i,
        (i * 112 + o) % 112 == o,
{
}

/// The values of the slots, block by block.
fn interleave(slots: &Vec<Slot>) -> (r: Vec<i16>)
    requires
        slots@.len() % 8 == 0,
        slots@.len() <= i32::MAX,
    ensures
        r@.len() == slots@.len() / 8 * 112,
        forall|p: int| 0 <= p < r@.len() ==> #[trigger] r@[p] == block_value(slots@, p),
{
    let total = slots.len();
    let count = total / LANES;
    let mut blocks: Vec<i16> = Vec::new();
    let mut i: usize = 0;
    while i < count
        invariant
            i <= count,
            8 * count == total == slots@.len(),
            total <= i32::MAX,
            blocks@.len() == i * 112,
            forall|p: int| 0 <= p < i * 112 ==> #[trigger] blocks@[p] == block_value(slots@, p),
        decreases count - i,
    {
        let mut o: usize = 0;
        while o < 112
            invariant
                o <= 112,
                i < count,
                8 * count == total == slots@.len(),
                total <= i32::MAX,
                blocks@.len() == i * 112 + o,
                forall|p: int|
                    0 <= p < i * 112 + o ==> #[trigger] blocks@[p] == block_value(slots@, p),
            decreases 112 - o,
        {
            let at = i * 8 + o % 16 / 2;
            let d = o / 16 * 2 + o % 2;
            proof {
                lemma_in_block(i as int, o as int);
            }
            let v = slots[at].vector[d];
            assert(v == block_value(slots@, i * 112 + o));
            blocks.push(v);
            o += 1;
        }
        i += 1;
    }
    blocks
}

/// The trees, column by column.
pub fn columns(b: &Built, n: usize) -> (r: Dataset)
    requires
        n <= u32::MAX,
        b.roots@.len() <= u32::MAX,
        b.nodes@.len() <= u32::MAX,
        b.slots@.len() <= i32::MAX,
        b.slots@.len() % 8 == 0,
        forall|i: int| 0 <= i < b.roots@.len() ==> 0 <= (#[trigger] b.roots@[i]).root < b.nodes@.len(),
    ensures
        is_columns(&r, b, n as int),
{
    let parts = b.roots.len();
    let mut part_keys: Vec<u32> = Vec::new();
    let mut part_roots: Vec<i32> = Vec::new();
    let mut part_min: Vec<i16> = Vec::new();
    let mut part_max: Vec<i16> = Vec::new();
    let mut i: usize = 0;
    while i < parts
        invariant
            i <= parts == b.roots@.len(),
            part_keys@.len() == i,
            part_roots@.len() == i,
            part_min@.len() == 16 * i,
            part_max@.len() == 16 * i,
            forall|j: int|
                0 <= j < b.roots@.len() ==> 0 <= (#[trigger] b.roots@[j]).root < b.nodes@.len(),
            forall|j: int| 0 <= j < i ==> #[trigger] part_keys@[j] == b.roots@[j].key,
            forall|j: int| 0 <= j < i ==> #[trigger] part_roots@[j] == b.roots@[j].root,
            forall|p: int|
                0 <= p < 16 * i ==> #[trigger] part_min@[p] == b.nodes@[b.roots@[p
                    / 16].root as int].min@[p % 16],
            forall|p: int|
                0 <= p < 16 * i ==> #[trigger] part_max@[p] == b.nodes@[b.roots@[p
                    / 16].root as int].max@[p % 16],
        decreases parts - i,
    {
        let part = b.roots[i];
        let root = part.root as usize;
        part_keys.push(part.key);
        part_roots.push(part.root);
        write_qv(&mut part_min, &b.nodes[root].min);
        write_qv(&mut part_max, &b.nodes[root].max);
        i += 1;
    }
    let nodes = b.nodes.len();
    let mut node_left: Vec<i32> = Vec::new();
    let mut node_right: Vec<i32> = Vec::new();
    let mut node_start: Vec<i32> = Vec::new();
    let mut node_len: Vec<i32> = Vec::new();
    let mut node_min: Vec<i16> = Vec::new();
    let mut node_max: Vec<i16> = Vec::new();
    let mut i: usize = 0;
    while i < nodes
        invariant
            i <= nodes == b.nodes@.len(),
            node_left@.len() == i,
            node_right@.len() == i,
            node_start@.len() == i,
            node_len@.len() == i,
            node_min@.len() == 16 * i,
            node_max@.len() == 16 * i,
            forall|j: int| 0 <= j < i ==> #[trigger] node_left@[j] == b.nodes@[j].left,
            forall|j: int| 0 <= j < i ==> #[trigger] node_right@[j] == b.nodes@[j].right,
            forall|j: int| 0 <= j < i ==> #[trigger] node_start@[j] == start_of(b.nodes@[j]),
            forall|j: int| 0 <= j < i ==> #[trigger] node_len@[j] == b.nodes@[j].len,
            forall|p: int|
                0 <= p < 16 * i ==> #[trigger] node_min@[p] == b.nodes@[p / 16].min@[p % 16],
            forall|p: int|
                0 <= p < 16 * i ==> #[trigger] node_max@[p] == b.nodes@[p / 16].max@[p % 16],
        decreases nodes - i,
    {
        let node = b.nodes[i];
        node_left.push(node.left);
        node_right.push(node.right);
        let start = if node.left < 0 {
            block_of(node.start)
        } else {
            node.start
        };
        node_start.push(start);
        node_len.push(node.len);
        write_qv(&mut node_min, &node.min);
        write_qv(&mut node_max, &node.max);
        i += 1;
    }
    let total = b.slots.len();
    let blocks = interleave(&b.slots);
    let mut labels: Vec<u8> = Vec::new();
    let mut i: usize = 0;
    while i < total
        invariant
            i <= total == b.slots@.len(),
            labels@.len() == i,
            forall|j: int| 0 <= j < i ==> #[trigger] labels@[j] == b.slots@[j].label,
        decreases total - i,
    {
        labels.push(b.slots[i].label);
        i += 1;
    }
    let part_by_key = index_parts(&part_keys);
    Dataset {
        n,
        k: parts,
        part_keys,
        part_roots,
        part_min,
        part_max,
        node_left,
        node_right,
        node_start,
        node_len,
        node_min,
        node_max,
        blocks,
        labels,
        part_by_key,
    }
}

/// The block of a slot.
fn block_of(slot: i32) -> (r: i32)
    ensures
        r == slot as int / 8,
{
    if slot >= 0 {
        slot / 8
    } else {
        -1 - (-1 - slot) / 8
    }
}

pub proof fn lemma_bucket(vs: Seq<[i16; STORE_DIM]>, key: int, n: int, i: int)
    requires
        0 <= i < vs.len() <= usize::MAX,
        0 <= n <= vs.len(),
    ensures
        bucket(vs, key, n).contains(i as usize) == (i < n && key_of(vs[i]@) == key),
        bucket(vs, key, n).no_duplicates(),
    decreases n,
{
    if n > 0 {
        lemma_bucket(vs, key, n - 1, i);
        lemma_bucket_in_range(vs, key, n - 1);
        let before = bucket(vs, key, n - 1);
        let now = bucket(vs, key, n);
        if key_of(vs[n - 1]@) == key {
            assert(now[now.len() - 1] == (n - 1) as usize);
            if before.contains(i as usize) {
                assert(now[before.index_of(i as usize)] == i as usize);
            }
            if now.contains(i as usize) && i != n - 1 {
                assert(before[now.index_of(i as usize)] == i as usize);
            }
        }
    }
}

pub proof fn lemma_used_keys(vs: Seq<[i16; STORE_DIM]>, key: int, k: int) -> (p: int)
    requires
        0 <= key < k <= 256,
        members(vs, key).len() > 0,
    ensures
        0 <= p < used_keys(vs, k).len(),
        used_keys(vs, k)[p] == key,
    decreases k,
{
    if key == k - 1 {
        used_keys(vs, k).len() - 1
    } else {
        lemma_used_keys(vs, key, k - 1)
    }
}

/// The extent of a tree in the nodes and slots.
pub struct Extent {
    pub node_end: int,
    pub slot_start: int,
    pub slot_end: int,
}

/// The tree of the `i`-th partition, which ends where the next one starts.
pub proof fn lemma_tree_of_part(
    vs: Seq<[i16; STORE_DIM]>,
    ls: Seq<u8>,
    leaf: int,
    nodes: Seq<BuildNode>,
    slots: Seq<Slot>,
    roots: Seq<PartitionRoot>,
    p: int,
    node_end: int,
    slot_end: int,
    i: int,
) -> (e: Extent)
    requires
        0 <= i < p <= roots.len(),
        parts_of(vs, ls, leaf, nodes, slots, roots, p, node_end, slot_end),
    ensures
        tree_of(
            vs,
            ls,
            leaf,
            nodes,
            slots,
            roots[i].root as int,
            members(vs, roots[i].key as int),
            e.node_end,
            e.slot_start,
            e.slot_end,
        ),
        e.node_end == if i + 1 < p {
            roots[i + 1].root as int
        } else {
            node_end
        },
    decreases p,
{
    let (root, slot_start) = choose|root: int, slot_start: int|
        {
            &&& #[trigger] starts_at(roots[p - 1], root, slot_start)
            &&& parts_of(vs, ls, leaf, nodes, slots, roots, p - 1, root, slot_start)
            &&& tree_of(
                vs,
                ls,
                leaf,
                nodes,
                slots,
                root,
                members(vs, roots[p - 1].key as int),
                node_end,
                slot_start,
                slot_end,
            )
        };
    if i == p - 1 {
        Extent { node_end, slot_start, slot_end }
    } else {
        lemma_tree_of_part(
            vs,
            ls,
            leaf,
            nodes,
            slots,
            roots,
            p - 1,
            root,
            slot_start,
            i,
        )
    }
}

/// Every reference vector is in the index exactly once: in the one partition that
/// has its key, whose leaves hold the members of the partition, each of them once,
/// and nothing else. The result is the number of that partition and the order in
/// which its leaves hold the members.
pub proof fn law_every_vector_is_stored_once(
    vs: Seq<[i16; STORE_DIM]>,
    ls: Seq<u8>,
    leaf: int,
    b: &Built,
    i: int,
) -> (r: (int, Seq<usize>))
    requires
        is_built(vs, ls, leaf, b),
        0 <= i < vs.len() <= usize::MAX,
    ensures
        0 <= r.0 < b.roots@.len(),
        b.roots@[r.0].key == key_of(vs[i]@),
        forall|p: int|
            0 <= p < b.roots@.len() && (#[trigger] b.roots@[p]).key == key_of(vs[i]@) ==> p == r.0,
        members(vs, key_of(vs[i]@)).contains(i as usize),
        members(vs, key_of(vs[i]@)).no_duplicates(),
        rearranges(members(vs, key_of(vs[i]@)), r.1),
        holds_vectors(
            vs,
            ls,
            r.1,
            stored(b.nodes@, b.slots@, b.roots@[r.0].root as int),
        ),
{
    let key = key_of(vs[i]@);
    lemma_bucket(vs, key, vs.len() as int, i);
    assert(members(vs, key).len() > 0);
    let p = lemma_used_keys(vs, key, 256);
    assert(b.roots@[p].key == key);
    lemma_used_keys_ascend(vs, 256);
    assert forall|q: int|
        0 <= q < b.roots@.len() && (#[trigger] b.roots@[q]).key == key implies q == p by {
        if q < p {
            assert(used_keys(vs, 256)[q] < used_keys(vs, 256)[p]);
        } else if p < q {
            assert(used_keys(vs, 256)[p] < used_keys(vs, 256)[q]);
        }
    }
    let e = lemma_tree_of_part(
        vs,
        ls,
        leaf,
        b.nodes@,
        b.slots@,
        b.roots@,
        b.roots@.len() as int,
        b.nodes@.len() as int,
        b.slots@.len() as int,
        p,
    );
    let placed = law_tree_stores_each_vector_once(
        vs,
        ls,
        leaf,
        b.nodes@,
        b.slots@,
        b.roots@[p].root as int,
        members(vs, key),
        e.node_end,
        e.slot_start,
        e.slot_end,
    );
    (p, placed)
}

pub proof fn lemma_used_keys_ascend(vs: Seq<[i16; STORE_DIM]>, k: int)
    requires
        0 <= k <= 256,
    ensures
        forall|p: int| 0 <= p < used_keys(vs, k).len() ==> (#[trigger] used_keys(vs, k)[p]) < k,
        forall|p: int, q: int|
            0 <= p < q < used_keys(vs, k).len() ==> (#[trigger] used_keys(vs, k)[p])
                < #[trigger] used_keys(vs, k)[q],
    decreases k,
{
    if k > 0 {
        lemma_used_keys_ascend(vs, k - 1);
        let before = used_keys(vs, k - 1);
        let now = used_keys(vs, k);
        assert forall|p: int| 0 <= p < now.len() implies (#[trigger] now[p]) < k by {
            if p < before.len() {
                assert(now[p] == before[p]);
            }
        }
        assert forall|p: int, q: int| 0 <= p < q < now.len() implies (#[trigger] now[p])
            < #[trigger] now[q] by {
            assert(now[p] == before[p]);
            if q < before.len() {
                assert(now[q] == before[q]);
            }
        }
    }
}

/// The value of feature `d` in lane `lane` of block `block` is where a reader that
/// takes two features at a time looks for it.
pub proof fn law_features_lie_in_pairs(slots: Seq<Slot>, block: int, lane: int, d: int)
    requires
        0 <= block,
        0 <= lane < 8,
        0 <= d < 14,
    ensures
        block_value(slots, block * 112 + d / 2 * 16 + lane * 2 + d % 2) == slots[block * 8
            + lane].vector@[d],
{
    let pair = d / 2;
    let odd = d % 2;
    let o = pair * 16 + lane * 2 + odd;
    let p = block * 112 + o;
    assert(0 <= o < 112);
    assert(p / 112 == block && p % 112 == o);
    assert(o % 16 == lane * 2 + odd && o / 16 == pair);
    assert((lane * 2 + odd) / 2 == lane);
    assert(o % 2 == odd);
}

/// Where the slots of a node start is given in blocks of eight for a leaf, and in slots
/// for a node with children, which starts where its left child does.
pub proof fn law_nodes_start_where_their_slots_do(ds: &Dataset, b: &Built, n: int, i: int)
    requires
        is_columns(ds, b, n),
        0 <= i < b.nodes@.len(),
        b.nodes@[i].start % 8 == 0,
    ensures
        ds.node_left@[i] < 0 ==> 8 * ds.node_start@[i] == b.nodes@[i].start,
        ds.node_left@[i] >= 0 ==> ds.node_start@[i] == b.nodes@[i].start,
{
    assert(ds.node_left@[i] == b.nodes@[i].left);
    assert(ds.node_start@[i] == start_of(b.nodes@[i]));
}

/// The box of a partition is that of the root of its tree.
pub proof fn law_partition_has_the_box_of_its_root(ds: &Dataset, b: &Built, n: int, p: int, d: int)
    requires
        is_columns(ds, b, n),
        0 <= p < ds.k,
        0 <= d < 16,
        0 <= ds.part_roots@[p] < ds.nodes(),
    ensures
        ds.part_min@[16 * p + d] == ds.node_min@[16 * ds.part_roots@[p] + d],
        ds.part_max@[16 * p + d] == ds.node_max@[16 * ds.part_roots@[p] + d],
{
    let r = ds.part_roots@[p] as int;
    assert(ds.part_roots@[p] == b.roots@[p].root);
    assert((16 * p + d) / 16 == p && (16 * p + d) % 16 == d);
    assert((16 * r + d) / 16 == r && (16 * r + d) % 16 == d);
    assert(ds.part_min@[16 * p + d] == b.nodes@[r].min@[d]);
    assert(ds.node_min@[16 * r + d] == b.nodes@[r].min@[d]);
    assert(ds.part_max@[16 * p + d] == b.nodes@[r].max@[d]);
    assert(ds.node_max@[16 * r + d] == b.nodes@[r].max@[d]);
}

} // verus!
