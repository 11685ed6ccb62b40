//! Building the index: partitions by a few telling features, and in each of them a
//! tree that halves the vectors along their widest feature.

use vstd::prelude::*;

use crate::dataset::{u32_at, Dataset, LANES, STORE_DIM};
use crate::encode::encode;
use crate::partitions::{
    build, columns, is_built, is_columns, lemma_roots_in_range, lemma_slot_total, slot_total, Built,
};
use crate::DIM;

verus! {

/// The most vectors in a leaf, where nothing else is asked for.
pub const DEFAULT_LEAF_SIZE: usize = 128;

/// A vector as it is stored, with its label.
#[derive(Clone, Copy)]
pub struct Slot {
    pub vector: [i16; STORE_DIM],
    pub label: u8,
}

/// A node of a tree. A leaf has no children; its vectors are the `len` slots from
/// `start` on.
#[derive(Clone, Copy)]
pub struct BuildNode {
    pub left: i32,
    pub right: i32,
    pub start: i32,
    pub len: i32,
    pub min: [i16; STORE_DIM],
    pub max: [i16; STORE_DIM],
}

/// The tree of a partition.
#[derive(Clone, Copy)]
pub struct PartitionRoot {
    pub key: u32,
    pub root: i32,
}

/// Feature `d` of vector `i`.
pub open spec fn feature(vs: Seq<[i16; STORE_DIM]>, i: int, d: int) -> i16 {
    vs[i]@[d]
}

/// The class of a merchant's risk.
pub open spec fn risk_class(v: i16) -> int {
    if v <= 2047 {
        0
    } else if v <= 4095 {
        1
    } else if v <= 6143 {
        2
    } else {
        3
    }
}

/// A bit that is set where `b` holds.
pub open spec fn bit(b: bool, weight: int) -> int {
    if b {
        weight
    } else {
        0
    }
}

/// The partition of a vector: whether there was a transaction before, the three
/// flags, the class of risk, a high amount and a high number of transactions.
pub open spec fn key_of(v: Seq<i16>) -> int {
    bit(v[5] >= 0, 1) + bit(v[9] > 0, 2) + bit(v[10] > 0, 4) + bit(v[11] > 0, 8) + 16 * risk_class(
        v[12],
    ) + bit(v[2] > 4096, 64) + bit(v[8] > 2048, 128)
}

/// The partition of a vector.
pub fn partition_key(v: &[i16; STORE_DIM]) -> (r: u32)
    ensures
        r == key_of(v@),
        r < 256,
{
    let mut key: u32 = 0;
    if v[5] >= 0 {
        key += 1;
    }
    if v[9] > 0 {
        key += 2;
    }
    if v[10] > 0 {
        key += 4;
    }
    if v[11] > 0 {
        key += 8;
    }
    let mr = v[12];
    if mr <= 2047 {
    } else if mr <= 4095 {
        key += 16;
    } else if mr <= 6143 {
        key += 32;
    } else {
        key += 48;
    }
    if v[2] > 4096 {
        key += 64;
    }
    if v[8] > 2048 {
        key += 128;
    }
    key
}

/// The most vectors in a leaf, from what was asked for.
pub fn leaf_size(asked: Option<usize>) -> (r: usize)
    ensures
        r == match asked {
            Some(v) => if 8 <= v <= 1024 {
                v
            } else {
                DEFAULT_LEAF_SIZE
            },
            None => DEFAULT_LEAF_SIZE,
        },
        8 <= r <= 1024,
{
    match asked {
        Some(v) => if LANES <= v && v <= 1024 {
            v
        } else {
            DEFAULT_LEAF_SIZE
        },
        None => DEFAULT_LEAF_SIZE,
    }
}

/// The label of a reference.
pub fn label_of(name: &str) -> (r: u8)
    ensures
        r == if name@ == "fraud"@ {
            1u8
        } else {
            0u8
        },
{
    let bytes = name.as_bytes();
    let r = crate::bytes::same_bytes(bytes, "fraud".as_bytes());
    proof {
        if crate::bytes::text(name) == crate::bytes::text("fraud") {
            vstd::utf8::encode_utf8_decode_utf8(name@);
            vstd::utf8::encode_utf8_decode_utf8("fraud"@);
        }
    }
    if r {
        1
    } else {
        0
    }
}

/// The lowest value of feature `d` among the first `n` of the vectors `idx`.
pub open spec fn lowest(vs: Seq<[i16; STORE_DIM]>, idx: Seq<usize>, d: int, n: int) -> i16
    decreases n,
{
    if n <= 0 {
        i16::MAX
    } else {
        let m = lowest(vs, idx, d, n - 1);
        let v = feature(vs, idx[n - 1] as int, d);
        if v < m {
            v
        } else {
            m
        }
    }
}

/// The highest value of feature `d` among the first `n` of the vectors `idx`.
pub open spec fn highest(vs: Seq<[i16; STORE_DIM]>, idx: Seq<usize>, d: int, n: int) -> i16
    decreases n,
{
    if n <= 0 {
        i16::MIN
    } else {
        let m = highest(vs, idx, d, n - 1);
        let v = feature(vs, idx[n - 1] as int, d);
        if v > m {
            v
        } else {
            m
        }
    }
}

/// `lo` and `hi` are the corners of the smallest box round the first `n` of the
/// vectors `idx`.
pub open spec fn is_box(
    vs: Seq<[i16; STORE_DIM]>,
    idx: Seq<usize>,
    n: int,
    lo: Seq<i16>,
    hi: Seq<i16>,
) -> bool {
    &&& lo.len() == 16
    &&& hi.len() == 16
    &&& forall|d: int| 0 <= d < 16 ==> #[trigger] lo[d] == lowest(vs, idx, d, n)
    &&& forall|d: int| 0 <= d < 16 ==> #[trigger] hi[d] == highest(vs, idx, d, n)
}

/// The vectors `idx` are among the first `n`.
pub open spec fn in_range(idx: Seq<usize>, n: int) -> bool {
    forall|i: int| 0 <= i < idx.len() ==> (#[trigger] idx[i]) < n
}

/// The smallest box round the vectors `indices`: its lower and its upper corner.
pub fn bounds(vectors: &Vec<[i16; STORE_DIM]>, indices: &[usize]) -> (r: (
    [i16; STORE_DIM],
    [i16; STORE_DIM],
))
    requires
        in_range(indices@, vectors@.len() as int),
    ensures
        is_box(vectors@, indices@, indices@.len() as int, r.0@, r.1@),
{
    let mut lo = [i16::MAX; STORE_DIM];
    let mut hi = [i16::MIN; STORE_DIM];
    let mut i: usize = 0;
    while i < indices.len()
        invariant
            i <= indices@.len(),
            in_range(indices@, vectors@.len() as int),
            is_box(vectors@, indices@, i as int, lo@, hi@),
        decreases indices@.len() - i,
    {
        let v = vectors[indices[i]];
        let mut d: usize = 0;
        while d < STORE_DIM
            invariant
                d <= 16,
                i < indices@.len(),
                indices@[i as int] < vectors@.len(),
                v == vectors@[indices@[i as int] as int],
                forall|e: int|
                    0 <= e < 16 ==> #[trigger] lo@[e] == lowest(
                        vectors@,
                        indices@,
                        e,
                        if e < d {
                            i + 1
                        } else {
                            i as int
                        },
                    ),
                forall|e: int|
                    0 <= e < 16 ==> #[trigger] hi@[e] == highest(
                        vectors@,
                        indices@,
                        e,
                        if e < d {
                            i + 1
                        } else {
                            i as int
                        },
                    ),
            decreases 16 - d,
        {
            if v[d] < lo[d] {
                lo[d] = v[d];
            }
            if v[d] > hi[d] {
                hi[d] = v[d];
            }
            d += 1;
        }
        i += 1;
    }
    (lo, hi)
}

/// How far a box stretches along feature `d`.
pub open spec fn width(lo: Seq<i16>, hi: Seq<i16>, d: int) -> int {
    hi[d] - lo[d]
}

/// The first of the features along which a box stretches farthest.
pub open spec fn is_widest(lo: Seq<i16>, hi: Seq<i16>, d: int) -> bool {
    &&& 0 <= d < 14
    &&& forall|e: int| 0 <= e < 14 ==> #[trigger] width(lo, hi, e) <= width(lo, hi, d)
    &&& forall|e: int| 0 <= e < d ==> #[trigger] width(lo, hi, e) < width(lo, hi, d)
}

/// The first of the features along which a box stretches farthest.
pub fn widest_dim(lo: &[i16; STORE_DIM], hi: &[i16; STORE_DIM]) -> (r: usize)
    ensures
        is_widest(lo@, hi@, r as int),
{
    let mut best: usize = 0;
    let mut best_w: i32 = i32::MIN;
    let mut d: usize = 0;
    while d < DIM
        invariant
            d <= 14,
            best < 14,
            d == 0 ==> best_w == i32::MIN,
            d > 0 ==> best < d && best_w == width(lo@, hi@, best as int),
            forall|e: int| 0 <= e < d ==> #[trigger] width(lo@, hi@, e) <= best_w,
            forall|e: int| 0 <= e < best ==> #[trigger] width(lo@, hi@, e) < best_w,
        decreases 14 - d,
    {
        let w = hi[d] as i32 - lo[d] as i32;
        assert(w == width(lo@, hi@, d as int));
        if w > best_w {
            best_w = w;
            best = d;
        }
        d += 1;
    }
    best
}

/// The vectors `order` come in ascending order of feature `d`.
pub open spec fn ascending(vs: Seq<[i16; STORE_DIM]>, order: Seq<usize>, d: int) -> bool {
    forall|i: int, j: int|
        0 <= i < j < order.len() ==> feature(vs, #[trigger] order[i] as int, d) <= feature(
            vs,
            #[trigger] order[j] as int,
            d,
        )
}

/// `slice::sort_unstable_by_key`: the entries are put in ascending order of their
/// keys, here of feature `d`. None is lost or added; the order of entries with
/// the same key is left open.
#[verifier::external_body]
pub(crate) fn sort_by_feature(order: &mut Vec<usize>, vectors: &Vec<[i16; STORE_DIM]>, d: usize)
    requires
        d < 16,
        in_range(old(order)@, vectors@.len() as int),
    ensures
        final(order)@.to_multiset() == old(order)@.to_multiset(),
        ascending(vectors@, final(order)@, d as int),
{
    order.sort_unstable_by_key(|&i| vectors[i][d]);
}

/// `file` is the file of an index of the reference vectors.
pub open spec fn is_index_file(
    vs: Seq<[i16; STORE_DIM]>,
    ls: Seq<u8>,
    leaf: int,
    file: Seq<u8>,
) -> bool {
    exists|b: Built, ds: Dataset|
        {
            &&& is_built(vs, ls, leaf, &b)
            &&& b.slots@.len() <= i32::MAX
            &&& #[trigger] is_columns(&ds, &b, vs.len() as int)
            &&& ds.is_file(file)
        }
}

/// Builds the index of the reference vectors and writes its file.
pub fn build_and_write(vectors: &Vec<[i16; STORE_DIM]>, labels: &[u8], leaf: usize) -> (r: Vec<u8>)
    requires
        leaf >= 1,
        vectors@.len() > 0,
        labels@.len() == vectors@.len(),
        slot_total(vectors@, leaf as int) <= i32::MAX,
    ensures
        is_index_file(vectors@, labels@, leaf as int, r@),
        u32_at(r@, 40) == 0,
{
    let b = build(vectors, labels, leaf);
    proof {
        lemma_slot_total(vectors@, leaf as int);
        lemma_roots_in_range(
            vectors@,
            labels@,
            leaf as int,
            b.nodes@,
            b.slots@,
            b.roots@,
            b.roots@.len() as int,
            b.nodes@.len() as int,
            b.slots@.len() as int,
        );
    }
    let ds = columns(&b, vectors.len());
    let r = encode(&ds);
    assert(is_columns(&ds, &b, vectors@.len() as int) && ds.is_file(r@));
    r
}

/// Vectors are in the same partition exactly where they agree in all that partitions are
/// told apart by: whether there was a transaction before, whether it was online, with the
/// card, with a merchant that is not known, the quarter of the merchant's risk, whether
/// the amount is above 4096 and whether the transactions of the day are above 2048.
#[verifier::rlimit(50)]
pub proof fn law_partitions_tell_vectors_apart(u: Seq<i16>, v: Seq<i16>)
    ensures
        0 <= key_of(u) < 256,
        key_of(u) == key_of(v) <==> {
            &&& u[5] >= 0 <==> v[5] >= 0
            &&& u[9] > 0 <==> v[9] > 0
            &&& u[10] > 0 <==> v[10] > 0
            &&& u[11] > 0 <==> v[11] > 0
            &&& u[12] < 2048 <==> v[12] < 2048
            &&& u[12] < 4096 <==> v[12] < 4096
            &&& u[12] < 6144 <==> v[12] < 6144
            &&& u[2] > 4096 <==> v[2] > 4096
            &&& u[8] > 2048 <==> v[8] > 2048
        },
{
    lemma_key_digits(u);
    lemma_key_digits(v);
}

#[verifier::rlimit(50)]
proof fn lemma_key_digits(u: Seq<i16>)
    ensures
        0 <= key_of(u) < 256,
        key_of(u) % 2 == bit(u[5] >= 0, 1),
        key_of(u) / 2 % 2 == bit(u[9] > 0, 1),
        key_of(u) / 4 % 2 == bit(u[10] > 0, 1),
        key_of(u) / 8 % 2 == bit(u[11] > 0, 1),
        key_of(u) / 16 % 4 == risk_class(u[12]),
        key_of(u) / 64 % 2 == bit(u[2] > 4096, 1),
        key_of(u) / 128 == bit(u[8] > 2048, 1),
{
}

/// A box is the smallest one: it holds all the vectors, and each of its sides touches one
/// of them.
pub proof fn law_box_is_the_smallest(
    vs: Seq<[i16; STORE_DIM]>,
    idx: Seq<usize>,
    n: int,
    lo: Seq<i16>,
    hi: Seq<i16>,
    d: int,
)
    requires
        is_box(vs, idx, n, lo, hi),
        0 <= n <= idx.len(),
        0 <= d < 16,
    ensures
        forall|i: int| 0 <= i < n ==> lo[d] <= #[trigger] vs[idx[i] as int]@[d] <= hi[d],
        n > 0 ==> exists|i: int| 0 <= i < n && #[trigger] vs[idx[i] as int]@[d] == lo[d],
        n > 0 ==> exists|i: int| 0 <= i < n && #[trigger] vs[idx[i] as int]@[d] == hi[d],
{
    lemma_extremes(vs, idx, d, n);
}

proof fn lemma_extremes(vs: Seq<[i16; STORE_DIM]>, idx: Seq<usize>, d: int, n: int)
    requires
        0 <= n <= idx.len(),
    ensures
        forall|i: int|
            0 <= i < n ==> lowest(vs, idx, d, n) <= #[trigger] vs[idx[i] as int]@[d] <= highest(
                vs,
                idx,
                d,
                n,
            ),
        n > 0 ==> exists|i: int|
            0 <= i < n && #[trigger] vs[idx[i] as int]@[d] == lowest(vs, idx, d, n),
        n > 0 ==> exists|i: int|
            0 <= i < n && #[trigger] vs[idx[i] as int]@[d] == highest(vs, idx, d, n),
    decreases n,
{
    if n > 0 {
        lemma_extremes(vs, idx, d, n - 1);
        let v = vs[idx[n - 1] as int]@[d];
        assert(v == feature(vs, idx[n - 1] as int, d));
        if n == 1 {
            assert(lowest(vs, idx, d, 0) == i16::MAX);
            assert(highest(vs, idx, d, 0) == i16::MIN);
        }
    }
}

} // verus!
