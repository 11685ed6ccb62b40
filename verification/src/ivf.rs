//! Search of the clustered index for the frauds among the five nearest neighbours.

use vstd::prelude::*;

use crate::exact::{law_exact_search_finds_nearest, law_open_verdict_is_searched_exactly};
use crate::knn::{
    at_most_five, insert_all, insert_one, kept_ok, label_sum, lemma_insert_one_ok, lemma_worst_of,
    nearest_count, nothing_kept, votes, worst_of, Kept, Top5,
};
use crate::DIM;

verus! {

const NPROBE_DEFAULT: usize = 8;

/// The most clusters that a search looks at.
pub const MAX_K: usize = 8192;

/// Words in a set of clusters.
pub const BITSET_WORDS: usize = 128;

/// The most clusters that are probed first.
pub const MAX_PROBE: usize = 256;

/// Vectors in a block.
pub const BLOCK_SIZE: usize = 8;

/// Values in a block.
pub const BLOCK_STRIDE: usize = 112;

/// Reference vectors grouped in clusters.
///
/// The vectors of a cluster are stored in blocks of [`BLOCK_SIZE`], feature by
/// feature, so that the values of one feature lie next to each other.
pub struct ClusterIndex {
    pub n: usize,
    pub k: usize,
    pub k_pad: usize,
    pub centroids_soa_i16: Vec<i16>,
    pub bbox_min: Vec<i16>,
    pub bbox_max: Vec<i16>,
    pub offsets: Vec<u32>,
    pub block_offsets: Vec<u32>,
    pub blocks: Vec<i16>,
    pub labels: Vec<u8>,
    pub orig_ids: Vec<u32>,
}

/// Squared distance over the first `n` features.
pub open spec fn sq_dist(a: Seq<i16>, b: Seq<i16>, n: int) -> int
    decreases n,
{
    if n <= 0 {
        0
    } else {
        sq_dist(a, b, n - 1) + (a[n - 1] - b[n - 1]) * (a[n - 1] - b[n - 1])
    }
}

impl ClusterIndex {
    /// Number of vectors in cluster `c`.
    pub open spec fn size(&self, c: int) -> int {
        if self.offsets[c] < self.offsets[c + 1] {
            self.offsets[c + 1] - self.offsets[c]
        } else {
            0
        }
    }

    /// The arrays hold what cluster `c` refers to.
    pub open spec fn cluster_ok(&self, c: int) -> bool {
        self.size(c) > 0 ==> {
            &&& self.block_offsets[c] + (self.size(c) + 7) / 8 == self.block_offsets[c + 1]
            &&& self.block_offsets[c + 1] * 112 <= self.blocks.len()
            &&& self.offsets[c + 1] <= self.labels.len()
            &&& self.offsets[c + 1] <= self.orig_ids.len()
        }
    }

    /// The index is complete: every cluster has its centroid, its box, its
    /// blocks, its labels and its numbers.
    pub open spec fn well_formed(&self) -> bool {
        &&& self.k <= self.k_pad <= MAX_K
        &&& self.centroids_soa_i16.len() >= DIM * self.k_pad
        &&& self.bbox_min.len() >= self.k * DIM
        &&& self.bbox_max.len() >= self.k * DIM
        &&& self.offsets.len() > self.k
        &&& self.block_offsets.len() > self.k
        &&& forall|c: int| 0 <= c < self.k ==> #[trigger] self.cluster_ok(c)
    }

    /// The vector in lane `i` counted from block `block_start`.
    pub open spec fn vector(&self, block_start: int, i: int) -> Seq<i16> {
        Seq::new(
            DIM as nat,
            |j: int| self.blocks[(block_start + i / 8) * 112 + j * 8 + i % 8],
        )
    }

    /// The `size` vectors from block `block_start` on, as seen from the query `q`.
    pub open spec fn block_items(
        &self,
        q: Seq<i16>,
        block_start: int,
        vec_start: int,
        size: int,
    ) -> Seq<Top5> {
        Seq::new(
            size as nat,
            |i: int|
                Top5 {
                    dist: sq_dist(q, self.vector(block_start, i), DIM as int) as i64,
                    label: self.labels[vec_start + i],
                    orig_id: self.orig_ids[vec_start + i],
                },
        )
    }

    /// The vectors of cluster `c`, as seen from the query `q`.
    pub open spec fn cluster_items(&self, q: Seq<i16>, c: int) -> Seq<Top5> {
        self.block_items(
            q,
            self.block_offsets[c] as int,
            self.offsets[c] as int,
            self.size(c),
        )
    }
}

/// The five entries that a search has kept so far.
pub open spec fn kept(top5: Seq<Top5>, worst: usize) -> Kept {
    Kept { top: top5, worst: worst as int }
}

proof fn lemma_square_bound(a: i16, b: i16)
    ensures
        0 <= (a - b) * (a - b) <= 65535 * 65535,
{
    let d = a - b;
    assert(-65535 <= d <= 65535);
    assert(0 <= d * d <= 65535 * 65535) by (nonlinear_arith)
        requires
            -65535 <= d <= 65535,
    ;
}

pub proof fn lemma_sq_dist_bound(a: Seq<i16>, b: Seq<i16>, n: int)
    requires
        0 <= n,
    ensures
        0 <= sq_dist(a, b, n) <= n * 4294836225,
    decreases n,
{
    if n > 0 {
        lemma_sq_dist_bound(a, b, n - 1);
        lemma_square_bound(a[n - 1], b[n - 1]);
        assert(n * 4294836225 == (n - 1) * 4294836225 + 4294836225) by (nonlinear_arith);
    }
}

pub proof fn lemma_sq_dist_mono(a: Seq<i16>, b: Seq<i16>, m: int, n: int)
    requires
        0 <= m <= n,
    ensures
        sq_dist(a, b, m) <= sq_dist(a, b, n),
    decreases n - m,
{
    if m < n {
        lemma_sq_dist_mono(a, b, m, n - 1);
        lemma_square_bound(a[n - 1], b[n - 1]);
    }
}

/// Puts a vector at distance `d` among the five kept entries if it is closer
/// than the farthest of them.
pub fn try_insert_top5(top5: &mut [Top5; 5], worst_idx: &mut usize, d: i64, label: u8, orig_id: u32)
    requires
        kept_ok(kept(old(top5)@, *old(worst_idx))),
    ensures
        kept(final(top5)@, *final(worst_idx)) == insert_one(
            kept(old(top5)@, *old(worst_idx)),
            Top5 { dist: d, label, orig_id },
        ),
        kept_ok(kept(final(top5)@, *final(worst_idx))),
{
    let ghost k0 = kept(top5@, *worst_idx);
    let worst = top5[*worst_idx];
    let better = d < worst.dist || (d == worst.dist && orig_id < worst.orig_id);
    proof {
        lemma_insert_one_ok(k0, Top5 { dist: d, label, orig_id });
    }
    if !better {
        return ;
    }
    top5[*worst_idx] = Top5 { dist: d, label, orig_id };

    let mut wi: usize = 0;
    let mut i: usize = 1;
    while i < 5
        invariant
            1 <= i <= 5,
            wi < 5,
            wi == worst_of(top5@, i as int),
        decreases 5 - i,
    {
        proof {
            lemma_worst_of(top5@, i as int);
        }
        let a = top5[i];
        let b = top5[wi];
        if a.dist > b.dist || (a.dist == b.dist && a.orig_id > b.orig_id) {
            wi = i;
        }
        i += 1;
    }
    *worst_idx = wi;
}

/// Shows the vectors of the blocks `block_start..block_end` to the kept entries.
///
/// The blocks hold `cluster_size` vectors, whose labels and numbers start at
/// `vec_start`.
pub fn scan_cluster_scalar(
    block_start: usize,
    block_end: usize,
    vec_start: usize,
    cluster_size: usize,
    q: &[i16; DIM],
    ds: &ClusterIndex,
    top5: &mut [Top5; 5],
    worst_idx: &mut usize,
)
    requires
        kept_ok(kept(old(top5)@, *old(worst_idx))),
        block_start + (cluster_size + 7) / 8 == block_end,
        block_end * 112 <= ds.blocks.len(),
        vec_start + cluster_size <= ds.labels.len(),
        vec_start + cluster_size <= ds.orig_ids.len(),
    ensures
        kept(final(top5)@, *final(worst_idx)) == insert_all(
            kept(old(top5)@, *old(worst_idx)),
            ds.block_items(q@, block_start as int, vec_start as int, cluster_size as int),
        ),
        kept_ok(kept(final(top5)@, *final(worst_idx))),
{
    let ghost k0 = kept(top5@, *worst_idx);
    let ghost items = ds.block_items(
        q@,
        block_start as int,
        vec_start as int,
        cluster_size as int,
    );
    let mut block_local: usize = 0;
    assert(items.take(0) =~= Seq::empty());
    while block_local < block_end - block_start
        invariant
            block_start + (cluster_size + 7) / 8 == block_end,
            block_end * 112 <= ds.blocks.len(),
            vec_start + cluster_size <= ds.labels.len(),
            vec_start + cluster_size <= ds.orig_ids.len(),
            block_local <= block_end - block_start,
            items == ds.block_items(
                q@,
                block_start as int,
                vec_start as int,
                cluster_size as int,
            ),
            kept_ok(kept(top5@, *worst_idx)),
            kept(top5@, *worst_idx) == insert_all(
                k0,
                items.take(if block_local * 8 < cluster_size { block_local * 8 } else { cluster_size as int }),
            ),
        decreases block_end - block_start - block_local,
    {
        let block_base = (block_start + block_local) * BLOCK_STRIDE;
        let left = cluster_size - block_local * BLOCK_SIZE;
        let lanes_in_block = if left < BLOCK_SIZE { left } else { BLOCK_SIZE };
        let mut lane: usize = 0;
        while lane < lanes_in_block
            invariant
                block_start + (cluster_size + 7) / 8 == block_end,
                block_end * 112 <= ds.blocks.len(),
                vec_start + cluster_size <= ds.labels.len(),
                vec_start + cluster_size <= ds.orig_ids.len(),
                block_local < block_end - block_start,
                block_base == (block_start + block_local) * 112,
                lane <= lanes_in_block <= 8,
                block_local * 8 + lanes_in_block <= cluster_size,
                items == ds.block_items(
                    q@,
                    block_start as int,
                    vec_start as int,
                    cluster_size as int,
                ),
                kept_ok(kept(top5@, *worst_idx)),
                kept(top5@, *worst_idx) == insert_all(k0, items.take(block_local * 8 + lane)),
            decreases lanes_in_block - lane,
        {
            let ghost i = block_local * 8 + lane;
            let ghost v = ds.vector(block_start as int, i);
            let mut d: i64 = 0;
            let mut j: usize = 0;
            let limit = top5[*worst_idx].dist;
            while j < DIM
                invariant_except_break
                    d == sq_dist(q@, v, j as int),
                    0 <= d,
                invariant
                    block_base == (block_start + block_local) * 112,
                    block_local < block_end - block_start,
                    block_end * 112 <= ds.blocks.len(),
                    lane < 8,
                    i == block_local * 8 + lane,
                    v == ds.vector(block_start as int, i),
                    j <= DIM,
                ensures
                    0 <= d <= sq_dist(q@, v, 14),
                    d == sq_dist(q@, v, 14) || d > limit,
                decreases DIM - j,
            {
                let qv = q[j] as i64;
                assert(i / 8 == block_local && i % 8 == lane);
                assert((block_start + block_local) * 112 + 112 <= block_end * 112) by (nonlinear_arith)
                    requires
                        block_start + block_local + 1 <= block_end,
                ;
                let w = ds.blocks[block_base + j * BLOCK_SIZE + lane] as i64;
                assert(w == v[j as int]);
                let diff = qv - w;
                proof {
                    lemma_square_bound(q@[j as int], v[j as int]);
                    lemma_sq_dist_bound(q@, v, j as int);
                    lemma_sq_dist_mono(q@, v, j + 1, 14);
                }
                d += diff * diff;
                if d > limit {
                    break ;
                }
                j += 1;
            }
            proof {
                lemma_sq_dist_bound(q@, v, 14);
            }
            let global = vec_start + block_local * BLOCK_SIZE + lane;
            try_insert_top5(top5, worst_idx, d, ds.labels[global], ds.orig_ids[global]);
            assert(items.take(i + 1).drop_last() =~= items.take(i));
            assert(items.take(i + 1).last() == items[i]);
            lane += 1;
        }
        block_local += 1;
    }
    assert(items.take(cluster_size as int) =~= items);
}

impl ClusterIndex {
    /// How far `v` lies outside of the box of cluster `c` in feature `j`.
    pub open spec fn box_gap(&self, v: i16, c: int, j: int) -> int {
        let lo = self.bbox_min[c * 14 + j];
        let hi = self.bbox_max[c * 14 + j];
        if v < lo {
            lo - v
        } else if v > hi {
            v - hi
        } else {
            0
        }
    }

    /// Squared distance from `q` to the box of cluster `c`, over the first `n`
    /// features.
    pub open spec fn box_dist(&self, q: Seq<i16>, c: int, n: int) -> int
        decreases n,
    {
        if n <= 0 {
            0
        } else {
            self.box_dist(q, c, n - 1) + self.box_gap(q[n - 1], c, n - 1) * self.box_gap(
                q[n - 1],
                c,
                n - 1,
            )
        }
    }

    /// Every vector lies in the box of its cluster.
    pub open spec fn boxes_enclose(&self) -> bool {
        forall|c: int, i: int, j: int|
            #![trigger self.vector(self.block_offsets[c] as int, i)[j]]
            0 <= c < self.k && 0 <= i < self.size(c) && 0 <= j < DIM ==> self.bbox_min[c * 14 + j]
                <= self.vector(self.block_offsets[c] as int, i)[j] <= self.bbox_max[c * 14 + j]
    }
}

/// Lower bound of the squared distance from `q` to the vectors of cluster `c`.
pub fn bbox_lower_bound(q: &[i16; DIM], ds: &ClusterIndex, c: usize) -> (r: i64)
    requires
        (c + 1) * 14 <= ds.bbox_min.len(),
        (c + 1) * 14 <= ds.bbox_max.len(),
    ensures
        r == ds.box_dist(q@, c as int, 14),
        r >= 0,
{
    let base = c * DIM;
    let mut s: i64 = 0;
    let mut j: usize = 0;
    while j < DIM
        invariant
            (c + 1) * 14 <= ds.bbox_min.len(),
            (c + 1) * 14 <= ds.bbox_max.len(),
            base == c * 14,
            j <= DIM,
            s == ds.box_dist(q@, c as int, j as int),
            0 <= s <= j * 4294836225,
        decreases DIM - j,
    {
        let qv = q[j] as i64;
        let lo = ds.bbox_min[base + j] as i64;
        let hi = ds.bbox_max[base + j] as i64;
        let d = if qv < lo {
            lo - qv
        } else if qv > hi {
            qv - hi
        } else {
            0
        };
        assert(d == ds.box_gap(q@[j as int], c as int, j as int));
        assert(0 <= d * d <= 4294836225) by (nonlinear_arith)
            requires
                0 <= d <= 65535,
        ;
        s += d * d;
        j += 1;
    }
    s
}

/// Shows the vectors of cluster `c` to the kept entries.
pub fn scan_cluster(
    c: usize,
    q: &[i16; DIM],
    ds: &ClusterIndex,
    top5: &mut [Top5; 5],
    worst_idx: &mut usize,
)
    requires
        kept_ok(kept(old(top5)@, *old(worst_idx))),
        ds.well_formed(),
        c < ds.k,
    ensures
        kept(final(top5)@, *final(worst_idx)) == insert_all(
            kept(old(top5)@, *old(worst_idx)),
            ds.cluster_items(q@, c as int),
        ),
        kept_ok(kept(final(top5)@, *final(worst_idx))),
{
    assert(ds.cluster_ok(c as int));
    let start = ds.offsets[c] as usize;
    let end = ds.offsets[c + 1] as usize;
    if start >= end {
        assert(ds.cluster_items(q@, c as int) =~= Seq::empty());
        return ;
    }
    let block_start = ds.block_offsets[c] as usize;
    let block_end = ds.block_offsets[c + 1] as usize;
    let cluster_size = end - start;
    scan_cluster_scalar(block_start, block_end, start, cluster_size, q, ds, top5, worst_idx);
}

/// Cluster `i` is in the set.
pub open spec fn in_set(bs: Seq<u64>, i: int) -> bool {
    (bs[i / 64] >> ((i % 64) as u64)) & 1u64 == 1u64
}

/// Adds cluster `i` to the set.
pub fn bitset_set(bs: &mut [u64; BITSET_WORDS], i: usize)
    requires
        i < MAX_K,
    ensures
        forall|j: int|
            0 <= j < MAX_K ==> #[trigger] in_set(final(bs)@, j) == (j == i || in_set(old(bs)@, j)),
{
    let ghost bs0 = bs@;
    let a: u64 = (i % 64) as u64;
    let w: u64 = bs[i / 64];
    bs[i / 64] = w | (1u64 << a);
    assert forall|j: int| 0 <= j < MAX_K implies #[trigger] in_set(bs@, j) == (j == i || in_set(bs0, j)) by {
        let b = (j % 64) as u64;
        assert(((w | (1u64 << a)) >> b) & 1u64 == 1u64 <==> a == b || (w >> b) & 1u64 == 1u64) by (bit_vector)
            requires
                a < 64,
                b < 64,
        ;
    }
}

/// Tells whether cluster `i` is in the set.
pub fn bitset_get(bs: &[u64; BITSET_WORDS], i: usize) -> (r: bool)
    requires
        i < MAX_K,
    ensures
        r == in_set(bs@, i as int),
{
    (bs[i / 64] >> ((i % 64) as u64)) & 1 == 1
}

proof fn lemma_empty_set(bs: Seq<u64>)
    requires
        bs.len() == BITSET_WORDS,
        forall|w: int| 0 <= w < BITSET_WORDS ==> bs[w] == 0,
    ensures
        forall|i: int| 0 <= i < MAX_K ==> !#[trigger] in_set(bs, i),
{
    assert forall|i: int| 0 <= i < MAX_K implies !#[trigger] in_set(bs, i) by {
        let b = (i % 64) as u64;
        assert((0u64 >> b) & 1u64 == 0u64) by (bit_vector);
    }
}

impl ClusterIndex {
    /// The centroid of cluster `c`, in an index whose features are `stride` apart.
    pub open spec fn centroid(&self, c: int, stride: int) -> Seq<i16> {
        Seq::new(DIM as nat, |j: int| self.centroids_soa_i16[j * stride + c])
    }

    /// Squared distance from `q` to the centroid of cluster `c`, in 32 bits.
    pub open spec fn centroid_dist(&self, q: Seq<i16>, c: int, stride: int) -> u32 {
        (sq_dist(q, self.centroid(c, stride), 14) % 0x1_0000_0000) as u32
    }
}

/// Writes to `out[c]` the distance from the query to the centroid of cluster
/// `c`, for every cluster.
pub fn compute_centroid_dists_i16_scalar(
    query: &[i16; DIM],
    ds: &ClusterIndex,
    out: &mut [u32; MAX_K],
    k_pad: usize,
)
    requires
        ds.k <= k_pad <= MAX_K,
        ds.centroids_soa_i16.len() >= DIM * k_pad,
    ensures
        forall|c: int|
            0 <= c < ds.k ==> #[trigger] final(out)@[c] == ds.centroid_dist(query@, c, k_pad as int),
        forall|c: int| ds.k <= c < MAX_K ==> #[trigger] final(out)@[c] == old(out)@[c],
{
    let mut c: usize = 0;
    while c < ds.k
        invariant
            c <= ds.k <= k_pad <= MAX_K,
            ds.centroids_soa_i16.len() >= DIM * k_pad,
            forall|i: int|
                0 <= i < c ==> #[trigger] out@[i] == ds.centroid_dist(query@, i, k_pad as int),
            forall|i: int| c <= i < MAX_K ==> #[trigger] out@[i] == old(out)@[i],
        decreases ds.k - c,
    {
        let ghost v = ds.centroid(c as int, k_pad as int);
        let mut s: u32 = 0;
        let mut j: usize = 0;
        while j < DIM
            invariant
                c < ds.k <= k_pad <= MAX_K,
                ds.centroids_soa_i16.len() >= DIM * k_pad,
                v == ds.centroid(c as int, k_pad as int),
                j <= DIM,
                s == sq_dist(query@, v, j as int) % 0x1_0000_0000,
            decreases DIM - j,
        {
            assert(0 <= j * k_pad && j * k_pad + k_pad <= 14 * k_pad) by (nonlinear_arith)
                requires
                    0 <= j < 14,
            ;
            let q = query[j] as i64;
            let w = ds.centroids_soa_i16[j * k_pad + c] as i64;
            assert(w == v[j as int]);
            let d = q - w;
            proof {
                lemma_square_bound(query@[j as int], v[j as int]);
                lemma_sq_dist_bound(query@, v, j as int);
            }
            s = s.wrapping_add((d * d) as u32);
            j += 1;
        }
        out[c] = s;
        c += 1;
    }
}

/// `a` is ranked before `b`: it is closer, or as close and first.
pub open spec fn ranks_before(dists: Seq<u32>, a: usize, b: usize) -> bool {
    dists[a as int] < dists[b as int] || (dists[a as int] == dists[b as int] && a < b)
}

/// `chosen` are, in order of rank, the first `n` of `dists` (or all of them,
/// where there are fewer). An entry of `u32::MAX` is never chosen.
pub open spec fn is_ranking(dists: Seq<u32>, n: int, chosen: Seq<usize>) -> bool {
    &&& chosen.len() <= n
    &&& forall|i: int|
        0 <= i < chosen.len() ==> (#[trigger] chosen[i]) < dists.len() && dists[chosen[i] as int]
            < u32::MAX
    &&& forall|i: int, j: int|
        #![trigger chosen[i], chosen[j]]
        0 <= i < j < chosen.len() ==> ranks_before(dists, chosen[i], chosen[j])
    &&& forall|c: usize|
        c < dists.len() && #[trigger] dists[c as int] < u32::MAX && !chosen.contains(c)
            ==> chosen.len() == n && (forall|i: int|
            0 <= i < n ==> ranks_before(dists, #[trigger] chosen[i], c))
}

/// Two rankings of the same distances are the same.
pub proof fn lemma_ranking_unique(dists: Seq<u32>, n: int, a: Seq<usize>, b: Seq<usize>, m: int)
    requires
        is_ranking(dists, n, a),
        is_ranking(dists, n, b),
        0 <= m,
    ensures
        m <= a.len() ==> m <= b.len() && a.take(m) == b.take(m),
    decreases m,
{
    if 0 < m <= a.len() {
        lemma_ranking_unique(dists, n, a, b, m - 1);
        let i = m - 1;
        let x = a[i];
        assert(a.take(i) == b.take(i));
        assert forall|t: int| 0 <= t < i implies #[trigger] b[t] != x by {
            assert(b.take(i)[t] == a.take(i)[t]);
            assert(ranks_before(dists, a[t], a[i]));
        }
        assert(dists[x as int] < u32::MAX);
        if i < b.len() {
            let y = b[i];
            if x != y {
                if b.contains(x) {
                    let t = b.index_of(x);
                    assert(t > i);
                    assert(ranks_before(dists, b[i], b[t]));
                } else {
                    assert(ranks_before(dists, b[i], x));
                }
                if a.contains(y) {
                    let t = a.index_of(y);
                    if t < i {
                        assert(b.take(i)[t] == a.take(i)[t]);
                        assert(ranks_before(dists, b[t], b[i]));
                    }
                    assert(ranks_before(dists, a[i], a[t]));
                } else {
                    assert(dists[y as int] < u32::MAX);
                    assert(ranks_before(dists, a[i], y));
                }
                assert(false);
            }
        } else {
            if b.contains(x) {
                let t = b.index_of(x);
                assert(b[t] != x);
            }
            assert(b.len() == n);
            assert(false);
        }
        assert(a.take(m) =~= b.take(m));
    }
}

/// Fills `out` with the numbers of the closest clusters, closest first.
///
/// Where there are fewer clusters than places, what `out` held moves back
/// behind them.
#[verifier::spinoff_prover]
#[verifier::rlimit(60)]
pub fn top_n_centroids(dists: &[u32], out: &mut [usize])
    requires
        old(out)@.len() <= MAX_PROBE,
        old(out)@.len() > 0 || dists@.len() == 0,
    ensures
        exists|chosen: Seq<usize>|
            is_ranking(dists@, old(out)@.len() as int, chosen) && final(out)@ == chosen + old(
                out,
            )@.take(old(out)@.len() - chosen.len()),
{
    let n = out.len();
    let ghost out0 = out@;
    let mut top_d = [u32::MAX; MAX_PROBE];
    let ghost mut chosen: Seq<usize> = Seq::empty();
    let mut c: usize = 0;
    assert(out@ =~= chosen + out0.take(n - chosen.len()));
    while c < dists.len()
        invariant
            n == out0.len(),
            n <= MAX_PROBE,
            n > 0 || dists@.len() == 0,
            c <= dists@.len(),
            is_ranking(dists@.take(c as int), n as int, chosen),
            out@ == chosen + out0.take(n - chosen.len()),
            forall|i: int| 0 <= i < chosen.len() ==> #[trigger] top_d@[i] == dists@[chosen[i] as int],
            forall|i: int| chosen.len() <= i < n ==> #[trigger] top_d@[i] == u32::MAX,
        decreases dists@.len() - c,
    {
        let d = dists[c];
        let ghost seen = dists@.take(c as int);
        let ghost seen2 = dists@.take(c + 1);
        assert forall|i: int| 0 <= i < c implies seen[i] == #[trigger] seen2[i] by {}
        if d < top_d[n - 1] {
            let mut pos = n - 1;
            let ghost d0 = top_d@;
            let ghost o0 = out@;
            while pos > 0 && d < top_d[pos - 1]
                invariant
                    0 <= pos < n <= MAX_PROBE,
                    forall|i: int| pos <= i < n ==> d < #[trigger] top_d@[i],
                decreases pos,
            {
                pos -= 1;
            }
            let mut i = n - 1;
            while i > pos
                invariant
                    pos <= i < n <= MAX_PROBE,
                    out@.len() == n,
                    o0.len() == n,
                    forall|t: int| 0 <= t <= i ==> #[trigger] top_d@[t] == d0[t],
                    forall|t: int| i < t < n ==> #[trigger] top_d@[t] == d0[t - 1],
                    forall|t: int| 0 <= t <= i ==> #[trigger] out@[t] == o0[t],
                    forall|t: int| i < t < n ==> #[trigger] out@[t] == o0[t - 1],
                decreases i,
            {
                top_d[i] = top_d[i - 1];
                out[i] = out[i - 1];
                i -= 1;
            }
            top_d[pos] = d;
            out[pos] = c;
            proof {
                let old_chosen = chosen;
                let m = chosen.len() as int;
                assert(pos <= m) by {
                    if pos > m {
                        assert(d0[pos - 1] == u32::MAX);
                    }
                }
                let full = old_chosen.insert(pos as int, c);
                chosen = if m < n {
                    full
                } else {
                    full.drop_last()
                };
                lemma_ranking_step(dists@, c, n as int, old_chosen, pos as int);
                assert(out@ =~= chosen + out0.take(n - chosen.len()));
            }
        } else {
            proof {
                assert forall|x: usize|
                    x < seen2.len() && #[trigger] seen2[x as int] < u32::MAX && !chosen.contains(x) implies chosen.len()
                    == n && (forall|i: int| 0 <= i < n ==> ranks_before(seen2, #[trigger] chosen[i], x)) by {
                    if x < c {
                        assert(seen[x as int] < u32::MAX);
                        assert forall|i: int| 0 <= i < n implies ranks_before(seen2, #[trigger] chosen[i], x) by {
                            assert(ranks_before(seen, chosen[i], x));
                        }
                    } else {
                        assert(top_d@[n - 1] < u32::MAX);
                        assert(chosen.len() == n);
                        assert forall|i: int| 0 <= i < n implies ranks_before(seen2, #[trigger] chosen[i], x) by {
                            if i < n - 1 {
                                assert(ranks_before(seen, chosen[i], chosen[n - 1]));
                            }
                        }
                    }
                }
                assert forall|i: int, j: int|
                    #![trigger chosen[i], chosen[j]]
                    0 <= i < j < chosen.len() implies ranks_before(seen2, chosen[i], chosen[j]) by {
                    assert(ranks_before(seen, chosen[i], chosen[j]));
                }
                assert(is_ranking(seen2, n as int, chosen));
            }
        }
        c += 1;
    }
    assert(dists@.take(c as int) =~= dists@);
}

proof fn lemma_ranking_step(dists: Seq<u32>, c: usize, n: int, chosen: Seq<usize>, pos: int)
    requires
        c < dists.len(),
        is_ranking(dists.take(c as int), n, chosen),
        0 <= pos <= chosen.len(),
        pos < n,
        dists[c as int] < u32::MAX,
        forall|i: int| pos <= i < chosen.len() ==> dists[c as int] < dists[#[trigger] chosen[i] as int],
        pos > 0 ==> dists[chosen[pos - 1] as int] <= dists[c as int],
    ensures
        is_ranking(
            dists.take(c + 1),
            n,
            if chosen.len() < n {
                chosen.insert(pos, c)
            } else {
                chosen.insert(pos, c).drop_last()
            },
        ),
{
    let seen = dists.take(c as int);
    let seen2 = dists.take(c + 1);
    let m = chosen.len() as int;
    let full = chosen.insert(pos, c);
    let next = if m < n {
        full
    } else {
        full.drop_last()
    };
    assert forall|i: int, j: int| #![trigger full[i], full[j]] 0 <= i < j < full.len() implies ranks_before(
        seen2,
        full[i],
        full[j],
    ) by {
        let oi = if i < pos { i } else { i - 1 };
        let oj = if j < pos { j } else { j - 1 };
        if i != pos && j != pos {
            assert(ranks_before(seen, chosen[oi], chosen[oj]));
        } else if j == pos {
            if i < pos - 1 {
                assert(ranks_before(seen, chosen[i], chosen[pos - 1]));
            }
            assert(chosen[i] < c);
        } else {
            assert(dists[c as int] < dists[chosen[oj] as int]);
        }
    }
    assert forall|i: int| 0 <= i < full.len() implies (#[trigger] full[i]) < seen2.len() && seen2[full[i] as int]
        < u32::MAX by {
        if i != pos {
            let oi = if i < pos { i } else { i - 1 };
            assert(seen[chosen[oi] as int] < u32::MAX);
        }
    }
    assert forall|x: usize|
        x < seen2.len() && #[trigger] seen2[x as int] < u32::MAX && !next.contains(x) implies next.len() == n && (
    forall|i: int| 0 <= i < n ==> ranks_before(seen2, #[trigger] next[i], x)) by {
        assert(next[pos] == c);
        assert(x < c);
        assert(seen[x as int] < u32::MAX);
        if chosen.contains(x) {
            let t = chosen.index_of(x);
            let ft = if t < pos { t } else { t + 1 };
            assert(full[ft] == x);
            if ft < next.len() {
                assert(next[ft] == x);
            }
            assert(m == n && ft == n);
            assert forall|i: int| 0 <= i < n implies ranks_before(seen2, #[trigger] next[i], x) by {
                assert(ranks_before(seen2, full[i], full[n]));
            }
        } else {
            assert(m == n);
            assert forall|i: int| 0 <= i < n implies ranks_before(seen2, #[trigger] next[i], x) by {
                let last = chosen[n - 1];
                assert(ranks_before(seen, last, x));
                assert(next[i] == full[i]);
                assert(full[n] == last);
                assert(ranks_before(seen2, full[i], full[n]));
            }
        }
    }
}

/// Settings of the search.
///
/// `fast_nprobe` clusters are scanned first. The search stops early once all
/// five kept entries are within a squared distance of `early_limit`.
#[derive(Clone, Copy, Debug)]
pub struct Tuning {
    pub fast_nprobe: usize,
    pub early_limit: i64,
}

/// The settings, from the number of clusters to probe and the distance in
/// thousandths at which to stop, where they are given.
pub fn tuning(fast_nprobe: Option<usize>, early_dist_milli: Option<i64>) -> (r: Tuning)
    requires
        early_dist_milli matches Some(m) ==> m <= 0 || (10 * m) * (10 * m) <= i64::MAX,
    ensures
        r.fast_nprobe == match fast_nprobe {
            Some(p) => if p < 1 {
                1
            } else if p > MAX_PROBE {
                MAX_PROBE as int
            } else {
                p as int
            },
            None => 8,
        },
        r.early_limit == match early_dist_milli {
            Some(m) => if m <= 0 {
                i64::MIN as int
            } else {
                (10 * m) * (10 * m)
            },
            None => i64::MIN as int,
        },
        1 <= r.fast_nprobe <= MAX_PROBE,
{
    let p: usize = match fast_nprobe {
        Some(p) => p,
        None => 8,
    };
    let fast_nprobe: usize = if p < 1 {
        1
    } else if p > MAX_PROBE {
        MAX_PROBE
    } else {
        p
    };
    let milli: i64 = match early_dist_milli {
        Some(m) => m,
        None => 0,
    };
    let early_limit: i64 = if milli <= 0 {
        i64::MIN
    } else {
        assert(10 * milli <= (10 * milli) * (10 * milli)) by (nonlinear_arith)
            requires
                milli >= 1,
        ;
        let v = 10 * milli;
        v * v
    };
    Tuning { fast_nprobe, early_limit }
}

/// All five kept entries are within the squared distance at which to stop.
pub fn early_done(top5: &[Top5; 5], worst_idx: usize, tuning: &Tuning) -> (r: bool)
    requires
        worst_idx < 5,
    ensures
        r == (top5@[worst_idx as int].dist <= tuning.early_limit),
{
    top5[worst_idx].dist <= tuning.early_limit
}

/// The entries kept after some clusters have been probed, and whether the
/// search has stopped there.
pub struct Probed {
    pub kept: Kept,
    pub done: bool,
}

impl ClusterIndex {
    /// Distances from `q` to the centroids.
    pub open spec fn centroid_dists(&self, q: Seq<i16>) -> Seq<u32> {
        Seq::new(self.k as nat, |c: int| self.centroid_dist(q, c, self.k_pad as int))
    }

    /// `order` are the `n` closest clusters, closest first. Cluster 0 takes the
    /// places that are left over.
    pub open spec fn is_probe_order(&self, q: Seq<i16>, n: int, order: Seq<usize>) -> bool {
        exists|chosen: Seq<usize>|
            is_ranking(self.centroid_dists(q), n, chosen) && order == chosen + Seq::new(
                (n - chosen.len()) as nat,
                |i: int| 0usize,
            )
    }

    /// The `n` clusters to probe.
    pub open spec fn probe_order(&self, q: Seq<i16>, n: int) -> Seq<usize> {
        choose|order: Seq<usize>| self.is_probe_order(q, n, order)
    }

    /// What is kept once the first `i` clusters of `order` have been scanned,
    /// each of them once. With a `limit`, scanning ends at the first cluster
    /// after which all kept entries are within it.
    pub open spec fn probed(
        &self,
        q: Seq<i16>,
        order: Seq<usize>,
        limit: Option<i64>,
        i: int,
    ) -> Probed
        decreases i,
    {
        if i <= 0 {
            Probed { kept: nothing_kept(), done: false }
        } else {
            let before = self.probed(q, order, limit, i - 1);
            if before.done || order.take(i - 1).contains(order[i - 1]) {
                before
            } else {
                let k = insert_all(before.kept, self.cluster_items(q, order[i - 1] as int));
                Probed {
                    kept: k,
                    done: limit matches Some(limit) && k.top[k.worst].dist <= limit,
                }
            }
        }
    }

    /// What is kept once the clusters below `c` have been gone through that
    /// have not been probed, passing over those whose box is too far away.
    pub open spec fn swept(&self, q: Seq<i16>, order: Seq<usize>, k0: Kept, c: int) -> Kept
        decreases c,
    {
        if c <= 0 {
            k0
        } else {
            let k = self.swept(q, order, k0, c - 1);
            if order.contains((c - 1) as usize) || self.box_dist(q, c - 1, 14) > k.top[k.worst].dist {
                k
            } else {
                insert_all(k, self.cluster_items(q, c - 1))
            }
        }
    }

    /// The answer of a search that probes the clusters of `order`. A gated one
    /// goes through the rest of the clusters only where the probes found two or
    /// three frauds.
    pub open spec fn search_result(
        &self,
        q: Seq<i16>,
        order: Seq<usize>,
        limit: i64,
        gated: bool,
    ) -> int {
        let p = self.probed(q, order, Some(limit), order.len() as int);
        if p.done || (gated && !(2 <= label_sum(p.kept.top, 5) <= 3)) {
            votes(p.kept)
        } else {
            votes(self.swept(q, order, p.kept, self.k as int))
        }
    }

    /// The vectors of the clusters below `c`, as seen from the query `q`.
    pub open spec fn items_below(&self, q: Seq<i16>, c: int) -> Seq<Top5>
        decreases c,
    {
        if c <= 0 {
            Seq::empty()
        } else {
            self.items_below(q, c - 1) + self.cluster_items(q, c - 1)
        }
    }

    /// All vectors of the index, as seen from the query `q`.
    pub open spec fn all_items(&self, q: Seq<i16>) -> Seq<Top5> {
        self.items_below(q, self.k as int)
    }
}

/// There is one probe order only, and it is made of clusters of the index.
pub proof fn lemma_probe_order(ds: &ClusterIndex, q: Seq<i16>, n: int, order: Seq<usize>)
    requires
        0 <= n <= ds.k,
        ds.is_probe_order(q, n, order),
    ensures
        order == ds.probe_order(q, n),
        order.len() == n,
        forall|i: int| 0 <= i < n ==> (#[trigger] order[i]) < ds.k,
{
    let other = ds.probe_order(q, n);
    let dists = ds.centroid_dists(q);
    let a = choose|chosen: Seq<usize>|
        is_ranking(dists, n, chosen) && order == chosen + Seq::new(
            (n - chosen.len()) as nat,
            |i: int| 0usize,
        );
    let b = choose|chosen: Seq<usize>|
        is_ranking(dists, n, chosen) && other == chosen + Seq::new(
            (n - chosen.len()) as nat,
            |i: int| 0usize,
        );
    lemma_ranking_unique(dists, n, a, b, a.len() as int);
    lemma_ranking_unique(dists, n, b, a, b.len() as int);
    assert(a.take(a.len() as int) =~= a);
    assert(b.take(b.len() as int) =~= b);
    assert(order =~= other);
    assert forall|i: int| 0 <= i < n implies (#[trigger] order[i]) < ds.k by {
        if i < a.len() {
            assert(a[i] < dists.len());
        }
    }
}

/// Sum of the labels of the kept entries.
fn label_total(top5: &[Top5; 5]) -> (r: u32)
    ensures
        r == label_sum(top5@, 5),
{
    let mut sum: u32 = 0;
    let mut i: usize = 0;
    while i < 5
        invariant
            i <= 5,
            sum == label_sum(top5@, i as int),
            sum <= i * 255,
        decreases 5 - i,
    {
        sum += top5[i].label as u32;
        i += 1;
    }
    sum
}

/// The number of frauds among the kept entries, at most five.
fn count_votes(top5: &[Top5; 5]) -> (r: u8)
    ensures
        r == at_most_five(label_sum(top5@, 5)),
{
    let sum = label_total(top5);
    if sum < 5 {
        sum as u8
    } else {
        5
    }
}

/// The clusters to probe for the query, at most `fast_nprobe` of them.
fn choose_probes(query: &[i16; DIM], ds: &ClusterIndex, fast_nprobe: usize) -> (r: Vec<usize>)
    requires
        ds.well_formed(),
        1 <= fast_nprobe <= MAX_PROBE,
    ensures
        r@ == ds.probe_order(
            query@,
            if fast_nprobe < ds.k {
                fast_nprobe as int
            } else {
                ds.k as int
            },
        ),
        r@.len() == if fast_nprobe < ds.k {
            fast_nprobe
        } else {
            ds.k
        },
        forall|i: int| 0 <= i < r@.len() ==> (#[trigger] r@[i]) < ds.k,
        ds.is_probe_order(query@, r@.len() as int, r@),
{
    let mut cdists = [u32::MAX; MAX_K];
    compute_centroid_dists_i16_scalar(query, ds, &mut cdists, ds.k_pad);
    let nprobe = if fast_nprobe < ds.k {
        fast_nprobe
    } else {
        ds.k
    };
    let mut order: Vec<usize> = vec![0; nprobe];
    let ghost zeros = order@;
    let dists = &cdists[0..ds.k];
    top_n_centroids(dists, order.as_mut_slice());
    proof {
        assert(dists@ =~= ds.centroid_dists(query@));
        let chosen = choose|chosen: Seq<usize>|
            is_ranking(dists@, nprobe as int, chosen) && order@ == chosen + zeros.take(
                nprobe - chosen.len(),
            );
        assert(zeros.take(nprobe - chosen.len()) =~= Seq::new(
            (nprobe - chosen.len()) as nat,
            |i: int| 0usize,
        ));
        assert(ds.is_probe_order(query@, nprobe as int, order@));
        lemma_probe_order(ds, query@, nprobe as int, order@);
    }
    order
}

proof fn lemma_nothing_kept()
    ensures
        kept_ok(nothing_kept()),
        votes(nothing_kept()) == 0,
{
    reveal_with_fuel(label_sum, 6);
}

/// Number of clusters that a search probes first.
pub open spec fn probe_count(ds: &ClusterIndex, tuning: &Tuning) -> int {
    if tuning.fast_nprobe < ds.k {
        tuning.fast_nprobe as int
    } else {
        ds.k as int
    }
}

/// Searches the closest clusters, and then the rest of the index unless the
/// search is over by then.
fn search_impl(query: &[i16; DIM], ds: &ClusterIndex, gated: bool, tuning: &Tuning) -> (r: u8)
    requires
        ds.well_formed(),
        1 <= tuning.fast_nprobe <= MAX_PROBE,
    ensures
        r == ds.search_result(
            query@,
            ds.probe_order(query@, probe_count(ds, tuning)),
            tuning.early_limit,
            gated,
        ),
        ds.is_probe_order(
            query@,
            probe_count(ds, tuning),
            ds.probe_order(query@, probe_count(ds, tuning)),
        ),
{
    let order = choose_probes(query, ds, tuning.fast_nprobe);
    let sentinel_entry = Top5 { dist: i64::MAX, label: 0, orig_id: u32::MAX };
    let mut top5 = [sentinel_entry; 5];
    let mut worst_idx: usize = 0;
    let mut scanned = [0u64; BITSET_WORDS];
    proof {
        lemma_nothing_kept();
        lemma_empty_set(scanned@);
        assert(kept(top5@, worst_idx) =~= nothing_kept());
    }
    let ghost limit = Some(tuning.early_limit);
    let mut i: usize = 0;
    while i < order.len()
        invariant
            ds.well_formed(),
            i <= order@.len(),
            order@ == ds.probe_order(query@, probe_count(ds, tuning)),
            ds.is_probe_order(query@, probe_count(ds, tuning), order@),
            limit == Some(tuning.early_limit),
            forall|t: int| 0 <= t < order@.len() ==> (#[trigger] order@[t]) < ds.k,
            kept_ok(kept(top5@, worst_idx)),
            ds.probed(query@, order@, limit, i as int) == (Probed {
                kept: kept(top5@, worst_idx),
                done: false,
            }),
            forall|c: int|
                0 <= c < MAX_K ==> #[trigger] in_set(scanned@, c) == order@.take(i as int).contains(
                    c as usize,
                ),
        decreases order@.len() - i,
    {
        let c = order[i];
        proof {
            lemma_take_contains(order@, i as int);
        }
        if !bitset_get(&scanned, c) {
            bitset_set(&mut scanned, c);
            scan_cluster(c, query, ds, &mut top5, &mut worst_idx);
            if early_done(&top5, worst_idx, tuning) {
                proof {
                    assert(ds.probed(query@, order@, limit, i + 1) == (Probed {
                        kept: kept(top5@, worst_idx),
                        done: true,
                    }));
                    lemma_probed_done(ds, query@, order@, limit, i + 1, order@.len() as int);
                }
                return count_votes(&top5);
            }
        }
        i += 1;
    }
    assert(order@.take(i as int) =~= order@);
    let ghost k0 = kept(top5@, worst_idx);

    if gated {
        let fast_count = label_total(&top5);
        if fast_count < 2 || fast_count > 3 {
            return count_votes(&top5);
        }
    }
    let mut c: usize = 0;
    while c < ds.k
        invariant
            ds.well_formed(),
            c <= ds.k,
            kept_ok(kept(top5@, worst_idx)),
            kept(top5@, worst_idx) == ds.swept(query@, order@, k0, c as int),
            forall|x: int|
                0 <= x < MAX_K ==> #[trigger] in_set(scanned@, x) == order@.contains(x as usize),
        decreases ds.k - c,
    {
        if !bitset_get(&scanned, c) {
            assert((c + 1) * 14 <= ds.k * 14);
            let lb = bbox_lower_bound(query, ds, c);
            if lb <= top5[worst_idx].dist {
                scan_cluster(c, query, ds, &mut top5, &mut worst_idx);
            }
        }
        c += 1;
    }
    count_votes(&top5)
}

proof fn lemma_take_contains(order: Seq<usize>, i: int)
    requires
        0 <= i < order.len(),
    ensures
        forall|x: usize|
            #[trigger] order.take(i + 1).contains(x) == (x == order[i] || order.take(i).contains(x)),
{
    assert forall|x: usize| #[trigger] order.take(i + 1).contains(x) == (x == order[i] || order.take(
        i,
    ).contains(x)) by {
        if order.take(i).contains(x) {
            let t = order.take(i).index_of(x);
            assert(order.take(i + 1)[t] == x);
        }
        if x == order[i] {
            assert(order.take(i + 1)[i] == x);
        }
    }
}

proof fn lemma_probed_done(
    ds: &ClusterIndex,
    q: Seq<i16>,
    order: Seq<usize>,
    limit: Option<i64>,
    i: int,
    j: int,
)
    requires
        i <= j,
        ds.probed(q, order, limit, i).done,
    ensures
        ds.probed(q, order, limit, j) == ds.probed(q, order, limit, i),
    decreases j - i,
{
    if i < j {
        lemma_probed_done(ds, q, order, limit, i, j - 1);
        if j <= 0 {
            assert(false);
        }
    }
}

/// Counts the frauds among the five nearest neighbours that a fast search finds.
///
/// The closest clusters are scanned. Where they give two or three frauds, which
/// leaves the verdict open, the rest of the index is searched as well.
pub fn search_fraud_count(query: &[i16; DIM], ds: &ClusterIndex, _nprobe: usize, tuning: &Tuning) -> (r: u8)
    requires
        ds.well_formed(),
        1 <= tuning.fast_nprobe <= MAX_PROBE,
    ensures
        r == ds.search_result(
            query@,
            ds.probe_order(query@, probe_count(ds, tuning)),
            tuning.early_limit,
            true,
        ),
        ds.is_probe_order(
            query@,
            probe_count(ds, tuning),
            ds.probe_order(query@, probe_count(ds, tuning)),
        ),
        ({
            let order = ds.probe_order(query@, probe_count(ds, tuning));
            let found = ds.probed(query@, order, Some(i64::MIN), order.len() as int);
            ds.boxes_enclose() && tuning.early_limit == i64::MIN && 2 <= label_sum(
                found.kept.top,
                5,
            ) <= 3 ==> nearest_count(ds.all_items(query@), r as int)
        }),
{
    let r = search_impl(query, ds, true, tuning);
    proof {
        let order = ds.probe_order(query@, probe_count(ds, tuning));
        lemma_probe_order(ds, query@, probe_count(ds, tuning), order);
        if ds.boxes_enclose() && tuning.early_limit == i64::MIN {
            law_exact_search_finds_nearest(ds, query@, order);
            let found = ds.probed(query@, order, Some(i64::MIN), order.len() as int);
            if 2 <= label_sum(found.kept.top, 5) <= 3 {
                law_open_verdict_is_searched_exactly(ds, query@, order, i64::MIN);
            }
        }
    }
    r
}

/// Counts the frauds among the five nearest neighbours in the whole index.
///
/// Where the boxes enclose their clusters and no early stop is set, the count is
/// that of five nearest of all reference vectors.
pub fn search_fraud_count_exact(query: &[i16; DIM], ds: &ClusterIndex, tuning: &Tuning) -> (r: u8)
    requires
        ds.well_formed(),
        1 <= tuning.fast_nprobe <= MAX_PROBE,
    ensures
        r == ds.search_result(
            query@,
            ds.probe_order(query@, probe_count(ds, tuning)),
            tuning.early_limit,
            false,
        ),
        ds.is_probe_order(
            query@,
            probe_count(ds, tuning),
            ds.probe_order(query@, probe_count(ds, tuning)),
        ),
        ds.boxes_enclose() && tuning.early_limit == i64::MIN ==> nearest_count(
            ds.all_items(query@),
            r as int,
        ),
{
    let r = search_impl(query, ds, false, tuning);
    proof {
        let order = ds.probe_order(query@, probe_count(ds, tuning));
        lemma_probe_order(ds, query@, probe_count(ds, tuning), order);
        if ds.boxes_enclose() && tuning.early_limit == i64::MIN {
            law_exact_search_finds_nearest(ds, query@, order);
        }
    }
    r
}

/// Counts the frauds among the five nearest neighbours in the closest clusters
/// alone.
pub fn search_fraud_count_probe(query: &[i16; DIM], ds: &ClusterIndex, tuning: &Tuning) -> (r: u8)
    requires
        ds.well_formed(),
        1 <= tuning.fast_nprobe <= MAX_PROBE,
    ensures
        r == votes(
            ds.probed(
                query@,
                ds.probe_order(query@, probe_count(ds, tuning)),
                None,
                probe_count(ds, tuning),
            ).kept,
        ),
        ds.is_probe_order(
            query@,
            probe_count(ds, tuning),
            ds.probe_order(query@, probe_count(ds, tuning)),
        ),
{
    let order = choose_probes(query, ds, tuning.fast_nprobe);
    let sentinel_entry = Top5 { dist: i64::MAX, label: 0, orig_id: u32::MAX };
    let mut top5 = [sentinel_entry; 5];
    let mut worst_idx: usize = 0;
    let mut scanned = [0u64; BITSET_WORDS];
    proof {
        lemma_nothing_kept();
        lemma_empty_set(scanned@);
        assert(kept(top5@, worst_idx) =~= nothing_kept());
    }
    let mut i: usize = 0;
    while i < order.len()
        invariant
            ds.well_formed(),
            i <= order@.len(),
            forall|t: int| 0 <= t < order@.len() ==> (#[trigger] order@[t]) < ds.k,
            kept_ok(kept(top5@, worst_idx)),
            ds.probed(query@, order@, None, i as int) == (Probed {
                kept: kept(top5@, worst_idx),
                done: false,
            }),
            forall|c: int|
                0 <= c < MAX_K ==> #[trigger] in_set(scanned@, c) == order@.take(i as int).contains(
                    c as usize,
                ),
        decreases order@.len() - i,
    {
        let c = order[i];
        proof {
            lemma_take_contains(order@, i as int);
        }
        if !bitset_get(&scanned, c) {
            bitset_set(&mut scanned, c);
            scan_cluster(c, query, ds, &mut top5, &mut worst_idx);
        }
        i += 1;
    }
    count_votes(&top5)
}

/// Number of clusters that callers ask to have probed.
pub fn nprobe_default() -> (r: usize)
    ensures
        r == 8,
{
    NPROBE_DEFAULT
}

proof fn lemma_no_distance(a: Seq<i16>, b: Seq<i16>, n: int)
    requires
        forall|i: int| 0 <= i < n ==> #[trigger] a[i] == b[i],
    ensures
        sq_dist(a, b, n) == 0,
    decreases n,
{
    if n > 0 {
        lemma_no_distance(a, b, n - 1);
        assert(a[n - 1] == b[n - 1]);
    }
}

/// The distance is that of Euclid, squared: where vectors differ in one feature it is the
/// square of that difference.
pub proof fn law_distance_in_one_feature(a: Seq<i16>, b: Seq<i16>, n: int, j: int)
    requires
        0 <= j < n,
        forall|i: int| 0 <= i < n && i != j ==> #[trigger] a[i] == b[i],
    ensures
        sq_dist(a, b, n) == (a[j] - b[j]) * (a[j] - b[j]),
    decreases n,
{
    if j == n - 1 {
        lemma_no_distance(a, b, n - 1);
    } else {
        law_distance_in_one_feature(a, b, n - 1, j);
        assert(a[n - 1] == b[n - 1]);
    }
}

/// Distances add up over features: on the way from `a` to `c` through `b`, which differs
/// from `a` in the features of `turned` alone and from `c` in the others alone, the
/// squared distances of the two parts are that of the whole.
pub proof fn law_distances_add_up(
    a: Seq<i16>,
    b: Seq<i16>,
    c: Seq<i16>,
    n: int,
    turned: Set<int>,
)
    requires
        forall|i: int|
            #![trigger b[i]]
            0 <= i < n ==> if turned.contains(i) {
                b[i] == c[i]
            } else {
                b[i] == a[i]
            },
    ensures
        sq_dist(a, c, n) == sq_dist(a, b, n) + sq_dist(b, c, n),
        sq_dist(a, c, n) == sq_dist(c, a, n),
        sq_dist(a, c, n) >= 0,
    decreases n,
{
    if n > 0 {
        law_distances_add_up(a, b, c, n - 1, turned);
        let x = a[n - 1] as int;
        let y = b[n - 1] as int;
        let z = c[n - 1] as int;
        assert((x - z) * (x - z) == (z - x) * (z - x)) by (nonlinear_arith);
        assert((x - z) * (x - z) >= 0) by (nonlinear_arith);
        if y == z {
            assert((y - z) * (y - z) == 0) by (nonlinear_arith)
                requires
                    y == z,
            ;
        } else {
            assert(y == x);
            assert((x - y) * (x - y) == 0) by (nonlinear_arith)
                requires
                    y == x,
            ;
        }
    }
}

/// The clusters that are probed are those with the closest centroids: one that is not
/// probed is no closer than any that is, and those that are come closest first, by their
/// numbers where they are as close. Distances are taken in 32 bits.
pub proof fn law_probes_go_to_the_closest_centroids(
    ds: &ClusterIndex,
    q: Seq<i16>,
    n: int,
    order: Seq<usize>,
    s: int,
    t: int,
    c: usize,
)
    requires
        0 <= n <= ds.k,
        ds.is_probe_order(q, n, order),
        0 <= s <= t < n,
        c < ds.k,
        !order.contains(c),
        sq_dist(q, ds.centroid(c as int, ds.k_pad as int), 14) % 0x1_0000_0000 < u32::MAX,
    ensures
        order.len() == n,
        sq_dist(q, ds.centroid(order[t] as int, ds.k_pad as int), 14) % 0x1_0000_0000 <= sq_dist(
            q,
            ds.centroid(c as int, ds.k_pad as int),
            14,
        ) % 0x1_0000_0000,
        ({
            let a = sq_dist(q, ds.centroid(order[s] as int, ds.k_pad as int), 14) % 0x1_0000_0000;
            let b = sq_dist(q, ds.centroid(order[t] as int, ds.k_pad as int), 14) % 0x1_0000_0000;
            s < t ==> a < b || (a == b && order[s] < order[t])
        }),
{
    let dists = ds.centroid_dists(q);
    let chosen = choose|chosen: Seq<usize>|
        is_ranking(dists, n, chosen) && order == chosen + Seq::new(
            (n - chosen.len()) as nat,
            |i: int| 0usize,
        );
    if chosen.contains(c) {
        let i = chosen.index_of(c);
        assert(order[i] == c);
    }
    assert(dists[c as int] < u32::MAX);
    assert(chosen.len() == n);
    assert(order =~= chosen);
    assert(ranks_before(dists, chosen[t], c));
    if s < t {
        assert(ranks_before(dists, chosen[s], chosen[t]));
    }
}

} // verus!
