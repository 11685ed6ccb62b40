//! Grouping vectors round centroids: the random numbers, the bookkeeping of who
//! belongs where, and when to stop.

use vstd::prelude::*;

verus! {

/// The most vectors that the first centroids are chosen from.
pub const KMEANS_INIT_SAMPLE: usize = 65_536;

/// What a state of the generator is multiplied by.
pub const LCG_MULTIPLIER: u64 = 6364136223846793005;

/// What is added to a state of the generator.
pub const LCG_INCREMENT: u64 = 1442695040888963407;

/// The state of the generator after the state `s`.
pub open spec fn lcg_next(s: int) -> int {
    (s * LCG_MULTIPLIER + LCG_INCREMENT) % 0x1_0000_0000_0000_0000
}

/// The state of the generator `n` steps after the state `s`.
pub open spec fn lcg_after(s: int, n: int) -> int
    decreases n,
{
    if n <= 0 {
        s
    } else {
        lcg_next(lcg_after(s, n - 1))
    }
}

/// A number below `n`, from a state of the generator.
pub open spec fn lcg_below(s: int, n: int) -> int {
    s / 0x2_0000_0000 % n
}

/// A linear congruential generator of random numbers.
pub struct Lcg {
    pub state: u64,
}

impl Lcg {
    /// The generator that starts from `seed`.
    pub fn new(seed: u64) -> (r: Lcg)
        ensures
            r.state == seed,
    {
        Lcg { state: seed }
    }

    /// The next number.
    pub fn next_u64(&mut self) -> (r: u64)
        ensures
            r == lcg_next(old(self).state as int),
            final(self).state == r,
    {
        proof {
            let m = 0x1_0000_0000_0000_0000int;
            vstd::arithmetic::div_mod::lemma_add_mod_noop(
                self.state * LCG_MULTIPLIER,
                LCG_INCREMENT as int,
                m,
            );
            vstd::arithmetic::div_mod::lemma_small_mod(LCG_INCREMENT as nat, m as nat);
        }
        self.state = self.state.wrapping_mul(LCG_MULTIPLIER).wrapping_add(LCG_INCREMENT);
        self.state
    }

    /// The next number, below `n`.
    pub fn next_usize(&mut self, n: usize) -> (r: usize)
        requires
            n > 0,
        ensures
            r == lcg_below(lcg_next(old(self).state as int), n as int),
            r < n,
            final(self).state == lcg_next(old(self).state as int),
    {
        let x = self.next_u64();
        assert(x >> 33u32 == x / 0x2_0000_0000) by (bit_vector);
        assert(x / 0x2_0000_0000 <= 0x7FFF_FFFF);
        ((x >> 33u32) as usize) % n
    }
}

/// Chooses the vectors, out of `n`, from which the first centroids are taken.
pub fn sample_indices(rng: &mut Lcg, n: usize) -> (r: Vec<usize>)
    requires
        n > 0,
    ensures
        r@.len() == if n < KMEANS_INIT_SAMPLE {
            n
        } else {
            KMEANS_INIT_SAMPLE
        },
        forall|i: int|
            0 <= i < r@.len() ==> #[trigger] r@[i] == lcg_below(
                lcg_after(old(rng).state as int, i + 1),
                n as int,
            ) && r@[i] < n,
        final(rng).state == lcg_after(old(rng).state as int, r@.len() as int),
{
    let ghost s0 = rng.state as int;
    let size = if n < KMEANS_INIT_SAMPLE {
        n
    } else {
        KMEANS_INIT_SAMPLE
    };
    let mut sample: Vec<usize> = Vec::new();
    let mut i: usize = 0;
    while i < size
        invariant
            n > 0,
            i <= size,
            sample@.len() == i,
            rng.state == lcg_after(s0, i as int),
            forall|j: int|
                0 <= j < i ==> #[trigger] sample@[j] == lcg_below(
                    lcg_after(s0, j + 1),
                    n as int,
                ) && sample@[j] < n,
        decreases size - i,
    {
        sample.push(rng.next_usize(n));
        i += 1;
    }
    sample
}

/// Number of positions below `n` at which `a` and `b` differ.
pub open spec fn differences(a: Seq<u16>, b: Seq<u16>, n: int) -> int
    decreases n,
{
    if n <= 0 {
        0
    } else {
        differences(a, b, n - 1) + if a[n - 1] != b[n - 1] {
            1int
        } else {
            0
        }
    }
}

/// Assigns each vector to its nearest centroid. The result is the number of vectors
/// that change.
pub fn reassign(nearest: &[u16], assignments: &mut Vec<u16>) -> (r: usize)
    requires
        nearest@.len() == old(assignments)@.len(),
    ensures
        final(assignments)@ == nearest@,
        r == differences(nearest@, old(assignments)@, nearest@.len() as int),
{
    let ghost before = assignments@;
    let mut changed: usize = 0;
    let mut i: usize = 0;
    while i < nearest.len()
        invariant
            i <= nearest@.len() == assignments@.len() == before.len(),
            changed <= i,
            changed == differences(nearest@, before, i as int),
            forall|j: int| 0 <= j < i ==> #[trigger] assignments@[j] == nearest@[j],
            forall|j: int| i <= j < before.len() ==> #[trigger] assignments@[j] == before[j],
        decreases nearest@.len() - i,
    {
        if nearest[i] != assignments[i] {
            changed += 1;
            assignments.set(i, nearest[i]);
        }
        i += 1;
    }
    assert(assignments@ =~= nearest@);
    changed
}

/// Assigning the same centroids again changes nothing.
pub proof fn law_reassigning_settles(nearest: Seq<u16>, n: int)
    ensures
        differences(nearest, nearest, n) == 0,
    decreases n,
{
    if n > 0 {
        law_reassigning_settles(nearest, n - 1);
    }
}

/// Whether so few of `n` vectors have changed that there is no need to go on: fewer
/// than one in a thousand.
pub fn is_settled(changed: usize, n: usize) -> (r: bool)
    requires
        changed * 1000 <= usize::MAX,
    ensures
        r == (changed * 1000 < n),
{
    changed * 1000 < n
}

/// Number of vectors that each of `threads` workers is given, at most.
pub fn chunk_len(n: usize, threads: usize) -> (r: usize)
    requires
        threads > 0,
        n + threads <= usize::MAX,
    ensures
        r == (n + threads - 1) / threads as int,
{
    (n + threads - 1) / threads
}

/// Number of the first `n` vectors that belong to centroid `c`.
pub open spec fn members_of(assignments: Seq<u16>, c: int, n: int) -> int
    decreases n,
{
    if n <= 0 {
        0
    } else {
        members_of(assignments, c, n - 1) + if assignments[n - 1] == c {
            1int
        } else {
            0
        }
    }
}

/// Counts the vectors that belong to each of `k` centroids.
pub fn count_members(assignments: &[u16], k: usize) -> (r: Vec<u32>)
    requires
        assignments@.len() <= u32::MAX,
        forall|i: int| 0 <= i < assignments@.len() ==> (#[trigger] assignments@[i]) < k,
    ensures
        r@.len() == k,
        forall|c: int|
            0 <= c < k ==> #[trigger] r@[c] == members_of(assignments@, c, assignments@.len() as int),
{
    let mut counts: Vec<u32> = vec![0; k];
    let mut i: usize = 0;
    while i < assignments.len()
        invariant
            i <= assignments@.len() <= u32::MAX,
            counts@.len() == k,
            forall|j: int| 0 <= j < assignments@.len() ==> (#[trigger] assignments@[j]) < k,
            forall|c: int| 0 <= c < k ==> #[trigger] counts@[c] <= i,
            forall|c: int|
                0 <= c < k ==> #[trigger] counts@[c] == members_of(assignments@, c, i as int),
        decreases assignments@.len() - i,
    {
        let c = assignments[i] as usize;
        let n = counts[c];
        counts.set(c, n + 1);
        i += 1;
    }
    counts
}

/// The vectors that change are those at which the two assignments differ, each counted
/// once: none changes exactly where the assignments are the same.
pub proof fn law_differences_are_counted_once(a: Seq<u16>, b: Seq<u16>, n: int)
    requires
        0 <= n <= a.len(),
        a.len() == b.len(),
    ensures
        differences(a, b, n) == Set::new(|i: int| 0 <= i < n && a[i] != b[i]).len(),
        Set::new(|i: int| 0 <= i < n && a[i] != b[i]).finite(),
        differences(a, b, n) == differences(b, a, n),
        0 <= differences(a, b, n) <= n,
        differences(a, b, n) == 0 <==> a.take(n) == b.take(n),
    decreases n,
{
    let s = Set::new(|i: int| 0 <= i < n && a[i] != b[i]);
    if n > 0 {
        law_differences_are_counted_once(a, b, n - 1);
        let less = Set::new(|i: int| 0 <= i < n - 1 && a[i] != b[i]);
        assert(a.take(n).drop_last() =~= a.take(n - 1));
        assert(b.take(n).drop_last() =~= b.take(n - 1));
        if a[n - 1] != b[n - 1] {
            assert(s =~= less.insert(n - 1));
            assert(a.take(n)[n - 1] != b.take(n)[n - 1]);
        } else {
            assert(s =~= less);
            if a.take(n - 1) == b.take(n - 1) {
                assert(a.take(n) =~= a.take(n - 1).push(a[n - 1]));
                assert(b.take(n) =~= b.take(n - 1).push(b[n - 1]));
            }
        }
    } else {
        assert(s =~= Set::empty());
        assert(a.take(0) =~= b.take(0));
    }
}

/// The members of a centroid are the vectors that are assigned to it, each counted once.
pub proof fn law_members_are_counted_once(assignments: Seq<u16>, c: int, n: int)
    requires
        0 <= n <= assignments.len(),
    ensures
        members_of(assignments, c, n) == Set::new(
            |i: int| 0 <= i < n && assignments[i] == c,
        ).len(),
        Set::new(|i: int| 0 <= i < n && assignments[i] == c).finite(),
    decreases n,
{
    let s = Set::new(|i: int| 0 <= i < n && assignments[i] == c);
    if n > 0 {
        law_members_are_counted_once(assignments, c, n - 1);
        let less = Set::new(|i: int| 0 <= i < n - 1 && assignments[i] == c);
        if assignments[n - 1] == c {
            assert(s =~= less.insert(n - 1));
        } else {
            assert(s =~= less);
        }
    } else {
        assert(s =~= Set::empty());
    }
}

} // verus!
