//! Laying an index out as the bytes of its file.

use vstd::prelude::*;

use crate::bytes::text;
use crate::dataset::{
    block_count, blocks_at, header_error, holds_i16s, holds_i32s, holds_u32s, i16_at, i32_at,
    node_count, nodes_at, part_count, u32_at, Dataset, MAGIC, SCALE, VERSION,
};

verus! {

/// `long` begins with `short`.
pub open spec fn extends(short: Seq<u8>, long: Seq<u8>) -> bool {
    &&& short.len() <= long.len()
    &&& forall|i: int| 0 <= i < short.len() ==> #[trigger] short[i] == long[i]
}

fn push_u32(out: &mut Vec<u8>, v: u32)
    ensures
        extends(old(out)@, final(out)@),
        final(out)@.len() == old(out)@.len() + 4,
        u32_at(final(out)@, old(out)@.len() as int) == v,
{
    out.push((v % 256) as u8);
    out.push((v / 256 % 256) as u8);
    out.push((v / 65536 % 256) as u8);
    out.push((v / 16777216) as u8);
}

fn push_i16(out: &mut Vec<u8>, v: i16)
    ensures
        extends(old(out)@, final(out)@),
        final(out)@.len() == old(out)@.len() + 2,
        i16_at(final(out)@, old(out)@.len() as int) == v,
{
    let u: u32 = if v >= 0 {
        v as u32
    } else {
        (v as i32 + 65536) as u32
    };
    out.push((u % 256) as u8);
    out.push((u / 256) as u8);
}

/// Writes numbers one behind the other.
fn write_u32s(out: &mut Vec<u8>, c: &Vec<u32>)
    ensures
        extends(old(out)@, final(out)@),
        final(out)@.len() == old(out)@.len() + 4 * c@.len(),
        holds_u32s(final(out)@, old(out)@.len() as int, c@),
{
    let ghost before = out@;
    let mut i: usize = 0;
    while i < c.len()
        invariant
            i <= c@.len(),
            extends(before, out@),
            out@.len() == before.len() + 4 * i,
            forall|j: int| 0 <= j < i ==> u32_at(out@, before.len() + 4 * j) == #[trigger] c@[j],
        decreases c@.len() - i,
    {
        push_u32(out, c[i]);
        i += 1;
    }
}

/// Writes numbers one behind the other.
fn write_i32s(out: &mut Vec<u8>, c: &Vec<i32>)
    ensures
        extends(old(out)@, final(out)@),
        final(out)@.len() == old(out)@.len() + 4 * c@.len(),
        holds_i32s(final(out)@, old(out)@.len() as int, c@),
{
    let ghost before = out@;
    let mut i: usize = 0;
    while i < c.len()
        invariant
            i <= c@.len(),
            extends(before, out@),
            out@.len() == before.len() + 4 * i,
            forall|j: int| 0 <= j < i ==> i32_at(out@, before.len() + 4 * j) == #[trigger] c@[j],
        decreases c@.len() - i,
    {
        let v = c[i];
        let u: u32 = if v >= 0 {
            v as u32
        } else {
            (v as i64 + 4294967296) as u32
        };
        push_u32(out, u);
        i += 1;
    }
}

/// Writes numbers one behind the other.
fn write_i16s(out: &mut Vec<u8>, c: &Vec<i16>)
    ensures
        extends(old(out)@, final(out)@),
        final(out)@.len() == old(out)@.len() + 2 * c@.len(),
        holds_i16s(final(out)@, old(out)@.len() as int, c@),
{
    let ghost before = out@;
    let mut i: usize = 0;
    while i < c.len()
        invariant
            i <= c@.len(),
            extends(before, out@),
            out@.len() == before.len() + 2 * i,
            forall|j: int| 0 <= j < i ==> i16_at(out@, before.len() + 2 * j) == #[trigger] c@[j],
        decreases c@.len() - i,
    {
        push_i16(out, c[i]);
        i += 1;
    }
}

/// Writes bytes one behind the other.
fn write_bytes(out: &mut Vec<u8>, c: &[u8])
    ensures
        final(out)@ == old(out)@ + c@,
{
    let ghost before = out@;
    let mut i: usize = 0;
    while i < c.len()
        invariant
            i <= c@.len(),
            out@ == before + c@.take(i as int),
        decreases c@.len() - i,
    {
        out.push(c[i]);
        i += 1;
        assert(c@.take(i as int) =~= c@.take(i - 1).push(c@[i - 1]));
    }
    assert(c@.take(i as int) =~= c@);
}

proof fn lemma_keeps_u32s(a: Seq<u8>, b: Seq<u8>, p: int, c: Seq<u32>)
    requires
        extends(a, b),
        0 <= p,
        holds_u32s(a, p, c),
    ensures
        holds_u32s(b, p, c),
{
    assert forall|i: int| 0 <= i < c.len() implies u32_at(b, p + 4 * i) == #[trigger] c[i] by {
        assert(u32_at(a, p + 4 * i) == c[i]);
    }
}

proof fn lemma_keeps_i32s(a: Seq<u8>, b: Seq<u8>, p: int, c: Seq<i32>)
    requires
        extends(a, b),
        0 <= p,
        holds_i32s(a, p, c),
    ensures
        holds_i32s(b, p, c),
{
    assert forall|i: int| 0 <= i < c.len() implies i32_at(b, p + 4 * i) == #[trigger] c[i] by {
        assert(i32_at(a, p + 4 * i) == c[i]);
    }
}

proof fn lemma_keeps_i16s(a: Seq<u8>, b: Seq<u8>, p: int, c: Seq<i16>)
    requires
        extends(a, b),
        0 <= p,
        holds_i16s(a, p, c),
    ensures
        holds_i16s(b, p, c),
{
    assert forall|i: int| 0 <= i < c.len() implies i16_at(b, p + 2 * i) == #[trigger] c[i] by {
        assert(i16_at(a, p + 2 * i) == c[i]);
    }
}

/// The header of an index with these counts.
fn header(n: u32, parts: u32, nodes: u32, blocks: u32) -> (r: Vec<u8>)
    ensures
        r@.len() == 44,
        header_error(r@) is None,
        u32_at(r@, 24) == n,
        part_count(r@) == parts,
        node_count(r@) == nodes,
        block_count(r@) == blocks,
        u32_at(r@, 40) == 0,
{
    let mut out: Vec<u8> = Vec::new();
    proof {
        reveal_strlit("DFKDP001");
        assert(MAGIC.is_ascii());
        assert(text(MAGIC).len() == 8);
    }
    write_bytes(&mut out, MAGIC.as_bytes());
    assert(out@ =~= text(MAGIC));
    push_u32(&mut out, VERSION);
    push_u32(&mut out, 14);
    push_u32(&mut out, 16);
    push_u32(&mut out, SCALE);
    push_u32(&mut out, n);
    push_u32(&mut out, parts);
    push_u32(&mut out, nodes);
    push_u32(&mut out, blocks);
    push_u32(&mut out, 0);
    assert(out@.subrange(0, 8) =~= text(MAGIC));
    out
}

/// The bytes of the file of an index.
#[verifier::rlimit(50)]
pub fn encode(ds: &Dataset) -> (r: Vec<u8>)
    requires
        ds.well_formed(),
    ensures
        ds.is_file(r@),
        u32_at(r@, 40) == 0,
{
    let mut out = header(
        ds.n as u32,
        ds.k as u32,
        ds.node_left.len() as u32,
        (ds.labels.len() / 8) as u32,
    );
    let ghost parts = ds.k as int;
    let ghost nodes = ds.nodes();
    let ghost h = out@;
    write_u32s(&mut out, &ds.part_keys);
    let ghost o1 = out@;
    write_i32s(&mut out, &ds.part_roots);
    let ghost o2 = out@;
    write_i16s(&mut out, &ds.part_min);
    let ghost o3 = out@;
    write_i16s(&mut out, &ds.part_max);
    let ghost o4 = out@;
    write_i32s(&mut out, &ds.node_left);
    let ghost o5 = out@;
    write_i32s(&mut out, &ds.node_right);
    let ghost o6 = out@;
    write_i32s(&mut out, &ds.node_start);
    let ghost o7 = out@;
    write_i32s(&mut out, &ds.node_len);
    let ghost o8 = out@;
    write_i16s(&mut out, &ds.node_min);
    let ghost o9 = out@;
    write_i16s(&mut out, &ds.node_max);
    let ghost o10 = out@;
    write_i16s(&mut out, &ds.blocks);
    let ghost o11 = out@;
    write_bytes(&mut out, ds.labels.as_slice());
    proof {
        assert(extends(o11, out@));
        assert(extends(o10, out@));
        assert(extends(o9, out@));
        assert(extends(o8, out@));
        assert(extends(o7, out@));
        assert(extends(o6, out@));
        assert(extends(o5, out@));
        assert(extends(o4, out@));
        assert(extends(o3, out@));
        assert(extends(o2, out@));
        assert(extends(o1, out@));
        assert(extends(h, out@));
        lemma_keeps_u32s(o1, out@, 44, ds.part_keys@);
        lemma_keeps_i32s(o2, out@, 44 + 4 * parts, ds.part_roots@);
        lemma_keeps_i16s(o3, out@, 44 + 8 * parts, ds.part_min@);
        lemma_keeps_i16s(o4, out@, 44 + 40 * parts, ds.part_max@);
        let at = nodes_at(parts);
        lemma_keeps_i32s(o5, out@, at, ds.node_left@);
        lemma_keeps_i32s(o6, out@, at + 4 * nodes, ds.node_right@);
        lemma_keeps_i32s(o7, out@, at + 8 * nodes, ds.node_start@);
        lemma_keeps_i32s(o8, out@, at + 12 * nodes, ds.node_len@);
        lemma_keeps_i16s(o9, out@, at + 16 * nodes, ds.node_min@);
        lemma_keeps_i16s(o10, out@, at + 48 * nodes, ds.node_max@);
        lemma_keeps_i16s(o11, out@, blocks_at(parts, nodes), ds.blocks@);
        assert(out@.subrange(0, 8) =~= h.subrange(0, 8));
    }
    out
}

/// Two indexes have the same columns.
pub open spec fn same_columns(a: &Dataset, b: &Dataset) -> bool {
    &&& a.n == b.n
    &&& a.k == b.k
    &&& a.part_keys@ == b.part_keys@
    &&& a.part_roots@ == b.part_roots@
    &&& a.part_min@ == b.part_min@
    &&& a.part_max@ == b.part_max@
    &&& a.node_left@ == b.node_left@
    &&& a.node_right@ == b.node_right@
    &&& a.node_start@ == b.node_start@
    &&& a.node_len@ == b.node_len@
    &&& a.node_min@ == b.node_min@
    &&& a.node_max@ == b.node_max@
    &&& a.blocks@ == b.blocks@
    &&& a.labels@ == b.labels@
    &&& a.part_by_key@ == b.part_by_key@
}

proof fn lemma_same_u32s(b: Seq<u8>, p: int, x: Seq<u32>, y: Seq<u32>)
    requires
        holds_u32s(b, p, x),
        holds_u32s(b, p, y),
        x.len() == y.len(),
    ensures
        x == y,
{
    assert forall|i: int| 0 <= i < x.len() implies x[i] == y[i] by {
        assert(u32_at(b, p + 4 * i) == x[i]);
        assert(u32_at(b, p + 4 * i) == y[i]);
    }
    assert(x =~= y);
}

proof fn lemma_same_i32s(b: Seq<u8>, p: int, x: Seq<i32>, y: Seq<i32>)
    requires
        holds_i32s(b, p, x),
        holds_i32s(b, p, y),
        x.len() == y.len(),
    ensures
        x == y,
{
    assert forall|i: int| 0 <= i < x.len() implies x[i] == y[i] by {
        assert(i32_at(b, p + 4 * i) == x[i]);
        assert(i32_at(b, p + 4 * i) == y[i]);
    }
    assert(x =~= y);
}

proof fn lemma_same_i16s(b: Seq<u8>, p: int, x: Seq<i16>, y: Seq<i16>)
    requires
        holds_i16s(b, p, x),
        holds_i16s(b, p, y),
        x.len() == y.len(),
    ensures
        x == y,
{
    assert forall|i: int| 0 <= i < x.len() implies x[i] == y[i] by {
        assert(i16_at(b, p + 2 * i) == x[i]);
        assert(i16_at(b, p + 2 * i) == y[i]);
    }
    assert(x =~= y);
}

/// Reading a file gives back what was written: an index loaded from the file of
/// `a` has all columns of `a`.
pub proof fn law_file_gives_back_the_index(a: &Dataset, b: &Dataset, file: Seq<u8>)
    requires
        a.well_formed(),
        b.well_formed(),
        a.is_file(file),
        b.is_file(file),
    ensures
        same_columns(a, b),
{
    let parts = a.k as int;
    let nodes = a.nodes();
    let at = nodes_at(parts);
    lemma_same_u32s(file, 44, a.part_keys@, b.part_keys@);
    lemma_same_i32s(file, 44 + 4 * parts, a.part_roots@, b.part_roots@);
    lemma_same_i16s(file, 44 + 8 * parts, a.part_min@, b.part_min@);
    lemma_same_i16s(file, 44 + 40 * parts, a.part_max@, b.part_max@);
    lemma_same_i32s(file, at, a.node_left@, b.node_left@);
    lemma_same_i32s(file, at + 4 * nodes, a.node_right@, b.node_right@);
    lemma_same_i32s(file, at + 8 * nodes, a.node_start@, b.node_start@);
    lemma_same_i32s(file, at + 12 * nodes, a.node_len@, b.node_len@);
    lemma_same_i16s(file, at + 16 * nodes, a.node_min@, b.node_min@);
    lemma_same_i16s(file, at + 48 * nodes, a.node_max@, b.node_max@);
    lemma_same_i16s(file, blocks_at(parts, nodes), a.blocks@, b.blocks@);
    let labels = blocks_at(parts, nodes) + 224 * a.block_total();
    assert forall|i: int| 0 <= i < a.labels@.len() implies a.labels@[i] == b.labels@[i] by {
        assert(file[labels + i] == a.labels@[i]);
        assert(file[labels + i] == b.labels@[i]);
    }
    assert(a.labels@ =~= b.labels@);
    assert(a.part_by_key@ =~= b.part_by_key@);
}

/// `a` and `b` agree from `from` to `to`.
spec fn agree(a: Seq<u8>, b: Seq<u8>, from: int, to: int) -> bool {
    forall|p: int| from <= p < to ==> #[trigger] a[p] == b[p]
}

proof fn lemma_low_byte(x: u8, r: int, y: u8, s: int)
    requires
        x + 256 * r == y + 256 * s,
    ensures
        x == y,
        r == s,
{
}

proof fn lemma_word_bytes(a: Seq<u8>, b: Seq<u8>, p: int)
    requires
        u32_at(a, p) == u32_at(b, p),
    ensures
        agree(a, b, p, p + 4),
{
    lemma_low_byte(
        a[p],
        a[p + 1] + 256 * a[p + 2] + 65536 * a[p + 3],
        b[p],
        b[p + 1] + 256 * b[p + 2] + 65536 * b[p + 3],
    );
    lemma_low_byte(a[p + 1], a[p + 2] + 256 * a[p + 3], b[p + 1], b[p + 2] + 256 * b[p + 3]);
    lemma_low_byte(a[p + 2], a[p + 3] as int, b[p + 2], b[p + 3] as int);
}

proof fn lemma_u32_bytes(a: Seq<u8>, b: Seq<u8>, at: int, c: Seq<u32>)
    requires
        holds_u32s(a, at, c),
        holds_u32s(b, at, c),
    ensures
        agree(a, b, at, at + 4 * c.len()),
{
    assert forall|p: int| at <= p < at + 4 * c.len() implies #[trigger] a[p] == b[p] by {
        let i = (p - at) / 4;
        assert(u32_at(a, at + 4 * i) == c[i]);
        assert(u32_at(b, at + 4 * i) == c[i]);
        lemma_word_bytes(a, b, at + 4 * i);
    }
}

proof fn lemma_i32_bytes(a: Seq<u8>, b: Seq<u8>, at: int, c: Seq<i32>)
    requires
        holds_i32s(a, at, c),
        holds_i32s(b, at, c),
    ensures
        agree(a, b, at, at + 4 * c.len()),
{
    assert forall|p: int| at <= p < at + 4 * c.len() implies #[trigger] a[p] == b[p] by {
        let i = (p - at) / 4;
        assert(i32_at(a, at + 4 * i) == c[i]);
        assert(i32_at(b, at + 4 * i) == c[i]);
        lemma_word_bytes(a, b, at + 4 * i);
    }
}

proof fn lemma_i16_bytes(a: Seq<u8>, b: Seq<u8>, at: int, c: Seq<i16>)
    requires
        holds_i16s(a, at, c),
        holds_i16s(b, at, c),
    ensures
        agree(a, b, at, at + 2 * c.len()),
{
    assert forall|p: int| at <= p < at + 2 * c.len() implies #[trigger] a[p] == b[p] by {
        let i = (p - at) / 2;
        let q = at + 2 * i;
        assert(i16_at(a, q) == c[i]);
        assert(i16_at(b, q) == c[i]);
        lemma_low_byte(a[q], a[q + 1] as int, b[q], b[q + 1] as int);
    }
}

/// An index has one file only, but for the four bytes of the header that are not
/// used.
pub proof fn law_an_index_has_one_file(ds: &Dataset, a: Seq<u8>, b: Seq<u8>)
    requires
        ds.well_formed(),
        ds.is_file(a),
        ds.is_file(b),
        u32_at(a, 40) == u32_at(b, 40),
    ensures
        a == b,
{
    let parts = ds.k as int;
    let nodes = ds.nodes();
    let at = nodes_at(parts);
    let blocks = blocks_at(parts, nodes);
    let labels = blocks + 224 * ds.block_total();
    assert(agree(a, b, 0, 8)) by {
        assert forall|p: int| 0 <= p < 8 implies #[trigger] a[p] == b[p] by {
            assert(a.subrange(0, 8)[p] == b.subrange(0, 8)[p]);
        }
    }
    lemma_word_bytes(a, b, 8);
    lemma_word_bytes(a, b, 12);
    lemma_word_bytes(a, b, 16);
    lemma_word_bytes(a, b, 20);
    lemma_word_bytes(a, b, 24);
    lemma_word_bytes(a, b, 28);
    lemma_word_bytes(a, b, 32);
    lemma_word_bytes(a, b, 36);
    lemma_word_bytes(a, b, 40);
    lemma_u32_bytes(a, b, 44, ds.part_keys@);
    lemma_i32_bytes(a, b, 44 + 4 * parts, ds.part_roots@);
    lemma_i16_bytes(a, b, 44 + 8 * parts, ds.part_min@);
    lemma_i16_bytes(a, b, 44 + 40 * parts, ds.part_max@);
    lemma_i32_bytes(a, b, at, ds.node_left@);
    lemma_i32_bytes(a, b, at + 4 * nodes, ds.node_right@);
    lemma_i32_bytes(a, b, at + 8 * nodes, ds.node_start@);
    lemma_i32_bytes(a, b, at + 12 * nodes, ds.node_len@);
    lemma_i16_bytes(a, b, at + 16 * nodes, ds.node_min@);
    lemma_i16_bytes(a, b, at + 48 * nodes, ds.node_max@);
    lemma_i16_bytes(a, b, blocks, ds.blocks@);
    assert(agree(a, b, labels, labels + ds.labels@.len())) by {
        assert forall|p: int| labels <= p < labels + ds.labels@.len() implies #[trigger] a[p]
            == b[p] by {
            assert(a[labels + (p - labels)] == ds.labels@[p - labels]);
            assert(b[labels + (p - labels)] == ds.labels@[p - labels]);
        }
    }
    assert(a.len() == b.len());
    assert forall|p: int| 0 <= p < a.len() implies a[p] == b[p] by {}
    assert(a =~= b);
}

} // verus!
