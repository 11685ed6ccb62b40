//! How an index lies in its file, byte by byte.

use vstd::prelude::*;

use crate::bytes::text;
use crate::dataset::{
    header_error, holds_bytes, holds_i16s, holds_i32s, holds_u32s, i16_at, i32_at, u32_at, Dataset,
    IndexError,
};

verus! {

/// A number in `n` bytes, low byte first, in two's complement.
pub open spec fn le_bytes(v: int, n: int) -> Seq<u8>
    decreases n,
{
    if n <= 0 {
        Seq::empty()
    } else {
        seq![(v % 256) as u8] + le_bytes(v / 256, n - 1)
    }
}

/// Numbers of `w` bytes each, one behind the other.
pub open spec fn column_bytes(c: Seq<int>, w: int) -> Seq<u8>
    decreases c.len(),
{
    if c.len() == 0 {
        Seq::empty()
    } else {
        column_bytes(c.drop_last(), w) + le_bytes(c.last(), w)
    }
}

proof fn lemma_four_bytes(v: int)
    ensures
        le_bytes(v, 4) == seq![
            (v % 256) as u8,
            (v / 256 % 256) as u8,
            (v / 256 / 256 % 256) as u8,
            (v / 256 / 256 / 256 % 256) as u8,
        ],
{
    reveal_with_fuel(le_bytes, 5);
    assert(le_bytes(v, 4) =~= seq![
        (v % 256) as u8,
        (v / 256 % 256) as u8,
        (v / 256 / 256 % 256) as u8,
        (v / 256 / 256 / 256 % 256) as u8,
    ]);
}

proof fn lemma_two_bytes(v: int)
    ensures
        le_bytes(v, 2) == seq![(v % 256) as u8, (v / 256 % 256) as u8],
{
    reveal_with_fuel(le_bytes, 3);
    assert(le_bytes(v, 2) =~= seq![(v % 256) as u8, (v / 256 % 256) as u8]);
}

proof fn lemma_u32_bytes(b: Seq<u8>, p: int)
    requires
        0 <= p,
        p + 4 <= b.len(),
    ensures
        b.subrange(p, p + 4) == le_bytes(u32_at(b, p), 4),
{
    let v = u32_at(b, p);
    let b1 = b[p + 1] as int;
    let b2 = b[p + 2] as int;
    let b3 = b[p + 3] as int;
    lemma_four_bytes(v);
    assert(v / 256 == b1 + 256 * b2 + 65536 * b3);
    assert(v / 256 / 256 == b2 + 256 * b3);
    assert(v / 256 / 256 / 256 == b3);
    assert(b.subrange(p, p + 4) =~= le_bytes(v, 4));
}

proof fn lemma_i32_bytes(b: Seq<u8>, p: int)
    requires
        0 <= p,
        p + 4 <= b.len(),
    ensures
        b.subrange(p, p + 4) == le_bytes(i32_at(b, p), 4),
{
    lemma_u32_bytes(b, p);
    let u = u32_at(b, p);
    let v = i32_at(b, p);
    if v != u {
        lemma_four_bytes(u);
        lemma_four_bytes(v);
        assert(v / 256 == u / 256 - 16777216);
        assert(v / 256 / 256 == u / 256 / 256 - 65536);
        assert(v / 256 / 256 / 256 == u / 256 / 256 / 256 - 256);
        assert(le_bytes(v, 4) =~= le_bytes(u, 4));
    }
}

proof fn lemma_i16_bytes(b: Seq<u8>, p: int)
    requires
        0 <= p,
        p + 2 <= b.len(),
    ensures
        b.subrange(p, p + 2) == le_bytes(i16_at(b, p), 2),
{
    let u = b[p] + 256 * b[p + 1];
    let v = i16_at(b, p);
    lemma_two_bytes(v);
    assert(u % 256 == b[p] && u / 256 == b[p + 1]);
    if v != u {
        assert(v % 256 == b[p]);
        assert(v / 256 == b[p + 1] - 256);
    }
    assert(b.subrange(p, p + 2) =~= le_bytes(v, 2));
}

/// The numbers of a column.
pub open spec fn u32_column(c: Seq<u32>) -> Seq<int> {
    Seq::new(c.len(), |i: int| c[i] as int)
}

/// The numbers of a column.
pub open spec fn i32_column(c: Seq<i32>) -> Seq<int> {
    Seq::new(c.len(), |i: int| c[i] as int)
}

/// The numbers of a column.
pub open spec fn i16_column(c: Seq<i16>) -> Seq<int> {
    Seq::new(c.len(), |i: int| c[i] as int)
}

#[verifier::rlimit(50)]
proof fn lemma_column(b: Seq<u8>, p: int, c: Seq<int>, w: int)
    requires
        0 <= p,
        0 < w,
        p + w * c.len() <= b.len(),
        forall|i: int|
            0 <= i < c.len() ==> #[trigger] b.subrange(p + w * i, p + w * i + w) == le_bytes(c[i], w),
    ensures
        b.subrange(p, p + w * c.len()) == column_bytes(c, w),
    decreases c.len(),
{
    let n = c.len() as int;
    if n == 0 {
        assert(b.subrange(p, p + w * n) =~= column_bytes(c, w));
    } else {
        let less = c.drop_last();
        assert(w * n == w * (n - 1) + w) by (nonlinear_arith);
        assert(0 <= w * (n - 1)) by (nonlinear_arith)
            requires
                0 < w,
                n >= 1,
        ;
        assert forall|i: int| 0 <= i < less.len() implies #[trigger] b.subrange(
            p + w * i,
            p + w * i + w,
        ) == le_bytes(less[i], w) by {
            assert(b.subrange(p + w * i, p + w * i + w) == le_bytes(c[i], w));
        }
        lemma_column(b, p, less, w);
        assert(b.subrange(p + w * (n - 1), p + w * (n - 1) + w) == le_bytes(c[n - 1], w));
        lemma_join(b, p, p + w * (n - 1), p + w * n);
    }
}

proof fn lemma_join(b: Seq<u8>, x: int, y: int, z: int)
    requires
        0 <= x <= y <= z <= b.len(),
    ensures
        b.subrange(x, y) + b.subrange(y, z) == b.subrange(x, z),
{
    assert(b.subrange(x, y) + b.subrange(y, z) =~= b.subrange(x, z));
}

proof fn lemma_u32_column(b: Seq<u8>, p: int, c: Seq<u32>)
    requires
        0 <= p,
        holds_u32s(b, p, c),
    ensures
        b.subrange(p, p + 4 * c.len()) == column_bytes(u32_column(c), 4),
{
    assert forall|i: int| 0 <= i < u32_column(c).len() implies #[trigger] b.subrange(
        p + 4 * i,
        p + 4 * i + 4,
    ) == le_bytes(u32_column(c)[i], 4) by {
        lemma_u32_bytes(b, p + 4 * i);
        assert(u32_at(b, p + 4 * i) == c[i]);
    }
    lemma_column(b, p, u32_column(c), 4);
}

proof fn lemma_i32_column(b: Seq<u8>, p: int, c: Seq<i32>)
    requires
        0 <= p,
        holds_i32s(b, p, c),
    ensures
        b.subrange(p, p + 4 * c.len()) == column_bytes(i32_column(c), 4),
{
    assert forall|i: int| 0 <= i < i32_column(c).len() implies #[trigger] b.subrange(
        p + 4 * i,
        p + 4 * i + 4,
    ) == le_bytes(i32_column(c)[i], 4) by {
        lemma_i32_bytes(b, p + 4 * i);
        assert(i32_at(b, p + 4 * i) == c[i]);
    }
    lemma_column(b, p, i32_column(c), 4);
}

proof fn lemma_i16_column(b: Seq<u8>, p: int, c: Seq<i16>)
    requires
        0 <= p,
        holds_i16s(b, p, c),
    ensures
        b.subrange(p, p + 2 * c.len()) == column_bytes(i16_column(c), 2),
{
    assert forall|i: int| 0 <= i < i16_column(c).len() implies #[trigger] b.subrange(
        p + 2 * i,
        p + 2 * i + 2,
    ) == le_bytes(i16_column(c)[i], 2) by {
        lemma_i16_bytes(b, p + 2 * i);
        assert(i16_at(b, p + 2 * i) == c[i]);
    }
    lemma_column(b, p, i16_column(c), 2);
}

/// How every file starts: the mark of its kind, its version, the numbers of features that
/// are compared and stored, and the scale.
pub open spec fn preamble() -> Seq<u8> {
    text("DFKDP001") + le_bytes(1, 4) + le_bytes(14, 4) + le_bytes(16, 4) + le_bytes(10_000, 4)
}

proof fn lemma_same_number(b: Seq<u8>, p: int, v: int)
    requires
        0 <= p,
        p + 4 <= b.len(),
        0 <= v <= u32::MAX,
    ensures
        u32_at(b, p) == v <==> b.subrange(p, p + 4) == le_bytes(v, 4),
{
    lemma_u32_bytes(b, p);
    if b.subrange(p, p + 4) == le_bytes(v, 4) {
        let w = b.subrange(p, p + 4);
        lemma_four_bytes(v);
        assert(w[0] == b[p] && w[1] == b[p + 1] && w[2] == b[p + 2] && w[3] == b[p + 3]);
        assert(v / 256 / 256 / 256 < 256);
    }
}

proof fn lemma_magic()
    ensures
        text("DFKDP001").len() == 8,
        preamble().len() == 24,
{
    reveal_strlit("DFKDP001");
    assert("DFKDP001".is_ascii());
    lemma_four_bytes(1);
    lemma_four_bytes(14);
    lemma_four_bytes(16);
    lemma_four_bytes(10_000);
}

/// A header is accepted exactly where it is whole and starts as every file does. What is
/// wrong with it else is told by the first part that is.
#[verifier::rlimit(50)]
pub proof fn law_header_is_checked(b: Seq<u8>)
    ensures
        header_error(b) is None <==> b.len() >= 44 && b.take(24) == preamble(),
        header_error(b) == Some(IndexError::TooSmall) <==> b.len() < 44,
        header_error(b) == Some(IndexError::BadMagic) <==> b.len() >= 44 && b.take(8) != text(
            "DFKDP001",
        ),
        header_error(b) == Some(IndexError::BadVersion) <==> b.len() >= 44 && b.take(8) == text(
            "DFKDP001",
        ) && b.subrange(8, 12) != le_bytes(1, 4),
        header_error(b) != Some(IndexError::TrailingData),
{
    lemma_magic();
    if b.len() >= 44 {
        lemma_same_number(b, 8, 1);
        lemma_same_number(b, 12, 14);
        lemma_same_number(b, 16, 16);
        lemma_same_number(b, 20, 10_000);
        assert(b.take(8) =~= b.subrange(0, 8));
        lemma_join(b, 0, 8, 12);
        lemma_join(b, 0, 12, 16);
        lemma_join(b, 0, 16, 20);
        lemma_join(b, 0, 20, 24);
        assert(b.take(24) =~= b.subrange(0, 24));
        if b.take(24) == preamble() {
            lemma_four_bytes(1);
            lemma_four_bytes(14);
            lemma_four_bytes(16);
            lemma_four_bytes(10_000);
            let w = preamble();
            assert(b.subrange(0, 8) =~= b.take(24).subrange(0, 8));
            assert(w.subrange(0, 8) =~= text("DFKDP001"));
            assert(b.subrange(8, 12) =~= b.take(24).subrange(8, 12));
            assert(w.subrange(8, 12) =~= le_bytes(1, 4));
            assert(b.subrange(12, 16) =~= b.take(24).subrange(12, 16));
            assert(w.subrange(12, 16) =~= le_bytes(14, 4));
            assert(b.subrange(16, 20) =~= b.take(24).subrange(16, 20));
            assert(w.subrange(16, 20) =~= le_bytes(16, 4));
            assert(b.subrange(20, 24) =~= b.take(24).subrange(20, 24));
            assert(w.subrange(20, 24) =~= le_bytes(10_000, 4));
        }
    }
}

/// The columns of the partitions, one behind the other.
pub open spec fn parts_bytes(ds: &Dataset) -> Seq<u8> {
    column_bytes(u32_column(ds.part_keys@), 4) + column_bytes(i32_column(ds.part_roots@), 4)
        + column_bytes(i16_column(ds.part_min@), 2) + column_bytes(i16_column(ds.part_max@), 2)
}

/// The columns of the nodes, one behind the other.
pub open spec fn nodes_bytes(ds: &Dataset) -> Seq<u8> {
    column_bytes(i32_column(ds.node_left@), 4) + column_bytes(i32_column(ds.node_right@), 4)
        + column_bytes(i32_column(ds.node_start@), 4) + column_bytes(i32_column(ds.node_len@), 4)
        + column_bytes(i16_column(ds.node_min@), 2) + column_bytes(i16_column(ds.node_max@), 2)
}

/// The blocks and the labels, one behind the other.
pub open spec fn slots_bytes(ds: &Dataset) -> Seq<u8> {
    column_bytes(i16_column(ds.blocks@), 2) + ds.labels@
}

/// A file is its preamble, the counts of vectors, partitions, nodes and blocks, four bytes
/// that are not used, and the columns of the partitions, of the nodes and of the blocks,
/// with nothing between them and nothing behind them.
#[verifier::rlimit(50)]
pub proof fn law_file_is_its_columns(ds: &Dataset, b: Seq<u8>)
    requires
        ds.well_formed(),
        ds.is_file(b),
    ensures
        b.take(40) == preamble() + le_bytes(ds.n as int, 4) + le_bytes(ds.k as int, 4) + le_bytes(
            ds.nodes(),
            4,
        ) + le_bytes(ds.labels@.len() as int / 8, 4),
        b.skip(44) == parts_bytes(ds) + nodes_bytes(ds) + slots_bytes(ds),
{
    let k = ds.k as int;
    let n = ds.nodes();
    let t = ds.block_total();
    let a = 44 + 72 * k;
    let c = a + 80 * n;
    let z = b.len() as int;
    law_header_is_checked(b);
    lemma_u32_bytes(b, 24);
    lemma_u32_bytes(b, 28);
    lemma_u32_bytes(b, 32);
    lemma_u32_bytes(b, 36);
    assert(b.take(24) =~= b.subrange(0, 24));
    lemma_join(b, 0, 24, 28);
    lemma_join(b, 0, 28, 32);
    lemma_join(b, 0, 32, 36);
    lemma_join(b, 0, 36, 40);
    assert(b.take(40) =~= b.subrange(0, 40));
    assert(z == c + 232 * t);
    lemma_u32_column(b, 44, ds.part_keys@);
    lemma_i32_column(b, 44 + 4 * k, ds.part_roots@);
    lemma_i16_column(b, 44 + 8 * k, ds.part_min@);
    lemma_i16_column(b, 44 + 40 * k, ds.part_max@);
    lemma_join(b, 44, 44 + 4 * k, 44 + 8 * k);
    lemma_join(b, 44, 44 + 8 * k, 44 + 40 * k);
    lemma_join(b, 44, 44 + 40 * k, a);
    assert(b.subrange(44, a) == parts_bytes(ds));
    lemma_i32_column(b, a, ds.node_left@);
    lemma_i32_column(b, a + 4 * n, ds.node_right@);
    lemma_i32_column(b, a + 8 * n, ds.node_start@);
    lemma_i32_column(b, a + 12 * n, ds.node_len@);
    lemma_i16_column(b, a + 16 * n, ds.node_min@);
    lemma_i16_column(b, a + 48 * n, ds.node_max@);
    lemma_join(b, a, a + 4 * n, a + 8 * n);
    lemma_join(b, a, a + 8 * n, a + 12 * n);
    lemma_join(b, a, a + 12 * n, a + 16 * n);
    lemma_join(b, a, a + 16 * n, a + 48 * n);
    lemma_join(b, a, a + 48 * n, c);
    assert(b.subrange(a, c) == nodes_bytes(ds));
    lemma_i16_column(b, c, ds.blocks@);
    assert(holds_bytes(b, c + 224 * t, ds.labels@));
    assert(b.subrange(c + 224 * t, z) =~= ds.labels@) by {
        assert forall|i: int| 0 <= i < ds.labels@.len() implies b[c + 224 * t + i]
            == #[trigger] ds.labels@[i] by {}
    }
    lemma_join(b, c, c + 224 * t, z);
    assert(b.subrange(c, z) == slots_bytes(ds));
    lemma_join(b, 44, a, c);
    lemma_join(b, 44, c, z);
    assert(b.skip(44) =~= b.subrange(44, z));
}

} // verus!
