//! The index file: partitions of reference vectors, each of them a tree of boxes.

use vstd::prelude::*;

use crate::bytes::{text, word_at};
use crate::DIM;

verus! {

/// The first bytes of an index file.
pub const MAGIC: &'static str = "DFKDP001";

/// Version of the file format.
pub const VERSION: u32 = 1;

/// Bytes in front of the first column.
pub const HEADER_SIZE: usize = 44;

/// Values that a vector takes up in a box; those behind [`DIM`] are not used.
pub const STORE_DIM: usize = 16;

/// Vectors in a block.
pub const LANES: usize = 8;

/// Values in a block.
pub const BLOCK_I16: usize = 112;

/// What a feature is multiplied by to become an integer.
pub const SCALE: u32 = 10_000;

/// Partitions of reference vectors, column by column.
pub struct Dataset {
    pub n: usize,
    pub k: usize,
    pub part_keys: Vec<u32>,
    pub part_roots: Vec<i32>,
    pub part_min: Vec<i16>,
    pub part_max: Vec<i16>,
    pub node_left: Vec<i32>,
    pub node_right: Vec<i32>,
    pub node_start: Vec<i32>,
    pub node_len: Vec<i32>,
    pub node_min: Vec<i16>,
    pub node_max: Vec<i16>,
    pub blocks: Vec<i16>,
    pub labels: Vec<u8>,
    pub part_by_key: [i32; 256],
}

/// Why a byte string is not an index file.
#[derive(Debug, Clone, Copy, PartialEq, Eq, Structural)]
pub enum IndexError {
    TooSmall,
    BadMagic,
    BadVersion,
    Mismatch,
    TrailingData,
}

impl IndexError {
    /// What is wrong, in words.
    pub fn message(&self) -> (r: &'static str)
        ensures
            r@ == match self {
                IndexError::TooSmall => "index file smaller than header"@,
                IndexError::BadMagic => "bad magic"@,
                IndexError::BadVersion => "bad version"@,
                IndexError::Mismatch => "dim/scale mismatch"@,
                IndexError::TrailingData => "index file has unexpected trailing data"@,
            },
    {
        match self {
            IndexError::TooSmall => "index file smaller than header",
            IndexError::BadMagic => "bad magic",
            IndexError::BadVersion => "bad version",
            IndexError::Mismatch => "dim/scale mismatch",
            IndexError::TrailingData => "index file has unexpected trailing data",
        }
    }
}

/// The unsigned number in the two bytes at `p`, low byte first.
pub open spec fn u16_at(b: Seq<u8>, p: int) -> int {
    b[p] + 256 * b[p + 1]
}

/// The unsigned number in the four bytes at `p`, low byte first.
pub open spec fn u32_at(b: Seq<u8>, p: int) -> int {
    b[p] + 256 * b[p + 1] + 65536 * b[p + 2] + 16777216 * b[p + 3]
}

/// The signed number in the two bytes at `p`, in two's complement.
pub open spec fn i16_at(b: Seq<u8>, p: int) -> int {
    if u16_at(b, p) < 32768 {
        u16_at(b, p)
    } else {
        u16_at(b, p) - 65536
    }
}

/// The signed number in the four bytes at `p`, in two's complement.
pub open spec fn i32_at(b: Seq<u8>, p: int) -> int {
    if u32_at(b, p) < 2147483648 {
        u32_at(b, p)
    } else {
        u32_at(b, p) - 4294967296
    }
}

/// The column `c` stands in `b` at `p`.
pub open spec fn holds_u32s(b: Seq<u8>, p: int, c: Seq<u32>) -> bool {
    &&& p + 4 * c.len() <= b.len()
    &&& forall|i: int| 0 <= i < c.len() ==> u32_at(b, p + 4 * i) == #[trigger] c[i]
}

/// The column `c` stands in `b` at `p`.
pub open spec fn holds_i32s(b: Seq<u8>, p: int, c: Seq<i32>) -> bool {
    &&& p + 4 * c.len() <= b.len()
    &&& forall|i: int| 0 <= i < c.len() ==> i32_at(b, p + 4 * i) == #[trigger] c[i]
}

/// The column `c` stands in `b` at `p`.
pub open spec fn holds_i16s(b: Seq<u8>, p: int, c: Seq<i16>) -> bool {
    &&& p + 2 * c.len() <= b.len()
    &&& forall|i: int| 0 <= i < c.len() ==> i16_at(b, p + 2 * i) == #[trigger] c[i]
}

/// The column `c` stands in `b` at `p`.
pub open spec fn holds_bytes(b: Seq<u8>, p: int, c: Seq<u8>) -> bool {
    &&& p + c.len() <= b.len()
    &&& forall|i: int| 0 <= i < c.len() ==> b[p + i] == #[trigger] c[i]
}

/// Number of partitions that the header of `b` gives.
pub open spec fn part_count(b: Seq<u8>) -> int {
    u32_at(b, 28)
}

/// Number of nodes that the header of `b` gives.
pub open spec fn node_count(b: Seq<u8>) -> int {
    u32_at(b, 32)
}

/// Number of blocks that the header of `b` gives.
pub open spec fn block_count(b: Seq<u8>) -> int {
    u32_at(b, 36)
}

/// Where the columns of the nodes start, behind `parts` partitions.
pub open spec fn nodes_at(parts: int) -> int {
    44 + 72 * parts
}

/// Where the blocks start, behind `parts` partitions and `nodes` nodes.
pub open spec fn blocks_at(parts: int, nodes: int) -> int {
    nodes_at(parts) + 80 * nodes
}

/// Length of a file.
pub open spec fn file_len(parts: int, nodes: int, blocks: int) -> int {
    blocks_at(parts, nodes) + 232 * blocks
}

/// The length that the header of `b` asks for.
pub open spec fn declared(b: Seq<u8>) -> int {
    file_len(part_count(b), node_count(b), block_count(b))
}

/// What is wrong with the header of `b`.
pub open spec fn header_error(b: Seq<u8>) -> Option<IndexError> {
    if b.len() < HEADER_SIZE {
        Some(IndexError::TooSmall)
    } else if b.subrange(0, 8) != text(MAGIC) {
        Some(IndexError::BadMagic)
    } else if u32_at(b, 8) != VERSION {
        Some(IndexError::BadVersion)
    } else if u32_at(b, 12) != DIM || u32_at(b, 16) != STORE_DIM || u32_at(b, 20) != SCALE {
        Some(IndexError::Mismatch)
    } else {
        None
    }
}

/// The last of the first `n` partitions that has the key `key`, or -1.
pub open spec fn last_with_key(keys: Seq<u32>, key: int, n: int) -> int
    decreases n,
{
    if n <= 0 {
        -1
    } else if keys[n - 1] == key {
        n - 1
    } else {
        last_with_key(keys, key, n - 1)
    }
}

/// `table` gives for each key the last partition that has it.
pub open spec fn finds_parts(table: Seq<i32>, keys: Seq<u32>) -> bool {
    &&& table.len() == 256
    &&& forall|key: int|
        0 <= key < 256 ==> #[trigger] table[key] == last_with_key(keys, key, keys.len() as int) as i32
}

impl Dataset {
    /// Number of nodes.
    pub open spec fn nodes(&self) -> int {
        self.node_left@.len() as int
    }

    /// Number of blocks.
    pub open spec fn block_total(&self) -> int {
        self.labels@.len() as int / 8
    }

    /// Every column is complete.
    pub open spec fn well_formed(&self) -> bool {
        &&& self.n <= u32::MAX
        &&& self.k <= u32::MAX
        &&& self.part_keys@.len() == self.k
        &&& self.part_roots@.len() == self.k
        &&& self.part_min@.len() == 16 * self.k
        &&& self.part_max@.len() == 16 * self.k
        &&& self.nodes() <= u32::MAX
        &&& self.node_right@.len() == self.nodes()
        &&& self.node_start@.len() == self.nodes()
        &&& self.node_len@.len() == self.nodes()
        &&& self.node_min@.len() == 16 * self.nodes()
        &&& self.node_max@.len() == 16 * self.nodes()
        &&& self.labels@.len() == 8 * self.block_total()
        &&& self.block_total() <= u32::MAX
        &&& self.blocks@.len() == 112 * self.block_total()
        &&& finds_parts(self.part_by_key@, self.part_keys@)
    }

    /// The bytes `b` are a file of this index.
    pub open spec fn is_file(&self, b: Seq<u8>) -> bool {
        let parts = self.k as int;
        let nodes = self.nodes();
        &&& header_error(b) is None
        &&& u32_at(b, 24) == self.n
        &&& part_count(b) == parts
        &&& node_count(b) == nodes
        &&& block_count(b) == self.block_total()
        &&& b.len() == declared(b)
        &&& holds_u32s(b, 44, self.part_keys@)
        &&& holds_i32s(b, 44 + 4 * parts, self.part_roots@)
        &&& holds_i16s(b, 44 + 8 * parts, self.part_min@)
        &&& holds_i16s(b, 44 + 40 * parts, self.part_max@)
        &&& holds_i32s(b, nodes_at(parts), self.node_left@)
        &&& holds_i32s(b, nodes_at(parts) + 4 * nodes, self.node_right@)
        &&& holds_i32s(b, nodes_at(parts) + 8 * nodes, self.node_start@)
        &&& holds_i32s(b, nodes_at(parts) + 12 * nodes, self.node_len@)
        &&& holds_i16s(b, nodes_at(parts) + 16 * nodes, self.node_min@)
        &&& holds_i16s(b, nodes_at(parts) + 48 * nodes, self.node_max@)
        &&& holds_i16s(b, blocks_at(parts, nodes), self.blocks@)
        &&& holds_bytes(b, blocks_at(parts, nodes) + 224 * self.block_total(), self.labels@)
    }
}

fn read_u32(b: &[u8], p: usize) -> (r: u32)
    requires
        p + 4 <= b@.len(),
    ensures
        r == u32_at(b@, p as int),
{
    b[p] as u32 + 256 * b[p + 1] as u32 + 65536 * b[p + 2] as u32 + 16777216 * b[p + 3] as u32
}

fn read_u32s(b: &[u8], p: usize, count: usize) -> (r: Vec<u32>)
    requires
        p + 4 * count <= b@.len(),
    ensures
        r@.len() == count,
        holds_u32s(b@, p as int, r@),
{
    let mut r: Vec<u32> = Vec::new();
    let mut i: usize = 0;
    let n = b.len();
    while i < count
        invariant
            i <= count,
            n == b@.len(),
            p + 4 * count <= n,
            r@.len() == i,
            holds_u32s(b@, p as int, r@),
        decreases count - i,
    {
        r.push(read_u32(b, p + 4 * i));
        i += 1;
    }
    r
}

fn read_i32s(b: &[u8], p: usize, count: usize) -> (r: Vec<i32>)
    requires
        p + 4 * count <= b@.len(),
    ensures
        r@.len() == count,
        holds_i32s(b@, p as int, r@),
{
    let mut r: Vec<i32> = Vec::new();
    let mut i: usize = 0;
    let n = b.len();
    while i < count
        invariant
            i <= count,
            n == b@.len(),
            p + 4 * count <= n,
            r@.len() == i,
            holds_i32s(b@, p as int, r@),
        decreases count - i,
    {
        let u = read_u32(b, p + 4 * i);
        let v = if u < 2147483648 {
            u as i32
        } else {
            (u as i64 - 4294967296) as i32
        };
        r.push(v);
        i += 1;
    }
    r
}

fn read_i16s(b: &[u8], p: usize, count: usize) -> (r: Vec<i16>)
    requires
        p + 2 * count <= b@.len(),
    ensures
        r@.len() == count,
        holds_i16s(b@, p as int, r@),
{
    let mut r: Vec<i16> = Vec::new();
    let mut i: usize = 0;
    let n = b.len();
    while i < count
        invariant
            i <= count,
            n == b@.len(),
            p + 2 * count <= n,
            r@.len() == i,
            holds_i16s(b@, p as int, r@),
        decreases count - i,
    {
        let u = b[p + 2 * i] as i32 + 256 * b[p + 2 * i + 1] as i32;
        let v = if u < 32768 {
            u as i16
        } else {
            (u - 65536) as i16
        };
        r.push(v);
        i += 1;
    }
    r
}

/// For each key below 256 the last partition that has it, or -1.
pub fn index_parts(part_keys: &Vec<u32>) -> (r: [i32; 256])
    ensures
        finds_parts(r@, part_keys@),
{
    let mut part_by_key = [-1i32; 256];
    let mut i: usize = 0;
    while i < part_keys.len()
        invariant
            i <= part_keys@.len(),
            forall|key: int|
                0 <= key < 256 ==> #[trigger] part_by_key@[key] == last_with_key(
                    part_keys@,
                    key,
                    i as int,
                ) as i32,
        decreases part_keys@.len() - i,
    {
        let key = part_keys[i];
        if key < 256 {
            part_by_key[key as usize] = i as i32;
        }
        i += 1;
    }
    part_by_key
}

/// The length of the file that the bytes are the front of, as its header gives it.
pub fn declared_len(bytes: &[u8]) -> (r: Result<u64, IndexError>)
    ensures
        match r {
            Ok(len) => header_error(bytes@) is None && len == declared(bytes@),
            Err(e) => header_error(bytes@) == Some(e),
        },
{
    if bytes.len() < HEADER_SIZE {
        return Err(IndexError::TooSmall);
    }
    proof {
        reveal_strlit("DFKDP001");
        assert(MAGIC.is_ascii());
        assert(text(MAGIC).len() == 8);
    }
    if !word_at(bytes, MAGIC.as_bytes(), 0) {
        return Err(IndexError::BadMagic);
    }
    if read_u32(bytes, 8) != VERSION {
        return Err(IndexError::BadVersion);
    }
    if read_u32(bytes, 12) != 14 || read_u32(bytes, 16) != 16 || read_u32(bytes, 20) != SCALE {
        return Err(IndexError::Mismatch);
    }
    let parts = read_u32(bytes, 28) as u64;
    let nodes = read_u32(bytes, 32) as u64;
    let blocks = read_u32(bytes, 36) as u64;
    Ok(44 + 72 * parts + 80 * nodes + 232 * blocks)
}

/// Takes an index file apart.
///
/// A file must hold all that its header asks for; more than that is an error.
pub fn load(bytes: &[u8]) -> (r: Result<Dataset, IndexError>)
    requires
        header_error(bytes@) is None ==> declared(bytes@) <= bytes@.len(),
    ensures
        match r {
            Ok(ds) => ds.well_formed() && ds.is_file(bytes@),
            Err(e) => match header_error(bytes@) {
                Some(wrong) => e == wrong,
                None => e == IndexError::TrailingData && declared(bytes@) < bytes@.len(),
            },
        },
        r is Ok <==> header_error(bytes@) is None && declared(bytes@) == bytes@.len(),
{
    let len = declared_len(bytes)?;
    if len != bytes.len() as u64 {
        return Err(IndexError::TrailingData);
    }
    let n = read_u32(bytes, 24) as usize;
    let parts = read_u32(bytes, 28) as usize;
    let nodes = read_u32(bytes, 32) as usize;
    let blocks = read_u32(bytes, 36) as usize;

    let part_keys = read_u32s(bytes, 44, parts);
    let part_roots = read_i32s(bytes, 44 + 4 * parts, parts);
    let part_min = read_i16s(bytes, 44 + 8 * parts, 16 * parts);
    let part_max = read_i16s(bytes, 44 + 40 * parts, 16 * parts);
    let at = 44 + 72 * parts;
    let node_left = read_i32s(bytes, at, nodes);
    let node_right = read_i32s(bytes, at + 4 * nodes, nodes);
    let node_start = read_i32s(bytes, at + 8 * nodes, nodes);
    let node_len = read_i32s(bytes, at + 12 * nodes, nodes);
    let node_min = read_i16s(bytes, at + 16 * nodes, 16 * nodes);
    let node_max = read_i16s(bytes, at + 48 * nodes, 16 * nodes);
    let at = at + 80 * nodes;
    let block_values = read_i16s(bytes, at, 112 * blocks);
    let mut labels: Vec<u8> = Vec::new();
    let at = at + 224 * blocks;
    let mut i: usize = 0;
    while i < 8 * blocks
        invariant
            i <= 8 * blocks,
            at + 8 * blocks <= bytes@.len() <= usize::MAX,
            labels@.len() == i,
            holds_bytes(bytes@, at as int, labels@),
        decreases 8 * blocks - i,
    {
        labels.push(bytes[at + i]);
        i += 1;
    }
    let part_by_key = index_parts(&part_keys);
    Ok(
        Dataset {
            n,
            k: parts,
            part_keys,
            part_roots,
            part_min,
            part_max,
            node_left,
            node_right,
            node_start,
            node_len,
            node_min,
            node_max,
            blocks: block_values,
            labels,
            part_by_key,
        },
    )
}

/// The table finds partitions by their keys: where it gives one, that partition has the
/// key and none behind it does; where it gives -1, no partition has the key.
pub proof fn law_partitions_are_found_by_key(table: Seq<i32>, keys: Seq<u32>, key: int)
    requires
        finds_parts(table, keys),
        0 <= key < 256,
        keys.len() <= i32::MAX,
    ensures
        table[key] == -1 || 0 <= table[key] < keys.len(),
        table[key] >= 0 ==> keys[table[key] as int] == key && forall|p: int|
            table[key] < p < keys.len() ==> #[trigger] keys[p] != key,
        table[key] == -1 ==> forall|p: int| 0 <= p < keys.len() ==> #[trigger] keys[p] != key,
{
    lemma_last_with_key(keys, key, keys.len() as int);
}

proof fn lemma_last_with_key(keys: Seq<u32>, key: int, n: int)
    requires
        0 <= n <= keys.len(),
    ensures
        -1 <= last_with_key(keys, key, n) < n,
        last_with_key(keys, key, n) >= 0 ==> keys[last_with_key(keys, key, n)] == key,
        forall|p: int| last_with_key(keys, key, n) < p < n ==> #[trigger] keys[p] != key,
    decreases n,
{
    if n > 0 {
        lemma_last_with_key(keys, key, n - 1);
    }
}

} // verus!
