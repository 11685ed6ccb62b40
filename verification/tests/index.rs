use rinha::clusters::clusters;
use rinha::dataset::{declared_len, index_parts, load, Dataset, IndexError, LANES, STORE_DIM};
use rinha::encode::encode;
use rinha::eval::exact_fraud_count;
use rinha::ivf::{search_fraud_count_exact, tuning};
use rinha::partitions::{build, columns, index_fits};
use rinha::tree::{build_tree, slot_count};
use rinha::write::{
    bounds, build_and_write, label_of, leaf_size, partition_key, widest_dim, DEFAULT_LEAF_SIZE,
};
use rinha::DIM;

fn next(seed: &mut u64) -> u64 {
    *seed = seed.wrapping_mul(6364136223846793005).wrapping_add(1442695040888963407);
    *seed >> 33
}

fn references(n: usize) -> (Vec<[i16; STORE_DIM]>, Vec<u8>) {
    let mut seed = 11u64;
    let mut vectors = Vec::new();
    let mut labels = Vec::new();
    for _ in 0..n {
        let mut v = [0i16; STORE_DIM];
        for d in 0..DIM {
            v[d] = (next(&mut seed) % 10001) as i16;
        }
        if next(&mut seed) % 2 == 0 {
            v[5] = -10000;
            v[6] = -10000;
        }
        for d in 9..12 {
            v[d] = if next(&mut seed) % 2 == 0 { 0 } else { 10000 };
        }
        vectors.push(v);
        labels.push((next(&mut seed) % 3 == 0) as u8);
    }
    (vectors, labels)
}

fn u32_in(file: &[u8], at: usize) -> u32 {
    u32::from_le_bytes([file[at], file[at + 1], file[at + 2], file[at + 3]])
}

fn error_of(file: &[u8]) -> IndexError {
    match load(file) {
        Ok(_) => panic!("loaded"),
        Err(e) => e,
    }
}

#[test]
fn a_tree_over_nothing_is_an_empty_leaf() {
    let (vectors, labels) = references(20);
    let mut slots = Vec::new();
    let mut nodes = Vec::new();
    let root = build_tree(&vectors, &labels, &[], 4, &mut slots, &mut nodes);
    assert_eq!((root, nodes.len(), slots.len()), (0, 1, 0));
    assert_eq!((nodes[0].left, nodes[0].right, nodes[0].start, nodes[0].len), (-1, -1, 0, 0));
    assert_eq!(nodes[0].min, [i16::MAX; STORE_DIM]);
    assert_eq!(nodes[0].max, [i16::MIN; STORE_DIM]);
    let root = build_tree(&vectors, &labels, &[3, 1, 2], 4, &mut slots, &mut nodes);
    assert_eq!((root, nodes.len(), slots.len()), (1, 2, 8));
    let root = build_tree(&vectors, &labels, &[], 4, &mut slots, &mut nodes);
    assert_eq!((root, nodes.len(), slots.len()), (2, 3, 8));
    assert_eq!((nodes[2].start, nodes[2].len), (8, 0));
}

#[test]
fn slots_are_counted() {
    assert_eq!(slot_count(0, 3), 0);
    assert_eq!(slot_count(3, 3), 8);
    assert_eq!(slot_count(9, 96), 16);
    assert_eq!(slot_count(10, 4), 32);
    assert_eq!(slot_count(i32::MAX as usize, usize::MAX), 1 << 31);
    let (vectors, labels) = references(300);
    for leaf in [1usize, 7, 96] {
        let b = build(&vectors, &labels, leaf);
        let mut per_key = vec![0usize; 256];
        for v in &vectors {
            per_key[partition_key(v) as usize] += 1;
        }
        let expected: u64 = per_key.iter().map(|n| slot_count(*n, leaf)).sum();
        assert_eq!(b.slots.len() as u64, expected);
        assert!(index_fits(&vectors, leaf));
    }
    assert!(index_fits(&Vec::new(), 1));
}

#[test]
fn keys_of_partitions() {
    let mut v = [0i16; STORE_DIM];
    assert_eq!(partition_key(&v), 1);
    v[5] = -1;
    assert_eq!(partition_key(&v), 0);
    v[9] = 1;
    assert_eq!(partition_key(&v), 2);
    v[10] = 1;
    assert_eq!(partition_key(&v), 6);
    v[11] = 1;
    assert_eq!(partition_key(&v), 14);
    for (risk, class) in [(2047, 0), (2048, 1), (4095, 1), (4096, 2), (6143, 2), (6144, 3)] {
        v[12] = risk;
        assert_eq!(partition_key(&v), 14 + 16 * class);
    }
    v[2] = 4096;
    v[8] = 2048;
    assert_eq!(partition_key(&v), 62);
    v[2] = 4097;
    assert_eq!(partition_key(&v), 126);
    v[8] = 2049;
    assert_eq!(partition_key(&v), 254);
    v[5] = 0;
    assert_eq!(partition_key(&v), 255);
}

#[test]
fn leaf_sizes() {
    assert_eq!(leaf_size(None), DEFAULT_LEAF_SIZE);
    assert_eq!(leaf_size(Some(8)), 8);
    assert_eq!(leaf_size(Some(1024)), 1024);
    assert_eq!(leaf_size(Some(7)), 128);
    assert_eq!(leaf_size(Some(1025)), 128);
}

#[test]
fn labels_of_references() {
    assert_eq!(label_of("fraud"), 1);
    assert_eq!(label_of("legit"), 0);
    assert_eq!(label_of("Fraud"), 0);
    assert_eq!(label_of(""), 0);
}

#[test]
fn boxes_and_widths() {
    let mut a = [0i16; STORE_DIM];
    let mut b = [0i16; STORE_DIM];
    a[3] = -5;
    b[3] = 7;
    b[4] = 12;
    b[15] = 100;
    let (lo, hi) = bounds(&vec![a, b], &[0, 1]);
    assert_eq!((lo[3], hi[3], lo[4], hi[4], lo[15], hi[15]), (-5, 7, 0, 12, 0, 100));
    assert_eq!(widest_dim(&lo, &hi), 3);
    let (lo, hi) = bounds(&vec![a, b], &[]);
    assert_eq!((lo[0], hi[0]), (i16::MAX, i16::MIN));
    let (lo, hi) = bounds(&vec![a, b], &[1]);
    assert_eq!((lo[4], hi[4]), (12, 12));
    assert_eq!(widest_dim(&lo, &hi), 0);
}

#[test]
fn trees_halve_along_the_widest_feature() {
    let (vectors, labels) = references(600);
    let b = build(&vectors, &labels, 8);
    assert_eq!(b.slots.len() % LANES, 0);
    let mut inner = 0;
    let mut stored = 0;
    for n in &b.nodes {
        if n.left < 0 {
            assert!(n.len as usize <= 8 && n.len > 0);
            assert_eq!(n.start as usize % LANES, 0);
            stored += n.len as usize;
            for i in n.start..n.start + n.len {
                let v = &b.slots[i as usize].vector;
                for d in 0..STORE_DIM {
                    assert!(n.min[d] <= v[d] && v[d] <= n.max[d]);
                }
            }
        } else {
            inner += 1;
            let left = &b.nodes[n.left as usize];
            let right = &b.nodes[n.right as usize];
            assert_eq!(left.len + right.len, n.len);
            assert!(right.len - left.len == 0 || right.len - left.len == 1);
            assert_eq!(left.start, n.start);
            let d = widest_dim(&n.min, &n.max);
            assert!(left.max[d] <= right.min[d]);
            for e in 0..STORE_DIM {
                assert!(n.min[e] <= left.min[e] && left.max[e] <= n.max[e]);
                assert!(n.min[e] <= right.min[e] && right.max[e] <= n.max[e]);
            }
        }
    }
    assert!(inner > 0);
    assert_eq!(stored, 600);
    for p in 1..b.roots.len() {
        assert!(b.roots[p - 1].key < b.roots[p].key);
    }
}

#[test]
fn every_vector_is_stored_once() {
    let (vectors, labels) = references(300);
    let b = build(&vectors, &labels, 16);
    let mut found: Vec<([i16; STORE_DIM], u8)> = Vec::new();
    for n in &b.nodes {
        if n.left < 0 {
            for i in n.start..n.start + n.len {
                found.push((b.slots[i as usize].vector, b.slots[i as usize].label));
            }
        }
    }
    let mut wanted: Vec<([i16; STORE_DIM], u8)> = Vec::new();
    for i in 0..300 {
        wanted.push((vectors[i], labels[i]));
    }
    found.sort();
    wanted.sort();
    assert!(found == wanted);
}

#[test]
fn header_of_a_file() {
    let (vectors, labels) = references(100);
    let file = build_and_write(&vectors, &labels, 8);
    assert_eq!(&file[0..8], b"DFKDP001");
    assert_eq!(u32_in(&file, 8), 1);
    assert_eq!(u32_in(&file, 12), 14);
    assert_eq!(u32_in(&file, 16), 16);
    assert_eq!(u32_in(&file, 20), 10_000);
    assert_eq!(u32_in(&file, 24), 100);
    assert_eq!(u32_in(&file, 40), 0);
    let (p, n, b) = (u32_in(&file, 28), u32_in(&file, 32), u32_in(&file, 36));
    assert_eq!(file.len() as u32, 44 + 72 * p + 80 * n + 232 * b);
    assert_eq!(declared_len(&file), Ok(file.len() as u64));
}

#[test]
fn file_of_one_vector() {
    let mut v = [0i16; STORE_DIM];
    for d in 0..DIM {
        v[d] = 100 * d as i16 - 300;
    }
    let file = build_and_write(&vec![v], &[1], 128);
    assert_eq!(file.len(), 44 + 72 + 80 + 232);
    let ds = load(&file).ok().unwrap();
    assert_eq!((ds.n, ds.k), (1, 1));
    assert_eq!(ds.part_keys, vec![partition_key(&v)]);
    assert_eq!(ds.part_roots, vec![0]);
    assert_eq!(ds.part_min, v.to_vec());
    assert_eq!(ds.part_max, v.to_vec());
    assert_eq!((ds.node_left[0], ds.node_right[0]), (-1, -1));
    assert_eq!((ds.node_start[0], ds.node_len[0]), (0, 1));
    for d in 0..DIM {
        assert_eq!(ds.blocks[(d / 2) * 16 + (d & 1)], v[d]);
        assert_eq!(ds.blocks[(d / 2) * 16 + 2 + (d & 1)], i16::MAX);
    }
    assert_eq!(ds.labels, vec![1, 0, 0, 0, 0, 0, 0, 0]);
    assert_eq!(ds.part_by_key[partition_key(&v) as usize], 0);
    assert_eq!(ds.part_by_key.iter().filter(|&&p| p == -1).count(), 255);
}

fn same(a: &Dataset, b: &Dataset) -> bool {
    a.n == b.n
        && a.k == b.k
        && a.part_keys == b.part_keys
        && a.part_roots == b.part_roots
        && a.part_min == b.part_min
        && a.part_max == b.part_max
        && a.node_left == b.node_left
        && a.node_right == b.node_right
        && a.node_start == b.node_start
        && a.node_len == b.node_len
        && a.node_min == b.node_min
        && a.node_max == b.node_max
        && a.blocks == b.blocks
        && a.labels == b.labels
        && a.part_by_key == b.part_by_key
}

#[test]
fn a_file_gives_back_the_index() {
    let (vectors, labels) = references(500);
    let b = build(&vectors, &labels, 8);
    let ds = columns(&b, vectors.len());
    let file = encode(&ds);
    let back = load(&file).ok().unwrap();
    assert!(same(&ds, &back));
    assert!(encode(&back) == file);
    for (i, n) in b.nodes.iter().enumerate() {
        let start = if n.left < 0 { n.start / 8 } else { n.start };
        assert_eq!(back.node_start[i], start);
    }
    for (s, slot) in b.slots.iter().enumerate() {
        for d in 0..DIM {
            let at = s / 8 * 112 + (d / 2) * 16 + s % 8 * 2 + (d & 1);
            assert_eq!(back.blocks[at], slot.vector[d]);
        }
        assert_eq!(back.labels[s], slot.label);
    }
}

#[test]
fn files_that_are_refused() {
    let (vectors, labels) = references(20);
    let good = build_and_write(&vectors, &labels, 8);
    assert!(load(&good).is_ok());
    assert_eq!(error_of(&good[0..43]), IndexError::TooSmall);
    assert_eq!(error_of(b""), IndexError::TooSmall);
    let mut file = good.clone();
    file[7] = b'2';
    assert_eq!(error_of(&file), IndexError::BadMagic);
    let mut file = good.clone();
    file[8] = 2;
    assert_eq!(error_of(&file), IndexError::BadVersion);
    for at in [12, 16, 20] {
        let mut file = good.clone();
        file[at] ^= 1;
        assert_eq!(error_of(&file), IndexError::Mismatch);
    }
    let mut file = good.clone();
    file.push(0);
    assert_eq!(error_of(&file), IndexError::TrailingData);
    let mut file = good.clone();
    file[40] = 9;
    assert!(load(&file).is_ok());
    assert_eq!(IndexError::TooSmall.message(), "index file smaller than header");
    assert_eq!(IndexError::BadMagic.message(), "bad magic");
    assert_eq!(IndexError::BadVersion.message(), "bad version");
    assert_eq!(IndexError::Mismatch.message(), "dim/scale mismatch");
    assert_eq!(IndexError::TrailingData.message(), "index file has unexpected trailing data");
}

#[test]
fn the_last_partition_with_a_key_is_found() {
    let table = index_parts(&vec![3, 7, 3, 256, 255]);
    assert_eq!((table[3], table[7], table[255], table[0]), (2, 1, 4, -1));
}

#[test]
fn search_of_a_built_index_agrees_with_the_oracle() {
    let (vectors, labels) = references(700);
    let file = build_and_write(&vectors, &labels, 8);
    let ds = load(&file).ok().unwrap();
    let idx = clusters(&ds).unwrap();
    let mut flat = Vec::new();
    for v in &vectors {
        flat.extend_from_slice(&v[0..DIM]);
    }
    let settings = tuning(Some(3), None);
    let mut seed = 5u64;
    for round in 0..100 {
        let mut q = [0i16; DIM];
        for d in 0..DIM {
            q[d] = (next(&mut seed) % 10001) as i16;
        }
        if round % 4 == 0 {
            q.copy_from_slice(&vectors[round * 7][0..DIM]);
        }
        let expected = exact_fraud_count(&q, &flat, &labels);
        assert_eq!(search_fraud_count_exact(&q, &idx, &settings), expected);
    }
}

#[test]
fn ties_that_leave_the_vote_alone_are_answered_alike() {
    let settings = tuning(Some(2), None);
    let q = [0i16; DIM];
    for (n, expected) in [(1usize, 0u8), (3, 1), (5, 3), (6, 3), (40, 3)] {
        let mut vectors = Vec::new();
        let mut labels = Vec::new();
        let mut flat = Vec::new();
        for i in 0..n {
            let mut v = [0i16; STORE_DIM];
            v[(i * 5) % DIM] = if i < 3 { 10 } else { 900 };
            flat.extend_from_slice(&v[0..DIM]);
            vectors.push(v);
            labels.push((i == 1 || i >= 3) as u8);
        }
        let ds = load(&build_and_write(&vectors, &labels, 2)).ok().unwrap();
        let idx = clusters(&ds).unwrap();
        assert_eq!(exact_fraud_count(&q, &flat, &labels), expected);
        assert_eq!(search_fraud_count_exact(&q, &idx, &settings), expected);
    }
}

#[test]
fn clusters_hold_their_partitions() {
    let (vectors, labels) = references(250);
    let b = build(&vectors, &labels, 8);
    let idx = clusters(&columns(&b, 250)).unwrap();
    assert_eq!((idx.n, idx.k), (250, b.roots.len()));
    assert_eq!(idx.offsets[idx.k], 250);
    assert_eq!(idx.k_pad % 8, 0);
    for c in 0..idx.k {
        let root = &b.nodes[b.roots[c].root as usize];
        assert_eq!(idx.offsets[c + 1] - idx.offsets[c], root.len as u32);
        for d in 0..DIM {
            assert_eq!(idx.bbox_min[c * DIM + d], root.min[d]);
            assert_eq!(idx.bbox_max[c * DIM + d], root.max[d]);
            let middle = (root.min[d] as i32 + root.max[d] as i32).div_euclid(2);
            assert_eq!(idx.centroids_soa_i16[d * idx.k_pad + c] as i32, middle);
        }
    }
}

#[test]
fn an_index_with_loose_ends_is_not_searched() {
    let (vectors, labels) = references(50);
    let file = build_and_write(&vectors, &labels, 8);
    let mut ds = load(&file).ok().unwrap();
    let last = ds.node_left.len() - 1;
    assert_eq!(ds.node_left[last], -1);
    ds.node_start[last] = ds.labels.len() as i32;
    assert!(clusters(&ds).is_none());
    let mut ds = load(&file).ok().unwrap();
    ds.part_roots[0] = -1;
    assert!(clusters(&ds).is_none());
    let mut ds = load(&file).ok().unwrap();
    ds.node_len[last] = -1;
    assert!(clusters(&ds).is_none());
}
