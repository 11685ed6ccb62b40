use rinha::ivf::{
    bbox_lower_bound, nprobe_default, search_fraud_count, search_fraud_count_exact, search_fraud_count_probe,
    top_n_centroids, tuning, ClusterIndex, BLOCK_SIZE, BLOCK_STRIDE, MAX_PROBE,
};
use rinha::DIM;

fn make_synthetic_dataset(
    clusters: &[(Vec<[i16; DIM]>, Vec<u8>, Vec<u32>)],
    centroids: &[[i16; DIM]],
) -> ClusterIndex {
    let k = clusters.len();
    assert_eq!(centroids.len(), k);
    let n: usize = clusters.iter().map(|(v, _, _)| v.len()).sum();

    let mut offsets = vec![0u32];
    let mut block_offsets = vec![0u32];
    for (v, _, _) in clusters {
        offsets.push(offsets.last().unwrap() + v.len() as u32);
        let blocks = (v.len() + BLOCK_SIZE - 1) / BLOCK_SIZE;
        block_offsets.push(block_offsets.last().unwrap() + blocks as u32);
    }
    let total_blocks = *block_offsets.last().unwrap() as usize;

    let mut blocks = vec![i16::MAX; total_blocks * BLOCK_STRIDE];
    let mut labels = Vec::with_capacity(n);
    let mut orig_ids = Vec::with_capacity(n);
    let mut bbox_min = vec![i16::MAX; k * DIM];
    let mut bbox_max = vec![i16::MIN; k * DIM];
    for (c, (vecs, lbls, ids)) in clusters.iter().enumerate() {
        for (idx, v) in vecs.iter().enumerate() {
            let block = block_offsets[c] as usize + idx / BLOCK_SIZE;
            for j in 0..DIM {
                blocks[block * BLOCK_STRIDE + j * BLOCK_SIZE + idx % BLOCK_SIZE] = v[j];
                let bi = c * DIM + j;
                bbox_min[bi] = bbox_min[bi].min(v[j]);
                bbox_max[bi] = bbox_max[bi].max(v[j]);
            }
            labels.push(lbls[idx]);
            orig_ids.push(ids[idx]);
        }
    }

    let k_pad = (k + 7) & !7;
    let mut centroids_soa_i16 = vec![i16::MAX; DIM * k_pad];
    for c in 0..k {
        for j in 0..DIM {
            centroids_soa_i16[j * k_pad + c] = centroids[c][j];
        }
    }
    ClusterIndex {
        n,
        k,
        k_pad,
        centroids_soa_i16,
        bbox_min,
        bbox_max,
        offsets,
        block_offsets,
        blocks,
        labels,
        orig_ids,
    }
}

#[test]
fn distance_to_a_box() {
    let mut idx = make_synthetic_dataset(&[], &[]);
    idx.bbox_min = vec![-10; 2 * DIM];
    idx.bbox_max = vec![20; 2 * DIM];
    idx.bbox_min[DIM + 1] = 7;
    let mut q = [0i16; DIM];
    assert_eq!(bbox_lower_bound(&q, &idx, 0), 0);
    assert_eq!(bbox_lower_bound(&q, &idx, 1), 49);
    q[3] = 25;
    q[13] = -14;
    assert_eq!(bbox_lower_bound(&q, &idx, 1), 49 + 25 + 16);
    idx.bbox_min = vec![i16::MAX; DIM];
    assert_eq!(bbox_lower_bound(&[i16::MIN; DIM], &idx, 0), 14 * 65535 * 65535);
}

#[test]
fn end_to_end_picks_correct_neighbours() {
    let mut c0 = Vec::new();
    for i in 0..5 {
        let mut v = [0i16; DIM];
        v[0] = i;
        c0.push(v);
    }
    let mut c1 = Vec::new();
    for i in 0..10 {
        let mut v = [0i16; DIM];
        v[0] = 1000 + i;
        c1.push(v);
    }
    let ds = make_synthetic_dataset(
        &[
            (c0, vec![1u8; 5], (0..5u32).collect()),
            (c1, vec![0u8; 10], (5..15u32).collect()),
        ],
        &[[0; DIM], {
            let mut c = [0; DIM];
            c[0] = 1000;
            c
        }],
    );

    let q = [0i16; DIM];
    assert_eq!(search_fraud_count(&q, &ds, 1, &tuning(None, None)), 5);

    let mut q2 = [0i16; DIM];
    q2[0] = 1000;
    assert_eq!(search_fraud_count(&q2, &ds, 1, &tuning(None, None)), 0);
}

#[test]
fn fast_then_full_escalates_for_borderline() {
    let mut c0 = Vec::new();
    for i in 0..3 {
        let mut v = [0i16; DIM];
        v[0] = i;
        c0.push(v);
    }
    let mut c1 = Vec::new();
    for i in 0..2 {
        let mut v = [0i16; DIM];
        v[0] = i;
        c1.push(v);
    }
    let ds = make_synthetic_dataset(
        &[
            (c0, vec![1u8; 3], (0..3u32).collect()),
            (c1, vec![0u8; 2], (3..5u32).collect()),
        ],
        &[[0; DIM], [0; DIM]],
    );

    let q = [0i16; DIM];
    let count = search_fraud_count(&q, &ds, 8, &tuning(None, None));
    assert_eq!(count, 3);
}

fn spread(seed: &mut u64) -> i16 {
    *seed = seed.wrapping_mul(6364136223846793005).wrapping_add(1442695040888963407);
    ((*seed >> 33) % 20001) as i16 - 10000
}

fn random_clusters(k: usize, per: usize) -> (Vec<(Vec<[i16; DIM]>, Vec<u8>, Vec<u32>)>, Vec<[i16; DIM]>) {
    let mut seed = 7u64;
    let mut clusters = Vec::new();
    let mut centroids = Vec::new();
    let mut id = 0u32;
    for _ in 0..k {
        let mut centre = [0i16; DIM];
        for j in 0..DIM {
            centre[j] = spread(&mut seed) / 2;
        }
        let mut vecs = Vec::new();
        let mut labels = Vec::new();
        let mut ids = Vec::new();
        for _ in 0..per {
            let mut v = centre;
            for j in 0..DIM {
                v[j] += spread(&mut seed) / 4;
            }
            vecs.push(v);
            labels.push((spread(&mut seed) > 0) as u8);
            ids.push(id);
            id += 1;
        }
        clusters.push((vecs, labels, ids));
        centroids.push(centre);
    }
    (clusters, centroids)
}

fn brute_force(clusters: &[(Vec<[i16; DIM]>, Vec<u8>, Vec<u32>)], q: &[i16; DIM]) -> u8 {
    let mut all = Vec::new();
    for (vecs, labels, ids) in clusters {
        for i in 0..vecs.len() {
            let mut d = 0i64;
            for j in 0..DIM {
                let x = q[j] as i64 - vecs[i][j] as i64;
                d += x * x;
            }
            all.push((d, ids[i], labels[i]));
        }
    }
    all.sort();
    all.iter().take(5).map(|e| e.2).sum()
}

#[test]
fn exact_search_finds_the_five_nearest() {
    let (clusters, centroids) = random_clusters(20, 13);
    let ds = make_synthetic_dataset(&clusters, &centroids);
    let settings = tuning(Some(2), None);
    let mut seed = 99u64;
    for _ in 0..200 {
        let mut q = [0i16; DIM];
        for j in 0..DIM {
            q[j] = spread(&mut seed) / 2;
        }
        let expected = brute_force(&clusters, &q);
        assert_eq!(search_fraud_count_exact(&q, &ds, &settings), expected);
        let fast = search_fraud_count_probe(&q, &ds, &settings);
        let gated = search_fraud_count(&q, &ds, nprobe_default(), &settings);
        if fast == 2 || fast == 3 {
            assert_eq!(gated, expected);
        } else {
            assert_eq!(gated, fast);
        }
    }
}

#[test]
fn settings() {
    assert_eq!(nprobe_default(), 8);
    let t = tuning(None, None);
    assert_eq!((t.fast_nprobe, t.early_limit), (8, i64::MIN));
    let t = tuning(Some(0), Some(-5));
    assert_eq!((t.fast_nprobe, t.early_limit), (1, i64::MIN));
    let t = tuning(Some(100_000), Some(30));
    assert_eq!((t.fast_nprobe, t.early_limit), (MAX_PROBE, 90_000));
}

#[test]
fn early_stop_answers_from_the_first_cluster() {
    let near: Vec<[i16; DIM]> = (0..5)
        .map(|i| {
            let mut v = [0i16; DIM];
            v[0] = 10 + i;
            v
        })
        .collect();
    let nearer = vec![[0i16; DIM]; 5];
    let mut far_centroid = [0i16; DIM];
    far_centroid[1] = 1;
    let ds = make_synthetic_dataset(
        &[
            (near, vec![1u8; 5], (0..5u32).collect()),
            (nearer, vec![0u8; 5], (5..10u32).collect()),
        ],
        &[[0; DIM], far_centroid],
    );
    let q = [0i16; DIM];
    assert_eq!(search_fraud_count_exact(&q, &ds, &tuning(Some(1), None)), 0);
    assert_eq!(search_fraud_count_exact(&q, &ds, &tuning(Some(1), Some(100))), 5);
}

#[test]
fn closest_centroids_come_first() {
    let mut out = [0usize; 3];
    top_n_centroids(&[7, 3, 9, 3, 1], &mut out);
    assert_eq!(out, [4, 1, 3]);
}
