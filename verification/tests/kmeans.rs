use rinha::kmeans::{
    chunk_len, count_members, is_settled, reassign, sample_indices, Lcg, KMEANS_INIT_SAMPLE,
};

#[test]
fn random_numbers() {
    let mut rng = Lcg::new(0);
    assert_eq!(rng.next_u64(), 1442695040888963407);
    assert_eq!(
        rng.next_u64(),
        1442695040888963407u64.wrapping_mul(6364136223846793005).wrapping_add(1442695040888963407)
    );
    let mut rng = Lcg::new(0);
    assert_eq!(rng.next_usize(10), ((1442695040888963407u64 >> 33) % 10) as usize);
}

#[test]
fn samples() {
    let mut rng = Lcg::new(42);
    let sample = sample_indices(&mut rng, 7);
    assert_eq!(sample.len(), 7);
    let mut again = Lcg::new(42);
    for s in sample {
        assert_eq!(s, again.next_usize(7));
    }
    assert_eq!(rng.state, again.state);
    assert_eq!(sample_indices(&mut rng, 100_000).len(), KMEANS_INIT_SAMPLE);
}

#[test]
fn assignments() {
    let mut a = vec![u16::MAX; 4];
    assert_eq!(reassign(&[0, 1, 1, 2], &mut a), 4);
    assert_eq!(reassign(&[0, 2, 1, 2], &mut a), 1);
    assert_eq!(a, vec![0, 2, 1, 2]);
    assert_eq!(reassign(&[0, 2, 1, 2], &mut a), 0);
    assert_eq!(count_members(&a, 4), vec![1, 1, 2, 0]);
}

#[test]
fn when_to_stop() {
    assert!(is_settled(0, 1));
    assert!(!is_settled(1, 1000));
    assert!(is_settled(1, 1001));
    assert!(!is_settled(0, 0));
}

#[test]
fn shares_of_workers() {
    assert_eq!(chunk_len(10, 4), 3);
    assert_eq!(chunk_len(8, 4), 2);
    assert_eq!(chunk_len(0, 4), 0);
}
