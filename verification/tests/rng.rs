//! Random streams.

use simkv::simcore::rng::Rng;

#[test]
fn same_seed_same_stream() {
    let mut a = Rng::new(42);
    let mut b = Rng::new(42);
    for _ in 0..1000 {
        assert_eq!(a.next_u64(), b.next_u64());
    }
}

#[test]
fn different_seeds_diverge() {
    let mut a = Rng::new(1);
    let mut b = Rng::new(2);
    let diff = (0..100).filter(|_| a.next_u64() != b.next_u64()).count();
    assert!(diff > 95, "streams should differ, only {diff}/100 differed");
}

#[test]
fn below_is_in_range_and_covers() {
    let mut r = Rng::new(7);
    let mut seen = [0u32; 5];
    for _ in 0..10_000 {
        let v = r.below(5);
        assert!(v < 5);
        seen[v as usize] += 1;
    }
    // Uniform enough: every bucket within 20% of the 2000 expectation.
    for (i, c) in seen.iter().enumerate() {
        assert!(*c > 1600 && *c < 2400, "bucket {i} = {c}");
    }
}

#[test]
fn below_edge_cases() {
    let mut r = Rng::new(9);
    assert_eq!(r.below(0), 0);
    assert_eq!(r.below(1), 0);
    assert_eq!(r.range(5, 5), 5);
    assert_eq!(r.range(9, 3), 9);
}

#[test]
fn chance_ppm_bounds() {
    let mut r = Rng::new(11);
    assert!(!r.chance_ppm(0));
    assert!(r.chance_ppm(1_000_000));
    let hits = (0..100_000).filter(|_| r.chance_ppm(100_000)).count();
    assert!((8_000..12_000).contains(&hits), "hits = {hits}");
}

#[test]
fn shuffle_is_a_permutation() {
    let mut r = Rng::new(3);
    let mut v: Vec<u32> = (0..64).collect();
    r.shuffle(&mut v);
    let mut sorted = v.clone();
    sorted.sort();
    assert_eq!(sorted, (0..64).collect::<Vec<_>>());
    assert_ne!(v, sorted, "shuffle of 64 items should not be identity");
}

#[test]
fn fork_is_deterministic_but_independent() {
    let mut parent = Rng::new(5);
    let mut a = parent.fork(0);
    let mut b = parent.fork(1);
    let mut parent2 = Rng::new(5);
    let mut a2 = parent2.fork(0);
    assert_eq!(a.next_u64(), a2.next_u64());
    assert_ne!(a.next_u64(), b.next_u64());
}

#[test]
fn skewed_stays_in_bounds_and_biases_low() {
    let mut r = Rng::new(13);
    let mut low = 0;
    for _ in 0..10_000 {
        let v = r.skewed(10, 110);
        assert!((10..=110).contains(&v));
        if v < 60 {
            low += 1;
        }
    }
    assert!(low > 6_500, "expected a low bias, got {low}/10000");
}
