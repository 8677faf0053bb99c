use trickydata::rng::SplitMix64;

#[test]
fn deterministic_for_a_seed() {
    let mut a = SplitMix64::new(0);
    let mut b = SplitMix64::new(0);
    for _ in 0..100 {
        assert_eq!(a.next_u64(), b.next_u64());
    }
}

#[test]
fn below_is_in_range() {
    let mut r = SplitMix64::new(42);
    for _ in 0..1000 {
        assert!(r.below(7) < 7);
    }
}
