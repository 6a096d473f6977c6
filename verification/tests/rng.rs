use sunayama::rng::Rng;

#[test]
fn below_stays_in_range() {
    let mut rng = Rng::new(7);
    for _ in 0..10_000 {
        assert!(rng.below(5) < 5);
    }
}

#[test]
fn the_same_seed_replays() {
    let mut a = Rng::new(42);
    let mut b = Rng::new(42);
    for _ in 0..100 {
        assert_eq!(a.next_u64(), b.next_u64());
    }
}

#[test]
fn every_bucket_gets_hit() {
    let mut rng = Rng::new(3);
    let mut seen = [0usize; 4];
    for _ in 0..10_000 {
        seen[rng.below(4)] += 1;
    }
    assert!(seen.iter().all(|&n| n > 2_000));
}

#[test]
fn splitmix_from_zero_gives_the_reference_words() {
    let mut rng = Rng::new(0);
    assert_eq!(rng.next_u64(), 0xe220_a839_7b1d_cdaf);
    assert_eq!(rng.next_u64(), 0x6e78_9e6a_a1b9_65f4);
}

#[test]
fn below_zero_is_zero_and_below_one_is_zero() {
    let mut rng = Rng::new(5);
    assert_eq!(rng.below(0), 0);
    assert_eq!(rng.below(1), 0);
}

#[test]
fn below_scales_the_high_half_of_the_draw() {
    let mut a = Rng::new(11);
    let mut b = Rng::new(11);
    let word = a.next_u64();
    let expected = ((u128::from(word) * 1000) >> 64) as usize;
    assert_eq!(b.below(1000), expected);
}

#[test]
fn the_kth_draw_is_the_seed_moved_on_k_steps() {
    let gamma: u64 = 0x9e37_79b9_7f4a_7c15;
    let mut rng = Rng::new(42);
    for _ in 0..3 {
        rng.next_u64();
    }
    let fourth = rng.next_u64();
    let mut skipped = Rng::new(42u64.wrapping_add(gamma.wrapping_mul(3)));
    assert_eq!(skipped.next_u64(), fourth);
}

#[test]
fn the_stream_matches_splitmix64() {
    let mut rng = Rng::new(1234567);
    assert_eq!(rng.next_u64(), 6457827717110365317);
    assert_eq!(rng.next_u64(), 3203168211198807973);
}
