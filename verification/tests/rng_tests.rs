use cellmesh::rng::{Rng, QUARTER_CUTOFF, SEED_MIX};

fn reference_step(mut x: u64) -> (u64, u64) {
    x ^= x >> 12;
    x ^= x << 25;
    x ^= x >> 27;
    (x, x.wrapping_mul(0x2545F4914F6CDD1D))
}

#[test]
fn next_u64_follows_xorshift_star() {
    let mut rng = Rng::new(11);
    let mut state = 11u64 ^ 0x9E3779B97F4A7C15;
    for _ in 0..100 {
        let (s, out) = reference_step(state);
        state = s;
        assert_eq!(rng.next_u64(), out);
    }
}

#[test]
fn seed_mix_is_golden_ratio() {
    assert_eq!(SEED_MIX, 0x9E3779B97F4A7C15);
}

#[test]
fn quarter_cutoff_matches_float_comparison() {
    let unit = |w: u64| (w as f64) / (u64::MAX as f64);
    assert!(unit(QUARTER_CUTOFF - 1) < 0.25);
    assert!(!(unit(QUARTER_CUTOFF) < 0.25));
    assert!(unit(0) < 0.25);
    assert!(!(unit(u64::MAX) < 0.25));
    for delta in 0..2000u64 {
        let w = QUARTER_CUTOFF - 1000 + delta;
        assert_eq!(unit(w) < 0.25, w < QUARTER_CUTOFF);
    }
}

#[test]
fn same_seed_same_sequence() {
    let mut a = Rng::new(23);
    let mut b = Rng::new(23);
    let mut c = Rng::new(24);
    let xs: Vec<u64> = (0..10).map(|_| a.next_u64()).collect();
    let ys: Vec<u64> = (0..10).map(|_| b.next_u64()).collect();
    let zs: Vec<u64> = (0..10).map(|_| c.next_u64()).collect();
    assert_eq!(xs, ys);
    assert_ne!(xs, zs);
}

#[test]
fn usize_stays_below_bound_and_uses_remainder() {
    let mut rng = Rng::new(37);
    let mut copy = Rng::new(37);
    for n in 1..200usize {
        let w = copy.next_u64();
        let r = rng.usize(n);
        assert!(r < n);
        assert_eq!(r, (w as usize) % n);
    }
}

#[test]
fn seed_equal_to_mix_is_stuck_at_zero() {
    // The one seed that zeroes the state: xorshift maps 0 to 0 forever.
    let mut rng = Rng::new(SEED_MIX);
    for _ in 0..5 {
        assert_eq!(rng.next_u64(), 0);
    }
}

#[test]
fn nonzero_state_gives_nonzero_words() {
    let mut rng = Rng::new(0);
    for _ in 0..10000 {
        assert_ne!(rng.next_u64(), 0);
    }
}
