use cellmesh::failures::{apply_unseen_cluster, apply_unseen_random, CLUSTER_HI, CLUSTER_LO};
use cellmesh::grid::{Grid, CELLS, GOAL, START};
use cellmesh::rng::{Rng, QUARTER_CUTOFF};

#[test]
fn cluster_fails_exactly_the_central_block() {
    let mut g = Grid::new();
    apply_unseen_cluster(&mut g);
    for i in 0..CELLS {
        let (r, c) = Grid::rc(i);
        let inside = (CLUSTER_LO..CLUSTER_HI).contains(&r) && (CLUSTER_LO..CLUSTER_HI).contains(&c);
        assert_eq!(g.is_alive(i), !inside, "cell {}", i);
    }
    assert_eq!((0..CELLS).filter(|&i| !g.is_alive(i)).count(), 36);
}

#[test]
fn cluster_keeps_earlier_failures() {
    let mut g = Grid::new();
    g.fail(3);
    apply_unseen_cluster(&mut g);
    assert!(!g.is_alive(3));
    assert!(g.is_alive(4));
}

#[test]
fn random_failures_follow_the_draws() {
    let mut g = Grid::new();
    let mut rng = Rng::new(99);
    let mut copy = Rng::new(99);
    apply_unseen_random(&mut g, &mut rng);
    assert!(g.is_alive(START));
    assert!(g.is_alive(GOAL));
    for id in 1..GOAL {
        let w = copy.next_u64();
        let hit = (w as f64) / (u64::MAX as f64) < 0.25;
        assert_eq!(hit, w < QUARTER_CUTOFF);
        assert_eq!(g.is_alive(id), !hit);
    }
    // The generator advanced by one draw per cell 1..=254.
    assert_eq!(rng.next_u64(), copy.next_u64());
}

#[test]
fn random_failures_hit_about_a_quarter() {
    let mut total = 0usize;
    for seed in 0..20u64 {
        let mut g = Grid::new();
        let mut rng = Rng::new(seed);
        apply_unseen_random(&mut g, &mut rng);
        total += (0..CELLS).filter(|&i| !g.is_alive(i)).count();
    }
    let rate = total as f64 / (20.0 * 254.0);
    assert!(rate > 0.2 && rate < 0.3, "rate {}", rate);
}
