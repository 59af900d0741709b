use cellmesh::failures::{apply_unseen_cluster, apply_unseen_random};
use cellmesh::grid::{Grid, CELLS, GOAL, GRID, START};
use cellmesh::rng::Rng;
use cellmesh::routing::bfs;

#[test]
fn fresh_grid_distance_is_manhattan() {
    let g = Grid::new();
    assert_eq!(bfs(&g, START, GOAL), Some(30));
    for s in [0usize, 17, 100, 255] {
        for t in 0..CELLS {
            assert_eq!(bfs(&g, s, t), Some(Grid::manhattan(s, t)));
        }
    }
}

#[test]
fn start_equal_goal_is_zero() {
    let g = Grid::new();
    assert_eq!(bfs(&g, 42, 42), Some(0));
}

#[test]
fn failed_end_is_unreachable() {
    let mut g = Grid::new();
    g.fail(42);
    assert_eq!(bfs(&g, 42, 0), None);
    assert_eq!(bfs(&g, 0, 42), None);
    assert_eq!(bfs(&g, 42, 42), None);
}

#[test]
fn wall_cuts_off_goal() {
    let mut g = Grid::new();
    // Fail the whole row 8: nothing below it can be reached from the top.
    for c in 0..GRID {
        g.fail(Grid::id(8, c));
    }
    assert_eq!(bfs(&g, START, GOAL), None);
    assert_eq!(bfs(&g, START, Grid::id(7, 15)), Some(7 + 15));
    // Open one gap in the wall at column 3.
    let mut h = Grid::new();
    for c in 0..GRID {
        if c != 3 {
            h.fail(Grid::id(8, c));
        }
    }
    assert_eq!(bfs(&h, START, GOAL), Some(30));
    assert_eq!(bfs(&h, Grid::id(7, 15), Grid::id(9, 15)), Some(2 + 12 + 12));
}

#[test]
fn detour_around_a_blocked_corridor() {
    let mut g = Grid::new();
    // Column 1 fails in rows 0..15, so from (0,0) to (0,2) the route goes
    // down column 0 to row 15, across and back up: 15 + 2 + 15 steps.
    for r in 0..15 {
        g.fail(Grid::id(r, 1));
    }
    assert_eq!(bfs(&g, 0, 2), Some(32));
    assert_eq!(bfs(&g, 2, 0), Some(32));
}

#[test]
fn central_cluster_keeps_corners_connected() {
    let mut g = Grid::new();
    apply_unseen_cluster(&mut g);
    assert_eq!(bfs(&g, START, GOAL), Some(30));
    // The cluster's centre is dead, so it cannot be reached.
    assert_eq!(bfs(&g, START, Grid::id(7, 7)), None);
    // Crossing the cluster now needs a detour: (4,7) to (11,7) is 7 straight,
    // the detour goes around a 6-wide block.
    assert_eq!(bfs(&g, Grid::id(4, 7), Grid::id(11, 7)), Some(7 + 2 + 2 * 2));
}

#[test]
fn failures_never_shorten_routes() {
    let intact = Grid::new();
    for seed in [11u64, 23, 37, 41] {
        let mut damaged = Grid::new();
        let mut rng = Rng::new(seed);
        apply_unseen_random(&mut damaged, &mut rng);
        for t in 0..CELLS {
            match bfs(&damaged, START, t) {
                Some(d) => assert!(d >= bfs(&intact, START, t).unwrap()),
                None => {}
            }
        }
    }
}

#[test]
fn distances_are_symmetric() {
    let mut g = Grid::new();
    let mut rng = Rng::new(53);
    apply_unseen_random(&mut g, &mut rng);
    for s in (0..CELLS).step_by(7) {
        for t in (0..CELLS).step_by(5) {
            assert_eq!(bfs(&g, s, t), bfs(&g, t, s));
        }
    }
}

#[test]
fn routes_clear_of_the_cluster_are_unaffected() {
    let intact = Grid::new();
    let mut damaged = Grid::new();
    apply_unseen_cluster(&mut damaged);
    // Routes along the top rows never come near the central block.
    for t in 0..64 {
        assert_eq!(bfs(&damaged, START, t), bfs(&intact, START, t));
    }
    // A route straight through the block gets longer.
    let (a, b) = (Grid::id(7, 4), Grid::id(7, 11));
    assert!(bfs(&damaged, a, b).unwrap() > bfs(&intact, a, b).unwrap());
}
