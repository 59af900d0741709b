use cellmesh::episode::{Episode, StepOutcome};
use cellmesh::failures::apply_unseen_random;
use cellmesh::grid::{Grid, GOAL, MAX_STEPS, START};
use cellmesh::rng::Rng;
use cellmesh::routing::bfs;

#[test]
fn walking_the_border_reaches_the_goal() {
    let g = Grid::new();
    let mut e = Episode::new(START, GOAL);
    let mut moves = 0;
    while e.outcome().is_none() {
        let action = if e.position() % 16 < 15 { 3 } else { 1 };
        match e.advance(&g, action) {
            StepOutcome::Moved { .. } => moves += 1,
            StepOutcome::Blocked => panic!("blocked"),
        }
    }
    assert_eq!(moves, 30);
    assert_eq!(e.outcome(), Some((true, 30)));
}

#[test]
fn blocked_moves_spend_steps() {
    let g = Grid::new();
    let mut e = Episode::new(START, GOAL);
    assert!(e.advance(&g, 0) == StepOutcome::Blocked);
    assert!(e.advance(&g, 4) == StepOutcome::Blocked);
    assert_eq!(e.position(), START);
    assert_eq!(e.outcome(), None);
    for _ in 2..MAX_STEPS {
        e.advance(&g, 2);
    }
    assert_eq!(e.outcome(), Some((false, MAX_STEPS)));
}

#[test]
fn revisits_and_goal_are_reported() {
    let mut g = Grid::new();
    g.fail(2);
    let mut e = Episode::new(0, 1);
    // 0 -> 1 reaches the goal straight away.
    assert!(e.advance(&g, 3) == StepOutcome::Moved { to: 1, revisit: false, reached: true });
    let mut e = Episode::new(0, 200);
    // Bounce between 0 and 16: entering a cell stood on twice is a revisit.
    assert!(e.advance(&g, 1) == StepOutcome::Moved { to: 16, revisit: false, reached: false });
    assert!(e.advance(&g, 0) == StepOutcome::Moved { to: 0, revisit: false, reached: false });
    assert!(e.advance(&g, 1) == StepOutcome::Moved { to: 16, revisit: false, reached: false });
    assert!(e.advance(&g, 0) == StepOutcome::Moved { to: 0, revisit: true, reached: false });
    // Failed cell 2 blocks the move right from 1.
    let mut e = Episode::new(1, 200);
    assert!(e.advance(&g, 3) == StepOutcome::Blocked);
}

#[test]
fn no_walk_beats_the_oracle() {
    let mut rng = Rng::new(7);
    for round in 0..40u64 {
        let mut g = Grid::new();
        let mut fr = Rng::new(round);
        apply_unseen_random(&mut g, &mut fr);
        let oracle = bfs(&g, START, GOAL);
        let mut e = Episode::new(START, GOAL);
        while e.outcome().is_none() {
            // Mostly head right/down, sometimes wander.
            let a = if rng.usize(4) == 0 { rng.usize(4) } else if rng.usize(2) == 0 { 1 } else { 3 };
            e.advance(&g, a);
        }
        if let Some((true, hops)) = e.outcome() {
            assert!(hops >= oracle.unwrap());
        }
    }
}
