use cellmesh::grid::{Grid, CELLS, GOAL, GRID, MAX_STEPS, START};

fn alive_count(g: &Grid) -> usize {
    (0..CELLS).filter(|&i| g.is_alive(i)).count()
}

#[test]
fn constants() {
    assert_eq!(GRID, 16);
    assert_eq!(CELLS, 256);
    assert_eq!(START, 0);
    assert_eq!(GOAL, 255);
    assert_eq!(MAX_STEPS, 512);
}

#[test]
fn new_grid_is_all_alive() {
    let g = Grid::new();
    assert_eq!(alive_count(&g), CELLS);
}

#[test]
fn id_and_rc_round_trip() {
    for r in 0..GRID {
        for c in 0..GRID {
            let id = Grid::id(r, c);
            assert_eq!(id, r * 16 + c);
            assert_eq!(Grid::rc(id), (r, c));
        }
    }
    assert_eq!(Grid::rc(37), (2, 5));
    assert_eq!(Grid::id(15, 15), 255);
}

#[test]
fn neighbors_at_corners_and_middle() {
    assert_eq!(Grid::neighbors(0), [None, Some(16), None, Some(1)]);
    assert_eq!(Grid::neighbors(255), [Some(239), None, Some(254), None]);
    assert_eq!(Grid::neighbors(15), [None, Some(31), Some(14), None]);
    assert_eq!(Grid::neighbors(240), [Some(224), None, None, Some(241)]);
    assert_eq!(Grid::neighbors(37), [Some(21), Some(53), Some(36), Some(38)]);
}

#[test]
fn neighbors_are_symmetric() {
    for u in 0..CELLS {
        for v in Grid::neighbors(u).iter().flatten() {
            assert!(Grid::neighbors(*v).contains(&Some(u)));
        }
    }
}

#[test]
fn fail_spares_start_and_goal() {
    let mut g = Grid::new();
    g.fail(START);
    g.fail(GOAL);
    assert_eq!(alive_count(&g), CELLS);
    g.fail(17);
    assert!(!g.is_alive(17));
    assert_eq!(alive_count(&g), CELLS - 1);
    g.fail(17);
    assert_eq!(alive_count(&g), CELLS - 1);
}

#[test]
fn reset_revives_everything() {
    let mut g = Grid::new();
    for i in 0..CELLS {
        g.fail(i);
    }
    assert_eq!(alive_count(&g), 2);
    g.reset();
    assert_eq!(alive_count(&g), CELLS);
}

#[test]
fn try_move_respects_edges_failures_and_stay_action() {
    let mut g = Grid::new();
    assert_eq!(g.try_move(0, 0), None);
    assert_eq!(g.try_move(0, 1), Some(16));
    assert_eq!(g.try_move(0, 2), None);
    assert_eq!(g.try_move(0, 3), Some(1));
    assert_eq!(g.try_move(0, 4), None);
    assert_eq!(g.try_move(0, 9), None);
    g.fail(16);
    assert_eq!(g.try_move(0, 1), None);
}

#[test]
fn valid_actions_lists_open_moves_in_order() {
    let mut g = Grid::new();
    assert_eq!(g.valid_actions(37), vec![0, 1, 2, 3]);
    assert_eq!(g.valid_actions(0), vec![1, 3]);
    g.fail(36);
    g.fail(21);
    assert_eq!(g.valid_actions(37), vec![1, 3]);
    g.fail(1);
    g.fail(16);
    assert_eq!(g.valid_actions(0), Vec::<usize>::new());
}

#[test]
fn manhattan_distance() {
    assert_eq!(Grid::manhattan(0, 255), 30);
    assert_eq!(Grid::manhattan(255, 0), 30);
    assert_eq!(Grid::manhattan(37, 37), 0);
    assert_eq!(Grid::manhattan(37, 88), 3 + 3);
}
