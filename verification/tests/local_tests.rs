use cellmesh::local::{neighbor_coords, observe, sign, step, State};

#[test]
fn sign_values() {
    assert_eq!(sign(-7), -1);
    assert_eq!(sign(0), 0);
    assert_eq!(sign(12), 1);
    assert_eq!(sign(i32::MIN), -1);
}

#[test]
fn step_directions() {
    assert_eq!(step((3, 4), 0), (4, 4));
    assert_eq!(step((3, 4), 1), (2, 4));
    assert_eq!(step((3, 4), 2), (3, 5));
    assert_eq!(step((3, 4), 3), (3, 3));
    assert_eq!(step((3, 4), 7), (3, 3));
}

#[test]
fn neighbor_coords_follow_action_order() {
    let n = neighbor_coords((0, 0));
    assert_eq!(n, [(1, 0), (-1, 0), (0, 1), (0, -1)]);
    for a in 0..4 {
        assert_eq!(n[a], step((0, 0), a));
    }
}

#[test]
fn observe_builds_sign_and_mask() {
    let s = observe((5, 5), (9, 1), [true, false, true, true]);
    assert_eq!(s, State { dx: 1, dy: -1, alive_mask: 0b1101 });
    let s = observe((5, 5), (5, 5), [false, false, false, false]);
    assert_eq!(s, State { dx: 0, dy: 0, alive_mask: 0 });
    let s = observe((0, 0), (-3, 0), [false, true, false, false]);
    assert_eq!(s, State { dx: -1, dy: 0, alive_mask: 0b10 });
    for a in 0..4u8 {
        let mut alive = [false; 4];
        alive[a as usize] = true;
        assert_eq!(observe((0, 0), (0, 0), alive).alive_mask >> a & 1, 1);
    }
}
