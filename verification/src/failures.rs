use vstd::prelude::*;

use crate::grid::{Grid, CELLS, GOAL, GRID, START};
use crate::rng::{draw, state_after, Rng, QUARTER_CUTOFF};

verus! {

/// First row and column of the central failure cluster.
pub const CLUSTER_LO: usize = 5;

/// One past the last row and column of the central failure cluster.
pub const CLUSTER_HI: usize = 11;

/// Cell `i` lies in the central 6x6 block (rows and columns 5 to 10).
pub open spec fn in_cluster(i: int) -> bool {
    &&& CLUSTER_LO <= i / (GRID as int) < CLUSTER_HI
    &&& CLUSTER_LO <= i % (GRID as int) < CLUSTER_HI
}

/// Cell `i` is failed by the random pattern drawn from generator state `s`:
/// cell `i` (1 to 254) uses the `(i - 1)`-th draw.
pub open spec fn random_hit(s: u64, i: int) -> bool {
    &&& 1 <= i < GOAL
    &&& draw(s, (i - 1) as nat) < QUARTER_CUTOFF
}

/// Fails the central 6x6 block of cells.
pub fn apply_unseen_cluster(grid: &mut Grid)
    ensures
        final(grid)@ == Seq::new(CELLS as nat, |i: int| old(grid)@[i] && !in_cluster(i)),
        forall|i: int|
            0 <= i < CELLS ==> #[trigger] final(grid)@[i] == (old(grid)@[i] && !(5 <= i / 16 < 11
                && 5 <= i % 16 < 11)),
{
    proof {
        grid.lemma_cell_count();
    }
    let ghost g0 = grid@;
    let mut r: usize = CLUSTER_LO;
    while r < CLUSTER_HI
        invariant
            CLUSTER_LO <= r <= CLUSTER_HI,
            g0.len() == CELLS,
            grid@.len() == CELLS,
            forall|i: int|
                0 <= i < CELLS ==> #[trigger] grid@[i] == (g0[i] && !(in_cluster(i) && i / (
                GRID as int) < r)),
        decreases CLUSTER_HI - r,
    {
        let mut c: usize = CLUSTER_LO;
        while c < CLUSTER_HI
            invariant
                CLUSTER_LO <= r < CLUSTER_HI,
                CLUSTER_LO <= c <= CLUSTER_HI,
                g0.len() == CELLS,
                grid@.len() == CELLS,
                forall|i: int|
                    0 <= i < CELLS ==> #[trigger] grid@[i] == (g0[i] && !(in_cluster(i) && (i / (
                    GRID as int) < r || (i / (GRID as int) == r && i % (GRID as int) < c)))),
            decreases CLUSTER_HI - c,
        {
            let id = Grid::id(r, c);
            proof {
                assert(id / 16 == r && id % 16 == c && 0 < id < 255) by (nonlinear_arith)
                    requires
                        id == r * 16 + c,
                        5 <= r < 11,
                        5 <= c < 11,
                ;
            }
            let ghost before = grid@;
            grid.fail(id);
            proof {
                assert forall|i: int| 0 <= i < CELLS implies #[trigger] grid@[i] == (g0[i] && !(
                in_cluster(i) && (i / (GRID as int) < r || (i / (GRID as int) == r && i % (
                GRID as int) < c + 1)))) by {
                    if i != id {
                        assert(grid@[i] == before[i]);
                        if i / 16 == r && i % 16 == c {
                            assert(i == (i / 16) * 16 + i % 16) by (nonlinear_arith);
                        }
                    }
                }
            }
            c = c + 1;
        }
        r = r + 1;
    }
    assert(grid@ =~= Seq::new(CELLS as nat, |i: int| g0[i] && !in_cluster(i)));
}

/// Fails each cell from 1 to 254 independently with probability one in four:
/// cell `i` fails when the `(i - 1)`-th draw is below [`QUARTER_CUTOFF`].
/// The generator advances by one draw per cell.
pub fn apply_unseen_random(grid: &mut Grid, rng: &mut Rng)
    ensures
        final(rng)@ == state_after(old(rng)@, (GOAL - 1) as nat),
        final(grid)@ == Seq::new(
            CELLS as nat,
            |i: int| old(grid)@[i] && !random_hit(old(rng)@, i),
        ),
        final(grid)@.len() == CELLS,
        forall|i: int|
            1 <= i < GOAL ==> #[trigger] final(grid)@[i] == (old(grid)@[i] && !(draw(
                old(rng)@,
                (i - 1) as nat,
            ) < QUARTER_CUTOFF)),
        final(grid)@[START as int] == old(grid)@[START as int],
        final(grid)@[GOAL as int] == old(grid)@[GOAL as int],
{
    proof {
        grid.lemma_cell_count();
    }
    let ghost g0 = grid@;
    let ghost s0 = rng@;
    let mut id: usize = 1;
    while id < GOAL
        invariant
            1 <= id <= GOAL,
            g0.len() == CELLS,
            grid@.len() == CELLS,
            rng@ == state_after(s0, (id - 1) as nat),
            forall|i: int|
                0 <= i < CELLS ==> #[trigger] grid@[i] == (g0[i] && !(random_hit(s0, i) && i < id)),
        decreases GOAL - id,
    {
        let w = rng.next_u64();
        proof {
            assert(state_after(s0, id as nat) == crate::rng::xorshift(state_after(s0, (id - 1) as nat)));
            assert(w == draw(s0, (id - 1) as nat));
        }
        let ghost before = grid@;
        if w < QUARTER_CUTOFF {
            grid.fail(id);
        }
        proof {
            assert forall|i: int| 0 <= i < CELLS implies #[trigger] grid@[i] == (g0[i] && !(
            random_hit(s0, i) && i < id + 1)) by {
                if i != id {
                    assert(grid@[i] == before[i]);
                }
            }
        }
        id = id + 1;
    }
    assert(grid@ =~= Seq::new(CELLS as nat, |i: int| g0[i] && !random_hit(s0, i)));
}

} // verus!
