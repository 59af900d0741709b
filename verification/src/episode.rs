use vstd::prelude::*;

use crate::grid::{move_target, neighbor, Grid, CELLS, MAX_STEPS};
use crate::routing::{is_distance, is_walk, lemma_walk_extend, lemma_walk_no_shorter_than_distance};

verus! {

/// What one action did to a routing episode.
#[derive(PartialEq, Eq, Structural)]
pub enum StepOutcome {
    /// The action led off the grid, onto a failed cell, or nowhere: the walker stays.
    Blocked,
    /// The walker moved onto cell `to`; `revisit` says `to` had already been
    /// entered more than once, `reached` that `to` is the goal.
    Moved { to: usize, revisit: bool, reached: bool },
}

/// The abstract state of an episode.
pub struct EpisodeView {
    pub pos: usize,
    pub goal: usize,
    pub step: usize,
    pub visits: Seq<usize>,
    /// The cells stood on so far, in order, starting with the start cell.
    pub trail: Seq<usize>,
}

/// One routing episode: a walker moving from cell to cell towards a goal,
/// within the step budget, counting how often it stood on each cell.
pub struct Episode {
    pos: usize,
    goal: usize,
    step: usize,
    visits: [usize; CELLS],
    trail: Ghost<Seq<usize>>,
}

impl View for Episode {
    type V = EpisodeView;

    closed spec fn view(&self) -> EpisodeView {
        EpisodeView {
            pos: self.pos,
            goal: self.goal,
            step: self.step,
            visits: self.visits@,
            trail: self.trail@,
        }
    }
}

impl Episode {
    /// Position and goal are cells, the budget is not overrun, and no
    /// cell was stood on more often than steps were taken.
    pub open spec fn wf(&self) -> bool {
        &&& self@.pos < CELLS
        &&& self@.goal < CELLS
        &&& self@.step <= MAX_STEPS
        &&& self@.visits.len() == CELLS
        &&& forall|i: int| 0 <= i < CELLS ==> #[trigger] self@.visits[i] <= self@.step
        &&& 1 <= self@.trail.len() <= self@.step + 1
        &&& self@.trail.last() == self@.pos
    }

    /// An episode standing on `start`, no step taken, no cell visited.
    pub fn new(start: usize, goal: usize) -> (e: Self)
        requires
            start < CELLS,
            goal < CELLS,
        ensures
            e.wf(),
            e@.pos == start,
            e@.goal == goal,
            e@.step == 0,
            e@.visits == Seq::new(CELLS as nat, |i: int| 0usize),
            e@.trail == seq![start],
    {
        let ghost t = seq![start];
        let e = Episode {
            pos: start,
            goal,
            step: 0,
            visits: [0usize; CELLS],
            trail: Ghost(t),
        };
        assert(e.visits@ =~= Seq::new(CELLS as nat, |i: int| 0usize));
        e
    }

    /// The cell the walker stands on.
    pub fn position(&self) -> (p: usize)
        ensures
            p == self@.pos,
    {
        self.pos
    }

    /// How the episode has ended, if it has: `(true, steps taken)` once the
    /// goal is reached, else `(false, MAX_STEPS)` once the budget is spent.
    pub fn outcome(&self) -> (r: Option<(bool, usize)>)
        ensures
            r == if self@.pos == self@.goal {
                Some((true, self@.step))
            } else if self@.step >= MAX_STEPS {
                Some((false, MAX_STEPS))
            } else {
                None
            },
    {
        if self.pos == self.goal {
            Some((true, self.step))
        } else if self.step >= MAX_STEPS {
            Some((false, MAX_STEPS))
        } else {
            None
        }
    }

    /// Takes one step: counts a visit to the current cell, then applies
    /// `action` on `grid` (moving when it leads onto an alive neighbour).
    pub fn advance(&mut self, grid: &Grid, action: usize) -> (o: StepOutcome)
        requires
            old(self).wf(),
            old(self)@.step < MAX_STEPS,
        ensures
            final(self).wf(),
            final(self)@.goal == old(self)@.goal,
            final(self)@.step == old(self)@.step + 1,
            final(self)@.visits == old(self)@.visits.update(
                old(self)@.pos as int,
                (old(self)@.visits[old(self)@.pos as int] + 1) as usize,
            ),
            match move_target(grid@, old(self)@.pos, action as int) {
                None => o == StepOutcome::Blocked && final(self)@.pos == old(self)@.pos
                    && final(self)@.trail == old(self)@.trail,
                Some(n) => o == (StepOutcome::Moved {
                    to: n,
                    revisit: old(self)@.visits[n as int] > 1,
                    reached: n == old(self)@.goal,
                }) && final(self)@.pos == n && final(self)@.trail == old(self)@.trail.push(n),
            },
            is_walk(grid@, old(self)@.trail) ==> is_walk(grid@, final(self)@.trail),
            (o == StepOutcome::Blocked) <==> !(action < 4 && neighbor(old(self)@.pos, action as int) is Some
                && grid@[neighbor(old(self)@.pos, action as int)->0 as int]),
            o != StepOutcome::Blocked ==> final(self)@.pos == neighbor(
                old(self)@.pos,
                action as int,
            )->0,
    {
        proof {
            grid.lemma_cell_count();
        }
        let p = self.pos;
        self.visits[p] = self.visits[p] + 1;
        self.step = self.step + 1;
        let target = grid.try_move(p, action);
        match target {
            None => StepOutcome::Blocked,
            Some(n) => {
                proof {
                    crate::grid::lemma_neighbor_coords(p, action as int);
                }
                let revisit = self.visits[n] > 1;
                self.pos = n;
                let ghost old_trail = self.trail@;
                self.trail = Ghost(old_trail.push(n));
                proof {
                    if is_walk(grid@, old_trail) {
                        lemma_walk_extend(grid@, old_trail, action as int);
                    }
                }
                StepOutcome::Moved { to: n, revisit, reached: n == self.goal }
            },
        }
    }
}

/// No episode beats the shortest route: when a walk over alive cells ends on
/// the goal, the steps it took are at least the breadth-first distance from
/// its start.
pub proof fn lemma_success_no_shorter_than_distance(alive: Seq<bool>, e: EpisodeView, d: nat)
    requires
        is_walk(alive, e.trail),
        e.trail.len() <= e.step + 1,
        e.trail.last() == e.goal,
        is_distance(alive, e.trail[0], e.goal, d),
    ensures
        d <= e.step,
{
    lemma_walk_no_shorter_than_distance(alive, e.trail, d);
}

} // verus!
