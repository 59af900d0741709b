use std::collections::VecDeque;
use vstd::prelude::*;

use crate::grid::{
    can_move, lemma_id_rc_roundtrip, lemma_neighbor_coords, lemma_neighbor_symmetric, manhattan,
    neighbor, Grid, CELLS, GRID,
};

verus! {

/// Cell `v` can be reached from `start` in at most `k` steps, moving between
/// grid neighbours and touching only alive cells (both ends included).
pub open spec fn reach(alive: Seq<bool>, start: usize, v: usize, k: nat) -> bool
    decreases k,
{
    if k == 0 {
        v == start && v < CELLS && alive[v as int]
    } else {
        reach(alive, start, v, (k - 1) as nat) || (v < CELLS && alive[v as int] && ((neighbor(
            v,
            0,
        ) is Some && reach(alive, start, neighbor(v, 0)->0, (k - 1) as nat)) || (neighbor(v, 1) is Some
            && reach(alive, start, neighbor(v, 1)->0, (k - 1) as nat)) || (neighbor(v, 2) is Some
            && reach(alive, start, neighbor(v, 2)->0, (k - 1) as nat)) || (neighbor(v, 3) is Some
            && reach(alive, start, neighbor(v, 3)->0, (k - 1) as nat))))
    }
}

/// `n` is the length of a shortest route from `start` to `v`.
pub open spec fn is_distance(alive: Seq<bool>, start: usize, v: usize, n: nat) -> bool {
    &&& reach(alive, start, v, n)
    &&& forall|k: nat| k < n ==> !#[trigger] reach(alive, start, v, k)
}

/// No route at all leads from `start` to `v`.
pub open spec fn unreachable(alive: Seq<bool>, start: usize, v: usize) -> bool {
    forall|k: nat| !#[trigger] reach(alive, start, v, k)
}

/// A route within `j` steps is also a route within any larger budget.
pub proof fn lemma_reach_mono(alive: Seq<bool>, start: usize, v: usize, j: nat, k: nat)
    requires
        j <= k,
        reach(alive, start, v, j),
    ensures
        reach(alive, start, v, k),
    decreases k,
{
    if j < k {
        lemma_reach_mono(alive, start, v, j, (k - 1) as nat);
    }
}

/// Both ends of a route are alive cells.
pub proof fn lemma_reach_ends_alive(alive: Seq<bool>, start: usize, v: usize, k: nat)
    requires
        reach(alive, start, v, k),
    ensures
        v < CELLS,
        alive[v as int],
        start < CELLS,
        alive[start as int],
    decreases k,
{
    if k > 0 {
        if reach(alive, start, v, (k - 1) as nat) {
            lemma_reach_ends_alive(alive, start, v, (k - 1) as nat);
        } else {
            let b = lemma_reach_last_step(alive, start, v, (k - 1) as nat);
            lemma_reach_ends_alive(alive, start, neighbor(v, b)->0, (k - 1) as nat);
        }
    }
}

/// A route to `u` extends by one step to any alive neighbour `v` of `u`.
pub proof fn lemma_reach_step(alive: Seq<bool>, start: usize, u: usize, a: int, k: nat)
    requires
        reach(alive, start, u, k),
        can_move(alive, u, a),
    ensures
        reach(alive, start, neighbor(u, a)->0, k + 1),
{
    lemma_reach_ends_alive(alive, start, u, k);
    let v = neighbor(u, a)->0;
    lemma_neighbor_symmetric(u, a);
    let b = choose|b: int| 0 <= b < 4 && #[trigger] neighbor(v, b) == Some(u);
    assert(neighbor(v, b) == Some(u));
    // Splitting on the direction unfolds the matching disjunct of `reach`.
    if b == 0 {
    } else if b == 1 {
    } else if b == 2 {
    } else {
    }
}

/// A route of `k + 1` steps that is not one of `k` steps ends with a step
/// from a neighbour that is reached within `k` steps.
pub proof fn lemma_reach_last_step(alive: Seq<bool>, start: usize, v: usize, k: nat) -> (b: int)
    requires
        reach(alive, start, v, k + 1),
        !reach(alive, start, v, k),
    ensures
        0 <= b < 4,
        neighbor(v, b) is Some,
        reach(alive, start, neighbor(v, b)->0, k),
        v < CELLS,
        alive[v as int],
{
    if neighbor(v, 0) is Some && reach(alive, start, neighbor(v, 0)->0, k) {
        0
    } else if neighbor(v, 1) is Some && reach(alive, start, neighbor(v, 1)->0, k) {
        1
    } else if neighbor(v, 2) is Some && reach(alive, start, neighbor(v, 2)->0, k) {
        2
    } else {
        3
    }
}

/// Every cell reachable from `start` lies in any set of cells that holds
/// `start` and holds every alive neighbour of each of its members.
pub proof fn lemma_closed_set_holds_reachable(
    alive: Seq<bool>,
    start: usize,
    cells: Seq<usize>,
    v: usize,
    k: nat,
)
    requires
        cells.contains(start),
        forall|i: int| 0 <= i < cells.len() ==> #[trigger] cells[i] < CELLS,
        forall|i: int, a: int|
            0 <= i < cells.len() && #[trigger] can_move(alive, cells[i], a) ==> cells.contains(
                neighbor(cells[i], a)->0,
            ),
        reach(alive, start, v, k),
    ensures
        cells.contains(v),
    decreases k,
{
    if k == 0 {
    } else if reach(alive, start, v, (k - 1) as nat) {
        lemma_closed_set_holds_reachable(alive, start, cells, v, (k - 1) as nat);
    } else {
        let b = lemma_reach_last_step(alive, start, v, (k - 1) as nat);
        let u = neighbor(v, b)->0;
        lemma_closed_set_holds_reachable(alive, start, cells, u, (k - 1) as nat);
        lemma_neighbor_symmetric(v, b);
        let a = choose|a: int| 0 <= a < 4 && #[trigger] neighbor(u, a) == Some(v);
        let i = choose|i: int| 0 <= i < cells.len() && cells[i] == u;
        assert(can_move(alive, cells[i], a));
    }
}

/// Distinct cells number at most `CELLS`.
proof fn lemma_distinct_cells_bounded(s: Seq<usize>)
    requires
        s.no_duplicates(),
        forall|i: int| 0 <= i < s.len() ==> #[trigger] s[i] < CELLS,
    ensures
        s.len() <= CELLS,
{
    let all = Set::new(|x: usize| x < CELLS);
    lemma_usize_range(CELLS as nat);
    s.unique_seq_to_set();
    assert(s.to_set().subset_of(all));
    vstd::set_lib::lemma_len_subset(s.to_set(), all);
}

proof fn lemma_usize_range(n: nat)
    requires
        n <= CELLS,
    ensures
        Set::new(|x: usize| x < n).finite(),
        Set::new(|x: usize| x < n).len() == n,
    decreases n,
{
    if n == 0 {
        assert(Set::new(|x: usize| x < n) =~= Set::<usize>::empty());
    } else {
        lemma_usize_range((n - 1) as nat);
        assert(Set::new(|x: usize| x < (n - 1) as nat).insert((n - 1) as usize) =~= Set::new(
            |x: usize| x < n,
        ));
    }
}

/// Breadth-first search over alive cells: the length of a shortest route
/// from `start` to `goal`, or `None` when no route exists (in particular
/// when either end has failed).
pub fn bfs(grid: &Grid, start: usize, goal: usize) -> (r: Option<usize>)
    requires
        start < CELLS,
        grid@[start as int] ==> goal < CELLS,
    ensures
        match r {
            Some(d) => is_distance(grid@, start, goal, d as nat),
            None => unreachable(grid@, start, goal),
        },
{
    let ghost alive = grid@;
    proof {
        grid.lemma_cell_count();
    }
    if !grid.is_alive(start) || !grid.is_alive(goal) {
        // A failed start stops the search before the goal is looked at.
        proof {
            assert forall|k: nat| !#[trigger] reach(alive, start, goal, k) by {
                if reach(alive, start, goal, k) {
                    lemma_reach_ends_alive(alive, start, goal, k);
                }
            }
        }
        return None;
    }
    let mut d: [usize; CELLS] = [usize::MAX; CELLS];
    let mut q: VecDeque<usize> = VecDeque::new();
    d[start] = 0;
    q.push_back(start);
    let ghost mut order: Seq<usize> = seq![start];
    let ghost mut head: int = 0;
    let ghost mut level: nat = 0;
    assert(d@.len() == CELLS);
    assert forall|v: int| 0 <= v < CELLS implies (d@[v] != usize::MAX <==> order.contains(
        v as usize,
    )) by {
        if v == start {
            assert(order[0] == start);
        }
    }
    loop
        invariant
            alive == grid@,
            alive.len() == CELLS,
            start < CELLS,
            goal < CELLS,
            d@.len() == CELLS,
            0 <= head <= order.len() <= CELLS,
            order.len() >= 1,
            order[0] == start,
            q@ == order.subrange(head, order.len() as int),
            order.no_duplicates(),
            forall|i: int| 0 <= i < order.len() ==> #[trigger] order[i] < CELLS,
            forall|v: int|
                0 <= v < CELLS ==> (#[trigger] d@[v] != usize::MAX <==> order.contains(v as usize)),
            forall|i: int| 0 <= i < order.len() ==> d@[#[trigger] order[i] as int] <= i,
            forall|i: int|
                0 <= i < order.len() ==> is_distance(
                    alive,
                    start,
                    #[trigger] order[i],
                    d@[order[i] as int] as nat,
                ),
            forall|i: int, j: int|
                0 <= i <= j < order.len() ==> d@[#[trigger] order[i] as int] <= d@[#[trigger] order[j] as int],
            forall|i: int| 0 <= i < head ==> d@[#[trigger] order[i] as int] <= level,
            forall|i: int| head <= i < order.len() ==> d@[#[trigger] order[i] as int] <= level + 1,
            head < order.len() ==> d@[order[head] as int] >= level,
            forall|v: usize| #[trigger] reach(alive, start, v, level) ==> order.contains(v),
            forall|i: int, a: int|
                0 <= i < head && #[trigger] can_move(alive, order[i], a) ==> order.contains(
                    neighbor(order[i], a)->0,
                ),
            forall|i: int| 0 <= i < head ==> #[trigger] order[i] != goal,
        decreases CELLS - head,
    {
        let popped = q.pop_front();
        match popped {
            None => {
                proof {
                    assert(head == order.len());
                    assert forall|k: nat| !#[trigger] reach(alive, start, goal, k) by {
                        if reach(alive, start, goal, k) {
                            assert(order.contains(start));
                            lemma_closed_set_holds_reachable(alive, start, order, goal, k);
                        }
                    }
                }
                return None;
            },
            Some(s) => {
                let ghost old_level = level;
                proof {
                    assert(s == order[head]);
                    let ds = d@[s as int] as nat;
                    if ds == old_level + 1 {
                        assert forall|v: usize| #[trigger] reach(alive, start, v, ds) implies order.contains(
                            v,
                        ) by {
                            if !reach(alive, start, v, old_level) {
                                let b = lemma_reach_last_step(alive, start, v, old_level);
                                let u = neighbor(v, b)->0;
                                assert(order.contains(u));
                                let iu = choose|iu: int| 0 <= iu < order.len() && order[iu] == u;
                                assert(is_distance(alive, start, order[iu], d@[order[iu] as int] as nat));
                                if d@[u as int] > old_level {
                                    assert(!reach(alive, start, u, old_level));
                                }
                                if iu >= head {
                                    assert(d@[order[head] as int] <= d@[order[iu] as int]);
                                }
                                lemma_neighbor_symmetric(v, b);
                                let a = choose|a: int| 0 <= a < 4 && #[trigger] neighbor(u, a) == Some(v);
                                assert(can_move(alive, order[iu], a));
                            }
                        }
                    }
                    level = ds;
                    head = head + 1;
                }
                if s == goal {
                    return Some(d[s]);
                }
                let ns = Grid::neighbors(s);
                let ds = d[s];
                let mut a: usize = 0;
                while a < 4
                    invariant
                        alive == grid@,
                        alive.len() == CELLS,
                        start < CELLS,
                        goal < CELLS,
                        s < CELLS,
                        s != goal,
                        forall|b: int| 0 <= b < 4 ==> #[trigger] ns@[b] == neighbor(s, b),
                        d@.len() == CELLS,
                        1 <= head <= order.len() <= CELLS,
                        order[head - 1] == s,
                        ds == d@[s as int],
                        ds == level,
                        ds < head,
                        a <= 4,
                        order[0] == start,
                        q@ == order.subrange(head, order.len() as int),
                        order.no_duplicates(),
                        forall|i: int| 0 <= i < order.len() ==> #[trigger] order[i] < CELLS,
                        forall|v: int|
                            0 <= v < CELLS ==> (#[trigger] d@[v] != usize::MAX <==> order.contains(
                                v as usize,
                            )),
                        forall|i: int| 0 <= i < order.len() ==> d@[#[trigger] order[i] as int] <= i,
                        forall|i: int|
                            0 <= i < order.len() ==> is_distance(
                                alive,
                                start,
                                #[trigger] order[i],
                                d@[order[i] as int] as nat,
                            ),
                        forall|i: int, j: int|
                            0 <= i <= j < order.len() ==> d@[#[trigger] order[i] as int]
                                <= d@[#[trigger] order[j] as int],
                        forall|i: int| 0 <= i < head ==> d@[#[trigger] order[i] as int] <= level,
                        forall|i: int|
                            head <= i < order.len() ==> d@[#[trigger] order[i] as int] <= level + 1,
                        head < order.len() ==> d@[order[head] as int] >= level,
                        forall|v: usize| #[trigger] reach(alive, start, v, level) ==> order.contains(v),
                        forall|i: int, b: int|
                            0 <= i < head - 1 && #[trigger] can_move(alive, order[i], b)
                                ==> order.contains(neighbor(order[i], b)->0),
                        forall|b: int|
                            0 <= b < a && can_move(alive, s, b) ==> order.contains(
                                #[trigger] neighbor(s, b)->0,
                            ),
                        forall|i: int| 0 <= i < head ==> #[trigger] order[i] != goal,
                    decreases 4 - a,
                {
                    if let Some(n) = ns[a] {
                        proof {
                            assert(ns@[a as int] == neighbor(s, a as int));
                            lemma_neighbor_symmetric(s, a as int);
                        }
                        if grid.is_alive(n) && d[n] == usize::MAX {
                            proof {
                                assert(!order.contains(n));
                                lemma_distinct_cells_bounded(order.push(n));
                                lemma_reach_step(alive, start, s, a as int, ds as nat);
                                assert(is_distance(alive, start, order[head - 1], ds as nat));
                                assert(!reach(alive, start, n, ds as nat));
                                assert forall|k: nat| k < ds + 1 implies !#[trigger] reach(
                                    alive,
                                    start,
                                    n,
                                    k,
                                ) by {
                                    if reach(alive, start, n, k) {
                                        lemma_reach_mono(alive, start, n, k, ds as nat);
                                    }
                                }
                            }
                            let ghost old_order = order;
                            d[n] = ds + 1;
                            q.push_back(n);
                            proof {
                                order = order.push(n);
                                assert forall|v: int| 0 <= v < CELLS implies (#[trigger] d@[v]
                                    != usize::MAX <==> order.contains(v as usize)) by {
                                    if v != n {
                                        if old_order.contains(v as usize) {
                                            let i = choose|i: int| 0 <= i < old_order.len() && old_order[i] == v as usize;
                                            assert(order[i] == v as usize);
                                        }
                                        if order.contains(v as usize) {
                                            let i = choose|i: int| 0 <= i < order.len() && order[i] == v as usize;
                                            assert(old_order[i] == v as usize);
                                        }
                                    } else {
                                        assert(order[order.len() - 1] == n);
                                    }
                                }
                                assert forall|v: usize| #[trigger] reach(alive, start, v, level) implies order.contains(v) by {
                                    assert(old_order.contains(v));
                                    let i = choose|i: int| 0 <= i < old_order.len() && old_order[i] == v;
                                    assert(order[i] == v);
                                }
                                assert forall|i: int, b: int|
                                    0 <= i < head - 1 && #[trigger] can_move(alive, order[i], b)
                                        implies order.contains(neighbor(order[i], b)->0) by {
                                    assert(old_order[i] == order[i]);
                                    let w = neighbor(order[i], b)->0;
                                    assert(old_order.contains(w));
                                    let j = choose|j: int| 0 <= j < old_order.len() && old_order[j] == w;
                                    assert(order[j] == w);
                                }
                                assert forall|b: int|
                                    0 <= b < a && can_move(alive, s, b) implies order.contains(
                                        #[trigger] neighbor(s, b)->0,
                                    ) by {
                                    let w = neighbor(s, b)->0;
                                    assert(old_order.contains(w));
                                    let j = choose|j: int| 0 <= j < old_order.len() && old_order[j] == w;
                                    assert(order[j] == w);
                                }
                                assert(order[order.len() - 1] == n);
                                assert(order.subrange(head, order.len() as int) =~= old_order.subrange(
                                    head,
                                    old_order.len() as int,
                                ).push(n));
                            }
                        }
                    }
                    proof {
                        if can_move(alive, s, a as int) {
                            assert(ns@[a as int] == neighbor(s, a as int));
                            let w = neighbor(s, a as int)->0;
                            assert(d@[w as int] != usize::MAX);
                        }
                    }
                    a = a + 1;
                }
            },
        }
    }
}

/// On a grid where every cell is alive, a cell is reachable within `k`
/// steps exactly when its Manhattan distance from `start` is at most `k`.
proof fn lemma_full_grid_reach(alive: Seq<bool>, start: usize, v: usize, k: nat)
    requires
        alive.len() == CELLS,
        forall|i: int| 0 <= i < CELLS ==> #[trigger] alive[i],
        start < CELLS,
        v < CELLS,
    ensures
        reach(alive, start, v, k) <==> manhattan(start, v) <= k,
    decreases k,
{
    lemma_id_rc_roundtrip(0, 0, start);
    lemma_id_rc_roundtrip(0, 0, v);
    if k > 0 {
        lemma_full_grid_reach(alive, start, v, (k - 1) as nat);
        if reach(alive, start, v, k) && !reach(alive, start, v, (k - 1) as nat) {
            let b = lemma_reach_last_step(alive, start, v, (k - 1) as nat);
            lemma_neighbor_coords(v, b);
            lemma_full_grid_reach(alive, start, neighbor(v, b)->0, (k - 1) as nat);
        }
        if manhattan(start, v) == k {
            let (rs, cs) = (start / GRID, start % GRID);
            let (rv, cv) = (v / GRID, v % GRID);
            let b: int = if rv > rs {
                0
            } else if rv < rs {
                1
            } else if cv > cs {
                2
            } else {
                3
            };
            lemma_neighbor_coords(v, b);
            let n = neighbor(v, b)->0;
            lemma_full_grid_reach(alive, start, n, (k - 1) as nat);
            assert(reach(alive, start, n, (k - 1) as nat));
            // Splitting on the direction unfolds the matching disjunct of `reach`.
            if b == 0 {
            } else if b == 1 {
            } else if b == 2 {
            } else {
            }
        }
    }
}

/// On a grid where every cell is alive, the shortest route between two
/// cells is exactly their Manhattan distance.
pub proof fn lemma_full_grid_distance(alive: Seq<bool>, start: usize, v: usize)
    requires
        alive.len() == CELLS,
        forall|i: int| 0 <= i < CELLS ==> #[trigger] alive[i],
        start < CELLS,
        v < CELLS,
    ensures
        is_distance(alive, start, v, manhattan(start, v) as nat),
{
    lemma_full_grid_reach(alive, start, v, manhattan(start, v) as nat);
    assert forall|k: nat| k < manhattan(start, v) implies !#[trigger] reach(alive, start, v, k) by {
        lemma_full_grid_reach(alive, start, v, k);
    }
}

/// Every cell alive in `damaged` is alive in `intact`: `damaged` is
/// `intact` with some more cells failed.
pub open spec fn fewer_alive(damaged: Seq<bool>, intact: Seq<bool>) -> bool {
    &&& damaged.len() == CELLS
    &&& intact.len() == CELLS
    &&& forall|i: int| 0 <= i < CELLS && #[trigger] damaged[i] ==> intact[i]
}

/// A route that survives failures was already a route before them.
pub proof fn lemma_reach_fewer_alive(
    damaged: Seq<bool>,
    intact: Seq<bool>,
    start: usize,
    v: usize,
    k: nat,
)
    requires
        fewer_alive(damaged, intact),
        reach(damaged, start, v, k),
    ensures
        reach(intact, start, v, k),
    decreases k,
{
    if k > 0 {
        if reach(damaged, start, v, (k - 1) as nat) {
            lemma_reach_fewer_alive(damaged, intact, start, v, (k - 1) as nat);
        } else {
            let b = lemma_reach_last_step(damaged, start, v, (k - 1) as nat);
            lemma_reach_fewer_alive(damaged, intact, start, neighbor(v, b)->0, (k - 1) as nat);
            // Splitting on the direction unfolds the matching disjunct of `reach`.
            if b == 0 {
            } else if b == 1 {
            } else if b == 2 {
            } else {
            }
        }
    }
}

/// Failing cells never shortens a shortest route: the distance on the
/// damaged grid is at least the distance on the intact one.
pub proof fn lemma_failures_never_shorten(
    damaged: Seq<bool>,
    intact: Seq<bool>,
    start: usize,
    goal: usize,
    d_damaged: nat,
    d_intact: nat,
)
    requires
        fewer_alive(damaged, intact),
        is_distance(damaged, start, goal, d_damaged),
        is_distance(intact, start, goal, d_intact),
    ensures
        d_intact <= d_damaged,
{
    lemma_reach_fewer_alive(damaged, intact, start, goal, d_damaged);
    if d_damaged < d_intact {
        assert(!reach(intact, start, goal, d_damaged));
    }
}

/// Damage stays local: when failures leave a route of the intact shortest
/// length standing, the shortest route is unaffected.
pub proof fn lemma_surviving_route_unaffected(
    damaged: Seq<bool>,
    intact: Seq<bool>,
    start: usize,
    goal: usize,
    d: nat,
)
    requires
        fewer_alive(damaged, intact),
        is_distance(intact, start, goal, d),
        reach(damaged, start, goal, d),
    ensures
        is_distance(damaged, start, goal, d),
{
    assert forall|k: nat| k < d implies !#[trigger] reach(damaged, start, goal, k) by {
        if reach(damaged, start, goal, k) {
            lemma_reach_fewer_alive(damaged, intact, start, goal, k);
        }
    }
}

/// A goal cut off on the intact grid stays cut off once more cells fail.
pub proof fn lemma_failures_keep_unreachable(
    damaged: Seq<bool>,
    intact: Seq<bool>,
    start: usize,
    goal: usize,
)
    requires
        fewer_alive(damaged, intact),
        unreachable(intact, start, goal),
    ensures
        unreachable(damaged, start, goal),
{
    assert forall|k: nat| !#[trigger] reach(damaged, start, goal, k) by {
        if reach(damaged, start, goal, k) {
            lemma_reach_fewer_alive(damaged, intact, start, goal, k);
        }
    }
}

/// Some action moves from `u` onto the alive neighbour `v`.
pub open spec fn steps_to(alive: Seq<bool>, u: usize, v: usize) -> bool {
    exists|a: int| #[trigger] can_move(alive, u, a) && neighbor(u, a) == Some(v)
}

/// `path` is a walk over alive cells: it starts on an alive cell and each
/// further cell is an alive neighbour of the one before it.
pub open spec fn is_walk(alive: Seq<bool>, path: Seq<usize>) -> bool {
    &&& path.len() >= 1
    &&& path[0] < CELLS
    &&& alive[path[0] as int]
    &&& forall|i: int|
        #![trigger path[i]]
        0 <= i < path.len() - 1 ==> steps_to(alive, path[i], path[i + 1])
}

/// A walk extended by a move onto an alive neighbour of its last cell is a walk.
pub proof fn lemma_walk_extend(alive: Seq<bool>, path: Seq<usize>, a: int)
    requires
        is_walk(alive, path),
        can_move(alive, path.last(), a),
    ensures
        is_walk(alive, path.push(neighbor(path.last(), a)->0)),
{
    let t = path.push(neighbor(path.last(), a)->0);
    assert forall|i: int| #![trigger t[i]] 0 <= i < t.len() - 1 implies steps_to(
        alive,
        t[i],
        t[i + 1],
    ) by {
        if i < path.len() - 1 {
            assert(path[i] == t[i]);
            assert(path[i + 1] == t[i + 1]);
        } else {
            assert(t[i] == path.last());
            assert(can_move(alive, t[i], a) && neighbor(t[i], a) == Some(t[i + 1]));
        }
    }
}

/// The cell reached after `i` moves of a walk is within `i` steps of its start.
proof fn lemma_walk_reach(alive: Seq<bool>, path: Seq<usize>, i: int)
    requires
        is_walk(alive, path),
        0 <= i < path.len(),
    ensures
        reach(alive, path[0], path[i], i as nat),
    decreases i,
{
    if i > 0 {
        lemma_walk_reach(alive, path, i - 1);
        assert(steps_to(alive, path[i - 1], path[i]));
        let a = choose|a: int|
            #[trigger] can_move(alive, path[i - 1], a) && neighbor(path[i - 1], a) == Some(path[i]);
        lemma_reach_step(alive, path[0], path[i - 1], a, (i - 1) as nat);
    }
}

/// No walk beats breadth-first search: a walk that ends on `goal` after
/// `path.len() - 1` moves is at least as long as the shortest route.
pub proof fn lemma_walk_no_shorter_than_distance(alive: Seq<bool>, path: Seq<usize>, d: nat)
    requires
        is_walk(alive, path),
        is_distance(alive, path[0], path.last(), d),
    ensures
        d <= path.len() - 1,
{
    lemma_walk_reach(alive, path, path.len() - 1);
    if d > path.len() - 1 {
        assert(!reach(alive, path[0], path.last(), (path.len() - 1) as nat));
    }
}

/// Every cell of a walk is an alive cell of the grid.
proof fn lemma_walk_cells(alive: Seq<bool>, path: Seq<usize>, i: int)
    requires
        is_walk(alive, path),
        0 <= i < path.len(),
    ensures
        path[i] < CELLS,
        alive[path[i] as int],
    decreases i,
{
    if i > 0 {
        lemma_walk_cells(alive, path, i - 1);
        assert(steps_to(alive, path[i - 1], path[i]));
        let a = choose|a: int|
            #[trigger] can_move(alive, path[i - 1], a) && neighbor(path[i - 1], a) == Some(path[i]);
        lemma_neighbor_coords(path[i - 1], a);
    }
}

/// A step between two alive cells can be taken back.
proof fn lemma_steps_to_symmetric(alive: Seq<bool>, u: usize, v: usize)
    requires
        steps_to(alive, u, v),
        u < CELLS,
        alive[u as int],
    ensures
        steps_to(alive, v, u),
{
    let a = choose|a: int| #[trigger] can_move(alive, u, a) && neighbor(u, a) == Some(v);
    lemma_neighbor_symmetric(u, a);
    let b = choose|b: int| 0 <= b < 4 && #[trigger] neighbor(v, b) == Some(u);
    assert(can_move(alive, v, b));
}

/// A walk read backwards is a walk.
pub proof fn lemma_walk_reverse(alive: Seq<bool>, path: Seq<usize>)
    requires
        is_walk(alive, path),
    ensures
        is_walk(alive, path.reverse()),
{
    let r = path.reverse();
    let n = path.len() as int;
    lemma_walk_cells(alive, path, n - 1);
    assert(r[0] == path[n - 1]);
    assert forall|j: int| #![trigger r[j]] 0 <= j < r.len() - 1 implies steps_to(
        alive,
        r[j],
        r[j + 1],
    ) by {
        let i = n - 2 - j;
        assert(r[j] == path[i + 1]);
        assert(r[j + 1] == path[i]);
        assert(steps_to(alive, path[i], path[i + 1]));
        lemma_walk_cells(alive, path, i);
        lemma_steps_to_symmetric(alive, path[i], path[i + 1]);
    }
}

/// A route within `k` steps is carried by a walk of at most `k` moves.
pub proof fn lemma_reach_has_walk(alive: Seq<bool>, start: usize, v: usize, k: nat) -> (path: Seq<
    usize,
>)
    requires
        reach(alive, start, v, k),
    ensures
        is_walk(alive, path),
        path[0] == start,
        path.last() == v,
        path.len() <= k + 1,
    decreases k,
{
    if k == 0 {
        seq![start]
    } else if reach(alive, start, v, (k - 1) as nat) {
        lemma_reach_has_walk(alive, start, v, (k - 1) as nat)
    } else {
        let b = lemma_reach_last_step(alive, start, v, (k - 1) as nat);
        let u = neighbor(v, b)->0;
        let pu = lemma_reach_has_walk(alive, start, u, (k - 1) as nat);
        lemma_neighbor_symmetric(v, b);
        let a = choose|a: int| 0 <= a < 4 && #[trigger] neighbor(u, a) == Some(v);
        assert(can_move(alive, pu.last(), a));
        lemma_walk_extend(alive, pu, a);
        pu.push(v)
    }
}

/// A route from `s` to `t` within `k` steps gives one from `t` to `s`.
pub proof fn lemma_reach_symmetric(alive: Seq<bool>, s: usize, t: usize, k: nat)
    requires
        reach(alive, s, t, k),
    ensures
        reach(alive, t, s, k),
{
    let p = lemma_reach_has_walk(alive, s, t, k);
    lemma_walk_reverse(alive, p);
    let r = p.reverse();
    assert(r[0] == t);
    assert(r.last() == s);
    lemma_walk_reach(alive, r, r.len() - 1);
    lemma_reach_mono(alive, t, s, (r.len() - 1) as nat, k);
}

/// Routing is symmetric: the shortest route from `s` to `t` is as long as
/// the one from `t` to `s`.
pub proof fn lemma_distance_symmetric(alive: Seq<bool>, s: usize, t: usize, d_st: nat, d_ts: nat)
    requires
        is_distance(alive, s, t, d_st),
        is_distance(alive, t, s, d_ts),
    ensures
        d_st == d_ts,
{
    lemma_reach_symmetric(alive, s, t, d_st);
    lemma_reach_symmetric(alive, t, s, d_ts);
    if d_st < d_ts {
        assert(!reach(alive, t, s, d_st));
    }
    if d_ts < d_st {
        assert(!reach(alive, s, t, d_ts));
    }
}

/// A cell that cannot reach another cannot be reached from it either.
pub proof fn lemma_unreachable_symmetric(alive: Seq<bool>, s: usize, t: usize)
    requires
        unreachable(alive, s, t),
    ensures
        unreachable(alive, t, s),
{
    assert forall|k: nat| !#[trigger] reach(alive, t, s, k) by {
        if reach(alive, t, s, k) {
            lemma_reach_symmetric(alive, t, s, k);
        }
    }
}

} // verus!
