use vstd::prelude::*;

verus! {

/// Side length of the square grid.
pub const GRID: usize = 16;

/// Number of cells in the grid.
pub const CELLS: usize = GRID * GRID;

/// Cell in which every route starts.
pub const START: usize = 0;

/// Cell in which every route ends (the opposite corner).
pub const GOAL: usize = CELLS - 1;

/// Step budget of one routing episode.
pub const MAX_STEPS: usize = GRID * GRID * 2;

/// The cell one step from `id` in direction `a` (0 up, 1 down, 2 left,
/// 3 right), if that step stays on the grid.
pub open spec fn neighbor(id: usize, a: int) -> Option<usize> {
    let r = id / GRID;
    let c = id % GRID;
    if a == 0 {
        if r > 0 { Some((id - GRID) as usize) } else { None }
    } else if a == 1 {
        if r + 1 < GRID { Some((id + GRID) as usize) } else { None }
    } else if a == 2 {
        if c > 0 { Some((id - 1) as usize) } else { None }
    } else if a == 3 {
        if c + 1 < GRID { Some((id + 1) as usize) } else { None }
    } else {
        None
    }
}

/// Action `a` from cell `id` leads onto an alive cell of `alive`.
pub open spec fn can_move(alive: Seq<bool>, id: usize, a: int) -> bool {
    &&& 0 <= a < 4
    &&& neighbor(id, a) is Some
    &&& alive[neighbor(id, a)->0 as int]
}

/// Where action `a` from cell `id` lands: `None` when it is no move (4 or
/// more), leaves the grid, or hits a failed cell.
pub open spec fn move_target(alive: Seq<bool>, id: usize, a: int) -> Option<usize> {
    if can_move(alive, id, a) {
        neighbor(id, a)
    } else {
        None
    }
}

/// Absolute difference of two integers.
pub open spec fn abs_diff(x: int, y: int) -> int {
    if x >= y { x - y } else { y - x }
}

/// Manhattan distance between two cells.
pub open spec fn manhattan(a: usize, b: usize) -> int {
    abs_diff((a / GRID) as int, (b / GRID) as int) + abs_diff((a % GRID) as int, (b % GRID) as int)
}

/// The square mesh: which cells are alive.
#[derive(Clone, Copy)]
pub struct Grid {
    alive: [bool; CELLS],
}

impl View for Grid {
    type V = Seq<bool>;

    /// Alive flag of every cell, indexed by cell id.
    closed spec fn view(&self) -> Seq<bool> {
        self.alive@
    }
}

impl Grid {
    /// A grid holds exactly one alive flag per cell.
    pub proof fn lemma_cell_count(&self)
        ensures
            self@.len() == CELLS,
    {
    }

    /// A grid whose cells are all alive.
    pub fn new() -> (g: Self)
        ensures
            g@ == Seq::new(CELLS as nat, |i: int| true),
    {
        let g = Grid { alive: [true; CELLS] };
        assert(g.alive@ =~= Seq::new(CELLS as nat, |i: int| true));
        g
    }

    /// Cell id of row `r`, column `c`.
    pub fn id(r: usize, c: usize) -> (id: usize)
        requires
            r * GRID + c <= usize::MAX,
        ensures
            id == r * GRID + c,
    {
        r * GRID + c
    }

    /// Row and column of cell `id`.
    pub fn rc(id: usize) -> (rc: (usize, usize))
        ensures
            rc == (id / GRID, id % GRID),
    {
        (id / GRID, id % GRID)
    }

    /// The four neighbours of `id` (up, down, left, right) that lie on the grid.
    pub fn neighbors(id: usize) -> (n: [Option<usize>; 4])
        ensures
            forall|a: int| 0 <= a < 4 ==> #[trigger] n@[a] == neighbor(id, a),
            n@[0] == if id / GRID > 0 { Some((id - GRID) as usize) } else { None },
            n@[1] == if id / GRID + 1 < GRID { Some((id + GRID) as usize) } else { None },
            n@[2] == if id % GRID > 0 { Some((id - 1) as usize) } else { None },
            n@[3] == if id % GRID + 1 < GRID { Some((id + 1) as usize) } else { None },
    {
        let (r, c) = Self::rc(id);
        let up = if r > 0 { Some(id - GRID) } else { None };
        let down = if r + 1 < GRID { Some(id + GRID) } else { None };
        let left = if c > 0 { Some(id - 1) } else { None };
        let right = if c + 1 < GRID { Some(id + 1) } else { None };
        let n = [up, down, left, right];
        assert(n@[0] == neighbor(id, 0));
        assert(n@[1] == neighbor(id, 1));
        assert(n@[2] == neighbor(id, 2));
        assert(n@[3] == neighbor(id, 3));
        n
    }

    /// Whether cell `id` is alive.
    pub fn is_alive(&self, id: usize) -> (b: bool)
        requires
            id < CELLS,
        ensures
            b == self@[id as int],
    {
        self.alive[id]
    }

    /// Brings every cell back to life.
    pub fn reset(&mut self)
        ensures
            final(self)@ == Seq::new(CELLS as nat, |i: int| true),
    {
        self.alive = [true; CELLS];
        assert(self.alive@ =~= Seq::new(CELLS as nat, |i: int| true));
    }

    /// Fails cell `id`, unless it is the start or the goal corner, which never fail.
    pub fn fail(&mut self, id: usize)
        requires
            id < CELLS,
        ensures
            final(self)@ == if id != START && id != GOAL {
                old(self)@.update(id as int, false)
            } else {
                old(self)@
            },
    {
        if id != START && id != GOAL {
            self.alive[id] = false;
        }
    }

    /// Where action `action` from cell `id` leads: the neighbour in that
    /// direction when it exists and is alive, otherwise `None` (so does any
    /// action of 4 or more, which stays put).
    pub fn try_move(&self, id: usize, action: usize) -> (n: Option<usize>)
        requires
            action < 4 && neighbor(id, action as int) is Some ==> neighbor(id, action as int)->0
                < CELLS,
        ensures
            n == move_target(self@, id, action as int),
            n is Some <==> (action < 4 && neighbor(id, action as int) is Some && self@[neighbor(
                id,
                action as int,
            )->0 as int]),
            n is Some ==> n == neighbor(id, action as int),
    {
        if action < 4 {
            let ns = Self::neighbors(id);
            match ns[action] {
                Some(n) => {
                    if self.alive[n] {
                        Some(n)
                    } else {
                        None
                    }
                },
                None => None,
            }
        } else {
            None
        }
    }

    /// The actions among 0..4 that lead from `id` onto an alive cell, in increasing order.
    pub fn valid_actions(&self, id: usize) -> (v: Vec<usize>)
        requires
            id < CELLS,
        ensures
            forall|i: int, j: int| 0 <= i < j < v@.len() ==> v@[i] < v@[j],
            forall|i: int| 0 <= i < v@.len() ==> can_move(self@, id, #[trigger] v@[i] as int),
            forall|a: int| can_move(self@, id, a) ==> v@.contains(a as usize),
            forall|i: int| 0 <= i < v@.len() ==> #[trigger] v@[i] < 4,
            forall|a: int|
                0 <= a < 4 ==> (v@.contains(a as usize) <==> (neighbor(id, a) is Some && self@[neighbor(
                    id,
                    a,
                )->0 as int])),
    {
        let mut v: Vec<usize> = Vec::new();
        let mut a: usize = 0;
        while a < 4
            invariant
                a <= 4,
                id < CELLS,
                forall|i: int, j: int| 0 <= i < j < v@.len() ==> v@[i] < v@[j],
                forall|i: int| 0 <= i < v@.len() ==> v@[i] < a,
                forall|i: int| 0 <= i < v@.len() ==> can_move(self@, id, #[trigger] v@[i] as int),
                forall|b: int| 0 <= b < a && can_move(self@, id, b) ==> v@.contains(b as usize),
            decreases 4 - a,
        {
            let ghost old_v = v@;
            if self.try_move(id, a).is_some() {
                v.push(a);
                assert(v@[v@.len() - 1] == a);
                assert(forall|i: int| 0 <= i < old_v.len() ==> v@[i] == old_v[i]);
                assert forall|b: int| 0 <= b < a + 1 && can_move(self@, id, b) implies v@.contains(
                    b as usize,
                ) by {
                    if b < a {
                        let i = choose|i: int| 0 <= i < old_v.len() && old_v[i] == b as usize;
                        assert(v@[i] == b as usize);
                    }
                }
            }
            a = a + 1;
        }
        proof {
            assert forall|b: int| 0 <= b < 4 implies (v@.contains(b as usize) <==> (neighbor(
                id,
                b,
            ) is Some && self@[neighbor(id, b)->0 as int])) by {
                if v@.contains(b as usize) {
                    let i = choose|i: int| 0 <= i < v@.len() && v@[i] == b as usize;
                    assert(can_move(self@, id, v@[i] as int));
                }
                if neighbor(id, b) is Some && self@[neighbor(id, b)->0 as int] {
                    assert(can_move(self@, id, b));
                }
            }
        }
        v
    }

    /// Manhattan distance between cells `a` and `b`.
    pub fn manhattan(a: usize, b: usize) -> (d: usize)
        ensures
            d == manhattan(a, b),
            d == (if a / GRID >= b / GRID { a / GRID - b / GRID } else { b / GRID - a / GRID }) + (
            if a % GRID >= b % GRID { a % GRID - b % GRID } else { b % GRID - a % GRID }),
    {
        let (ra, ca) = Self::rc(a);
        let (rb, cb) = Self::rc(b);
        let dr = if ra >= rb { ra - rb } else { rb - ra };
        let dc = if ca >= cb { ca - cb } else { cb - ca };
        dr + dc
    }
}

/// Cell ids and (row, column) pairs convert back and forth without loss.
pub proof fn lemma_id_rc_roundtrip(r: usize, c: usize, id: usize)
    ensures
        r < GRID && c < GRID ==> (r * GRID + c) / (GRID as int) == r && (r * GRID + c) % (
        GRID as int) == c && r * GRID + c < CELLS,
        (id / GRID) * GRID + id % GRID == id,
{
    assert(r < 16 && c < 16 ==> (r * 16 + c) / 16 == r && (r * 16 + c) % 16 == c && r * 16 + c
        < 256) by (nonlinear_arith);
    assert((id / 16) * 16 + id % 16 == id) by (nonlinear_arith);
}

/// Where a move lands agrees with whether it can be made: it lands on the
/// neighbour in direction `a` exactly when `a` is a direction (0 to 3), that
/// neighbour exists, and it is alive; otherwise it lands nowhere.
pub proof fn lemma_move_target(alive: Seq<bool>, id: usize, a: int)
    ensures
        move_target(alive, id, a) is Some <==> can_move(alive, id, a),
        can_move(alive, id, a) <==> (0 <= a < 4 && neighbor(id, a) is Some && alive[neighbor(
            id,
            a,
        )->0 as int]),
        move_target(alive, id, a) is Some ==> move_target(alive, id, a) == neighbor(id, a),
{
}

/// Row and column of a neighbour: one step changes exactly one coordinate by one.
pub proof fn lemma_neighbor_coords(v: usize, a: int)
    requires
        v < CELLS,
        0 <= a < 4,
    ensures
        a == 0 ==> (neighbor(v, a) is Some <==> v / GRID > 0),
        a == 1 ==> (neighbor(v, a) is Some <==> v / GRID + 1 < GRID),
        a == 2 ==> (neighbor(v, a) is Some <==> v % GRID > 0),
        a == 3 ==> (neighbor(v, a) is Some <==> v % GRID + 1 < GRID),
        neighbor(v, a) is Some ==> ({
            let n = neighbor(v, a)->0;
            &&& n < CELLS
            &&& a == 0 ==> n / GRID == v / GRID - 1 && n % GRID == v % GRID
            &&& a == 1 ==> n / GRID == v / GRID + 1 && n % GRID == v % GRID
            &&& a == 2 ==> n / GRID == v / GRID && n % GRID == v % GRID - 1
            &&& a == 3 ==> n / GRID == v / GRID && n % GRID == v % GRID + 1
        }),
{
    let w = v as int;
    assert(0 <= w / 16 < 16 && 0 <= w % 16 < 16) by (nonlinear_arith)
        requires
            0 <= w < 256,
    ;
    if neighbor(v, a) is Some {
        if a == 0 {
            assert((w - 16) / 16 == w / 16 - 1 && (w - 16) % 16 == w % 16) by (nonlinear_arith)
                requires
                    w / 16 > 0,
            ;
        } else if a == 1 {
            assert((w + 16) / 16 == w / 16 + 1 && (w + 16) % 16 == w % 16 && w + 16 < 256) by (nonlinear_arith)
                requires
                    0 <= w < 256,
                    w / 16 + 1 < 16,
            ;
        } else if a == 2 {
            assert((w - 1) / 16 == w / 16 && (w - 1) % 16 == w % 16 - 1) by (nonlinear_arith)
                requires
                    w % 16 > 0,
                    w >= 0,
            ;
        } else {
            assert((w + 1) / 16 == w / 16 && (w + 1) % 16 == w % 16 + 1 && w + 1 < 256) by (nonlinear_arith)
                requires
                    w % 16 + 1 < 16,
                    0 <= w < 256,
            ;
        }
    }
}

/// Adjacency on the grid is symmetric: a neighbour `v` of a cell `u` is a cell,
/// and `u` is a neighbour of `v`.
pub proof fn lemma_neighbor_symmetric(u: usize, a: int)
    requires
        u < CELLS,
        neighbor(u, a) is Some,
    ensures
        neighbor(u, a)->0 < CELLS,
        exists|b: int| 0 <= b < 4 && #[trigger] neighbor(neighbor(u, a)->0, b) == Some(u),
{
    let v = neighbor(u, a)->0;
    let w = u as int;
    if a == 0 {
        assert((w - 16) / 16 == w / 16 - 1 && (w - 16) % 16 == w % 16) by (nonlinear_arith)
            requires
                w / 16 > 0,
        ;
        assert(neighbor(v, 1) == Some(u));
    } else if a == 1 {
        assert((w + 16) / 16 == w / 16 + 1 && (w + 16) % 16 == w % 16) by (nonlinear_arith)
            requires
                w >= 0,
        ;
        assert(neighbor(v, 0) == Some(u));
    } else if a == 2 {
        assert((w - 1) / 16 == w / 16 && (w - 1) % 16 == w % 16 - 1) by (nonlinear_arith)
            requires
                w % 16 > 0,
                w >= 0,
        ;
        assert(neighbor(v, 3) == Some(u));
    } else {
        assert((w + 1) / 16 == w / 16 && (w + 1) % 16 == w % 16 + 1) by (nonlinear_arith)
            requires
                w % 16 + 1 < 16,
                w >= 0,
        ;
        assert(neighbor(v, 2) == Some(u));
    }
}

} // verus!
