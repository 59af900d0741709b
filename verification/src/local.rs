use vstd::prelude::*;

verus! {

/// A cell position `(x, y)` on an unbounded integer plane.
pub type Coord = (i32, i32);

/// What a cell observes locally: the direction of the target, clipped to
/// its sign on each axis, and which of its four neighbours are alive (bit
/// `i` for the `i`-th neighbour: right, left, down, up).
#[derive(Clone, Copy, Debug, Hash, PartialEq, Eq, Structural)]
pub struct State {
    pub dx: i8,
    pub dy: i8,
    pub alive_mask: u8,
}

/// The sign of `v`: -1, 0 or 1.
pub open spec fn sign_of(v: int) -> i8 {
    if v < 0 {
        -1i8
    } else if v > 0 {
        1i8
    } else {
        0i8
    }
}

/// The coordinate one step from `c` by action `a`: 0 right, 1 left,
/// 2 down, any other up.
pub open spec fn moved(c: Coord, a: int) -> Coord {
    if a == 0 {
        ((c.0 + 1) as i32, c.1)
    } else if a == 1 {
        ((c.0 - 1) as i32, c.1)
    } else if a == 2 {
        (c.0, (c.1 + 1) as i32)
    } else {
        (c.0, (c.1 - 1) as i32)
    }
}

/// Moving from `c` by action `a` stays within `i32`.
pub open spec fn step_fits(c: Coord, a: int) -> bool {
    if a == 0 {
        c.0 < i32::MAX
    } else if a == 1 {
        c.0 > i32::MIN
    } else if a == 2 {
        c.1 < i32::MAX
    } else {
        c.1 > i32::MIN
    }
}

/// Moving from `c` in any direction stays within `i32`.
pub open spec fn steps_fit(c: Coord) -> bool {
    &&& i32::MIN < c.0 < i32::MAX
    &&& i32::MIN < c.1 < i32::MAX
}

/// The alive mask of four neighbour flags: bit `i` set exactly when flag `i` is.
pub open spec fn mask_of(alive: Seq<bool>) -> u8 {
    ((if alive[0] { 1int } else { 0 }) + (if alive[1] { 2int } else { 0 }) + (if alive[2] {
        4int
    } else {
        0
    }) + (if alive[3] { 8int } else { 0 })) as u8
}

/// The sign of `v`.
pub fn sign(v: i32) -> (s: i8)
    ensures
        s == sign_of(v as int),
        (s == 1) <==> v > 0,
        (s == -1) <==> v < 0,
        (s == 0) <==> v == 0,
{
    if v < 0 {
        -1
    } else if v > 0 {
        1
    } else {
        0
    }
}

/// The coordinate reached from `c` by action `action`.
pub fn step(c: Coord, action: usize) -> (n: Coord)
    requires
        step_fits(c, action as int),
    ensures
        n == moved(c, action as int),
        action == 0 ==> n.0 == c.0 + 1 && n.1 == c.1,
        action == 1 ==> n.0 == c.0 - 1 && n.1 == c.1,
        action == 2 ==> n.0 == c.0 && n.1 == c.1 + 1,
        action >= 3 ==> n.0 == c.0 && n.1 == c.1 - 1,
{
    match action {
        0 => (c.0 + 1, c.1),
        1 => (c.0 - 1, c.1),
        2 => (c.0, c.1 + 1),
        _ => (c.0, c.1 - 1),
    }
}

/// The four neighbours of `pos` in mask order, which is also action order:
/// entry `a` is where action `a` leads.
pub fn neighbor_coords(pos: Coord) -> (n: [Coord; 4])
    requires
        steps_fit(pos),
    ensures
        forall|a: int| 0 <= a < 4 ==> #[trigger] n@[a] == moved(pos, a),
        n@[0].0 == pos.0 + 1 && n@[0].1 == pos.1,
        n@[1].0 == pos.0 - 1 && n@[1].1 == pos.1,
        n@[2].0 == pos.0 && n@[2].1 == pos.1 + 1,
        n@[3].0 == pos.0 && n@[3].1 == pos.1 - 1,
{
    let n = [step(pos, 0), step(pos, 1), step(pos, 2), step(pos, 3)];
    assert(n@[0] == moved(pos, 0));
    assert(n@[1] == moved(pos, 1));
    assert(n@[2] == moved(pos, 2));
    assert(n@[3] == moved(pos, 3));
    n
}

/// The local state of the cell at `pos` routing towards `target`, given
/// whether each of its neighbours (in [`neighbor_coords`] order) is alive.
pub fn observe(pos: Coord, target: Coord, alive: [bool; 4]) -> (s: State)
    requires
        i32::MIN <= target.0 - pos.0 <= i32::MAX,
        i32::MIN <= target.1 - pos.1 <= i32::MAX,
    ensures
        s.dx == sign_of(target.0 - pos.0),
        s.dy == sign_of(target.1 - pos.1),
        s.alive_mask == mask_of(alive@),
        (s.dx == 1) <==> target.0 > pos.0,
        (s.dx == -1) <==> target.0 < pos.0,
        (s.dx == 0) <==> target.0 == pos.0,
        (s.dy == 1) <==> target.1 > pos.1,
        (s.dy == -1) <==> target.1 < pos.1,
        (s.dy == 0) <==> target.1 == pos.1,
        s.alive_mask < 16,
        forall|a: u8| a < 4 ==> (((s.alive_mask >> a) & 1u8 == 1u8) <==> alive@[a as int]),
{
    let mut mask: u8 = 0;
    let mut i: usize = 0;
    while i < 4
        invariant
            i <= 4,
            mask as int == (if i > 0 && alive@[0] { 1int } else { 0 }) + (if i > 1 && alive@[1] {
                2int
            } else {
                0
            }) + (if i > 2 && alive@[2] { 4int } else { 0 }) + (if i > 3 && alive@[3] {
                8int
            } else {
                0
            }),
        decreases 4 - i,
    {
        if alive[i] {
            let bit: u8 = 1u8 << (i as u8);
            proof {
                let k = i as u8;
                assert(bit == 1u8 << k);
                assert(k < 4 && mask < (1u8 << k) ==> (mask | (1u8 << k)) == mask + (1u8 << k))
                    by (bit_vector);
                assert(k == 0 ==> (1u8 << k) == 1) by (bit_vector);
                assert(k == 1 ==> (1u8 << k) == 2) by (bit_vector);
                assert(k == 2 ==> (1u8 << k) == 4) by (bit_vector);
                assert(k == 3 ==> (1u8 << k) == 8) by (bit_vector);
            }
            mask = mask | bit;
        }
        i = i + 1;
    }
    proof {
        assert forall|a: u8| a < 4 implies (((mask >> a) & 1u8 == 1u8) <==> alive@[a as int]) by {
            lemma_mask_bit(alive@, a);
        }
    }
    State { dx: sign(target.0 - pos.0), dy: sign(target.1 - pos.1), alive_mask: mask }
}

/// The sign is 1 for every positive value, -1 for every negative value,
/// and 0 only at zero.
pub proof fn lemma_sign_of(v: int)
    ensures
        (sign_of(v) == 1) <==> v > 0,
        (sign_of(v) == -1) <==> v < 0,
        (sign_of(v) == 0) <==> v == 0,
{
}

/// One move changes exactly one coordinate by exactly one unit: action 0
/// adds one to x, 1 subtracts one from x, 2 adds one to y, any other
/// subtracts one from y.
pub proof fn lemma_moved(c: Coord, a: int)
    requires
        step_fits(c, a),
    ensures
        a == 0 ==> moved(c, a).0 == c.0 + 1 && moved(c, a).1 == c.1,
        a == 1 ==> moved(c, a).0 == c.0 - 1 && moved(c, a).1 == c.1,
        a == 2 ==> moved(c, a).0 == c.0 && moved(c, a).1 == c.1 + 1,
        a != 0 && a != 1 && a != 2 ==> moved(c, a).0 == c.0 && moved(c, a).1 == c.1 - 1,
{
}

/// The alive mask has only its four low bits, one per neighbour.
pub proof fn lemma_mask_range(alive: Seq<bool>)
    requires
        alive.len() == 4,
    ensures
        mask_of(alive) < 16,
{
}

/// Bit `a` of an alive mask is set exactly when neighbour `a` (the cell
/// that action `a` leads to) is alive.
pub proof fn lemma_mask_bit(alive: Seq<bool>, a: u8)
    requires
        alive.len() == 4,
        a < 4,
    ensures
        ((mask_of(alive) >> a) & 1u8 == 1u8) == alive[a as int],
{
    let b0: u8 = if alive[0] { 1 } else { 0 };
    let b1: u8 = if alive[1] { 1 } else { 0 };
    let b2: u8 = if alive[2] { 1 } else { 0 };
    let b3: u8 = if alive[3] { 1 } else { 0 };
    let m = mask_of(alive);
    assert(m == b0 + 2 * b1 + 4 * b2 + 8 * b3);
    assert(((m >> a) & 1u8 == 1u8) == (if a == 0 {
        b0 == 1
    } else if a == 1 {
        b1 == 1
    } else if a == 2 {
        b2 == 1
    } else {
        b3 == 1
    })) by (bit_vector)
        requires
            b0 <= 1 && b1 <= 1 && b2 <= 1 && b3 <= 1,
            m == b0 + 2 * b1 + 4 * b2 + 8 * b3,
            a < 4,
    ;
}

} // verus!
