use vstd::prelude::*;

verus! {

/// Constant mixed into every seed (the 64-bit golden ratio).
pub const SEED_MIX: u64 = 0x9E37_79B9_7F4A_7C15;

/// Multiplier that scrambles the xorshift state into an output word.
pub const OUTPUT_MULTIPLIER: u64 = 0x2545_F491_4F6C_DD1D;

/// Draws below this bound are exactly those whose value as a fraction of
/// `u64::MAX` in `f64` arithmetic, `(w as f64) / (u64::MAX as f64)`, is
/// below 0.25: the conversion rounds to nearest with ties to even, so
/// `2^62 - 256` is the least word that rounds up to `2^62`.
pub const QUARTER_CUTOFF: u64 = 0x3FFF_FFFF_FFFF_FF00;

/// One xorshift step (shifts 12, 25, 27) of the generator state.
pub open spec fn xorshift(x: u64) -> u64 {
    let a = x ^ (x >> 12u64);
    let b = a ^ (a << 25u64);
    b ^ (b >> 27u64)
}

/// The output word produced for a freshly stepped state.
pub open spec fn scramble(x: u64) -> u64 {
    x.wrapping_mul(OUTPUT_MULTIPLIER)
}

/// The state after `n` steps from state `s`.
pub open spec fn state_after(s: u64, n: nat) -> u64
    decreases n,
{
    if n == 0 {
        s
    } else {
        xorshift(state_after(s, (n - 1) as nat))
    }
}

/// The `k`-th word (counting from 0) drawn from a generator in state `s`.
pub open spec fn draw(s: u64, k: nat) -> u64 {
    scramble(state_after(s, k + 1))
}

/// A small deterministic xorshift* generator.
#[derive(Clone, Copy)]
pub struct Rng {
    state: u64,
}

impl View for Rng {
    type V = u64;

    /// The generator's internal state.
    closed spec fn view(&self) -> u64 {
        self.state
    }
}

impl Rng {
    /// A generator whose state is the seed mixed with [`SEED_MIX`].
    pub fn new(seed: u64) -> (r: Self)
        ensures
            r@ == seed ^ SEED_MIX,
    {
        Rng { state: seed ^ SEED_MIX }
    }

    /// Steps the state once and returns the scrambled new state.
    pub fn next_u64(&mut self) -> (r: u64)
        ensures
            final(self)@ == xorshift(old(self)@),
            r == scramble(final(self)@),
            r == draw(old(self)@, 0),
    {
        let mut x = self.state;
        x = x ^ (x >> 12u64);
        x = x ^ (x << 25u64);
        x = x ^ (x >> 27u64);
        proof {
            reveal_with_fuel(state_after, 2);
        }
        self.state = x;
        x.wrapping_mul(OUTPUT_MULTIPLIER)
    }

    /// A value in `0..n` taken from the next word by remainder.
    pub fn usize(&mut self, n: usize) -> (r: usize)
        requires
            n > 0,
        ensures
            final(self)@ == xorshift(old(self)@),
            r == (draw(old(self)@, 0) as usize) % n,
            r < n,
    {
        let w = self.next_u64();
        (w as usize) % n
    }
}

/// A nonzero state never steps to zero: every xorshift stage is invertible.
pub proof fn lemma_xorshift_nonzero(x: u64)
    requires
        x != 0,
    ensures
        xorshift(x) != 0,
{
    let a = x ^ (x >> 12u64);
    let b = a ^ (a << 25u64);
    assert(a != 0) by (bit_vector)
        requires
            x != 0,
            a == x ^ (x >> 12u64),
    ;
    assert(b != 0) by (bit_vector)
        requires
            a != 0,
            b == a ^ (a << 25u64),
    ;
    assert(b ^ (b >> 27u64) != 0) by (bit_vector)
        requires
            b != 0,
    ;
}

/// A generator started from a nonzero state yields nonzero states forever.
pub proof fn lemma_state_never_zero(s: u64, n: nat)
    requires
        s != 0,
    ensures
        state_after(s, n) != 0,
    decreases n,
{
    if n > 0 {
        lemma_state_never_zero(s, (n - 1) as nat);
        lemma_xorshift_nonzero(state_after(s, (n - 1) as nat));
    }
}

} // verus!
