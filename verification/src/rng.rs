//! A tiny seeded PRNG (SplitMix64), deterministic for a given seed.
use vstd::prelude::*;

verus! {

/// The SplitMix64 increment.
pub const GOLDEN_GAMMA: u64 = 0x9E37_79B9_7F4A_7C15;

/// SplitMix64 generator state.
pub struct Rng {
    state: u64,
}

impl View for Rng {
    type V = u64;

    closed spec fn view(&self) -> u64 {
        self.state
    }
}

/// The state a generator seeded with `seed` starts in.
pub open spec fn seeded_state(seed: u64) -> u64 {
    seed ^ GOLDEN_GAMMA
}

/// The state after one draw.
pub open spec fn advanced(state: u64) -> u64 {
    state.wrapping_add(GOLDEN_GAMMA)
}

/// The SplitMix64 output function applied to an advanced state.
pub open spec fn mixed(z: u64) -> u64 {
    let z1 = (z ^ (z >> 30u64)).wrapping_mul(0xBF58_476D_1CE4_E5B9u64);
    let z2 = (z1 ^ (z1 >> 27u64)).wrapping_mul(0x94D0_49BB_1331_11EBu64);
    z2 ^ (z2 >> 31u64)
}

/// The value drawn from a generator in `state`.
pub open spec fn draw(state: u64) -> u64 {
    mixed(advanced(state))
}

/// The state after `k` draws from `state`.
pub open spec fn state_after(state: u64, k: nat) -> u64
    decreases k,
{
    if k == 0 {
        state
    } else {
        advanced(state_after(state, (k - 1) as nat))
    }
}

/// The `k`-th value (from zero) drawn from a generator seeded with `seed`.
pub open spec fn nth_draw(seed: u64, k: nat) -> u64 {
    draw(state_after(seeded_state(seed), k))
}

impl Rng {
    pub fn new(seed: u64) -> (r: Rng)
        ensures
            r@ == seeded_state(seed),
    {
        Rng { state: seed ^ GOLDEN_GAMMA }
    }

    pub fn next_u64(&mut self) -> (v: u64)
        ensures
            v == draw(old(self)@),
            final(self)@ == advanced(old(self)@),
    {
        self.state = self.state.wrapping_add(GOLDEN_GAMMA);
        let mut z = self.state;
        z = (z ^ (z >> 30u64)).wrapping_mul(0xBF58_476D_1CE4_E5B9u64);
        z = (z ^ (z >> 27u64)).wrapping_mul(0x94D0_49BB_1331_11EBu64);
        z ^ (z >> 31u64)
    }

    /// A value in the inclusive range `[lo, hi]`.
    pub fn range(&mut self, lo: u64, hi: u64) -> (v: u64)
        requires
            lo <= hi,
            hi - lo < u64::MAX,
        ensures
            v == lo + draw(old(self)@) % ((hi - lo + 1) as u64),
            lo <= v <= hi,
            final(self)@ == advanced(old(self)@),
    {
        let span = hi - lo + 1;
        let x = self.next_u64();
        lo + x % span
    }

    /// One of `items`, picked by the next draw.
    pub fn pick<'a, T>(&mut self, items: &'a [T]) -> (r: &'a T)
        requires
            items@.len() > 0,
        ensures
            *r == items@[(draw(old(self)@) % (items@.len() as u64)) as int],
            final(self)@ == advanced(old(self)@),
    {
        let n = items.len() as u64;
        let idx = (self.next_u64() % n) as usize;
        &items[idx]
    }
}

/// Two generators built from the same seed produce the same stream: the `k`-th draw
/// of either is `nth_draw(seed, k)`.
pub proof fn law_same_seed_same_stream(seed: u64, k: nat)
    ensures
        draw(state_after(seeded_state(seed), k)) == nth_draw(seed, k),
        state_after(seeded_state(seed), k + 1) == advanced(state_after(seeded_state(seed), k)),
{
}

} // verus!
