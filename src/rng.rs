use vstd::prelude::*;

verus! {

/// The xorshift64 successor of a state.
pub open spec fn xorshift(s: u64) -> u64 {
    let a = s ^ ((s << 13u64) as u64);
    let b = a ^ (a >> 7u64);
    b ^ ((b << 17u64) as u64)
}

/// A small seedable pseudo-random source (xorshift64). Two sources made from
/// the same seed produce the same sequence of numbers.
#[derive(Clone, Copy, Debug, PartialEq, Eq, Structural)]
pub struct Rng {
    state: u64,
}

/// The state used in place of a zero seed, on which xorshift would stay at zero.
pub const FALLBACK_SEED: u64 = 0x9E37_79B9_7F4A_7C15;

impl Rng {
    pub closed spec fn state(self) -> u64 {
        self.state
    }

    pub fn new(seed: u64) -> (r: Rng)
        ensures
            r.state() == (if seed == 0 { FALLBACK_SEED } else { seed }),
    {
        Rng { state: if seed == 0 { FALLBACK_SEED } else { seed } }
    }

    /// Advances the state and returns it.
    pub fn next_u64(&mut self) -> (r: u64)
        ensures
            final(self).state() == xorshift(old(self).state()),
            r == final(self).state(),
    {
        let s = self.state;
        let a = s ^ (s << 13u64);
        let b = a ^ (a >> 7u64);
        let c = b ^ (b << 17u64);
        self.state = c;
        c
    }

    /// A number below `bound`, taken from the next state.
    pub fn below(&mut self, bound: usize) -> (r: usize)
        requires
            bound > 0,
        ensures
            final(self).state() == xorshift(old(self).state()),
            r as int == final(self).state() as int % bound as int,
            r < bound,
    {
        let v = self.next_u64();
        (v % (bound as u64)) as usize
    }
}

} // verus!
