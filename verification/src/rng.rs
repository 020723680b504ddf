use vstd::prelude::*;

verus! {

/// The xorshift128+ transition on the two state words.
pub open spec fn xorshift_next(s: (u64, u64)) -> (u64, u64) {
    let t = s.0 ^ (s.0 << 23u64);
    (s.1, t ^ s.1 ^ (t >> 18u64) ^ (s.1 >> 5u64))
}

/// The 64-bit output drawn from state `s`: the wrapping sum of its two words.
pub open spec fn xorshift_output(s: (u64, u64)) -> u64 {
    vstd::wrapping::u64_specs::wrapping_add(s.0, s.1)
}

/// The state after `n` transitions from `s`.
pub open spec fn xorshift_iterate(s: (u64, u64), n: nat) -> (u64, u64)
    decreases n,
{
    if n == 0 {
        s
    } else {
        xorshift_next(xorshift_iterate(s, (n - 1) as nat))
    }
}

/// The state a generator seeded with `seed` starts from: the seed paired with
/// the seed xor a fixed constant, advanced by ten warm-up steps.
pub open spec fn seeded_state(seed: u64) -> (u64, u64) {
    xorshift_iterate((seed, seed ^ 0x72636467_75736867u64), 10)
}

/// A pseudo-random generator implementing xorshift128+.
#[derive(Clone, Debug)]
pub struct Rng {
    state: [u64; 2],
}

impl View for Rng {
    type V = (u64, u64);

    closed spec fn view(&self) -> (u64, u64) {
        (self.state[0], self.state[1])
    }
}

impl Rng {
    /// Creates a generator from a seed.
    pub fn new(seed: u64) -> (rng: Self)
        ensures
            rng@ == seeded_state(seed),
    {
        let mut rng = Rng { state: [seed, seed ^ 0x72636467_75736867u64] };
        let mut i: u64 = 0;
        while i < 10
            invariant
                i <= 10,
                rng@ == xorshift_iterate((seed, seed ^ 0x72636467_75736867u64), i as nat),
            decreases 10 - i,
        {
            rng.next_u64();
            i = i + 1;
        }
        rng
    }

    /// Draws the next 64-bit value and advances the state.
    pub fn next_u64(&mut self) -> (r: u64)
        ensures
            r == xorshift_output(old(self)@),
            final(self)@ == xorshift_next(old(self)@),
    {
        let mut s1 = self.state[0];
        let s0 = self.state[1];
        let result = s1.wrapping_add(s0);
        self.state[0] = s0;
        s1 = s1 ^ (s1 << 23u64);
        self.state[1] = s1 ^ s0 ^ (s1 >> 18u64) ^ (s0 >> 5u64);
        result
    }

    /// Draws the next 32-bit value: the upper half of the next 64-bit draw.
    pub fn next_u32(&mut self) -> (r: u32)
        ensures
            r as int == xorshift_output(old(self)@) as int / 0x1_0000_0000,
            final(self)@ == xorshift_next(old(self)@),
    {
        let v = self.next_u64();
        let hi = v >> 32u64;
        assert(hi == v / 0x1_0000_0000 && hi < 0x1_0000_0000) by (bit_vector)
            requires
                hi == v >> 32u64,
        ;
        hi as u32
    }
}

impl Default for Rng {
    fn default() -> (rng: Self)
        ensures
            rng@ == seeded_state(123456789),
    {
        Rng::new(123456789)
    }
}

} // verus!
