use vstd::prelude::*;

verus! {

/// One step of the xorshift generator (shifts 13, 7, 17).
pub open spec fn xorshift(x: u64) -> u64 {
    let a = x ^ (x << 13u64);
    let b = a ^ (a >> 7u64);
    b ^ (b << 17u64)
}

/// A step of the generator never reaches 0 from a state that is not 0, so
/// the generator never gets stuck.
pub proof fn lemma_xorshift_nonzero(x: u64)
    requires
        x != 0,
    ensures
        xorshift(x) != 0,
{
    let a = x ^ (x << 13u64);
    let b = a ^ (a >> 7u64);
    let c = b ^ (b << 17u64);
    assert(x != 0 ==> a != 0) by (bit_vector)
        requires
            a == x ^ (x << 13u64),
    ;
    assert(a != 0 ==> b != 0) by (bit_vector)
        requires
            b == a ^ (a >> 7u64),
    ;
    assert(b != 0 ==> c != 0) by (bit_vector)
        requires
            c == b ^ (b << 17u64),
    ;
}

/// A small pseudo-random generator for the animations.
pub struct Rng(u64);

impl Rng {
    #[verifier::type_invariant]
    pub closed spec fn inv(&self) -> bool {
        self.0 != 0
    }

    /// The current state of the generator.
    pub closed spec fn state(&self) -> u64 {
        self.0
    }

    /// A generator seeded with `seed`, its lowest bit set so that the state
    /// is never 0.
    pub fn new(seed: u64) -> (r: Self)
        ensures
            r.state() == seed | 1,
            r.state() != 0,
    {
        assert(seed | 1u64 != 0) by (bit_vector);
        Rng(seed | 1)
    }

    /// Advances the generator one step and returns bits 16 to 47 of the new
    /// state.
    pub fn next_u32(&mut self) -> (r: u32)
        ensures
            final(self).state() == xorshift(old(self).state()),
            final(self).state() != 0,
            r == (xorshift(old(self).state()) >> 16u64) as u32,
    {
        proof {
            use_type_invariant(&*self);
            lemma_xorshift_nonzero(self.0);
        }
        let mut x = self.0;
        x ^= x << 13;
        x ^= x >> 7;
        x ^= x << 17;
        self.0 = x;
        (x >> 16) as u32
    }
}

} // verus!
