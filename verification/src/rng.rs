//! A small deterministic xorshift generator, for reproducible sampling.

use vstd::prelude::*;

verus! {

/// One xorshift64 step: s ^= s << 13; s ^= s >> 7; s ^= s << 17.
pub open spec fn xorshift64(s: u64) -> u64 {
    let a = s ^ (s << 13u64);
    let b = a ^ (a >> 7u64);
    b ^ (b << 17u64)
}

/// Simple deterministic RNG state (xorshift64).
pub struct SimpleRng {
    state: u64,
}

impl SimpleRng {
    /// The current state.
    pub closed spec fn state(&self) -> u64 {
        self.state
    }

    /// A generator seeded with `seed`.
    pub fn new(seed: u64) -> (r: Self)
        ensures
            r.state() == seed,
    {
        Self { state: seed }
    }

    /// Advance the state by one xorshift64 step and return the new state.
    pub fn next_state(&mut self) -> (r: u64)
        ensures
            r == xorshift64(old(self).state()),
            final(self).state() == r,
            r == ({
                let a = old(self).state() ^ (old(self).state() << 13u64);
                let b = a ^ (a >> 7u64);
                b ^ (b << 17u64)
            }),
            old(self).state() != 0 ==> r != 0,
    {
        self.state = self.state ^ (self.state << 13u64);
        self.state = self.state ^ (self.state >> 7u64);
        self.state = self.state ^ (self.state << 17u64);
        proof {
            law_xorshift_keeps_nonzero(old(self).state());
        }
        self.state
    }
}

/// Undoes y = x ^ (x << 13).
pub open spec fn undo_shl13(y: u64) -> u64 {
    y ^ (y << 13u64) ^ (y << 26u64) ^ (y << 39u64) ^ (y << 52u64)
}

/// Undoes y = x ^ (x >> 7).
pub open spec fn undo_shr7(y: u64) -> u64 {
    y ^ (y >> 7u64) ^ (y >> 14u64) ^ (y >> 21u64) ^ (y >> 28u64) ^ (y >> 35u64) ^ (y >> 42u64) ^ (y
        >> 49u64) ^ (y >> 56u64) ^ (y >> 63u64)
}

/// Undoes y = x ^ (x << 17).
pub open spec fn undo_shl17(y: u64) -> u64 {
    y ^ (y << 17u64) ^ (y << 34u64) ^ (y << 51u64)
}

/// The inverse of the xorshift64 step: its three shifts undone in reverse order.
pub open spec fn xorshift64_inverse(r: u64) -> u64 {
    undo_shl13(undo_shr7(undo_shl17(r)))
}

/// The xorshift64 step is invertible: undoing its three shifts in reverse order gives
/// the state back, for every state.
pub proof fn law_xorshift_invertible(s: u64)
    ensures
        xorshift64_inverse(xorshift64(s)) == s,
{
    let a = s ^ (s << 13u64);
    let b = a ^ (a >> 7u64);
    let c = b ^ (b << 17u64);
    assert(c == xorshift64(s));
    assert(undo_shl17(b ^ (b << 17u64)) == b) by (bit_vector);
    assert(undo_shr7(a ^ (a >> 7u64)) == a) by (bit_vector);
    assert(undo_shl13(s ^ (s << 13u64)) == s) by (bit_vector);
}

/// Distinct states step to distinct states.
pub proof fn law_xorshift_injective(s: u64, t: u64)
    ensures
        xorshift64(s) == xorshift64(t) ==> s == t,
{
    law_xorshift_invertible(s);
    law_xorshift_invertible(t);
}

/// 0 is the only fixed point reaching 0: the step sends 0 to 0 and every nonzero state
/// to a nonzero state, so a generator seeded with a nonzero value never gets stuck at 0.
pub proof fn law_xorshift_keeps_nonzero(s: u64)
    ensures
        xorshift64(0) == 0,
        s != 0 ==> xorshift64(s) != 0,
{
    assert(xorshift64(0u64) == 0u64) by (bit_vector);
    law_xorshift_injective(s, 0);
}

/// The state after k steps from `s`.
pub open spec fn xorshift64_iter(s: u64, k: nat) -> u64
    decreases k,
{
    if k == 0 {
        s
    } else {
        xorshift64(xorshift64_iter(s, (k - 1) as nat))
    }
}

/// From a nonzero seed, no number of steps ever reaches 0.
pub proof fn law_stream_never_zero(s: u64, k: nat)
    requires
        s != 0,
    ensures
        xorshift64_iter(s, k) != 0,
    decreases k,
{
    if k > 0 {
        law_stream_never_zero(s, (k - 1) as nat);
        law_xorshift_keeps_nonzero(xorshift64_iter(s, (k - 1) as nat));
    }
}

} // verus!
