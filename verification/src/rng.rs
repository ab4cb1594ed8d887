use vstd::prelude::*;

verus! {

/// Deterministic pseudo-random generator (a 64-bit linear congruential
/// generator).  It is **not** cryptographic: it serves the Las Vegas
/// searches of the library (non-residue sampling, random curve points,
/// the pole move of the reduced Tate pairing), where only independence
/// from the input data matters, not unpredictability.  Callers that run
/// in parallel must supply one generator per worker.
pub struct Lcg {
    pub state: u64,
}

impl Lcg {
    /// Generator starting from `seed`.
    pub fn new(seed: u64) -> (r: Lcg)
        ensures
            r.state == seed,
    {
        Lcg { state: seed }
    }

    /// Next 64-bit draw; the state advances by the linear congruence.
    pub fn next_u64(&mut self) -> (r: u64)
        ensures
            r as int == (old(self).state * 6364136223846793005 + 1442695040888963407) % 0x10000000000000000,
            final(self).state == r,
    {
        proof {
            let s = old(self).state as int;
            assert(s * 6364136223846793005 + 1442695040888963407 < 0x100000000000000000000000000000000)
                by (nonlinear_arith)
                requires
                    0 <= s < 0x10000000000000000,
            ;
        }
        let wide: u128 = (self.state as u128) * 6364136223846793005u128 + 1442695040888963407u128;
        let s: u64 = (wide % 0x10000000000000000u128) as u64;
        self.state = s;
        s
    }
}

} // verus!
