//! The injected random source: a deterministic, seedable linear congruential
//! generator.  Every draw is a pure function of the generator's state, so a
//! render is reproducible from its seed; a fresh seed can be taken from the
//! process-wide entropy source.

use vstd::prelude::*;
use crate::fixed::{FX_ONE, fmul_s, sabs, tdiv};

verus! {

/// The generator's state after one step.
#[verifier::opaque]
pub open spec fn next_state(s: u64) -> u64 {
    (((s as int) * 6364136223846793005int + 1442695040888963407int)
        % 18446744073709551616int) as u64
}

/// The state after three steps: one draw of a three-component vector.
pub open spec fn next_state3(s: u64) -> u64 {
    next_state(next_state(next_state(s)))
}

/// The fixed-point number in `[0, 1)` read off a state: its top 24 bits.
#[verifier::opaque]
pub open spec fn unit_sample(s: u64) -> int {
    (s as int) / 1099511627776int
}

/// The fixed-point number in `[min, max)` drawn by stepping from state `s`.
#[verifier::opaque]
pub open spec fn range_sample(s: u64, min: int, max: int) -> int {
    min + fmul_s(unit_sample(next_state(s)), max - min)
}

/// A deterministic pseudo-random source, stepped by a linear congruence.
pub struct Rng {
    pub state: u64,
}

/// Relies on rand::random: an arbitrary machine word from the thread-local
/// generator; nothing is promised of the value.
#[verifier::external_body]
fn fresh_seed() -> (r: u64) {
    rand::random::<u64>()
}

impl Rng {
    /// A source that will replay the same draws for the same seed.
    pub fn new(seed: u64) -> (r: Rng)
        ensures
            r.state == seed,
    {
        Rng { state: seed }
    }

    /// A source seeded from the process-wide entropy source; the draws that
    /// follow are a function of whatever seed came back.
    pub fn from_entropy() -> (r: Rng) {
        Rng { state: fresh_seed() }
    }

    /// One step of the congruence; returns the new state as a raw word.
    pub fn next_u64(&mut self) -> (r: u64)
        ensures
            final(self).state == next_state(old(self).state),
            r == final(self).state,
    {
        let s0 = self.state;
        proof {
            reveal(next_state);
            assert((s0 as int) * 6364136223846793005int
                + 1442695040888963407int < 340282366920938463463374607431768211456int)
                by (nonlinear_arith)
                requires
                    0 <= (s0 as int) < 18446744073709551616int,
            ;
        }
        let wide: u128 = (s0 as u128) * 6364136223846793005u128
            + 1442695040888963407u128;
        let s2 = (wide % 18446744073709551616u128) as u64;
        self.state = s2;
        s2
    }

    /// A fixed-point number uniform over the representable values of `[0, 1)`.
    pub fn next_unit(&mut self) -> (r: i128)
        ensures
            final(self).state == next_state(old(self).state),
            r == unit_sample(final(self).state),
            0 <= r < FX_ONE,
    {
        let w = self.next_u64();
        let q = w / 1099511627776u64;
        proof {
            reveal(unit_sample);
            assert((w as int) / 1099511627776int < 16777216int) by (nonlinear_arith)
                requires
                    0 <= (w as int) < 18446744073709551616int,
            ;
        }
        q as i128
    }

    /// A fixed-point number uniform over the representable values of `[min, max)`.
    pub fn next_range(&mut self, min: i128, max: i128) -> (r: i128)
        requires
            min <= max,
            sabs(min as int) <= 1099511627776int,
            sabs(max as int) <= 1099511627776int,
        ensures
            final(self).state == next_state(old(self).state),
            r == range_sample(old(self).state, min as int, max as int),
            min <= r <= max,
            min < max ==> r < max,
    {
        let u = self.next_unit();
        let d = max - min;
        proof {
            reveal(range_sample);
            assert(sabs(u as int * (d as int)) < 85070591730234615865843651857942052864int)
                by (nonlinear_arith)
                requires
                    0 <= (u as int) < 16777216int,
                    0 <= (d as int) <= 2199023255552int,
            ;
        }
        let m = crate::fixed::fmul(u, d);
        proof {
            assert(0 <= tdiv(u as int * (d as int), FX_ONE as int) <= d
                && (d > 0 ==> tdiv(u as int * (d as int), FX_ONE as int) < d))
                by (nonlinear_arith)
                requires
                    0 <= (u as int) < FX_ONE as int,
                    0 <= (d as int) <= 2199023255552int,
                    FX_ONE == 16777216,
            ;
        }
        min + m
    }
}

} // verus!
