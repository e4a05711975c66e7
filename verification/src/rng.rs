//! The explicit random source threaded through every operation that needs
//! entropy.
//!
//! Randomness is never ambient here: a 64-bit xorshift state is passed by
//! `&mut`, every draw is an exact function of that state, and contracts pin
//! both the drawn value and the successor state.  That makes every
//! stochastic operation of the library a deterministic function of its
//! inputs, which is what lets reproducibility be proved rather than hoped.

use vstd::prelude::*;
use crate::fx::{HALF_FX, SCALE};

verus! {

/// One xorshift transition of the 64-bit state.
pub open spec fn xs_step(s: u64) -> u64 {
    let a = s ^ (s << 13);
    let b = a ^ (a >> 7);
    b ^ (b << 17)
}

/// The fixed-point value in `[0, 1)` read off a state: 20 bits of it,
/// so the result lies in `[0, SCALE - 1]`.
pub open spec fn unit_of(s: u64) -> int {
    ((s >> 12) % (SCALE as u64)) as int
}

/// The signed weight value in `[-1, 1)` read off a state.
pub open spec fn weight_of(s: u64) -> int {
    2 * unit_of(s) - SCALE as int
}

/// An index below `n` read off a state: `floor(u * n)` for the unit draw
/// `u` of that state.
pub open spec fn below_of(s: u64, n: int) -> int {
    unit_of(s) * n / (SCALE as int)
}

/// An index below `n` biased toward zero: `floor(u * u * n)`.  Because
/// populations are kept sorted ascending by score when this is used, the
/// bias favours the best-scoring individuals.
pub open spec fn sq_below_of(s: u64, n: int) -> int {
    unit_of(s) * unit_of(s) * n / (SCALE as int * SCALE as int)
}

/// A fair coin read off a state.
pub open spec fn coin_of(s: u64) -> bool {
    unit_of(s) < HALF_FX as int
}

/// The state a seed opens with; a zero seed is replaced by a fixed
/// odd constant so the xorshift orbit is never the degenerate one.
pub open spec fn seeded(seed: u64) -> u64 {
    if seed == 0 {
        0x9E3779B97F4A7C15u64
    } else {
        seed
    }
}

/// The deterministic random source.  Its view is the bare 64-bit state.
#[derive(Clone, Copy, Debug, PartialEq, Eq, Structural)]
pub struct Entropy {
    s: u64,
}

impl View for Entropy {
    type V = u64;

    closed spec fn view(&self) -> u64 {
        self.s
    }
}

impl Entropy {
    /// Open a random source on a seed; equal seeds give equal sources.
    pub fn from_seed(seed: u64) -> (r: Entropy)
        ensures
            r@ == seeded(seed),
    {
        if seed == 0 {
            Entropy { s: 0x9E3779B97F4A7C15u64 }
        } else {
            Entropy { s: seed }
        }
    }

    /// Draw a fixed-point value in `[0, 1)`, advancing the state once.
    pub fn next_unit(&mut self) -> (r: i64)
        ensures
            final(self)@ == xs_step(old(self)@),
            r as int == unit_of(final(self)@),
            0 <= r < SCALE,
    {
        let s0 = self.s;
        let a = s0 ^ (s0 << 13u64);
        let b = a ^ (a >> 7u64);
        let c = b ^ (b << 17u64);
        self.s = c;
        let u = (c >> 12u64) % (SCALE as u64);
        u as i64
    }

    /// Draw a signed weight in `[-1, 1)`, advancing the state once.
    pub fn next_weight(&mut self) -> (r: i64)
        ensures
            final(self)@ == xs_step(old(self)@),
            r as int == weight_of(final(self)@),
            -SCALE <= r < SCALE,
    {
        let u = self.next_unit();
        2 * u - SCALE
    }

    /// Draw an index below `n`, advancing the state once.
    pub fn next_below(&mut self, n: usize) -> (r: usize)
        requires
            0 < n <= 0x1_0000_0000,
        ensures
            final(self)@ == xs_step(old(self)@),
            r as int == below_of(final(self)@, n as int),
            r < n,
    {
        let u = self.next_unit();
        proof {
            assert((u as int) * (n as int) <= 0x10_0000_0000_0000)
                by (nonlinear_arith)
                requires
                    0 <= (u as int) < 0x10_0000,
                    0 < (n as int) <= 0x1_0000_0000,
            ;
        }
        let idx = (u as u64 * n as u64) / (SCALE as u64);
        proof {
            assert(unit_of(final(self)@) * (n as int) / (SCALE as int) < n as int)
                by (nonlinear_arith)
                requires
                    0 <= unit_of(final(self)@) < SCALE as int,
                    0 < n as int,
            ;
        }
        idx as usize
    }

    /// Draw an index below `n` biased toward zero, advancing the state once.
    pub fn next_sq_below(&mut self, n: usize) -> (r: usize)
        requires
            0 < n <= 0x10_0000,
        ensures
            final(self)@ == xs_step(old(self)@),
            r as int == sq_below_of(final(self)@, n as int),
            r < n,
    {
        let u = self.next_unit();
        proof {
            assert((u as int) * (u as int) * (n as int) <= 0xfff_ffff_ffff_ffff)
                by (nonlinear_arith)
                requires
                    0 <= (u as int) < 0x10_0000,
                    0 < (n as int) <= 0x10_0000,
            ;
        }
        proof {
            assert((u as int) * (u as int) <= 0x100_0000_0000) by (nonlinear_arith)
                requires
                    0 <= (u as int) < 0x10_0000,
            ;
        }
        let uu: u64 = u as u64 * u as u64;
        let idx = (uu * n as u64) / (SCALE as u64 * SCALE as u64);
        proof {
            assert(unit_of(final(self)@) * unit_of(final(self)@) * (n as int) / (
            SCALE as int * SCALE as int) < n as int) by (nonlinear_arith)
                requires
                    0 <= unit_of(final(self)@) < SCALE as int,
                    0 < n as int,
            ;
        }
        idx as usize
    }

    /// Draw a fair coin, advancing the state once.
    pub fn next_coin(&mut self) -> (r: bool)
        ensures
            final(self)@ == xs_step(old(self)@),
            r == coin_of(final(self)@),
    {
        let u = self.next_unit();
        u < HALF_FX
    }
}

} // verus!
