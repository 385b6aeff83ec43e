//! The xoroshiro128+ pseudo-random number generator that drives the index
//! schedule of an item. Both parties must agree on it bit for bit: for every
//! seed it gives the numbers that `Xoroshiro128Plus` of the crate
//! `rand_xoshiro` gives.

use vstd::prelude::*;
use crate::digest::{bytes_zero, zero_bytes};

verus! {

/// The 64-bit word that eight bytes of `b`, from `at` on, hold in
/// little-endian order.
pub open spec fn le_u64(b: Seq<u8>, at: int) -> u64 {
    (b[at] as u64) | ((b[at + 1] as u64) << 8) | ((b[at + 2] as u64) << 16) | ((b[at + 3] as u64)
        << 24) | ((b[at + 4] as u64) << 32) | ((b[at + 5] as u64) << 40) | ((b[at + 6] as u64)
        << 48) | ((b[at + 7] as u64) << 56)
}

/// The state of a xoroshiro128+ generator.
#[derive(Clone, Copy, Debug)]
pub struct Xoroshiro128Plus {
    pub s0: u64,
    pub s1: u64,
}

impl Xoroshiro128Plus {
    /// The state that the all-zero seed is mapped to: the first two outputs of
    /// SplitMix64 started at zero.
    pub open spec fn fallback() -> Xoroshiro128Plus {
        Xoroshiro128Plus { s0: 0xe220_a839_7b1d_cdaf, s1: 0x6e78_9e6a_a1b9_65f4 }
    }

    /// The state that a 16-byte seed gives: its two little-endian words,
    /// unless all of them are zero.
    pub open spec fn seeded(seed: Seq<u8>) -> Xoroshiro128Plus {
        if seed == zero_bytes(16) {
            Xoroshiro128Plus::fallback()
        } else {
            Xoroshiro128Plus { s0: le_u64(seed, 0), s1: le_u64(seed, 8) }
        }
    }

    /// The number that the next draw returns.
    pub open spec fn output(self) -> u64 {
        self.s0.wrapping_add(self.s1)
    }

    /// The state after one draw.
    pub open spec fn step(self) -> Xoroshiro128Plus {
        let t = self.s1 ^ self.s0;
        Xoroshiro128Plus {
            s0: ((self.s0 << 24) | (self.s0 >> 40)) ^ t ^ (t << 16),
            s1: (t << 37) | (t >> 27),
        }
    }

    /// The state after `n` draws from the generator seeded with `seed`.
    pub open spec fn after(seed: Seq<u8>, n: nat) -> Xoroshiro128Plus
        decreases n,
    {
        if n == 0 {
            Xoroshiro128Plus::seeded(seed)
        } else {
            Xoroshiro128Plus::after(seed, (n - 1) as nat).step()
        }
    }

    /// Seeds a generator.
    pub fn from_seed(seed: [u8; 16]) -> (rng: Xoroshiro128Plus)
        ensures
            rng == Xoroshiro128Plus::seeded(seed@),
    {
        if bytes_zero(&seed) {
            Xoroshiro128Plus { s0: 0xe220_a839_7b1d_cdaf, s1: 0x6e78_9e6a_a1b9_65f4 }
        } else {
            let s0: u64 = (seed[0] as u64) | ((seed[1] as u64) << 8) | ((seed[2] as u64) << 16) | ((
            seed[3] as u64) << 24) | ((seed[4] as u64) << 32) | ((seed[5] as u64) << 40) | ((
            seed[6] as u64) << 48) | ((seed[7] as u64) << 56);
            let s1: u64 = (seed[8] as u64) | ((seed[9] as u64) << 8) | ((seed[10] as u64) << 16) | ((
            seed[11] as u64) << 24) | ((seed[12] as u64) << 32) | ((seed[13] as u64) << 40) | ((
            seed[14] as u64) << 48) | ((seed[15] as u64) << 56);
            Xoroshiro128Plus { s0, s1 }
        }
    }

    /// Draws the next 64-bit number.
    pub fn next_u64(&mut self) -> (r: u64)
        ensures
            r == old(self).output(),
            *final(self) == old(self).step(),
    {
        let r = self.s0.wrapping_add(self.s1);
        let t: u64 = self.s1 ^ self.s0;
        self.s0 = ((self.s0 << 24) | (self.s0 >> 40)) ^ t ^ (t << 16);
        self.s1 = (t << 37) | (t >> 27);
        r
    }
}

} // verus!
