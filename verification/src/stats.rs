//! The running aggregate kept for one key.
//!
//! The numeric value of a record is a 64-bit floating-point number. This
//! crate never computes with such numbers: it carries each one as its
//! 64-bit pattern, and the caller supplies the folded patterns for the
//! sum, minimum and maximum. What the crate does verify is the count and
//! the shape of every update.

use vstd::prelude::*;

verus! {

/// Aggregate of all values seen for one key: how many, and the patterns
/// of their running sum, minimum and maximum.
#[derive(Clone, Copy, Debug, PartialEq, Eq, Structural)]
pub struct Stats {
    pub count: u64,
    pub sum_bits: u64,
    pub min_bits: u64,
    pub max_bits: u64,
}

impl Stats {
    /// The aggregate after a key's first value: one observation whose
    /// sum, minimum and maximum are that value itself.
    pub fn new(first_value: u64) -> (s: Stats)
        ensures
            s == (Stats {
                count: 1,
                sum_bits: first_value,
                min_bits: first_value,
                max_bits: first_value,
            }),
    {
        Stats { count: 1, sum_bits: first_value, min_bits: first_value, max_bits: first_value }
    }

    /// One more observation: the count rises by one and the caller's
    /// folded sum, minimum and maximum patterns replace the old ones.
    pub fn update(&mut self, sum_bits: u64, min_bits: u64, max_bits: u64)
        requires
            old(self).count < u64::MAX,
        ensures
            *final(self) == (Stats {
                count: (old(self).count + 1) as u64,
                sum_bits: sum_bits,
                min_bits: min_bits,
                max_bits: max_bits,
            }),
    {
        self.count = self.count + 1;
        self.sum_bits = sum_bits;
        self.min_bits = min_bits;
        self.max_bits = max_bits;
    }
}

} // verus!
