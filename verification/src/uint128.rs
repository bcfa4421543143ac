//! A 128-bit value as a pair of 64-bit halves, for hashes that are handed
//! over in two words.

use vstd::prelude::*;
use vstd::std_specs::convert::FromSpecImpl;

verus! {

/// A 128-bit hash value, as its lower and its upper 64 bits.
#[derive(Debug, Copy, Clone, PartialEq, Eq, Structural)]
pub struct Uint128 {
    /// The lower 64 bits.
    pub low: u64,
    /// The upper 64 bits.
    pub high: u64,
}

impl Uint128 {
    /// The value with the given lower and upper half.
    pub fn new(low: u64, high: u64) -> (value: Self)
        ensures
            value == (Uint128 { low, high }),
    {
        Self { low, high }
    }
}

impl From<(u64, u64)> for Uint128 {
    /// The value whose lower half comes first in the pair.
    fn from(value: (u64, u64)) -> (converted: Self) {
        Self { low: value.0, high: value.1 }
    }
}

impl FromSpecImpl<(u64, u64)> for Uint128 {
    open spec fn obeys_from_spec() -> bool {
        true
    }

    open spec fn from_spec(value: (u64, u64)) -> Self {
        Uint128 { low: value.0, high: value.1 }
    }
}

impl From<Uint128> for (u64, u64) {
    /// The pair of the lower and the upper half, in that order.
    fn from(value: Uint128) -> (converted: Self) {
        (value.low, value.high)
    }
}

impl FromSpecImpl<Uint128> for (u64, u64) {
    open spec fn obeys_from_spec() -> bool {
        true
    }

    open spec fn from_spec(value: Uint128) -> Self {
        (value.low, value.high)
    }
}

} // verus!
