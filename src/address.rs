//! Owner addresses.
use vstd::prelude::*;

verus! {

/// A 20-byte account address, split into its four high-order bytes and
/// its sixteen low-order bytes (both big-endian).
#[derive(Clone, Copy, Debug, PartialEq, Eq, Structural)]
pub struct Address {
    pub high: u32,
    pub low: u128,
}

impl Address {
    /// The null address, which marks a query that concerns no owner.
    pub open spec fn null() -> Address {
        Address { high: 0, low: 0 }
    }

    /// Returns the null address.
    pub fn zero() -> (r: Address)
        ensures
            r == Address::null(),
    {
        Address { high: 0, low: 0 }
    }

    /// Whether this is the null address.
    pub fn is_zero(&self) -> (r: bool)
        ensures
            r == (*self == Address::null()),
    {
        self.high == 0 && self.low == 0
    }
}

} // verus!
