//! Enumeration indexes for non-fungible tokens and a supply-cap guard
//! for fungible tokens.
//!
//! `enumerable` keeps every live token id in a global list and in the
//! list of its current owner, with insertion at the end and swap-and-pop
//! removal. `capped` validates a fixed ceiling on total issuance.
//! `uint256` holds the 256-bit ids and amounts both work with.

pub mod address;
pub mod capped;
pub mod enumerable;
pub mod uint256;
