//! Core of a limit order book matching engine for a single instrument:
//! fixed-point scalars, an order registry keyed by stable identifiers, and
//! a price-time-priority matching book that emits domain events.

pub mod account;
pub mod base;
pub mod book;
pub mod data;
pub mod enums;
pub mod event;
pub mod fixed;
pub mod laws;
pub mod order;
pub mod registry;
pub mod render;
pub mod trade;

use vstd::prelude::*;

verus! {

/// Monotonic integer identifier; `0` is reserved as the invalid sentinel.
pub type Id = u64;

/// Adds two sizes; exposed as a plain utility.
pub fn sum_as_string(a: usize, b: usize) -> (r: usize)
    requires
        a + b <= usize::MAX,
    ensures
        r == a + b,
{
    a + b
}

} // verus!
