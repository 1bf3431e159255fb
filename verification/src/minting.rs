//! Block-reward issuance schedules.

use vstd::prelude::*;

verus! {

/// A source for the issuance portion of a block's reward: how much new
/// value the chain mints at a given block height.
pub trait Issuance<BlockNumber, Balance> {
    /// The amount the schedule fixes for `block`.
    spec fn issuance_spec(block: BlockNumber) -> Balance;

    /// The amount issued at `block`.
    fn issuance(block: BlockNumber) -> (r: Balance)
        ensures
            r == Self::issuance_spec(block),
    ;
}

/// No issuance at all.
impl Issuance<u32, u128> for () {
    open spec fn issuance_spec(_block: u32) -> u128 {
        0
    }

    fn issuance(_block: u32) -> u128 {
        0
    }
}

/// No issuance at all, for 64-bit block numbers.
impl Issuance<u64, u128> for () {
    open spec fn issuance_spec(_block: u64) -> u128 {
        0
    }

    fn issuance(_block: u64) -> u128 {
        0
    }
}

/// Issuance cut in half at a fixed block interval, starting from a fixed
/// per-block amount.
pub struct BitcoinHalving;

/// Number of blocks between halvings.
pub const HALVING_INTERVAL: u32 = 210_000;

/// Per-block issuance before any halving.
pub const INITIAL_ISSUANCE: u32 = 50;

impl Issuance<u32, u128> for BitcoinHalving {
    /// After `block / HALVING_INTERVAL` halvings the initial amount is
    /// shifted right once per halving; it reaches zero for good after the
    /// sixth halving.
    open spec fn issuance_spec(block: u32) -> u128 {
        let halvings = block / HALVING_INTERVAL;
        if halvings < 32 {
            (INITIAL_ISSUANCE >> halvings) as u128
        } else {
            0
        }
    }

    fn issuance(block: u32) -> (r: u128) {
        let halvings = block / HALVING_INTERVAL;
        if halvings >= 32 {
            // the amount is zero from the sixth halving on; past the
            // shift width it stays zero
            return 0;
        }
        (INITIAL_ISSUANCE >> halvings) as u128
    }
}

} // verus!
