//! Error taxonomy of the engine.
//!
//! Recoverable, caller-visible failures; internal consistency violations are
//! excluded by the verified contracts instead of being represented here.

use vstd::prelude::*;

verus! {

/// A recoverable failure surfaced to the caller.
#[derive(Clone, Copy, PartialEq, Eq, Structural, Debug)]
pub enum EngineError {
    /// An invested asset has no price in the supplied price map.
    PriceNotFound,
    /// The quote handed to `add_balance` is for a different instrument than
    /// the balance's asset paired with the wallet's estimation asset.
    BidAskInstrumentMismatch,
    /// No stored balance matches the given key.
    BalanceNotFound,
    /// No position with the given id is in the cache.
    PositionNotFound,
    /// A top-up can only be added to an active position, not a closed one.
    TopUpOnClosedPosition,
    /// A top-up can only be added to an active position, not a pending one.
    TopUpOnPendingPosition,
}

} // verus!
