//! An in-memory leveraged-trading position engine.
//!
//! Quotes stream in as bid/ask pairs per instrument; the engine keeps every
//! open position's lifecycle (pending, active, closed), tracks unrealized
//! profit and loss, enforces per-position risk limits, aggregates wallet-level
//! exposure, and emits monitoring events for downstream consumers.
//!
//! All monetary quantities (prices, amounts, percents, leverage) are
//! fixed-point integers scaled by [`numeric::SCALE`]: a value of `SCALE`
//! stands for 1.0.

pub mod assets;
pub mod caches;
pub mod calculations;
pub mod collections;
pub mod errors;
pub mod monitoring;
pub mod numeric;
pub mod orders;
pub mod positions;
pub mod sharding;
pub mod wallets;
pub mod symbols;

use vstd::prelude::*;

verus! {

} // verus!
