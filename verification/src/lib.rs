//! Miss-ratio curves for variable-sized object caches, generated from
//! request traces in one pass.
//!
//! The crate holds the two MRC engines and what they share: the Kosmo
//! single-pass generator (per-policy reuse-distance histograms fed by
//! compact per-object eviction maps and stack reconstruction), the
//! MiniSim fan-out of one hundred concrete caches, the LRU, FIFO, LFU
//! and 2Q cache policies, SHARDS spatial sampling with its
//! corrections, and histogram-to-curve conversion.  Event counters and
//! miss ratios are kept in exact fixed-point arithmetic, so every
//! computation here is specified and machine-checked.  The LRFU
//! policy's recency-frequency values are floating point, so the two
//! engines here do not run it; only an exact LRFU simulation outside
//! this crate can.

pub mod access;
pub mod cache;
pub mod frac;
pub mod shards;
pub mod histogram;
pub mod curve;
pub mod algorithm;
pub mod kosmo;
pub mod minisimulations;
pub mod accurate;
pub mod wss;

use vstd::prelude::*;

verus! {

/// Sampling thresholds and rates are expressed relative to this
/// modulus: a rate of one corresponds to `SHARDS_MODULUS`.
pub const SHARDS_MODULUS: u64 = 16777216;

/// Reuse distances are rounded up to a multiple of this bucket width.
pub const BUCKET_SIZE: u64 = 65536;

/// Fractional event counters are kept in fixed point with this unit,
/// so that rescaling by a ratio of sampling thresholds stays exact.
pub const COUNT_UNIT: u128 = 16777216;

/// Upper bound on a fixed-point event counter; arithmetic on counters
/// saturates here so that products with a threshold never overflow.
pub const COUNT_CAP: u128 = 0x10000000000000000000000;

/// Miss ratios are kept in fixed point with this unit standing for one.
pub const RATIO_ONE: u64 = 4294967296;

} // verus!
