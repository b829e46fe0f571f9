//! A tamper-evident score commitment library.
//!
//! A score ledger keeps per-subject time series of scores and commits the
//! whole ledger into a Merkle root after every write, handing out a compact
//! inclusion proof for each record. A scholarship service pins one published
//! root per period and decides, from a proof alone, whether a subject's
//! score at that period earns a reward.

pub mod merkle;
pub mod scholarship;
pub mod score;
