//! Verifier side of a Lasso-style lookup argument: the memory-checking
//! subprotocol of a GKR proof system.
//!
//! The crate is organised bottom-up:
//! - [`field`]: the prime field all committed values and challenges live in;
//! - [`util`]: small arithmetic helpers (ceiling division, Horner evaluation,
//!   inner products, task chunking);
//! - [`terms`]: symbolic multilinear polynomial expressions and their
//!   evaluator;
//! - [`range`]: the decomposable range-table algebra (full-limb and remainder
//!   subtables);
//! - [`transcript`]: the Fiat-Shamir transcript interface consumed by the
//!   verifier, with a concrete list-backed implementation;
//! - [`sumcheck`]: the round-by-round sum-check verifier;
//! - [`memory_checking`]: grand-product verification and per-chunk
//!   fingerprint reconciliation.

use vstd::prelude::*;

pub mod field;
pub mod memory_checking;
pub mod range;
pub mod sumcheck;
pub mod terms;
pub mod transcript;
pub mod util;

verus! {

/// Every failure the verifier can surface to its caller.
#[derive(Clone, Copy, Debug, PartialEq, Eq, Structural)]
pub enum Error {
    /// The transcript cannot produce a requested element.
    TranscriptExhausted,
    /// A layer's left/right product disagrees with the claimed value, or the
    /// embedded sum-check fails.
    InvalidSumCheck,
    /// One of the per-memory fingerprint equality checks fails.
    FingerprintMismatch,
    /// A structural precondition is violated (empty chunk list, empty batch).
    Malformed,
}

} // verus!
