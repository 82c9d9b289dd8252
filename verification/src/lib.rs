//! Sequence-fenced append-only per-account storage for encrypted blobs,
//! with fee-gated account admission and owner-gated administration,
//! together with a simpler keyed password store built on the same ideas.
//!
//! Every call is one atomic step: it either completes and leaves the state
//! as its contract says, or it returns an error and leaves the state
//! untouched. Callers that race each other recover through the
//! `expected_index` fencing token; no locking is needed.
use vstd::prelude::*;

pub mod encoding;
pub mod password_manager;
pub mod vault;

verus! {

/// An opaque, fixed-width caller token, handed to every call by the
/// execution environment. The library never makes one up or validates one.
pub type AccountId = u64;

/// An unsigned currency magnitude, attached to payable calls by the
/// execution environment and held as the contract balance.
pub type Balance = u128;

} // verus!
