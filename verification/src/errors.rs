//! The error kinds the tree service distinguishes.

use vstd::prelude::*;

verus! {

/// Why an operation failed.
///
/// `InvalidInput` covers malformed requests and never changes state.
/// `StoreUnavailable` and `TransactionConflict` come from the backing
/// store; the caller decides whether to retry a conflict.
/// `ProofGenerationFailure` marks a per-key proof that could not be built.
/// `WipePostconditionViolated` reports a wipe that left a non-zero root.
/// `Internal` marks an invariant violation inside the engine.
#[derive(Clone, Copy, Debug, PartialEq, Eq, Structural)]
pub enum SmtError {
    InvalidInput,
    StoreUnavailable,
    TransactionConflict,
    ProofGenerationFailure,
    WipePostconditionViolated,
    Internal,
}

} // verus!
