//! The outcome of probing a model for its Jacobian sparsity.
use vstd::prelude::*;

use crate::sparsity::Sparsity;

verus! {

/// Outcome of a detection attempt. Dense is always a correct answer, merely
/// a slow one, so a caller never has to decide what a failure means.
#[derive(Debug, Clone)]
pub enum Detected {
    /// A pattern was found, with the number of evaluations it cost.
    Pattern {
        /// The detected structure.
        pattern: Sparsity,
        /// Model evaluations consumed.
        evaluations: u64,
    },
    /// Detection was skipped; treat the Jacobian as dense.
    Dense {
        /// Why it was skipped.
        reason: String,
    },
}

} // verus!
