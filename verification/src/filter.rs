//! The filter line search's verdict on a trial point.
use vstd::prelude::*;

verus! {

/// Why a trial point was accepted, which determines whether the filter
/// grows.
#[derive(Debug, Clone, Copy, PartialEq, Eq)]
pub enum Acceptance {
    /// The switching condition held and Armijo was satisfied: a genuine
    /// objective-reduction step. The filter is not augmented.
    ArmijoDescent,
    /// Sufficient reduction in the constraint violation or in the barrier
    /// objective. The filter is augmented.
    SufficientDecrease,
    /// Rejected.
    Rejected,
}

} // verus!
