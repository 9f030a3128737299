//! The sequential quadratic programming member of the portfolio.
use vstd::prelude::*;

verus! {

/// Whether this algorithm is available to the portfolio: it always is.
pub fn is_available() -> (r: bool)
    ensures
        r,
{
    true
}

} // verus!
