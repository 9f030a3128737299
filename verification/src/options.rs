//! Solver option kinds and their defaults.
use vstd::math::min;
use vstd::prelude::*;

verus! {

/// Which algorithm to run.
#[derive(Debug, Clone, Copy, PartialEq, Eq, Default)]
pub enum Algorithm {
    /// The portfolio: members run in sequence with shared budgets and early exit at the first usable answer.
    #[default]
    Auto,
    /// Primal-dual interior point with a filter line search.
    InteriorPoint,
    /// Sequential quadratic programming with an l1 merit function.
    Sqp,
}

/// How the barrier parameter is driven.
#[derive(Debug, Clone, Copy, PartialEq, Eq, Default)]
pub enum BarrierUpdate {
    /// Fiacco-McCormick: solve each barrier subproblem, then shrink the barrier.
    Monotone,
    /// A probing oracle chooses the barrier per iteration.
    Adaptive,
    /// Start adaptive, fall back to monotone after repeated rejected steps.
    #[default]
    AdaptiveThenMonotone,
}

/// Problem scaling strategy.
#[derive(Debug, Clone, Copy, PartialEq, Eq, Default)]
pub enum ScalingMode {
    /// No scaling.
    Off,
    /// Scale objective and rows by their gradients at the start.
    #[default]
    GradientBased,
}

/// How second derivatives are obtained.
#[derive(Debug, Clone, Copy, PartialEq, Eq, Default)]
pub enum HessianMode {
    /// Exact Hessian of the Lagrangian from the model.
    Exact,
    /// Dense BFGS.
    DenseBfgs,
    /// Exact if the model provides it, else dense BFGS.
    #[default]
    Auto,
}

/// Finite-difference flavour.
#[derive(Debug, Clone, Copy, PartialEq, Eq, Default)]
pub enum FdType {
    /// One extra evaluation per column.
    Forward,
    /// Two extra evaluations per column.
    Central,
    /// Forward until progress stalls, then central.
    #[default]
    Adaptive,
}

/// Whether the variables are scaled by their starting magnitudes.
#[derive(Debug, Clone, Copy, PartialEq, Eq, Default)]
pub enum VariableScaling {
    /// Never.
    Off,
    /// Only when the scale factors span a factor of 1e4 or more.
    #[default]
    Auto,
    /// Always, when any factor differs from 1.
    On,
}

/// How user-supplied derivatives are checked before a solve.
#[derive(Debug, Clone, Copy, PartialEq, Eq, Default)]
pub enum DerivativeCheck {
    /// No check.
    Off,
    /// Two extra model evaluations along one bounds-respecting direction at the start.
    #[default]
    Directional,
    /// Every entry at several points; a failed or inconclusive check stops the solve.
    Full,
}

/// What the factorization does with a pivot whose sign differs from the block it belongs to.
#[derive(Debug, Clone, Copy, PartialEq, Eq, Default)]
pub enum PivotSigns {
    /// `Free` with the model's exact Hessian, `Expected` with a quasi-Newton one.
    #[default]
    Auto,
    /// A pivot of the wrong sign is perturbed to the expected sign.
    Expected,
    /// Pivots keep their sign and the inertia is counted; only numerically zero pivots are perturbed.
    Free,
}

/// How the quadratic-program probe builds the objective's constant Hessian from function values.
#[derive(Debug, Clone, Copy, PartialEq, Eq, Default)]
pub enum QuadraticBuild {
    /// The diagonal first, then one off-diagonal band at a time, stopping at the first structure that reproduces the probe.
    #[default]
    Structured,
    /// Every pair at once.
    Dense,
}

/// Whether the quadratic-program probe also accepts quadratic constraint rows.
#[derive(Debug, Clone, Copy, PartialEq, Eq, Default)]
pub enum QuadraticRows {
    /// Only linear rows.
    Off,
    /// Quadratic rows are accepted when the model supplies exact Jacobians.
    Jacobian,
    /// As `Jacobian`, and without a Jacobian from constraint values.
    #[default]
    Values,
}

/// When the SQP member adopts its QP's multipliers and re-runs the termination test before trying the step.
#[derive(Debug, Clone, Copy, PartialEq, Eq, Default)]
pub enum ZeroStep {
    /// When the step's norm is within the step tolerance.
    Norm,
    /// As `Norm`, and once at a feasible point when the predicted decrease is below the merit function's rounding noise.
    #[default]
    Decrease,
}

/// The SQP member's first trial step along a direction of negative curvature.
#[derive(Debug, Clone, Copy, PartialEq, Eq, Default)]
pub enum SaddleStep {
    /// The largest magnitude of the point, at least one, halved until the merit function decreases.
    Scale,
    /// As `Scale`, capped by a ratio test on the linearized inactive rows.
    #[default]
    Linearized,
}

/// How the KKT matrix is regularized and its inertia established.
#[derive(Debug, Clone, Copy, PartialEq, Eq, Default)]
pub enum RegularizationMode {
    /// Require inertia `(n, m, 0)`, raising the primal regularization until it holds.
    Inertia,
    /// Reserved for a curvature-based loop; currently uses the certified-inertia path.
    InertiaFree,
    /// Currently requires certified inertia, like `Inertia`.
    #[default]
    Hybrid,
}

/// The iteration cap a solve runs under: the caller's `max_iterations` when
/// set, else `400 + 10 n` capped at `10_000` for a problem of `n` variables.
pub open spec fn iteration_cap(max_iterations: Option<usize>, n: nat) -> nat {
    match max_iterations {
        Some(k) => k as nat,
        None => if 400 + 10 * n <= 10_000 { (400 + 10 * n) as nat } else { 10_000 },
    }
}

/// Resolve `max_iterations` for a problem of size `n` when the caller left
/// the default in place.
pub fn effective_max_iterations(max_iterations: Option<usize>, n: usize) -> (r: usize)
    ensures
        r == iteration_cap(max_iterations, n as nat),
        max_iterations matches Some(k) ==> r == k,
        max_iterations is None ==> r == min(400 + 10 * n, 10_000),
{
    match max_iterations {
        Some(k) => k,
        None => {
            if n <= 960 {
                400 + 10 * n
            } else {
                10_000
            }
        },
    }
}

/// The iteration cap is the caller's when given; otherwise it is
/// `400 + 10 n` capped at `10_000`: it grows by ten iterations per variable
/// until the ceiling, never passes the ceiling and never falls below 400.
pub proof fn lemma_iteration_cap_rule(max_iterations: Option<usize>, n: nat, n2: nat)
    ensures
        max_iterations matches Some(k) ==> iteration_cap(max_iterations, n) == k,
        iteration_cap(None, n) == min((400 + 10 * n) as int, 10_000),
        400 <= iteration_cap(None, n) <= 10_000,
        n <= n2 ==> iteration_cap(None, n) <= iteration_cap(None, n2),
        400 + 10 * n2 <= 10_000 ==> iteration_cap(None, n2) == 400 + 10 * n2,
{
}

} // verus!
