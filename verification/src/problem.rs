//! The problem model: dimensions, capabilities and evaluation counters.
use std::sync::atomic::AtomicU64;
use vstd::prelude::*;

verus! {

/// Problem dimensions.
#[derive(Debug, Clone, Copy, PartialEq, Eq)]
pub struct NlpDims {
    /// Number of variables.
    pub n: usize,
    /// Number of general constraints (rows of `c`).
    pub m: usize,
}

/// What derivative information a model can supply itself.
#[derive(Debug, Clone, Copy, PartialEq, Eq, Default)]
pub struct Capabilities {
    /// `gradient` is implemented.
    pub gradient: bool,
    /// `jacobian` is implemented.
    pub jacobian: bool,
    /// `hessian_lagrangian` is implemented.
    pub hessian: bool,
    /// `hessian_vector` is implemented (matrix-free Hessian products).
    pub hessian_vector: bool,
    /// Evaluations are cheap and thread-safe enough to call in parallel.
    pub parallel_safe: bool,
}

impl Capabilities {
    /// Model provides no derivatives at all; everything is approximated.
    pub fn none() -> (r: Self)
        ensures
            !r.gradient && !r.jacobian && !r.hessian && !r.hessian_vector && !r.parallel_safe,
    {
        Capabilities {
            gradient: false,
            jacobian: false,
            hessian: false,
            hessian_vector: false,
            parallel_safe: false,
        }
    }

    /// Model provides first derivatives only.
    pub fn first_order() -> (r: Self)
        ensures
            r.gradient && r.jacobian && !r.hessian && !r.hessian_vector && !r.parallel_safe,
    {
        Capabilities {
            gradient: true,
            jacobian: true,
            hessian: false,
            hessian_vector: false,
            parallel_safe: false,
        }
    }

    /// Model provides exact first and second derivatives.
    pub fn second_order() -> (r: Self)
        ensures
            r.gradient && r.jacobian && r.hessian && r.hessian_vector && !r.parallel_safe,
    {
        Capabilities {
            gradient: true,
            jacobian: true,
            hessian: true,
            hessian_vector: true,
            parallel_safe: false,
        }
    }
}

/// Atomic evaluation counters, owned by the driver and shared with the
/// derivative layer.
#[derive(Debug, Default)]
pub struct EvalCounters {
    /// Objective evaluations.
    pub f: AtomicU64,
    /// Gradient evaluations.
    pub g: AtomicU64,
    /// Constraint evaluations.
    pub c: AtomicU64,
    /// Jacobian evaluations.
    pub j: AtomicU64,
    /// Hessian-of-Lagrangian evaluations.
    pub h: AtomicU64,
    /// Evaluations that failed.
    pub failed: AtomicU64,
}

impl EvalCounters {
    /// Increment a counter, wrapping on overflow. The counter is shared
    /// between threads, so nothing is stated of the value it holds after.
    pub fn bump(counter: &AtomicU64) {
        counter.fetch_add(1, std::sync::atomic::Ordering::Relaxed);
    }

    /// Read a counter. It is shared between threads, so the value read
    /// depends on them and nothing more is stated of it.
    pub fn get(counter: &AtomicU64) -> u64 {
        counter.load(std::sync::atomic::Ordering::Relaxed)
    }
}

} // verus!
