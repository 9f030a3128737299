//! Error types.
//!
//! The distinction that matters: [`EvalError`] is *recoverable*: it means
//! "the model could not be evaluated at this point", and every globalization
//! loop must respond by shortening the step, never by aborting.
//! [`SolveError`] is a genuine failure of the solver or of the problem setup.
use vstd::prelude::*;

use crate::text::{decimal, push_decimal, push_text, text};

verus! {

/// A failure to evaluate the model at a point. Always recoverable by
/// retreating, except a stop the user asked for.
#[derive(Debug, Clone)]
pub enum EvalError {
    /// The model returned a non-finite value, with the index of the first
    /// offending entry when known.
    NonFinite(Option<usize>),
    /// The point is outside the model's domain.
    OutOfDomain(String),
    /// The model itself failed for a reason of its own.
    Failed(String),
    /// The user requested that the solve stop. This is not retried.
    UserAbort,
}

/// The text describing an evaluation failure.
pub open spec fn eval_error_text(e: EvalError) -> Seq<char> {
    match e {
        EvalError::NonFinite(None) => "model returned a non-finite value"@,
        EvalError::NonFinite(Some(i)) => "model returned a non-finite value at index "@ + decimal(i as nat),
        EvalError::OutOfDomain(m) => "point is outside the model domain: "@ + m@,
        EvalError::Failed(m) => "model evaluation failed: "@ + m@,
        EvalError::UserAbort => "stopped by user callback"@,
    }
}

impl EvalError {
    /// Whether the globalization loop should retreat and retry, as opposed
    /// to unwinding to the driver: every failure but a user's stop.
    pub fn is_retryable(&self) -> (r: bool)
        ensures
            r == !(*self is UserAbort),
    {
        !matches!(self, EvalError::UserAbort)
    }

    /// The human-readable description of the failure.
    pub fn message(&self) -> (r: String)
        ensures
            r@ == eval_error_text(*self),
    {
        match self {
            EvalError::NonFinite(None) => text("model returned a non-finite value"),
            EvalError::NonFinite(Some(i)) => {
                let mut r = text("model returned a non-finite value at index ");
                push_decimal(&mut r, *i);
                r
            },
            EvalError::OutOfDomain(m) => {
                let mut r = text("point is outside the model domain: ");
                push_text(&mut r, m.as_str());
                r
            },
            EvalError::Failed(m) => {
                let mut r = text("model evaluation failed: ");
                push_text(&mut r, m.as_str());
                r
            },
            EvalError::UserAbort => text("stopped by user callback"),
        }
    }
}

/// A failure of the solve as a whole.
#[derive(Debug, Clone)]
pub enum SolveError {
    /// The problem definition is inconsistent.
    InvalidProblem(String),
    /// The options are inconsistent.
    InvalidOptions(String),
    /// The linear solver failed in a way regularization could not repair.
    LinearAlgebra(String),
    /// An unrecoverable model evaluation failure at the starting point.
    InitialPoint(EvalError),
    /// Internal invariant violated; always a bug, never caused by input.
    Internal(String),
}

/// The text describing a failed solve.
pub open spec fn solve_error_text(e: SolveError) -> Seq<char> {
    match e {
        SolveError::InvalidProblem(m) => "invalid problem: "@ + m@,
        SolveError::InvalidOptions(m) => "invalid options: "@ + m@,
        SolveError::LinearAlgebra(m) => "linear algebra failure: "@ + m@,
        SolveError::InitialPoint(inner) => "model could not be evaluated at the initial point: "@ + eval_error_text(
            inner,
        ),
        SolveError::Internal(m) => "internal error: "@ + m@,
    }
}

impl SolveError {
    /// The human-readable description of the failure.
    pub fn message(&self) -> (r: String)
        ensures
            r@ == solve_error_text(*self),
    {
        let (mut r, detail) = match self {
            SolveError::InvalidProblem(m) => (text("invalid problem: "), m.clone()),
            SolveError::InvalidOptions(m) => (text("invalid options: "), m.clone()),
            SolveError::LinearAlgebra(m) => (text("linear algebra failure: "), m.clone()),
            SolveError::InitialPoint(inner) => (
                text("model could not be evaluated at the initial point: "),
                inner.message(),
            ),
            SolveError::Internal(m) => (text("internal error: "), m.clone()),
        };
        push_text(&mut r, detail.as_str());
        r
    }
}

} // verus!
