//! The dense active-set quadratic programming solver's vocabulary: the
//! constraints a working set refers to and the ways a solve can fail.
use vstd::prelude::*;

use crate::text::{decimal, push_decimal, push_text, text};

verus! {

/// Which constraint a working-set entry refers to.
#[derive(Debug, Clone, Copy, PartialEq, Eq)]
pub enum Constraint {
    /// Row `i` at its lower bound.
    RowLower(usize),
    /// Row `i` at its upper bound.
    RowUpper(usize),
    /// Equality row `i`.
    RowEquality(usize),
    /// Variable `j` at its lower bound.
    BoundLower(usize),
    /// Variable `j` at its upper bound.
    BoundUpper(usize),
}

/// The debug rendering of a constraint: its variant and index.
pub open spec fn constraint_text(c: Constraint) -> Seq<char> {
    match c {
        Constraint::RowLower(i) => "RowLower("@ + decimal(i as nat) + ")"@,
        Constraint::RowUpper(i) => "RowUpper("@ + decimal(i as nat) + ")"@,
        Constraint::RowEquality(i) => "RowEquality("@ + decimal(i as nat) + ")"@,
        Constraint::BoundLower(j) => "BoundLower("@ + decimal(j as nat) + ")"@,
        Constraint::BoundUpper(j) => "BoundUpper("@ + decimal(j as nat) + ")"@,
    }
}

/// Why a QP solve did not return an optimal point.
#[derive(Debug, Clone, PartialEq)]
pub enum QpError {
    /// The Hessian is not numerically positive definite; the message names
    /// the pivot.
    NotPositiveDefinite(String),
    /// The constraints are inconsistent; carries the certificate constraint.
    Infeasible(Constraint),
    /// The iteration cap was hit.
    IterationLimit(usize),
    /// Inconsistent dimensions or non-finite data.
    InvalidData(String),
}

/// The text describing a failed QP solve.
pub open spec fn qp_error_text(e: QpError) -> Seq<char> {
    match e {
        QpError::NotPositiveDefinite(m) => "QP Hessian not positive definite: "@ + m@,
        QpError::Infeasible(c) => "QP constraints inconsistent (certificate "@ + constraint_text(c) + ")"@,
        QpError::IterationLimit(k) => "QP active-set iteration limit "@ + decimal(k as nat) + " reached"@,
        QpError::InvalidData(m) => "invalid QP data: "@ + m@,
    }
}

impl Constraint {
    /// The debug rendering: the variant's name and its index in brackets.
    pub fn describe(self) -> (r: String)
        ensures
            r@ == constraint_text(self),
    {
        let (mut r, i) = match self {
            Constraint::RowLower(i) => (text("RowLower("), i),
            Constraint::RowUpper(i) => (text("RowUpper("), i),
            Constraint::RowEquality(i) => (text("RowEquality("), i),
            Constraint::BoundLower(j) => (text("BoundLower("), j),
            Constraint::BoundUpper(j) => (text("BoundUpper("), j),
        };
        push_decimal(&mut r, i);
        push_text(&mut r, ")");
        r
    }
}

impl QpError {
    /// The human-readable description of the failure.
    pub fn message(&self) -> (r: String)
        ensures
            r@ == qp_error_text(*self),
    {
        match self {
            QpError::NotPositiveDefinite(m) => {
                let mut r = text("QP Hessian not positive definite: ");
                push_text(&mut r, m.as_str());
                r
            },
            QpError::Infeasible(c) => {
                let mut r = text("QP constraints inconsistent (certificate ");
                let d = c.describe();
                push_text(&mut r, d.as_str());
                push_text(&mut r, ")");
                r
            },
            QpError::IterationLimit(k) => {
                let mut r = text("QP active-set iteration limit ");
                push_decimal(&mut r, *k);
                push_text(&mut r, " reached");
                r
            },
            QpError::InvalidData(m) => {
                let mut r = text("invalid QP data: ");
                push_text(&mut r, m.as_str());
                r
            },
        }
    }
}

/// Whether this solver is available: it always is.
pub fn is_available() -> (r: bool)
    ensures
        r,
{
    true
}

} // verus!
