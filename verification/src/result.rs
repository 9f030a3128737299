//! Why a solve stopped, and where its time went.
use vstd::prelude::*;

verus! {

/// Why the solve stopped.
///
/// The numeric codes, [`ExitFlag::code`], match `fmincon`'s exit flags where
/// the meanings coincide; new states use values `fmincon` does not.
#[derive(Debug, Clone, Copy, PartialEq, Eq)]
pub enum ExitFlag {
    /// First-order optimality and feasibility both satisfied. `fmincon` 1.
    Optimal,
    /// Step size fell below tolerance while feasible. `fmincon` 2.
    StepTolerance,
    /// Objective change fell below tolerance while feasible. `fmincon` 3.
    FunctionTolerance,
    /// Stopped at a point meeting the relaxed "acceptable" tolerances; no
    /// `fmincon` equivalent, and reported separately rather than as success.
    Acceptable,
    /// Iteration or evaluation budget exhausted. `fmincon` 0.
    MaxReached,
    /// Stopped by a user callback. `fmincon` -1.
    StoppedByUser,
    /// No feasible point found. `fmincon` -2.
    Infeasible,
    /// Objective appears unbounded below. `fmincon` -3.
    Unbounded,
    /// Restoration reached stationary positive constraint violation: a local
    /// diagnostic, not a proof of infeasibility.
    LocallyInfeasible,
    /// The solver failed for a numerical reason and said so.
    NumericalFailure,
}

/// The integer code of each exit.
pub open spec fn exit_code(f: ExitFlag) -> int {
    match f {
        ExitFlag::Optimal => 1,
        ExitFlag::StepTolerance => 2,
        ExitFlag::FunctionTolerance => 3,
        ExitFlag::Acceptable => 6,
        ExitFlag::MaxReached => 0,
        ExitFlag::StoppedByUser => -1,
        ExitFlag::Infeasible => -2,
        ExitFlag::Unbounded => -3,
        ExitFlag::LocallyInfeasible => -4,
        ExitFlag::NumericalFailure => -5,
    }
}

/// The exits that return a usable point: the optimal one and the three that
/// stopped near a minimum.
pub open spec fn usable(f: ExitFlag) -> bool {
    ||| f is Optimal
    ||| f is StepTolerance
    ||| f is FunctionTolerance
    ||| f is Acceptable
}

/// The short message of each exit.
pub open spec fn exit_message(f: ExitFlag) -> Seq<char> {
    match f {
        ExitFlag::Optimal => "First-order optimality and constraint tolerances satisfied."@,
        ExitFlag::StepTolerance => "Local minimum possible. Step size below tolerance; constraints satisfied."@,
        ExitFlag::FunctionTolerance => "Local minimum possible. Objective change below tolerance; constraints satisfied."@,
        ExitFlag::Acceptable => "Solved to acceptable tolerances, but not to the requested optimality tolerance."@,
        ExitFlag::MaxReached => "Iteration or evaluation limit reached."@,
        ExitFlag::StoppedByUser => "Stopped by user callback."@,
        ExitFlag::Infeasible => "No feasible point found."@,
        ExitFlag::Unbounded => "Objective appears unbounded below."@,
        ExitFlag::LocallyInfeasible => "Restoration reached stationary positive constraint violation; feasibility is unresolved beyond this local diagnostic."@,
        ExitFlag::NumericalFailure => "Numerical difficulties; solve abandoned."@,
    }
}

impl ExitFlag {
    /// The integer code, matching `fmincon` where the meanings coincide.
    pub fn code(self) -> (r: i32)
        ensures
            r == exit_code(self),
    {
        match self {
            ExitFlag::Optimal => 1,
            ExitFlag::StepTolerance => 2,
            ExitFlag::FunctionTolerance => 3,
            ExitFlag::Acceptable => 6,
            ExitFlag::MaxReached => 0,
            ExitFlag::StoppedByUser => -1,
            ExitFlag::Infeasible => -2,
            ExitFlag::Unbounded => -3,
            ExitFlag::LocallyInfeasible => -4,
            ExitFlag::NumericalFailure => -5,
        }
    }

    /// Whether this outcome counts as a success for benchmarking. Strict:
    /// only [`ExitFlag::Optimal`]; [`ExitFlag::Acceptable`] does not count.
    pub fn is_success(self) -> (r: bool)
        ensures
            r == (self is Optimal),
    {
        matches!(self, ExitFlag::Optimal)
    }

    /// Whether a usable point was returned, even if not certified optimal.
    pub fn returned_usable_point(self) -> (r: bool)
        ensures
            r == usable(self),
    {
        matches!(
            self,
            ExitFlag::Optimal | ExitFlag::StepTolerance | ExitFlag::FunctionTolerance | ExitFlag::Acceptable
        )
    }

    /// A short human-readable message.
    pub fn message(self) -> (r: &'static str)
        ensures
            r@ == exit_message(self),
    {
        match self {
            ExitFlag::Optimal => "First-order optimality and constraint tolerances satisfied.",
            ExitFlag::StepTolerance => "Local minimum possible. Step size below tolerance; constraints satisfied.",
            ExitFlag::FunctionTolerance => "Local minimum possible. Objective change below tolerance; constraints satisfied.",
            ExitFlag::Acceptable => "Solved to acceptable tolerances, but not to the requested optimality tolerance.",
            ExitFlag::MaxReached => "Iteration or evaluation limit reached.",
            ExitFlag::StoppedByUser => "Stopped by user callback.",
            ExitFlag::Infeasible => "No feasible point found.",
            ExitFlag::Unbounded => "Objective appears unbounded below.",
            ExitFlag::LocallyInfeasible => "Restoration reached stationary positive constraint violation; feasibility is unresolved beyond this local diagnostic.",
            ExitFlag::NumericalFailure => "Numerical difficulties; solve abandoned.",
        }
    }
}

/// Every strict success returns a usable point.
pub proof fn lemma_success_is_usable(f: ExitFlag)
    ensures
        f is Optimal ==> usable(f),
{
}

/// Distinct exits have distinct codes.
pub proof fn lemma_codes_distinct(a: ExitFlag, b: ExitFlag)
    ensures
        exit_code(a) == exit_code(b) ==> a == b,
{
}

/// Which limit ended a solve that stopped with [`ExitFlag::MaxReached`].
#[derive(Debug, Clone, Copy, PartialEq, Eq)]
pub enum Limit {
    /// The iteration cap.
    Iterations,
    /// The evaluation budget.
    Evaluations,
    /// The wall-clock limit.
    Time,
}

/// The lowercase name of each limit.
pub open spec fn limit_name(l: Limit) -> Seq<char> {
    match l {
        Limit::Iterations => "iterations"@,
        Limit::Evaluations => "evaluations"@,
        Limit::Time => "time"@,
    }
}

impl Limit {
    /// The lowercase name used in reports.
    pub fn name(self) -> (r: &'static str)
        ensures
            r@ == limit_name(self),
    {
        match self {
            Limit::Iterations => "iterations",
            Limit::Evaluations => "evaluations",
            Limit::Time => "time",
        }
    }

    /// Which of the three limits bound, given whether each fired. The
    /// evaluation budget is named first, the clock second and the iteration
    /// cap last; none fired, none bound.
    pub fn which(evaluations: bool, time: bool, iterations: bool) -> (r: Option<Self>)
        ensures
            r == (if evaluations {
                Some(Limit::Evaluations)
            } else if time {
                Some(Limit::Time)
            } else if iterations {
                Some(Limit::Iterations)
            } else {
                None
            }),
    {
        if evaluations {
            Some(Limit::Evaluations)
        } else if time {
            Some(Limit::Time)
        } else if iterations {
            Some(Limit::Iterations)
        } else {
            None
        }
    }
}

/// Where the time of a solve went.
#[derive(Debug, Clone, Copy, Default)]
pub struct Timings {
    /// Total wall clock.
    pub total: std::time::Duration,
    /// Inside user model evaluations.
    pub model: std::time::Duration,
    /// Inside symbolic and numeric factorization.
    pub factorization: std::time::Duration,
    /// Inside triangular solves and iterative refinement.
    pub solves: std::time::Duration,
    /// Inside derivative approximation.
    pub derivatives: std::time::Duration,
}

/// The exit codes follow `fmincon`'s signs: a positive code exactly when a
/// usable point is returned, zero exactly when a budget ran out, and a
/// negative code for every failure; where `fmincon` has the same exit, the
/// code is `fmincon`'s.
pub proof fn lemma_exit_code_signs(f: ExitFlag)
    ensures
        exit_code(f) > 0 <==> usable(f),
        exit_code(f) == 0 <==> f is MaxReached,
        exit_code(f) < 0 <==> !usable(f) && !(f is MaxReached),
        f is Optimal ==> exit_code(f) == 1,
        f is StepTolerance ==> exit_code(f) == 2,
        f is FunctionTolerance ==> exit_code(f) == 3,
        f is StoppedByUser ==> exit_code(f) == -1,
        f is Infeasible ==> exit_code(f) == -2,
        f is Unbounded ==> exit_code(f) == -3,
{
}

} // verus!
