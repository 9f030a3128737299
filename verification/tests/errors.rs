use mincon::qp::{self, Constraint, QpError};
use mincon::{sqp, EvalError, SolveError};

#[test]
fn tests_reports_itself_available() {
    assert!(qp::is_available());
}

#[test]
fn lib_reports_itself_available() {
    assert!(sqp::is_available());
}

#[test]
fn only_a_user_stop_is_not_retried() {
    assert!(EvalError::NonFinite(None).is_retryable());
    assert!(EvalError::NonFinite(Some(3)).is_retryable());
    assert!(EvalError::OutOfDomain("sqrt of -1".to_string()).is_retryable());
    assert!(EvalError::Failed("diverged".to_string()).is_retryable());
    assert!(!EvalError::UserAbort.is_retryable());
}

#[test]
fn evaluation_failures_describe_themselves() {
    assert_eq!(EvalError::NonFinite(None).message(), "model returned a non-finite value");
    assert_eq!(
        EvalError::NonFinite(Some(7)).message(),
        "model returned a non-finite value at index 7"
    );
    assert_eq!(
        EvalError::OutOfDomain("x < 0".to_string()).message(),
        "point is outside the model domain: x < 0"
    );
    assert_eq!(EvalError::Failed("no".to_string()).message(), "model evaluation failed: no");
    assert_eq!(EvalError::UserAbort.message(), "stopped by user callback");
}

#[test]
fn solve_failures_describe_themselves() {
    assert_eq!(
        SolveError::InvalidProblem("lb > ub".to_string()).message(),
        "invalid problem: lb > ub"
    );
    assert_eq!(
        SolveError::InitialPoint(EvalError::NonFinite(Some(0))).message(),
        "model could not be evaluated at the initial point: model returned a non-finite value at index 0"
    );
    assert_eq!(SolveError::Internal("bug".to_string()).message(), "internal error: bug");
    assert_eq!(
        SolveError::LinearAlgebra("singular".to_string()).message(),
        "linear algebra failure: singular"
    );
    assert_eq!(
        SolveError::InvalidOptions("tol".to_string()).message(),
        "invalid options: tol"
    );
}

#[test]
fn qp_failures_describe_themselves() {
    assert_eq!(
        QpError::Infeasible(Constraint::RowUpper(2)).message(),
        "QP constraints inconsistent (certificate RowUpper(2))"
    );
    assert_eq!(
        QpError::Infeasible(Constraint::BoundLower(10)).message(),
        "QP constraints inconsistent (certificate BoundLower(10))"
    );
    assert_eq!(QpError::IterationLimit(500).message(), "QP active-set iteration limit 500 reached");
    assert_eq!(
        QpError::NotPositiveDefinite("pivot 3".to_string()).message(),
        "QP Hessian not positive definite: pivot 3"
    );
    assert_eq!(QpError::InvalidData("n = 0".to_string()).message(), "invalid QP data: n = 0");
    assert_eq!(Constraint::RowEquality(0).describe(), format!("{:?}", Constraint::RowEquality(0)));
}
