use mincon::{ExitFlag, Limit};

#[test]
fn exit_flags_match_fmincon_integers() {
    assert_eq!(ExitFlag::Optimal.code(), 1);
    assert_eq!(ExitFlag::MaxReached.code(), 0);
    assert_eq!(ExitFlag::Infeasible.code(), -2);
    assert_eq!(ExitFlag::Unbounded.code(), -3);
}

#[test]
fn acceptable_is_not_success() {
    assert!(!ExitFlag::Acceptable.is_success());
    assert!(ExitFlag::Acceptable.returned_usable_point());
    assert!(ExitFlag::Optimal.is_success());
    assert!(!ExitFlag::MaxReached.returned_usable_point());
}

#[test]
fn every_exit_has_its_own_code() {
    let all = [
        ExitFlag::Optimal,
        ExitFlag::StepTolerance,
        ExitFlag::FunctionTolerance,
        ExitFlag::Acceptable,
        ExitFlag::MaxReached,
        ExitFlag::StoppedByUser,
        ExitFlag::Infeasible,
        ExitFlag::Unbounded,
        ExitFlag::LocallyInfeasible,
        ExitFlag::NumericalFailure,
    ];
    let codes: Vec<i32> = all.iter().map(|f| f.code()).collect();
    assert_eq!(codes, vec![1, 2, 3, 6, 0, -1, -2, -3, -4, -5]);
    for f in all {
        if f.is_success() {
            assert!(f.returned_usable_point());
        }
    }
    let usable: Vec<bool> = all.iter().map(|f| f.returned_usable_point()).collect();
    assert_eq!(usable, vec![true, true, true, true, false, false, false, false, false, false]);
}

#[test]
fn exit_messages_are_the_documented_ones() {
    assert_eq!(
        ExitFlag::Optimal.message(),
        "First-order optimality and constraint tolerances satisfied."
    );
    assert_eq!(ExitFlag::MaxReached.message(), "Iteration or evaluation limit reached.");
    assert_eq!(ExitFlag::NumericalFailure.message(), "Numerical difficulties; solve abandoned.");
    assert_eq!(ExitFlag::StoppedByUser.message(), "Stopped by user callback.");
}

#[test]
fn the_evaluation_budget_is_named_first() {
    assert_eq!(Limit::which(true, true, true), Some(Limit::Evaluations));
    assert_eq!(Limit::which(false, true, true), Some(Limit::Time));
    assert_eq!(Limit::which(false, false, true), Some(Limit::Iterations));
    assert_eq!(Limit::which(false, false, false), None);
    assert_eq!(Limit::Iterations.name(), "iterations");
    assert_eq!(Limit::Evaluations.name(), "evaluations");
    assert_eq!(Limit::Time.name(), "time");
}
