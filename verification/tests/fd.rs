use mincon::{effective_max_iterations, parallel_is_safe, Capabilities, FdType, FiniteDifferences, Sparsity};

fn tridiagonal(n: usize) -> Sparsity {
    let mut t = Vec::new();
    for j in 0..n {
        for i in j.saturating_sub(1)..(j + 2).min(n) {
            t.push((i, j));
        }
    }
    Sparsity::from_triplets(n, n, &t).unwrap()
}

#[test]
fn iteration_cap_scales_with_n() {
    assert_eq!(effective_max_iterations(None, 10), 500);
    assert_eq!(effective_max_iterations(None, 100_000), 10_000);
    assert_eq!(effective_max_iterations(Some(42), 10), 42);
}

#[test]
fn iteration_cap_reaches_its_ceiling_exactly() {
    assert_eq!(effective_max_iterations(None, 0), 400);
    assert_eq!(effective_max_iterations(None, 960), 10_000);
    assert_eq!(effective_max_iterations(None, 961), 10_000);
    assert_eq!(effective_max_iterations(None, usize::MAX), 10_000);
    assert_eq!(effective_max_iterations(Some(0), 10), 0);
}

#[test]
fn parallel_safety_is_the_model_capability() {
    assert!(!parallel_is_safe(Capabilities::first_order()));
    let caps = Capabilities {
        parallel_safe: true,
        ..Capabilities::none()
    };
    assert!(parallel_is_safe(caps));
}

#[test]
fn colored_jacobian_costs_one_evaluation_per_group() {
    let p = tridiagonal(30);
    let fd = FiniteDifferences::new(FdType::Forward, true, 30, 30, Some(&p));
    assert_eq!(fd.jacobian_cost(), 3);
    let plain = FiniteDifferences::new(FdType::Forward, false, 30, 30, Some(&p));
    assert_eq!(plain.jacobian_cost(), 30);
    let unknown = FiniteDifferences::new(FdType::Forward, true, 30, 30, None);
    assert_eq!(unknown.jacobian_cost(), 30);
}

#[test]
fn central_differences_double_the_cost() {
    let p = tridiagonal(12);
    let fd = FiniteDifferences::new(FdType::Central, true, 12, 12, Some(&p));
    assert!(fd.use_central());
    assert_eq!(fd.jacobian_cost(), 6);
}

#[test]
fn adaptive_switches_to_central_on_escalation() {
    let p = tridiagonal(12);
    let mut fd = FiniteDifferences::new(FdType::Adaptive, true, 12, 12, Some(&p));
    assert!(!fd.use_central());
    assert_eq!(fd.jacobian_cost(), 3);
    fd.escalate();
    assert!(fd.use_central());
    assert_eq!(fd.jacobian_cost(), 6);
    let mut fwd = FiniteDifferences::new(FdType::Forward, false, 5, 0, None);
    fwd.escalate();
    assert!(!fwd.use_central());
    assert_eq!(fwd.jacobian_cost(), 5);
}
