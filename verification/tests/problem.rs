use mincon::{Capabilities, EvalCounters, NlpDims};

#[test]
fn capability_levels() {
    let none = Capabilities::none();
    assert!(!none.gradient && !none.jacobian && !none.hessian && !none.hessian_vector);
    assert_eq!(none, Capabilities::default());
    let first = Capabilities::first_order();
    assert!(first.gradient && first.jacobian && !first.hessian && !first.hessian_vector);
    let second = Capabilities::second_order();
    assert!(second.gradient && second.jacobian && second.hessian && second.hessian_vector);
    assert!(!second.parallel_safe);
}

#[test]
fn counters_count() {
    let c = EvalCounters::default();
    EvalCounters::bump(&c.f);
    EvalCounters::bump(&c.f);
    EvalCounters::bump(&c.failed);
    assert_eq!(EvalCounters::get(&c.f), 2);
    assert_eq!(EvalCounters::get(&c.failed), 1);
    assert_eq!(EvalCounters::get(&c.g), 0);
    let d = NlpDims { n: 3, m: 1 };
    assert_eq!(d, NlpDims { n: 3, m: 1 });
}
