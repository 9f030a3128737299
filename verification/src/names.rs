//! The names that the scripting front end reads, stated per value: each
//! name selects the value it names, every name listed as known is
//! accepted, and no name selects two values.
use vstd::prelude::*;

use crate::frontend::{
    algorithm_named, barrier_named, constraint_type_named, derivative_check_named, fd_type_named, pivot_signs_named,
    quadratic_build_named, quadratic_rows_named, saddle_step_named, scaling_named, variable_scaling_named,
    zero_step_named,
};
use crate::options::{
    Algorithm, BarrierUpdate, DerivativeCheck, FdType, PivotSigns, QuadraticBuild, QuadraticRows, SaddleStep, ScalingMode,
    VariableScaling, ZeroStep,
};

verus! {

/// The names of each method.
pub open spec fn algorithm_names(v: Algorithm) -> Set<Seq<char>> {
    match v {
        Algorithm::Auto => set!["auto"@],
        Algorithm::InteriorPoint => set!["interior-point"@, "ip"@],
        Algorithm::Sqp => set!["sqp"@],
    }
}

/// A name selects a method exactly when it is one of that value's names
/// (`auto`, `interior-point`, `ip`, `sqp`): every known name selects its own value and no name
/// selects two.
pub proof fn lemma_algorithm_names(name: Seq<char>, v: Algorithm)
    ensures
        algorithm_named(name) == Some(v) <==> algorithm_names(v).contains(name),
{
    reveal_strlit("auto");
    reveal_strlit("interior-point");
    reveal_strlit("ip");
    reveal_strlit("sqp");
    assert("auto"@.len() == 4 && "auto"@[0] == 'a' && "auto"@[1] == 'u');
    assert("interior-point"@.len() == 14 && "interior-point"@[0] == 'i' && "interior-point"@[1] == 'n');
    assert("ip"@.len() == 2 && "ip"@[0] == 'i' && "ip"@[1] == 'p');
    assert("sqp"@.len() == 3 && "sqp"@[0] == 's' && "sqp"@[1] == 'q');
}

/// The names of each `check_derivatives` value.
pub open spec fn derivative_check_names(v: DerivativeCheck) -> Set<Seq<char>> {
    match v {
        DerivativeCheck::Off => set!["off"@, "none"@],
        DerivativeCheck::Directional => set!["auto"@, "directional"@],
        DerivativeCheck::Full => set!["full"@],
    }
}

/// A name selects a `check_derivatives` value exactly when it is one of that value's names
/// (`off`, `none`, `auto`, `directional`, `full`): every known name selects its own value and no name
/// selects two.
pub proof fn lemma_derivative_check_names(name: Seq<char>, v: DerivativeCheck)
    ensures
        derivative_check_named(name) == Some(v) <==> derivative_check_names(v).contains(name),
{
    reveal_strlit("off");
    reveal_strlit("none");
    reveal_strlit("auto");
    reveal_strlit("directional");
    reveal_strlit("full");
    assert("off"@.len() == 3 && "off"@[0] == 'o' && "off"@[1] == 'f');
    assert("none"@.len() == 4 && "none"@[0] == 'n' && "none"@[1] == 'o');
    assert("auto"@.len() == 4 && "auto"@[0] == 'a' && "auto"@[1] == 'u');
    assert("directional"@.len() == 11 && "directional"@[0] == 'd' && "directional"@[1] == 'i');
    assert("full"@.len() == 4 && "full"@[0] == 'f' && "full"@[1] == 'u');
}

/// The names of each `scaling` value.
pub open spec fn scaling_names(v: ScalingMode) -> Set<Seq<char>> {
    match v {
        ScalingMode::Off => set!["none"@],
        ScalingMode::GradientBased => set!["gradient"@, "gradient-based"@],
    }
}

/// A name selects a `scaling` value exactly when it is one of that value's names
/// (`none`, `gradient`, `gradient-based`): every known name selects its own value and no name
/// selects two.
pub proof fn lemma_scaling_names(name: Seq<char>, v: ScalingMode)
    ensures
        scaling_named(name) == Some(v) <==> scaling_names(v).contains(name),
{
    reveal_strlit("none");
    reveal_strlit("gradient");
    reveal_strlit("gradient-based");
    assert("none"@.len() == 4 && "none"@[0] == 'n' && "none"@[1] == 'o');
    assert("gradient"@.len() == 8 && "gradient"@[0] == 'g' && "gradient"@[1] == 'r');
    assert("gradient-based"@.len() == 14 && "gradient-based"@[0] == 'g' && "gradient-based"@[1] == 'r');
}

/// The names of each `quadratic_build` value.
pub open spec fn quadratic_build_names(v: QuadraticBuild) -> Set<Seq<char>> {
    match v {
        QuadraticBuild::Structured => set!["structured"@],
        QuadraticBuild::Dense => set!["dense"@],
    }
}

/// A name selects a `quadratic_build` value exactly when it is one of that value's names
/// (`structured`, `dense`): every known name selects its own value and no name
/// selects two.
pub proof fn lemma_quadratic_build_names(name: Seq<char>, v: QuadraticBuild)
    ensures
        quadratic_build_named(name) == Some(v) <==> quadratic_build_names(v).contains(name),
{
    reveal_strlit("structured");
    reveal_strlit("dense");
    assert("structured"@.len() == 10 && "structured"@[0] == 's' && "structured"@[1] == 't');
    assert("dense"@.len() == 5 && "dense"@[0] == 'd' && "dense"@[1] == 'e');
}

/// The names of each `quadratic_rows` value.
pub open spec fn quadratic_rows_names(v: QuadraticRows) -> Set<Seq<char>> {
    match v {
        QuadraticRows::Off => set!["off"@],
        QuadraticRows::Jacobian => set!["jacobian"@],
        QuadraticRows::Values => set!["values"@, "all"@],
    }
}

/// A name selects a `quadratic_rows` value exactly when it is one of that value's names
/// (`off`, `jacobian`, `values`, `all`): every known name selects its own value and no name
/// selects two.
pub proof fn lemma_quadratic_rows_names(name: Seq<char>, v: QuadraticRows)
    ensures
        quadratic_rows_named(name) == Some(v) <==> quadratic_rows_names(v).contains(name),
{
    reveal_strlit("off");
    reveal_strlit("jacobian");
    reveal_strlit("values");
    reveal_strlit("all");
    assert("off"@.len() == 3 && "off"@[0] == 'o' && "off"@[1] == 'f');
    assert("jacobian"@.len() == 8 && "jacobian"@[0] == 'j' && "jacobian"@[1] == 'a');
    assert("values"@.len() == 6 && "values"@[0] == 'v' && "values"@[1] == 'a');
    assert("all"@.len() == 3 && "all"@[0] == 'a' && "all"@[1] == 'l');
}

/// The names of each `zero_step` value.
pub open spec fn zero_step_names(v: ZeroStep) -> Set<Seq<char>> {
    match v {
        ZeroStep::Norm => set!["norm"@],
        ZeroStep::Decrease => set!["decrease"@],
    }
}

/// A name selects a `zero_step` value exactly when it is one of that value's names
/// (`norm`, `decrease`): every known name selects its own value and no name
/// selects two.
pub proof fn lemma_zero_step_names(name: Seq<char>, v: ZeroStep)
    ensures
        zero_step_named(name) == Some(v) <==> zero_step_names(v).contains(name),
{
    reveal_strlit("norm");
    reveal_strlit("decrease");
    assert("norm"@.len() == 4 && "norm"@[0] == 'n' && "norm"@[1] == 'o');
    assert("decrease"@.len() == 8 && "decrease"@[0] == 'd' && "decrease"@[1] == 'e');
}

/// The names of each `saddle_step` value.
pub open spec fn saddle_step_names(v: SaddleStep) -> Set<Seq<char>> {
    match v {
        SaddleStep::Scale => set!["scale"@],
        SaddleStep::Linearized => set!["linearized"@],
    }
}

/// A name selects a `saddle_step` value exactly when it is one of that value's names
/// (`scale`, `linearized`): every known name selects its own value and no name
/// selects two.
pub proof fn lemma_saddle_step_names(name: Seq<char>, v: SaddleStep)
    ensures
        saddle_step_named(name) == Some(v) <==> saddle_step_names(v).contains(name),
{
    reveal_strlit("scale");
    reveal_strlit("linearized");
    assert("scale"@.len() == 5 && "scale"@[0] == 's' && "scale"@[1] == 'c');
    assert("linearized"@.len() == 10 && "linearized"@[0] == 'l' && "linearized"@[1] == 'i');
}

/// The names of each `kkt_pivot_signs` value.
pub open spec fn pivot_signs_names(v: PivotSigns) -> Set<Seq<char>> {
    match v {
        PivotSigns::Auto => set!["auto"@],
        PivotSigns::Expected => set!["expected"@],
        PivotSigns::Free => set!["free"@, "counted"@],
    }
}

/// A name selects a `kkt_pivot_signs` value exactly when it is one of that value's names
/// (`auto`, `expected`, `free`, `counted`): every known name selects its own value and no name
/// selects two.
pub proof fn lemma_pivot_signs_names(name: Seq<char>, v: PivotSigns)
    ensures
        pivot_signs_named(name) == Some(v) <==> pivot_signs_names(v).contains(name),
{
    reveal_strlit("auto");
    reveal_strlit("expected");
    reveal_strlit("free");
    reveal_strlit("counted");
    assert("auto"@.len() == 4 && "auto"@[0] == 'a' && "auto"@[1] == 'u');
    assert("expected"@.len() == 8 && "expected"@[0] == 'e' && "expected"@[1] == 'x');
    assert("free"@.len() == 4 && "free"@[0] == 'f' && "free"@[1] == 'r');
    assert("counted"@.len() == 7 && "counted"@[0] == 'c' && "counted"@[1] == 'o');
}

/// The names of each `scale_variables` value.
pub open spec fn variable_scaling_names(v: VariableScaling) -> Set<Seq<char>> {
    match v {
        VariableScaling::Off => set!["off"@, "none"@],
        VariableScaling::Auto => set!["auto"@],
        VariableScaling::On => set!["on"@, "always"@],
    }
}

/// A name selects a `scale_variables` value exactly when it is one of that value's names
/// (`off`, `none`, `auto`, `on`, `always`): every known name selects its own value and no name
/// selects two.
pub proof fn lemma_variable_scaling_names(name: Seq<char>, v: VariableScaling)
    ensures
        variable_scaling_named(name) == Some(v) <==> variable_scaling_names(v).contains(name),
{
    reveal_strlit("off");
    reveal_strlit("none");
    reveal_strlit("auto");
    reveal_strlit("on");
    reveal_strlit("always");
    assert("off"@.len() == 3 && "off"@[0] == 'o' && "off"@[1] == 'f');
    assert("none"@.len() == 4 && "none"@[0] == 'n' && "none"@[1] == 'o');
    assert("auto"@.len() == 4 && "auto"@[0] == 'a' && "auto"@[1] == 'u');
    assert("on"@.len() == 2 && "on"@[0] == 'o' && "on"@[1] == 'n');
    assert("always"@.len() == 6 && "always"@[0] == 'a' && "always"@[1] == 'l');
}

/// The names of each `barrier` value.
pub open spec fn barrier_names(v: BarrierUpdate) -> Set<Seq<char>> {
    match v {
        BarrierUpdate::Monotone => set!["monotone"@],
        BarrierUpdate::Adaptive => set!["adaptive"@],
        BarrierUpdate::AdaptiveThenMonotone => set!["adaptive-then-monotone"@, "auto"@],
    }
}

/// A name selects a `barrier` value exactly when it is one of that value's names
/// (`monotone`, `adaptive`, `adaptive-then-monotone`, `auto`): every known name selects its own value and no name
/// selects two.
pub proof fn lemma_barrier_names(name: Seq<char>, v: BarrierUpdate)
    ensures
        barrier_named(name) == Some(v) <==> barrier_names(v).contains(name),
{
    reveal_strlit("monotone");
    reveal_strlit("adaptive");
    reveal_strlit("adaptive-then-monotone");
    reveal_strlit("auto");
    assert("monotone"@.len() == 8 && "monotone"@[0] == 'm' && "monotone"@[1] == 'o');
    assert("adaptive"@.len() == 8 && "adaptive"@[0] == 'a' && "adaptive"@[1] == 'd');
    assert("adaptive-then-monotone"@.len() == 22 && "adaptive-then-monotone"@[0] == 'a' && "adaptive-then-monotone"@[1] == 'd');
    assert("auto"@.len() == 4 && "auto"@[0] == 'a' && "auto"@[1] == 'u');
}

/// The names of each `finite_diff` value.
pub open spec fn fd_type_names(v: FdType) -> Set<Seq<char>> {
    match v {
        FdType::Forward => set!["forward"@],
        FdType::Central => set!["central"@],
        FdType::Adaptive => set!["adaptive"@],
    }
}

/// A name selects a `finite_diff` value exactly when it is one of that value's names
/// (`forward`, `central`, `adaptive`): every known name selects its own value and no name
/// selects two.
pub proof fn lemma_fd_type_names(name: Seq<char>, v: FdType)
    ensures
        fd_type_named(name) == Some(v) <==> fd_type_names(v).contains(name),
{
    reveal_strlit("forward");
    reveal_strlit("central");
    reveal_strlit("adaptive");
    assert("forward"@.len() == 7 && "forward"@[0] == 'f' && "forward"@[1] == 'o');
    assert("central"@.len() == 7 && "central"@[0] == 'c' && "central"@[1] == 'e');
    assert("adaptive"@.len() == 8 && "adaptive"@[0] == 'a' && "adaptive"@[1] == 'd');
}

/// The constraint types: `eq` is an equality, `ineq` an inequality, and no
/// other name is a type.
pub open spec fn constraint_type_names(is_equality: bool) -> Set<Seq<char>> {
    if is_equality {
        set!["eq"@]
    } else {
        set!["ineq"@]
    }
}

/// A name gives a constraint type exactly when it is that type's name.
pub proof fn lemma_constraint_type_names(name: Seq<char>, is_equality: bool)
    ensures
        constraint_type_named(name) == Some(is_equality) <==> constraint_type_names(is_equality).contains(name),
{
    reveal_strlit("eq");
    reveal_strlit("ineq");
    assert("eq"@.len() == 2 && "eq"@[0] == 'e' && "eq"@[1] == 'q');
    assert("ineq"@.len() == 4 && "ineq"@[0] == 'i' && "ineq"@[1] == 'n');
}

} // verus!
