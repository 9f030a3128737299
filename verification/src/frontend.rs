//! The plain-value logic of the scripting front end: method and option
//! names, the exit-flag table it publishes, and the Hessian layout it fills.
use vstd::prelude::*;

use crate::options::{
    Algorithm, BarrierUpdate, DerivativeCheck, FdType, PivotSigns, QuadraticBuild, QuadraticRows, SaddleStep, ScalingMode,
    VariableScaling, ZeroStep,
};
use crate::result::{exit_code, ExitFlag};
use crate::sparsity::Sparsity;
use crate::text::{push_text, text};

verus! {

/// `c` with an ASCII capital mapped to its lower-case letter; every other
/// character unchanged.
pub open spec fn ascii_lower(c: char) -> char {
    if 65 <= (c as u32) <= 90 {
        ((c as u32) + 32) as char
    } else {
        c
    }
}

/// `s` with every ASCII capital mapped to lower case.
pub open spec fn ascii_lowercase(s: Seq<char>) -> Seq<char> {
    s.map_values(|c: char| ascii_lower(c))
}

/// `str::to_ascii_lowercase`: per its documentation, a copy of the string
/// with the letters `A` to `Z` mapped to `a` to `z` and every other
/// character unchanged.
#[verifier::external_body]
fn to_ascii_lowercase(s: &str) -> (r: String)
    ensures
        r@ == ascii_lowercase(s@),
{
    s.to_ascii_lowercase()
}

/// The algorithm a method name selects, ignoring ASCII case: `None` when
/// the name is none of `auto`, `interior-point`, `ip` or `sqp`.
pub open spec fn algorithm_named(name: Seq<char>) -> Option<Algorithm> {
    if name == "auto"@ {
        Some(Algorithm::Auto)
    } else if name == "interior-point"@ || name == "ip"@ {
        Some(Algorithm::InteriorPoint)
    } else if name == "sqp"@ {
        Some(Algorithm::Sqp)
    } else {
        None
    }
}

/// The algorithm for a method name, `auto` when none is given. Names are
/// matched ignoring ASCII case; an unknown one is refused, quoted in lower
/// case, with the names that are known.
pub fn parse_algorithm(method: Option<&str>) -> (r: Result<Algorithm, String>)
    ensures
        method is None ==> r == Ok::<Algorithm, String>(Algorithm::Auto),
        method matches Some(m) ==> match algorithm_named(ascii_lowercase(m@)) {
            Some(a) => r == Ok::<Algorithm, String>(a),
            None => r matches Err(e) && e@ == "unknown method '"@ + ascii_lowercase(m@)
                + "'; use 'auto', 'interior-point' or 'sqp'"@,
        },
{
    match method {
        None => Ok(Algorithm::Auto),
        Some(m) => {
            let name = to_ascii_lowercase(m);
            if name == text("auto") {
                Ok(Algorithm::Auto)
            } else if name == text("interior-point") || name == text("ip") {
                Ok(Algorithm::InteriorPoint)
            } else if name == text("sqp") {
                Ok(Algorithm::Sqp)
            } else {
                let mut e = text("unknown method '");
                push_text(&mut e, name.as_str());
                push_text(&mut e, "'; use 'auto', 'interior-point' or 'sqp'");
                Err(e)
            }
        },
    }
}

/// The exit flags by name, as published to scripts, each with its integer
/// code.
pub fn exit_flags() -> (r: Vec<(&'static str, i32)>)
    ensures
        r@.len() == 10,
        r@[0].0@ == "OPTIMAL"@ && r@[0].1 == exit_code(ExitFlag::Optimal),
        r@[1].0@ == "STEP_TOLERANCE"@ && r@[1].1 == exit_code(ExitFlag::StepTolerance),
        r@[2].0@ == "FUNCTION_TOLERANCE"@ && r@[2].1 == exit_code(ExitFlag::FunctionTolerance),
        r@[3].0@ == "ACCEPTABLE"@ && r@[3].1 == exit_code(ExitFlag::Acceptable),
        r@[4].0@ == "MAX_REACHED"@ && r@[4].1 == exit_code(ExitFlag::MaxReached),
        r@[5].0@ == "STOPPED_BY_USER"@ && r@[5].1 == exit_code(ExitFlag::StoppedByUser),
        r@[6].0@ == "INFEASIBLE"@ && r@[6].1 == exit_code(ExitFlag::Infeasible),
        r@[7].0@ == "UNBOUNDED"@ && r@[7].1 == exit_code(ExitFlag::Unbounded),
        r@[8].0@ == "LOCALLY_INFEASIBLE"@ && r@[8].1 == exit_code(ExitFlag::LocallyInfeasible),
        r@[9].0@ == "NUMERICAL_FAILURE"@ && r@[9].1 == exit_code(ExitFlag::NumericalFailure),
{
    let mut r: Vec<(&'static str, i32)> = Vec::new();
    r.push(("OPTIMAL", ExitFlag::Optimal.code()));
    r.push(("STEP_TOLERANCE", ExitFlag::StepTolerance.code()));
    r.push(("FUNCTION_TOLERANCE", ExitFlag::FunctionTolerance.code()));
    r.push(("ACCEPTABLE", ExitFlag::Acceptable.code()));
    r.push(("MAX_REACHED", ExitFlag::MaxReached.code()));
    r.push(("STOPPED_BY_USER", ExitFlag::StoppedByUser.code()));
    r.push(("INFEASIBLE", ExitFlag::Infeasible.code()));
    r.push(("UNBOUNDED", ExitFlag::Unbounded.code()));
    r.push(("LOCALLY_INFEASIBLE", ExitFlag::LocallyInfeasible.code()));
    r.push(("NUMERICAL_FAILURE", ExitFlag::NumericalFailure.code()));
    r
}

/// Column `c` of the lower triangle holds `n - c` entries.
proof fn lemma_lower_column_len(col_ptr: Seq<usize>, n: int, c: int)
    requires
        0 <= c < n,
        forall|cc: int| 0 <= cc < n ==> #[trigger] col_ptr[cc + 1] == col_ptr[cc] + (n - cc),
    ensures
        col_ptr[c + 1] == col_ptr[c] + (n - c),
{
}

/// Position `p` of column `c` of the lower triangle holds row
/// `c + (p - col_ptr[c])`.
proof fn lemma_lower_entry(col_ptr: Seq<usize>, row_idx: Seq<usize>, n: int, c: int, p: int)
    requires
        0 <= c < n,
        col_ptr[c] <= p < col_ptr[c + 1],
        forall|cc: int, pp: int|
            #![trigger row_idx[pp], col_ptr[cc]]
            0 <= cc < n && col_ptr[cc] <= pp < col_ptr[cc + 1] ==> row_idx[pp] == cc + (pp - col_ptr[cc]),
    ensures
        row_idx[p] == c + (p - col_ptr[c]),
{
    assert(row_idx[p] == c + (p - col_ptr[c]));
}

/// The dense lower-triangular pattern of an `n x n` matrix, in the
/// column-major order in which a script fills its Hessian.
#[verifier::spinoff_prover]
pub fn lower_triangle(n: usize) -> (s: Sparsity)
    requires
        n * (n + 1) <= usize::MAX,
    ensures
        s@.nrows == n,
        s@.ncols == n,
        forall|i: int, j: int| s@.has(i, j) <==> 0 <= j <= i < n,
{
    let mut col_ptr: Vec<usize> = Vec::new();
    let mut row_idx: Vec<usize> = Vec::new();
    col_ptr.push(0);
    let mut j: usize = 0;
    while j < n
        invariant
            j <= n,
            n * (n + 1) <= usize::MAX,
            col_ptr@.len() == j + 1,
            col_ptr@[0] == 0,
            col_ptr@[j as int] == row_idx@.len(),
            row_idx@.len() <= j * n,
            forall|a: int, b: int| 0 <= a <= b <= j ==> col_ptr@[a] <= col_ptr@[b],
            forall|c: int| 0 <= c < j ==> #[trigger] col_ptr@[c + 1] == col_ptr@[c] + (n - c),
            forall|c: int, p: int|
                #![trigger row_idx@[p], col_ptr@[c]]
                0 <= c < j && col_ptr@[c] <= p < col_ptr@[c + 1] ==> row_idx@[p] == c + (p - col_ptr@[c]),
        decreases n - j,
    {
        proof {
            assert((j + 1) * n == j * n + n) by (nonlinear_arith);
            assert((j + 1) * n <= n * (n + 1)) by (nonlinear_arith)
                requires
                    j < n,
            ;
        }
        let ghost start = row_idx@.len();
        let mut i: usize = j;
        while i < n
            invariant
                j <= i <= n,
                j < n,
                n * (n + 1) <= usize::MAX,
                (j + 1) * n <= usize::MAX,
                start + n - j <= (j + 1) * n,
                col_ptr@.len() == j + 1,
                col_ptr@[0] == 0,
                col_ptr@[j as int] == start,
                row_idx@.len() == start + (i - j),
                forall|a: int, b: int| 0 <= a <= b <= j ==> col_ptr@[a] <= col_ptr@[b],
                forall|c: int| 0 <= c < j ==> #[trigger] col_ptr@[c + 1] == col_ptr@[c] + (n - c),
                forall|c: int, p: int|
                    #![trigger row_idx@[p], col_ptr@[c]]
                    0 <= c < j && col_ptr@[c] <= p < col_ptr@[c + 1] ==> row_idx@[p] == c + (p - col_ptr@[c]),
                forall|p: int| start <= p < row_idx@.len() ==> #[trigger] row_idx@[p] == j + (p - start),
            decreases n - i,
        {
            row_idx.push(i);
            i += 1;
        }
        col_ptr.push(row_idx.len());
        j += 1;
    }
    let ghost v = crate::sparsity::SparsityView {
        nrows: n as nat,
        ncols: n as nat,
        col_ptr: col_ptr@,
        row_idx: row_idx@,
    };
    proof {
        assert forall|p: int| 0 <= p < row_idx@.len() implies row_idx@[p] < n by {
            let c = crate::sparsity::lemma_column_of(v, p);
            lemma_lower_entry(col_ptr@, row_idx@, n as int, c, p);
        }
        assert forall|c: int| 0 <= c < n implies #[trigger] v.col_sorted(c) by {
            assert forall|p: int, q: int| col_ptr@[c] <= p < q < col_ptr@[c + 1] implies row_idx@[p] < row_idx@[q] by {
                lemma_lower_entry(col_ptr@, row_idx@, n as int, c, p);
                lemma_lower_entry(col_ptr@, row_idx@, n as int, c, q);
            }
        }
        assert forall|i: int, jj: int| v.has(i, jj) <==> 0 <= jj <= i < n by {
            if 0 <= jj <= i < n {
                let p = col_ptr@[jj] + (i - jj);
                lemma_lower_column_len(col_ptr@, n as int, jj);
                lemma_lower_entry(col_ptr@, row_idx@, n as int, jj, p);
                assert(v.col_ptr[jj] <= p < v.col_ptr[jj + 1] && v.row_idx[p] == i);
            }
            if v.has(i, jj) {
                let p = choose|p: int| v.col_ptr[jj] <= p < v.col_ptr[jj + 1] && v.row_idx[p] == i;
                lemma_lower_column_len(col_ptr@, n as int, jj);
                lemma_lower_entry(col_ptr@, row_idx@, n as int, jj, p);
            }
        }
    }
    proof {
        assert(n < usize::MAX) by (nonlinear_arith)
            requires
                n * (n + 1) <= usize::MAX,
        ;
        assert(v.wf());
    }
    match Sparsity::new(n, n, col_ptr, row_idx) {
        Ok(s) => s,
        Err(_) => Sparsity::dense(0, 0),
    }
}

/// Whether `name` is exactly `lit`.
fn same_text(name: &str, lit: &str) -> (r: bool)
    ensures
        r == (name@ == lit@),
{
    name.to_owned() == lit.to_owned()
}

/// The value of the `check_derivatives` option (the derivative check) that `name` selects, if any.
pub open spec fn derivative_check_named(name: Seq<char>) -> Option<DerivativeCheck> {
    if name == "off"@ || name == "none"@ {
        Some(DerivativeCheck::Off)
    } else if name == "auto"@ || name == "directional"@ {
        Some(DerivativeCheck::Directional)
    } else if name == "full"@ {
        Some(DerivativeCheck::Full)
    } else {
        None
    }
}

/// The `check_derivatives` option by name, one of `off`, `none`, `auto`, `directional`, `full`; any other name is refused,
/// quoted, with the names that are known.
pub fn parse_check_derivatives(name: &str) -> (r: Result<DerivativeCheck, String>)
    ensures
        match derivative_check_named(name@) {
            Some(v) => r == Ok::<DerivativeCheck, String>(v),
            None => r matches Err(e) && e@ == "unknown check_derivatives '"@ + name@ + "'; use True (full), False (off), 'auto' (directional, the default) or 'full'"@,
        },
{
    if same_text(name, "off") || same_text(name, "none") {
        Ok(DerivativeCheck::Off)
    } else if same_text(name, "auto") || same_text(name, "directional") {
        Ok(DerivativeCheck::Directional)
    } else if same_text(name, "full") {
        Ok(DerivativeCheck::Full)
    } else {
        let mut e = text("unknown check_derivatives '");
        push_text(&mut e, name);
        push_text(&mut e, "'; use True (full), False (off), 'auto' (directional, the default) or 'full'");
        Err(e)
    }
}

/// The value of the `scaling` option (the objective and constraint scaling) that `name` selects, if any.
pub open spec fn scaling_named(name: Seq<char>) -> Option<ScalingMode> {
    if name == "none"@ {
        Some(ScalingMode::Off)
    } else if name == "gradient"@ || name == "gradient-based"@ {
        Some(ScalingMode::GradientBased)
    } else {
        None
    }
}

/// The `scaling` option by name, one of `none`, `gradient`, `gradient-based`; any other name is refused,
/// quoted, with the names that are known.
pub fn parse_scaling(name: &str) -> (r: Result<ScalingMode, String>)
    ensures
        match scaling_named(name@) {
            Some(v) => r == Ok::<ScalingMode, String>(v),
            None => r matches Err(e) && e@ == "unknown scaling '"@ + name@ + "'; use 'none' or 'gradient'"@,
        },
{
    if same_text(name, "none") {
        Ok(ScalingMode::Off)
    } else if same_text(name, "gradient") || same_text(name, "gradient-based") {
        Ok(ScalingMode::GradientBased)
    } else {
        let mut e = text("unknown scaling '");
        push_text(&mut e, name);
        push_text(&mut e, "'; use 'none' or 'gradient'");
        Err(e)
    }
}

/// The value of the `quadratic_build` option (how the quadratic probe builds its Hessian) that `name` selects, if any.
pub open spec fn quadratic_build_named(name: Seq<char>) -> Option<QuadraticBuild> {
    if name == "structured"@ {
        Some(QuadraticBuild::Structured)
    } else if name == "dense"@ {
        Some(QuadraticBuild::Dense)
    } else {
        None
    }
}

/// The `quadratic_build` option by name, one of `structured`, `dense`; any other name is refused,
/// quoted, with the names that are known.
pub fn parse_quadratic_build(name: &str) -> (r: Result<QuadraticBuild, String>)
    ensures
        match quadratic_build_named(name@) {
            Some(v) => r == Ok::<QuadraticBuild, String>(v),
            None => r matches Err(e) && e@ == "unknown quadratic_build '"@ + name@ + "'; use 'structured' or 'dense'"@,
        },
{
    if same_text(name, "structured") {
        Ok(QuadraticBuild::Structured)
    } else if same_text(name, "dense") {
        Ok(QuadraticBuild::Dense)
    } else {
        let mut e = text("unknown quadratic_build '");
        push_text(&mut e, name);
        push_text(&mut e, "'; use 'structured' or 'dense'");
        Err(e)
    }
}

/// The value of the `quadratic_rows` option (which constraint rows the quadratic probe accepts) that `name` selects, if any.
pub open spec fn quadratic_rows_named(name: Seq<char>) -> Option<QuadraticRows> {
    if name == "off"@ {
        Some(QuadraticRows::Off)
    } else if name == "jacobian"@ {
        Some(QuadraticRows::Jacobian)
    } else if name == "values"@ || name == "all"@ {
        Some(QuadraticRows::Values)
    } else {
        None
    }
}

/// The `quadratic_rows` option by name, one of `off`, `jacobian`, `values`, `all`; any other name is refused,
/// quoted, with the names that are known.
pub fn parse_quadratic_rows(name: &str) -> (r: Result<QuadraticRows, String>)
    ensures
        match quadratic_rows_named(name@) {
            Some(v) => r == Ok::<QuadraticRows, String>(v),
            None => r matches Err(e) && e@ == "unknown quadratic_rows '"@ + name@ + "'; use False, 'jacobian' or 'values'"@,
        },
{
    if same_text(name, "off") {
        Ok(QuadraticRows::Off)
    } else if same_text(name, "jacobian") {
        Ok(QuadraticRows::Jacobian)
    } else if same_text(name, "values") || same_text(name, "all") {
        Ok(QuadraticRows::Values)
    } else {
        let mut e = text("unknown quadratic_rows '");
        push_text(&mut e, name);
        push_text(&mut e, "'; use False, 'jacobian' or 'values'");
        Err(e)
    }
}

/// The value of the `zero_step` option (when the SQP member re-tests at a zero step) that `name` selects, if any.
pub open spec fn zero_step_named(name: Seq<char>) -> Option<ZeroStep> {
    if name == "norm"@ {
        Some(ZeroStep::Norm)
    } else if name == "decrease"@ {
        Some(ZeroStep::Decrease)
    } else {
        None
    }
}

/// The `zero_step` option by name, one of `norm`, `decrease`; any other name is refused,
/// quoted, with the names that are known.
pub fn parse_zero_step(name: &str) -> (r: Result<ZeroStep, String>)
    ensures
        match zero_step_named(name@) {
            Some(v) => r == Ok::<ZeroStep, String>(v),
            None => r matches Err(e) && e@ == "unknown zero_step '"@ + name@ + "'; use 'norm' or 'decrease'"@,
        },
{
    if same_text(name, "norm") {
        Ok(ZeroStep::Norm)
    } else if same_text(name, "decrease") {
        Ok(ZeroStep::Decrease)
    } else {
        let mut e = text("unknown zero_step '");
        push_text(&mut e, name);
        push_text(&mut e, "'; use 'norm' or 'decrease'");
        Err(e)
    }
}

/// The value of the `saddle_step` option (the first trial step off a saddle point) that `name` selects, if any.
pub open spec fn saddle_step_named(name: Seq<char>) -> Option<SaddleStep> {
    if name == "scale"@ {
        Some(SaddleStep::Scale)
    } else if name == "linearized"@ {
        Some(SaddleStep::Linearized)
    } else {
        None
    }
}

/// The `saddle_step` option by name, one of `scale`, `linearized`; any other name is refused,
/// quoted, with the names that are known.
pub fn parse_saddle_step(name: &str) -> (r: Result<SaddleStep, String>)
    ensures
        match saddle_step_named(name@) {
            Some(v) => r == Ok::<SaddleStep, String>(v),
            None => r matches Err(e) && e@ == "unknown saddle_step '"@ + name@ + "'; use 'scale' or 'linearized'"@,
        },
{
    if same_text(name, "scale") {
        Ok(SaddleStep::Scale)
    } else if same_text(name, "linearized") {
        Ok(SaddleStep::Linearized)
    } else {
        let mut e = text("unknown saddle_step '");
        push_text(&mut e, name);
        push_text(&mut e, "'; use 'scale' or 'linearized'");
        Err(e)
    }
}

/// The value of the `kkt_pivot_signs` option (the treatment of pivot signs in the KKT factorization) that `name` selects, if any.
pub open spec fn pivot_signs_named(name: Seq<char>) -> Option<PivotSigns> {
    if name == "auto"@ {
        Some(PivotSigns::Auto)
    } else if name == "expected"@ {
        Some(PivotSigns::Expected)
    } else if name == "free"@ || name == "counted"@ {
        Some(PivotSigns::Free)
    } else {
        None
    }
}

/// The `kkt_pivot_signs` option by name, one of `auto`, `expected`, `free`, `counted`; any other name is refused,
/// quoted, with the names that are known.
pub fn parse_pivot_signs(name: &str) -> (r: Result<PivotSigns, String>)
    ensures
        match pivot_signs_named(name@) {
            Some(v) => r == Ok::<PivotSigns, String>(v),
            None => r matches Err(e) && e@ == "unknown kkt_pivot_signs '"@ + name@ + "'; use 'auto', 'expected' or 'free'"@,
        },
{
    if same_text(name, "auto") {
        Ok(PivotSigns::Auto)
    } else if same_text(name, "expected") {
        Ok(PivotSigns::Expected)
    } else if same_text(name, "free") || same_text(name, "counted") {
        Ok(PivotSigns::Free)
    } else {
        let mut e = text("unknown kkt_pivot_signs '");
        push_text(&mut e, name);
        push_text(&mut e, "'; use 'auto', 'expected' or 'free'");
        Err(e)
    }
}

/// The value of the `scale_variables` option (the scaling of the variables) that `name` selects, if any.
pub open spec fn variable_scaling_named(name: Seq<char>) -> Option<VariableScaling> {
    if name == "off"@ || name == "none"@ {
        Some(VariableScaling::Off)
    } else if name == "auto"@ {
        Some(VariableScaling::Auto)
    } else if name == "on"@ || name == "always"@ {
        Some(VariableScaling::On)
    } else {
        None
    }
}

/// The `scale_variables` option by name, one of `off`, `none`, `auto`, `on`, `always`; any other name is refused,
/// quoted, with the names that are known.
pub fn parse_scale_variables(name: &str) -> (r: Result<VariableScaling, String>)
    ensures
        match variable_scaling_named(name@) {
            Some(v) => r == Ok::<VariableScaling, String>(v),
            None => r matches Err(e) && e@ == "unknown scale_variables '"@ + name@ + "'; use True, False or 'auto'"@,
        },
{
    if same_text(name, "off") || same_text(name, "none") {
        Ok(VariableScaling::Off)
    } else if same_text(name, "auto") {
        Ok(VariableScaling::Auto)
    } else if same_text(name, "on") || same_text(name, "always") {
        Ok(VariableScaling::On)
    } else {
        let mut e = text("unknown scale_variables '");
        push_text(&mut e, name);
        push_text(&mut e, "'; use True, False or 'auto'");
        Err(e)
    }
}

/// The value of the `barrier` option (the barrier parameter strategy) that `name` selects, if any.
pub open spec fn barrier_named(name: Seq<char>) -> Option<BarrierUpdate> {
    if name == "monotone"@ {
        Some(BarrierUpdate::Monotone)
    } else if name == "adaptive"@ {
        Some(BarrierUpdate::Adaptive)
    } else if name == "adaptive-then-monotone"@ || name == "auto"@ {
        Some(BarrierUpdate::AdaptiveThenMonotone)
    } else {
        None
    }
}

/// The `barrier` option by name, one of `monotone`, `adaptive`, `adaptive-then-monotone`, `auto`; any other name is refused,
/// quoted, with the names that are known.
pub fn parse_barrier(name: &str) -> (r: Result<BarrierUpdate, String>)
    ensures
        match barrier_named(name@) {
            Some(v) => r == Ok::<BarrierUpdate, String>(v),
            None => r matches Err(e) && e@ == "unknown barrier '"@ + name@ + "'; use 'monotone', 'adaptive' or 'adaptive-then-monotone'"@,
        },
{
    if same_text(name, "monotone") {
        Ok(BarrierUpdate::Monotone)
    } else if same_text(name, "adaptive") {
        Ok(BarrierUpdate::Adaptive)
    } else if same_text(name, "adaptive-then-monotone") || same_text(name, "auto") {
        Ok(BarrierUpdate::AdaptiveThenMonotone)
    } else {
        let mut e = text("unknown barrier '");
        push_text(&mut e, name);
        push_text(&mut e, "'; use 'monotone', 'adaptive' or 'adaptive-then-monotone'");
        Err(e)
    }
}

/// The value of the `finite_diff` option (the finite-difference flavour) that `name` selects, if any.
pub open spec fn fd_type_named(name: Seq<char>) -> Option<FdType> {
    if name == "forward"@ {
        Some(FdType::Forward)
    } else if name == "central"@ {
        Some(FdType::Central)
    } else if name == "adaptive"@ {
        Some(FdType::Adaptive)
    } else {
        None
    }
}

/// The `finite_diff` option by name, one of `forward`, `central`, `adaptive`; any other name is refused,
/// quoted, with the names that are known.
pub fn parse_finite_diff(name: &str) -> (r: Result<FdType, String>)
    ensures
        match fd_type_named(name@) {
            Some(v) => r == Ok::<FdType, String>(v),
            None => r matches Err(e) && e@ == "unknown finite_diff '"@ + name@ + "'; use 'forward', 'central' or 'adaptive'"@,
        },
{
    if same_text(name, "forward") {
        Ok(FdType::Forward)
    } else if same_text(name, "central") {
        Ok(FdType::Central)
    } else if same_text(name, "adaptive") {
        Ok(FdType::Adaptive)
    } else {
        let mut e = text("unknown finite_diff '");
        push_text(&mut e, name);
        push_text(&mut e, "'; use 'forward', 'central' or 'adaptive'");
        Err(e)
    }
}

/// Whether a constraint block of type `name` is an equality (`eq`) or an
/// inequality `fun(x) >= 0` (`ineq`), if `name` is either.
pub open spec fn constraint_type_named(name: Seq<char>) -> Option<bool> {
    if name == "eq"@ {
        Some(true)
    } else if name == "ineq"@ {
        Some(false)
    } else {
        None
    }
}

/// Whether a constraint block is an equality, by its type `eq` or `ineq`;
/// any other type is refused, quoted.
pub fn parse_constraint_type(name: &str) -> (r: Result<bool, String>)
    ensures
        match constraint_type_named(name@) {
            Some(b) => r == Ok::<bool, String>(b),
            None => r matches Err(e) && e@ == "constraint type must be 'eq' or 'ineq', got '"@ + name@ + "'"@,
        },
{
    if same_text(name, "eq") {
        Ok(true)
    } else if same_text(name, "ineq") {
        Ok(false)
    } else {
        let mut e = text("constraint type must be 'eq' or 'ineq', got '");
        push_text(&mut e, name);
        push_text(&mut e, "'");
        Err(e)
    }
}

/// The `check_derivatives` option given as a flag: on checks in full, off
/// does not check.
pub fn check_derivatives_from_flag(flag: bool) -> (r: DerivativeCheck)
    ensures
        r == (if flag { DerivativeCheck::Full } else { DerivativeCheck::Off }),
{
    if flag {
        DerivativeCheck::Full
    } else {
        DerivativeCheck::Off
    }
}

/// The `quadratic_rows` option given as a flag: on accepts every row that
/// keeps the feasible set convex, off accepts none.
pub fn quadratic_rows_from_flag(flag: bool) -> (r: QuadraticRows)
    ensures
        r == (if flag { QuadraticRows::Values } else { QuadraticRows::Off }),
{
    if flag {
        QuadraticRows::Values
    } else {
        QuadraticRows::Off
    }
}

/// The `scale_variables` option given as a flag: always or never.
pub fn scale_variables_from_flag(flag: bool) -> (r: VariableScaling)
    ensures
        r == (if flag { VariableScaling::On } else { VariableScaling::Off }),
{
    if flag {
        VariableScaling::On
    } else {
        VariableScaling::Off
    }
}

} // verus!
