use mincon::{
    check_derivatives_from_flag, exit_flags, lower_triangle, parse_algorithm, parse_barrier, parse_check_derivatives, parse_constraint_type,
    parse_finite_diff, parse_pivot_signs, parse_quadratic_build, parse_quadratic_rows, parse_saddle_step,
    parse_scale_variables, parse_scaling, parse_zero_step, quadratic_rows_from_flag, scale_variables_from_flag,
    Algorithm, BarrierUpdate, DerivativeCheck, ExitFlag, FdType, PivotSigns, QuadraticBuild, QuadraticRows, SaddleStep,
    ScalingMode, VariableScaling, ZeroStep,
};

#[test]
fn method_names_ignore_case() {
    assert_eq!(parse_algorithm(None), Ok(Algorithm::Auto));
    assert_eq!(parse_algorithm(Some("auto")), Ok(Algorithm::Auto));
    assert_eq!(parse_algorithm(Some("AUTO")), Ok(Algorithm::Auto));
    assert_eq!(parse_algorithm(Some("Interior-Point")), Ok(Algorithm::InteriorPoint));
    assert_eq!(parse_algorithm(Some("ip")), Ok(Algorithm::InteriorPoint));
    assert_eq!(parse_algorithm(Some("SQP")), Ok(Algorithm::Sqp));
}

#[test]
fn unknown_methods_are_refused_in_lower_case() {
    assert_eq!(
        parse_algorithm(Some("Newton-CG")),
        Err("unknown method 'newton-cg'; use 'auto', 'interior-point' or 'sqp'".to_string())
    );
    assert_eq!(
        parse_algorithm(Some("")),
        Err("unknown method ''; use 'auto', 'interior-point' or 'sqp'".to_string())
    );
    assert_eq!(
        parse_algorithm(Some("SQPÉ")),
        Err("unknown method 'sqpÉ'; use 'auto', 'interior-point' or 'sqp'".to_string())
    );
}

#[test]
fn exit_flag_table_matches_the_codes() {
    let t = exit_flags();
    assert_eq!(t.len(), 10);
    assert_eq!(t[0], ("OPTIMAL", 1));
    assert_eq!(t[3], ("ACCEPTABLE", 6));
    assert_eq!(t[4], ("MAX_REACHED", 0));
    assert_eq!(t[9], ("NUMERICAL_FAILURE", -5));
    assert_eq!(t[5].1, ExitFlag::StoppedByUser.code());
}

#[test]
fn lower_triangle_is_column_major() {
    let p = lower_triangle(3);
    assert_eq!(p.nrows(), 3);
    assert_eq!(p.ncols(), 3);
    assert_eq!(p.col_ptr(), &[0, 3, 5, 6]);
    assert_eq!(p.row_idx(), &[0, 1, 2, 1, 2, 2]);
    let empty = lower_triangle(0);
    assert_eq!(empty.nnz(), 0);
    assert_eq!(empty.col_ptr(), &[0]);
}

#[test]
fn option_names_select_their_values() {
    assert_eq!(parse_check_derivatives("none"), Ok(DerivativeCheck::Off));
    assert_eq!(parse_check_derivatives("auto"), Ok(DerivativeCheck::Directional));
    assert_eq!(parse_check_derivatives("full"), Ok(DerivativeCheck::Full));
    assert_eq!(check_derivatives_from_flag(true), DerivativeCheck::Full);
    assert_eq!(check_derivatives_from_flag(false), DerivativeCheck::Off);
    assert_eq!(parse_scaling("none"), Ok(ScalingMode::Off));
    assert_eq!(parse_scaling("gradient-based"), Ok(ScalingMode::GradientBased));
    assert_eq!(parse_quadratic_build("dense"), Ok(QuadraticBuild::Dense));
    assert_eq!(parse_quadratic_rows("all"), Ok(QuadraticRows::Values));
    assert_eq!(parse_quadratic_rows("jacobian"), Ok(QuadraticRows::Jacobian));
    assert_eq!(quadratic_rows_from_flag(true), QuadraticRows::Values);
    assert_eq!(quadratic_rows_from_flag(false), QuadraticRows::Off);
    assert_eq!(parse_zero_step("norm"), Ok(ZeroStep::Norm));
    assert_eq!(parse_saddle_step("linearized"), Ok(SaddleStep::Linearized));
    assert_eq!(parse_pivot_signs("counted"), Ok(PivotSigns::Free));
    assert_eq!(parse_scale_variables("always"), Ok(VariableScaling::On));
    assert_eq!(scale_variables_from_flag(false), VariableScaling::Off);
    assert_eq!(parse_barrier("auto"), Ok(BarrierUpdate::AdaptiveThenMonotone));
    assert_eq!(parse_finite_diff("central"), Ok(FdType::Central));
}

#[test]
fn unknown_option_names_are_refused_with_the_known_ones() {
    assert_eq!(
        parse_scaling("Gradient"),
        Err("unknown scaling 'Gradient'; use 'none' or 'gradient'".to_string())
    );
    assert_eq!(
        parse_check_derivatives("yes"),
        Err("unknown check_derivatives 'yes'; use True (full), False (off), 'auto' (directional, the default) or 'full'"
            .to_string())
    );
    assert_eq!(
        parse_barrier("fixed"),
        Err("unknown barrier 'fixed'; use 'monotone', 'adaptive' or 'adaptive-then-monotone'".to_string())
    );
    assert_eq!(
        parse_finite_diff(""),
        Err("unknown finite_diff ''; use 'forward', 'central' or 'adaptive'".to_string())
    );
    assert_eq!(
        parse_pivot_signs("signed"),
        Err("unknown kkt_pivot_signs 'signed'; use 'auto', 'expected' or 'free'".to_string())
    );
}

#[test]
fn constraint_types_are_eq_or_ineq() {
    assert_eq!(parse_constraint_type("eq"), Ok(true));
    assert_eq!(parse_constraint_type("ineq"), Ok(false));
    assert_eq!(
        parse_constraint_type("EQ"),
        Err("constraint type must be 'eq' or 'ineq', got 'EQ'".to_string())
    );
}
