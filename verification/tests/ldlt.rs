use mincon::{Inertia, LdltError, PivotOrder, Sparsity, Symbolic};

fn structure_message(e: LdltError) -> String {
    match e {
        LdltError::Structure(m) => m,
        other => panic!("expected a structure error, got {other:?}"),
    }
}

#[test]
fn rejects_lower_triangular_input() {
    let p = Sparsity::from_triplets(2, 2, &[(1, 0), (1, 1)]).unwrap();
    let e = Symbolic::analyse(&p, PivotOrder::Natural).unwrap_err();
    assert!(matches!(e, LdltError::Structure(_)));
    assert_eq!(
        structure_message(e),
        "entry (1, 0) is below the diagonal; supply the upper triangle"
    );
}

#[test]
fn rejects_a_rectangular_pattern() {
    let p = Sparsity::dense(2, 3);
    let e = Symbolic::analyse(&p, PivotOrder::Rcm).unwrap_err();
    assert_eq!(structure_message(e), "matrix must be square, got 2x3");
}

#[test]
fn the_first_offending_column_is_named() {
    let p = Sparsity::from_triplets(3, 3, &[(0, 0), (0, 1), (2, 1), (1, 2), (2, 2)]).unwrap();
    let e = Symbolic::analyse(&p, PivotOrder::Natural).unwrap_err();
    assert_eq!(
        structure_message(e.clone()),
        "entry (2, 1) is below the diagonal; supply the upper triangle"
    );
    assert_eq!(e.message(), "matrix structure is invalid: entry (2, 1) is below the diagonal; supply the upper triangle");
}

#[test]
fn a_missing_structural_diagonal_is_added() {
    let p = Sparsity::from_triplets(2, 2, &[(0, 0), (0, 1)]).unwrap();
    let s = Symbolic::analyse(&p, PivotOrder::Natural).unwrap();
    assert_eq!(s.n(), 2);
    assert_eq!(s.perm(), &[0, 1]);
    assert_eq!(s.inverse_perm(), &[0, 1]);
    assert_eq!(s.upper().col_ptr(), &[0, 1, 3]);
    assert_eq!(s.upper().row_idx(), &[0, 0, 1]);
    assert_eq!(s.value_map(), &[0, 1]);
    assert_eq!(s.diag_pos(), &[0, 2]);
    assert_eq!(s.etree(), &[1, usize::MAX]);
    assert_eq!(s.l_col_ptr(), &[0, 1, 1]);
    assert_eq!(s.l_nnz(), 1);
    assert_eq!(s.ordering(), PivotOrder::Natural);
}

#[test]
fn a_dense_upper_triangle_fills_in_completely() {
    let p = Sparsity::from_triplets(3, 3, &[(0, 0), (0, 1), (1, 1), (0, 2), (1, 2), (2, 2)]).unwrap();
    let s = Symbolic::analyse(&p, PivotOrder::Natural).unwrap();
    assert_eq!(s.etree(), &[1, 2, usize::MAX]);
    assert_eq!(s.l_col_ptr(), &[0, 2, 3, 3]);
    assert_eq!(s.l_nnz(), 3);
    assert_eq!(s.value_map(), &[0, 1, 2, 3, 4, 5]);
}

#[test]
fn a_diagonal_matrix_has_no_fill() {
    let p = Sparsity::from_triplets(4, 4, &[(0, 0), (1, 1), (2, 2), (3, 3)]).unwrap();
    let s = Symbolic::analyse(&p, PivotOrder::Rcm).unwrap();
    assert_eq!(s.l_nnz(), 0);
    assert_eq!(s.etree(), &[usize::MAX; 4]);
}

#[test]
fn every_entry_lands_on_its_permuted_position() {
    // An arrowhead: the last column is dense.
    let n = 6;
    let mut t = Vec::new();
    for i in 0..n {
        t.push((i, i));
        t.push((i, n - 1));
    }
    let p = Sparsity::from_triplets(n, n, &t).unwrap();
    for order in [PivotOrder::Natural, PivotOrder::Rcm] {
        let s = Symbolic::analyse(&p, order).unwrap();
        let perm = s.perm();
        let iperm = s.inverse_perm();
        for k in 0..n {
            assert_eq!(iperm[perm[k]], k);
        }
        let u = s.upper();
        for j in 0..n {
            for pos in p.col_ptr()[j]..p.col_ptr()[j + 1] {
                let i = p.row_idx()[pos];
                let (a, b) = (iperm[i], iperm[j]);
                let (r, c) = if a <= b { (a, b) } else { (b, a) };
                let slot = s.value_map()[pos];
                assert!(u.col_ptr()[c] <= slot && slot < u.col_ptr()[c + 1]);
                assert_eq!(u.row_idx()[slot], r);
            }
        }
        for k in 0..n {
            assert_eq!(u.row_idx()[s.diag_pos()[k]], k);
            let parent = s.etree()[k];
            assert!(parent == usize::MAX || (k < parent && parent < n));
        }
    }
}

#[test]
fn inertia_of_a_kkt_matrix() {
    let i = Inertia { positive: 3, negative: 2, zero: 0 };
    assert!(i.is_kkt_correct(3, 2));
    assert!(!i.is_kkt_correct(2, 3));
    let singular = Inertia { positive: 3, negative: 1, zero: 1 };
    assert!(!singular.is_kkt_correct(3, 1));
    assert_eq!(Inertia::default(), Inertia { positive: 0, negative: 0, zero: 0 });
}

#[test]
fn factorization_errors_describe_themselves() {
    assert_eq!(
        LdltError::ZeroPivot(4).message(),
        "zero pivot at position 4; enable dynamic regularization or raise delta_w"
    );
    assert_eq!(LdltError::NonFinite(12).message(), "non-finite value encountered at pivot 12");
    assert_eq!(
        LdltError::Dimension("rhs has 3 entries".to_string()).message(),
        "dimension mismatch: rhs has 3 entries"
    );
}

#[test]
fn a_small_arrowhead_has_no_fill_under_either_ordering() {
    let p = Sparsity::from_triplets(3, 3, &[(0, 0), (1, 1), (2, 2), (0, 2), (1, 2)]).unwrap();
    let natural = Symbolic::analyse(&p, PivotOrder::Natural).unwrap();
    assert_eq!(natural.l_nnz(), 2);
    let rcm = Symbolic::analyse(&p, PivotOrder::Rcm).unwrap();
    assert_eq!(rcm.perm(), &[1, 2, 0]);
    assert_eq!(rcm.l_nnz(), 2);
}

#[test]
fn a_large_diagonal_is_analysed_without_fill() {
    let n = 70_000;
    let t: Vec<(usize, usize)> = (0..n).map(|i| (i, i)).collect();
    let p = Sparsity::from_triplets(n, n, &t).unwrap();
    for order in [PivotOrder::Natural, PivotOrder::Rcm] {
        let s = Symbolic::analyse(&p, order).unwrap();
        assert_eq!(s.n(), n);
        assert_eq!(s.l_nnz(), 0);
        let perm = s.perm();
        let iperm = s.inverse_perm();
        for k in 0..n {
            assert_eq!(iperm[perm[k]], k);
        }
    }
}
