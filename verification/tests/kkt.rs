use mincon::{transpose_with_map, KktSystem, PivotOrder, Sparsity};

fn dense_of(p: &Sparsity, values: &[f64]) -> Vec<Vec<f64>> {
    let mut m = vec![vec![0.0; p.ncols()]; p.nrows()];
    for j in 0..p.ncols() {
        for pos in p.col_ptr()[j]..p.col_ptr()[j + 1] {
            m[p.row_idx()[pos]][j] = values[pos];
        }
    }
    m
}

#[test]
fn transpose_map_moves_values_correctly() {
    let p = Sparsity::from_triplets(2, 3, &[(0, 0), (1, 1), (0, 2), (1, 2)]).unwrap();
    let (t, map) = transpose_with_map(&p);
    assert_eq!(t.nrows(), 3);
    assert_eq!(t.ncols(), 2);
    let vals = [10.0, 20.0, 30.0, 40.0];
    let mut tvals = vec![0.0; t.nnz()];
    for (k, &slot) in map.positions().iter().enumerate() {
        tvals[slot] = vals[k];
    }
    let m = dense_of(&t, &tvals);
    assert_eq!(m[0][0], 10.0);
    assert_eq!(m[1][1], 20.0);
    assert_eq!(m[2][0], 30.0);
    assert_eq!(m[2][1], 40.0);
}

#[test]
fn the_transpose_map_is_a_permutation() {
    let p = Sparsity::from_triplets(3, 3, &[(0, 0), (2, 0), (1, 1), (0, 2), (2, 2)]).unwrap();
    let (t, map) = transpose_with_map(&p);
    assert_eq!(map.positions(), &[0, 3, 2, 1, 4]);
    let mut seen = map.positions().to_vec();
    seen.sort_unstable();
    assert_eq!(seen, (0..t.nnz()).collect::<Vec<_>>());
}

/// Fill the KKT values the way a solver iteration does: Hessian and
/// Jacobian values through their maps, `-1` at each slack, the barrier
/// diagonal plus `delta_w` on the primal diagonal, `-delta_c` on the dual.
fn assemble(k: &KktSystem, hess: &[f64], jac: &[f64], sigma: &[f64], delta_w: f64, delta_c: f64) -> Vec<f64> {
    let mut vals = vec![0.0; k.pattern().nnz()];
    for (q, &p) in k.hess_map().positions().iter().enumerate() {
        vals[p] += hess[q];
    }
    for (q, &p) in k.jac_map().positions().iter().enumerate() {
        vals[p] += jac[q];
    }
    for &p in k.slack_positions() {
        vals[p] = -1.0;
    }
    for (j, &p) in k.diag_v().iter().enumerate() {
        vals[p] += sigma[j] + delta_w;
    }
    for &p in k.diag_c() {
        vals[p] = -delta_c;
    }
    vals
}

#[test]
fn slack_columns_get_their_minus_one() {
    let (n, nv, m) = (1, 2, 1);
    let hess = Sparsity::from_triplets(1, 1, &[(0, 0)]).unwrap();
    let jac_t = Sparsity::from_triplets(2, 1, &[(0, 0)]).unwrap();
    let k = KktSystem::new(nv, n, m, &hess, &jac_t, &[Some(1)], PivotOrder::Natural).unwrap();
    let vals = assemble(&k, &[2.0], &[3.0], &[0.5, 0.5], 0.0, 1e-8);
    let dense = dense_of(k.pattern(), &vals);
    assert_eq!(dense[0][0], 2.5);
    assert_eq!(dense[1][1], 0.5);
    assert_eq!(dense[0][2], 3.0, "jacobian entry");
    assert_eq!(dense[1][2], -1.0, "slack coefficient");
    assert_eq!(dense[2][2], -1e-8, "dual regularization");
}

#[test]
fn entry_coords_round_trips_every_position() {
    let (n, nv, m) = (3, 4, 2);
    let hess = Sparsity::from_triplets(3, 3, &[(0, 0), (0, 1), (1, 1), (2, 2)]).unwrap();
    let jac_t = Sparsity::from_triplets(4, 2, &[(0, 0), (2, 0), (1, 1), (3, 1)]).unwrap();
    let k = KktSystem::new(nv, n, m, &hess, &jac_t, &[Some(2), Some(3)], PivotOrder::Natural).unwrap();
    let p = k.pattern();
    for col in 0..p.ncols() {
        for pos in p.col_ptr()[col]..p.col_ptr()[col + 1] {
            let (r, c) = k.entry_coords(pos);
            assert_eq!(c, col, "column mismatch at position {pos}");
            assert_eq!(r, p.row_idx()[pos]);
        }
    }
}

#[test]
fn the_kkt_pattern_holds_every_block() {
    let hess = Sparsity::from_triplets(1, 1, &[(0, 0)]).unwrap();
    let jac_t = Sparsity::from_triplets(2, 1, &[(0, 0)]).unwrap();
    let k = KktSystem::new(2, 1, 1, &hess, &jac_t, &[Some(1)], PivotOrder::Natural).unwrap();
    assert_eq!(k.dim(), 3);
    assert_eq!(k.nv(), 2);
    assert_eq!(k.m(), 1);
    assert_eq!(k.pattern().col_ptr(), &[0, 1, 2, 5]);
    assert_eq!(k.pattern().row_idx(), &[0, 1, 0, 1, 2]);
    assert_eq!(k.diag_v(), &[0, 1]);
    assert_eq!(k.diag_c(), &[4]);
    assert_eq!(k.hess_map().positions(), &[0]);
    assert_eq!(k.jac_map().positions(), &[2]);
    assert_eq!(k.slack_positions(), &[3]);
    assert_eq!(k.signs(), &[1, 1, -1]);
}

#[test]
fn the_factor_of_a_small_kkt_system_has_two_entries() {
    let hess = Sparsity::from_triplets(2, 2, &[(0, 0), (1, 1)]).unwrap();
    let jac_t = Sparsity::from_triplets(2, 1, &[(0, 0), (1, 0)]).unwrap();
    let k = KktSystem::new(2, 2, 1, &hess, &jac_t, &[None], PivotOrder::Natural).unwrap();
    assert_eq!(k.dim(), 3);
    assert_eq!(k.factor_nnz(), 2);
    assert_eq!(k.symbolic().n(), 3);
    assert!(k.slack_positions().is_empty());
}

#[test]
fn a_misshapen_hessian_is_refused() {
    let hess = Sparsity::from_triplets(2, 2, &[(0, 0)]).unwrap();
    let jac_t = Sparsity::from_triplets(2, 1, &[]).unwrap();
    let e = KktSystem::new(2, 3, 1, &hess, &jac_t, &[None], PivotOrder::Natural).unwrap_err();
    assert_eq!(e, "hessian pattern is 2x2, expected 3x3");
}

#[test]
fn a_misshapen_jacobian_is_refused() {
    let hess = Sparsity::from_triplets(2, 2, &[(0, 0)]).unwrap();
    let jac_t = Sparsity::from_triplets(2, 1, &[]).unwrap();
    let e = KktSystem::new(2, 2, 2, &hess, &jac_t, &[None, None], PivotOrder::Natural).unwrap_err();
    assert_eq!(e, "transposed jacobian is 2x1, expected 2x2");
}

#[test]
fn a_lower_hessian_entry_fails_the_analysis() {
    let hess = Sparsity::from_triplets(2, 2, &[(1, 0)]).unwrap();
    let jac_t = Sparsity::from_triplets(2, 1, &[]).unwrap();
    let e = KktSystem::new(2, 2, 1, &hess, &jac_t, &[None], PivotOrder::Natural).unwrap_err();
    assert_eq!(
        e,
        "symbolic analysis: matrix structure is invalid: entry (1, 0) is below the diagonal; supply the upper triangle"
    );
}

#[test]
fn a_slack_below_its_diagonal_fails_the_analysis() {
    let hess = Sparsity::from_triplets(1, 1, &[(0, 0)]).unwrap();
    let jac_t = Sparsity::from_triplets(1, 2, &[]).unwrap();
    let e = KktSystem::new(1, 1, 2, &hess, &jac_t, &[Some(2), None], PivotOrder::Rcm).unwrap_err();
    assert_eq!(
        e,
        "symbolic analysis: matrix structure is invalid: entry (2, 1) is below the diagonal; supply the upper triangle"
    );
}
