use mincon::Sparsity;

#[test]
fn dense_pattern_is_valid() {
    let s = Sparsity::dense(3, 4);
    assert_eq!(s.nnz(), 12);
    assert_eq!(s.col(2), &[0, 1, 2]);
    let density = s.nnz() as f64 / ((s.nrows() as f64) * (s.ncols() as f64));
    assert!((density - 1.0).abs() < 1e-12);
}

#[test]
fn triplets_sort_and_dedup() {
    let s = Sparsity::from_triplets(3, 2, &[(2, 0), (0, 0), (2, 0), (1, 1)]).unwrap();
    assert_eq!(s.col(0), &[0, 2]);
    assert_eq!(s.col(1), &[1]);
    assert_eq!(s.nnz(), 3);
}

#[test]
fn transpose_roundtrips() {
    let s = Sparsity::from_triplets(4, 3, &[(0, 0), (3, 0), (1, 1), (2, 2), (0, 2)]).unwrap();
    let t = s.transpose();
    assert_eq!(t.nrows(), 3);
    assert_eq!(t.ncols(), 4);
    assert_eq!(t.transpose(), s);
}

#[test]
fn rejects_unsorted_columns() {
    let e = Sparsity::new(3, 1, vec![0, 2], vec![2, 0]).unwrap_err();
    assert!(e.contains("strictly increasing"));
}

#[test]
fn new_names_the_first_broken_invariant() {
    assert_eq!(
        Sparsity::new(3, 2, vec![0, 1], vec![0]).unwrap_err(),
        "col_ptr has length 2 but ncols + 1 = 3"
    );
    assert_eq!(
        Sparsity::new(3, 1, vec![1, 1], vec![0]).unwrap_err(),
        "col_ptr[0] must be 0"
    );
    assert_eq!(
        Sparsity::new(3, 1, vec![0, 2], vec![0]).unwrap_err(),
        "col_ptr[ncols] = 2 but row_idx has length 1"
    );
    assert_eq!(
        Sparsity::new(3, 3, vec![0, 2, 1, 3], vec![0, 1, 2]).unwrap_err(),
        "col_ptr not non-decreasing at column 1"
    );
    assert_eq!(
        Sparsity::new(3, 1, vec![0, 2], vec![0, 7]).unwrap_err(),
        "row index 7 out of range in column 0"
    );
    assert_eq!(
        Sparsity::new(3, 1, vec![0, 2], vec![1, 1]).unwrap_err(),
        "row indices in column 0 must be strictly increasing"
    );
    let s = Sparsity::new(3, 2, vec![0, 1, 3], vec![2, 0, 1]).unwrap();
    assert_eq!(s.col(1), &[0, 1]);
}

#[test]
fn triplets_out_of_range_are_refused() {
    assert_eq!(
        Sparsity::from_triplets(2, 2, &[(0, 0), (2, 1)]).unwrap_err(),
        "triplet (2, 1) out of range 2x2"
    );
    assert!(Sparsity::from_triplets(2, 2, &[(0, 5)]).is_err());
    let empty = Sparsity::from_triplets(2, 3, &[]).unwrap();
    assert_eq!(empty.nnz(), 0);
    assert_eq!(empty.col_ptr(), &[0, 0, 0, 0]);
}

#[test]
fn transpose_moves_every_entry() {
    let s = Sparsity::from_triplets(2, 3, &[(0, 0), (1, 1), (0, 2), (1, 2)]).unwrap();
    let t = s.transpose();
    assert_eq!(t.col_ptr(), &[0, 2, 4]);
    assert_eq!(t.row_idx(), &[0, 2, 1, 2]);
    assert_eq!(t.nnz(), s.nnz());
}

#[test]
fn triplet_order_and_repeats_do_not_matter() {
    let a = Sparsity::from_triplets(3, 3, &[(0, 0), (2, 1), (1, 2), (0, 2)]).unwrap();
    let b = Sparsity::from_triplets(3, 3, &[(0, 2), (1, 2), (0, 2), (2, 1), (0, 0), (2, 1)]).unwrap();
    assert_eq!(a, b);
    assert_eq!(a.col_ptr(), &[0, 1, 2, 4]);
    assert_eq!(a.row_idx(), &[0, 2, 0, 1]);
}

#[test]
fn a_column_ending_past_the_rows_names_the_first_decrease() {
    assert_eq!(
        Sparsity::new(3, 2, vec![0, 5, 2], vec![0, 1]).unwrap_err(),
        "col_ptr not non-decreasing at column 1"
    );
    assert_eq!(
        Sparsity::new(3, 3, vec![0, 5, 1, 2], vec![0, 1]).unwrap_err(),
        "col_ptr not non-decreasing at column 1"
    );
    assert_eq!(
        Sparsity::new(3, 3, vec![0, 1, 4, 4, 2], vec![0, 1]).unwrap_err(),
        "col_ptr has length 5 but ncols + 1 = 4"
    );
    assert_eq!(
        Sparsity::new(3, 4, vec![0, 1, 4, 4, 2], vec![0, 1]).unwrap_err(),
        "col_ptr not non-decreasing at column 3"
    );
}

#[test]
fn the_transpose_keeps_the_entry_count_and_transposes_back() {
    let s = Sparsity::from_triplets(3, 4, &[(0, 0), (2, 0), (1, 1), (0, 3), (2, 3)]).unwrap();
    let t = s.transpose();
    assert_eq!(t.nnz(), s.nnz());
    assert_eq!((t.nrows(), t.ncols()), (4, 3));
    let u = t.transpose();
    assert_eq!(u.col_ptr(), s.col_ptr());
    assert_eq!(u.row_idx(), s.row_idx());
}
