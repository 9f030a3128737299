use mincon::{compute_ordering, invert, PivotOrder, Sparsity};

fn upper_of(n: usize, edges: &[(usize, usize)]) -> Sparsity {
    let mut t: Vec<(usize, usize)> = (0..n).map(|i| (i, i)).collect();
    for &(a, b) in edges {
        let (i, j) = if a <= b { (a, b) } else { (b, a) };
        t.push((i, j));
    }
    Sparsity::from_triplets(n, n, &t).unwrap()
}

#[test]
fn natural_is_identity() {
    let s = upper_of(4, &[(0, 1), (1, 2)]);
    let p = compute_ordering(4, s.col_ptr(), s.row_idx(), PivotOrder::Natural);
    assert_eq!(p, vec![0, 1, 2, 3]);
}

#[test]
fn rcm_is_a_permutation() {
    let s = upper_of(6, &[(0, 3), (3, 5), (1, 4), (4, 2), (2, 5)]);
    let p = compute_ordering(6, s.col_ptr(), s.row_idx(), PivotOrder::Rcm);
    let mut q = p.clone();
    q.sort_unstable();
    assert_eq!(q, (0..6).collect::<Vec<_>>());
}

#[test]
fn rcm_handles_disconnected_components() {
    let s = upper_of(5, &[(0, 1), (3, 4)]);
    let p = compute_ordering(5, s.col_ptr(), s.row_idx(), PivotOrder::Rcm);
    let mut q = p.clone();
    q.sort_unstable();
    assert_eq!(q, (0..5).collect::<Vec<_>>());
}

#[test]
fn rcm_reduces_bandwidth_on_a_reversed_path() {
    let n: usize = 40;
    let mut edges = Vec::new();
    for k in 0..n - 1 {
        let a = if k % 2 == 0 { k / 2 } else { n - 1 - k / 2 };
        let b = if (k + 1) % 2 == 0 { k.div_ceil(2) } else { n - 1 - k.div_ceil(2) };
        edges.push((a, b));
    }
    let s = upper_of(n, &edges);
    let p = compute_ordering(n, s.col_ptr(), s.row_idx(), PivotOrder::Rcm);
    let inv = invert(&p);
    let bw = |f: &dyn Fn(usize) -> usize| edges.iter().map(|&(a, b)| f(a).abs_diff(f(b))).max().unwrap_or(0);
    let natural = bw(&|i| i);
    let permuted = bw(&|i| inv[i]);
    assert!(permuted < natural, "RCM bandwidth {permuted} should beat natural {natural}");
}

#[test]
fn invert_roundtrips() {
    let p = vec![3, 0, 2, 1];
    let inv = invert(&p);
    for (k, &pk) in p.iter().enumerate() {
        assert_eq!(inv[pk], k);
    }
}

#[test]
fn inverting_twice_gives_back_the_permutation() {
    let p = vec![4, 2, 0, 1, 3];
    let inv = invert(&p);
    assert_eq!(inv, vec![2, 3, 1, 4, 0]);
    assert_eq!(invert(&inv), p);
}

#[test]
fn rcm_of_an_empty_matrix_is_empty() {
    let s = upper_of(0, &[]);
    assert!(compute_ordering(0, s.col_ptr(), s.row_idx(), PivotOrder::Rcm).is_empty());
    assert_eq!(PivotOrder::default(), PivotOrder::Rcm);
}

#[test]
fn rcm_follows_the_cuthill_mckee_rule() {
    // Path 1 - 4 - 2 - 5 - 3 - 0: the search starts at vertex 0 (degree
    // one, lowest index) and walks the path; the reversal ends at 0.
    let s = upper_of(6, &[(0, 3), (3, 5), (1, 4), (4, 2), (2, 5)]);
    let p = compute_ordering(6, s.col_ptr(), s.row_idx(), PivotOrder::Rcm);
    assert_eq!(p, vec![1, 4, 2, 5, 3, 0]);
    // An isolated vertex of degree zero starts the first component.
    let s = upper_of(5, &[(0, 1), (3, 4)]);
    let p = compute_ordering(5, s.col_ptr(), s.row_idx(), PivotOrder::Rcm);
    assert_eq!(p, vec![4, 3, 1, 0, 2]);
    // A star: the centre has the largest degree, so the search starts at
    // leaf 1 and reaches the centre second.
    let s = upper_of(4, &[(0, 1), (0, 2), (0, 3)]);
    let p = compute_ordering(4, s.col_ptr(), s.row_idx(), PivotOrder::Rcm);
    assert_eq!(p, vec![3, 2, 0, 1]);
}
