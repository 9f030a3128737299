use mincon::{distance1_coloring, star_coloring, verify_coloring, Coloring, Sparsity};

fn banded(n: usize, bw: usize) -> Sparsity {
    let mut t = Vec::new();
    for j in 0..n {
        for i in j.saturating_sub(bw)..(j + bw + 1).min(n) {
            t.push((i, j));
        }
    }
    Sparsity::from_triplets(n, n, &t).unwrap()
}

fn compression(c: &Coloring, ncols: usize) -> f64 {
    if c.num_groups() == 0 {
        1.0
    } else {
        ncols as f64 / c.num_groups() as f64
    }
}

#[test]
fn diagonal_needs_one_group() {
    let s = Sparsity::from_triplets(5, 5, &(0..5).map(|i| (i, i)).collect::<Vec<_>>()).unwrap();
    let c = distance1_coloring(&s);
    assert_eq!(c.num_groups(), 1);
    verify_coloring(&s, &c).unwrap();
    assert!((compression(&c, 5) - 5.0).abs() < 1e-12);
}

#[test]
fn dense_needs_one_group_per_column() {
    let s = Sparsity::dense(4, 4);
    let c = distance1_coloring(&s);
    assert_eq!(c.num_groups(), 4);
    verify_coloring(&s, &c).unwrap();
}

#[test]
fn tridiagonal_needs_three_groups() {
    let s = banded(50, 1);
    let c = distance1_coloring(&s);
    assert_eq!(c.num_groups(), 3, "tridiagonal is 3-colorable");
    verify_coloring(&s, &c).unwrap();
    assert!(compression(&c, 50) > 16.0);
}

#[test]
fn banded_compression_scales() {
    for bw in 1..6 {
        let s = banded(120, bw);
        let c = distance1_coloring(&s);
        verify_coloring(&s, &c).unwrap();
        assert!(c.num_groups() <= 2 * bw + 1, "bandwidth {bw} used {} groups", c.num_groups());
    }
}

#[test]
fn star_coloring_is_at_least_as_strong_as_distance1() {
    let s = banded(40, 2);
    let star = star_coloring(&s);
    let d1 = distance1_coloring(&s);
    verify_coloring(&s, &star).unwrap();
    verify_coloring(&s, &d1).unwrap();
    assert!(
        star.num_groups() >= d1.num_groups(),
        "star coloring should never use fewer groups than distance-1"
    );
}

#[test]
fn arrowhead_is_the_adversarial_case() {
    let n = 8;
    let mut t = Vec::new();
    for i in 0..n {
        t.push((i, 0));
        t.push((0, i));
        t.push((i, i));
    }
    let s = Sparsity::from_triplets(n, n, &t).unwrap();
    let c = distance1_coloring(&s);
    verify_coloring(&s, &c).unwrap();
    assert_eq!(c.num_groups(), n);
}

#[test]
fn empty_columns_do_not_consume_groups() {
    let s = Sparsity::from_triplets(3, 4, &[(0, 0), (1, 2), (2, 3)]).unwrap();
    let c = distance1_coloring(&s);
    verify_coloring(&s, &c).unwrap();
    assert_eq!(c.num_groups(), 1);
}

#[test]
fn groups_list_the_columns_of_each_color() {
    let s = banded(6, 1);
    let c = distance1_coloring(&s);
    for (g, cols) in c.groups().iter().enumerate() {
        for w in cols.windows(2) {
            assert!(w[0] < w[1]);
        }
        for &j in cols {
            assert_eq!(c.colors()[j], g);
        }
    }
    let total: usize = c.groups().iter().map(|g| g.len()).sum();
    assert_eq!(total, 6);
    assert_eq!(c.colors(), &[1, 2, 0, 1, 2, 0]);
}

#[test]
fn distance1_takes_the_lowest_free_color_in_degree_order() {
    // Column 1 touches both rows and has the largest degree; it is colored
    // first with 0, then columns 0 and 2 each avoid it.
    let s = Sparsity::from_triplets(2, 3, &[(0, 0), (0, 1), (1, 1), (1, 2)]).unwrap();
    let c = distance1_coloring(&s);
    assert_eq!(c.colors(), &[1, 0, 1]);
    assert_eq!(c.num_groups(), 2);
    assert_eq!(c.groups()[0], vec![1]);
    assert_eq!(c.groups()[1], vec![0, 2]);
}

#[test]
fn star_coloring_separates_columns_two_conflicts_apart() {
    // A path 0 - 1 - 2 of conflicts: distance-1 may reuse a color for 0
    // and 2, the distance-2 coloring may not.
    let s = Sparsity::from_triplets(2, 3, &[(0, 0), (0, 1), (1, 1), (1, 2)]).unwrap();
    let c = star_coloring(&s);
    verify_coloring(&s, &c).unwrap();
    assert_eq!(c.num_groups(), 3);
    assert_eq!(c.colors(), &[1, 0, 2]);
}

#[test]
fn a_clash_is_reported_with_its_row_and_columns() {
    let s = Sparsity::from_triplets(3, 3, &[(0, 0), (1, 0), (1, 2), (2, 1), (2, 2)]).unwrap();
    let bad = Coloring::from_colors(vec![0, 0, 0]);
    assert_eq!(
        verify_coloring(&s, &bad).unwrap_err(),
        "columns 0 and 2 share color 0 and both touch row 1"
    );
    let good = Coloring::from_colors(vec![0, 0, 1]);
    verify_coloring(&s, &good).unwrap();
    assert_eq!(good.num_groups(), 2);
    assert_eq!(good.groups()[0], vec![0, 1]);
}

fn conflicts(s: &Sparsity, j: usize, k: usize) -> bool {
    j != k && s.col(j).iter().any(|i| s.col(k).contains(i))
}

#[test]
fn no_column_gets_a_color_beyond_its_conflicts() {
    let mut t = Vec::new();
    for j in 0..12usize {
        t.push((j % 5, j));
        t.push(((j * 7) % 9, j));
    }
    let s = Sparsity::from_triplets(9, 12, &t).unwrap();
    let d1 = distance1_coloring(&s);
    let star = star_coloring(&s);
    for x in 0..12 {
        let near1 = (0..12).filter(|&k| conflicts(&s, x, k)).count();
        let near2 = (0..12)
            .filter(|&k| k != x && (conflicts(&s, x, k) || (0..12).any(|m| conflicts(&s, x, m) && conflicts(&s, m, k))))
            .count();
        assert!(d1.colors()[x] <= near1);
        assert!(star.colors()[x] <= near2);
        for k in 0..12 {
            if k != x && (conflicts(&s, x, k) || (0..12).any(|m| conflicts(&s, x, m) && conflicts(&s, m, k))) {
                assert_ne!(star.colors()[x], star.colors()[k]);
            }
        }
    }
    verify_coloring(&s, &d1).unwrap();
    verify_coloring(&s, &star).unwrap();
}

fn assert_partition(c: &Coloring, ncols: usize) {
    let colors = c.colors();
    let groups = c.groups();
    assert_eq!(colors.len(), ncols);
    let top = colors.iter().map(|&g| g + 1).max().unwrap_or(0);
    assert_eq!(c.num_groups(), top);
    assert_eq!(groups.len(), top);
    for (g, members) in groups.iter().enumerate() {
        assert!(!members.is_empty(), "group {g} is empty");
        assert!(members.windows(2).all(|w| w[0] < w[1]));
        for &j in members {
            assert_eq!(colors[j], g);
        }
    }
    for j in 0..ncols {
        assert!(groups[colors[j]].contains(&j));
    }
}

#[test]
fn the_groups_partition_the_columns() {
    for bw in 0..4 {
        let s = banded(20, bw);
        assert_partition(&distance1_coloring(&s), 20);
        assert_partition(&star_coloring(&s), 20);
    }
    let empty = Sparsity::from_triplets(0, 0, &[]).unwrap();
    assert_partition(&distance1_coloring(&empty), 0);
}
