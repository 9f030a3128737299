//! Graph coloring for finite-difference compression.
//!
//! Two columns that share no row can be perturbed in the same evaluation; a
//! partition of the columns into such groups is a coloring of the column
//! intersection graph (Curtis, Powell and Reid). Jacobians need a
//! distance-1 coloring; symmetric matrices recovered by direct substitution
//! need the stronger star coloring, provided here as a distance-2 coloring.
use vstd::prelude::*;

use crate::counting::{count_eq, count_lt, lemma_count_lt_step};
use crate::perm::{bounded, distinct, is_permutation, lemma_distinct_bounded_len, occurs};
use crate::sort::{key_lt, sort_by_key, sorted_by_key};
use crate::sparsity::{insert_sorted, strictly_sorted, Sparsity, SparsityView};
use crate::text::{decimal, push_decimal, push_text, text};

verus! {

/// Columns `j` and `k` are different and share a row.
pub open spec fn conflict(v: SparsityView, j: int, k: int) -> bool {
    j != k && exists|i: int| #[trigger] v.has(i, j) && v.has(i, k)
}

/// Columns `j` and `k` are different and at most two conflicts apart.
pub open spec fn near(v: SparsityView, j: int, k: int) -> bool {
    ||| conflict(v, j, k)
    ||| (j != k && exists|m: int| #[trigger] conflict(v, j, m) && conflict(v, m, k))
}

/// No two columns of the same color share a row.
pub open spec fn valid_coloring(v: SparsityView, colors: Seq<usize>) -> bool {
    forall|i: int, j: int, k: int|
        #![trigger v.has(i, j), v.has(i, k)]
        j != k && v.has(i, j) && v.has(i, k) ==> colors[j] != colors[k]
}

/// No two columns of the same color are at most two conflicts apart.
pub open spec fn valid_distance2_coloring(v: SparsityView, colors: Seq<usize>) -> bool {
    forall|j: int, k: int| 0 <= j < v.ncols && 0 <= k < v.ncols && #[trigger] near(v, j, k) ==> colors[j] != colors[k]
}

/// The number of groups a coloring needs: one more than the largest color,
/// zero without columns.
pub open spec fn group_count(colors: Seq<usize>, g: nat) -> bool {
    &&& forall|j: int| 0 <= j < colors.len() ==> colors[j] < g
    &&& colors.len() == 0 ==> g == 0
    &&& colors.len() > 0 ==> exists|j: int| 0 <= j < colors.len() && colors[j] == g - 1
}

/// The mathematical content of a coloring.
pub struct ColoringView {
    /// The group of each column.
    pub colors: Seq<usize>,
    /// The columns of each group.
    pub groups: Seq<Seq<usize>>,
}

impl ColoringView {
    /// Groups list, in increasing order, exactly the columns of each color,
    /// and there are as many groups as the largest color needs.
    pub open spec fn wf(self) -> bool {
        &&& group_count(self.colors, self.groups.len())
        &&& forall|c: int| 0 <= c < self.groups.len() ==> #[trigger] strictly_sorted(self.groups[c])
        &&& forall|c: int, j: usize|
            0 <= c < self.groups.len() ==> (#[trigger] self.groups[c].contains(j) <==> (j
                < self.colors.len() && self.colors[j as int] == c))
    }
}

/// A partition of columns into structurally orthogonal groups.
#[derive(Debug, Clone)]
pub struct Coloring {
    color: Vec<usize>,
    groups: Vec<Vec<usize>>,
}

impl View for Coloring {
    type V = ColoringView;

    closed spec fn view(&self) -> ColoringView {
        ColoringView { colors: self.color@, groups: self.groups@.map_values(|g: Vec<usize>| g@) }
    }
}

impl Coloring {
    /// Group index of each column.
    pub fn colors(&self) -> (r: &[usize])
        ensures
            r@ == self@.colors,
    {
        self.color.as_slice()
    }

    /// Columns making up each group.
    pub fn groups(&self) -> (r: &[Vec<usize>])
        ensures
            r@.len() == self@.groups.len(),
            forall|c: int| 0 <= c < r@.len() ==> #[trigger] r@[c]@ == self@.groups[c],
    {
        self.groups.as_slice()
    }

    /// Number of groups: the number of model evaluations a forward-difference
    /// Jacobian costs with this coloring.
    pub fn num_groups(&self) -> (r: usize)
        ensures
            r == self@.groups.len(),
    {
        self.groups.len()
    }

    /// Group the columns by color.
    pub fn from_colors(color: Vec<usize>) -> (r: Self)
        requires
            forall|j: int| 0 <= j < color@.len() ==> color@[j] < usize::MAX,
        ensures
            r@.colors == color@,
            r@.wf(),
    {
        let n = color.len();
        let mut ngroups: usize = 0;
        let mut j: usize = 0;
        while j < n
            invariant
                j <= n == color@.len(),
                forall|q: int| 0 <= q < color@.len() ==> color@[q] < usize::MAX,
                forall|q: int| 0 <= q < j ==> color@[q] < ngroups,
                j == 0 ==> ngroups == 0,
                j > 0 ==> exists|q: int| 0 <= q < j && color@[q] == ngroups - 1,
            decreases n - j,
        {
            if color[j] + 1 > ngroups {
                ngroups = color[j] + 1;
            }
            j += 1;
        }
        let mut groups: Vec<Vec<usize>> = Vec::new();
        let mut c: usize = 0;
        while c < ngroups
            invariant
                c <= ngroups,
                groups@.len() == c,
                forall|q: int| 0 <= q < c ==> (#[trigger] groups@[q])@.len() == 0,
            decreases ngroups - c,
        {
            groups.push(Vec::new());
            c += 1;
        }
        let mut j: usize = 0;
        while j < n
            invariant
                j <= n == color@.len(),
                groups@.len() == ngroups,
                forall|q: int| 0 <= q < n ==> color@[q] < ngroups,
                forall|c: int| 0 <= c < ngroups ==> #[trigger] strictly_sorted(groups@[c]@),
                forall|c: int| 0 <= c < ngroups ==> #[trigger] all_below_usize(groups@[c]@, j),
                forall|c: int, x: usize|
                    0 <= c < ngroups ==> (#[trigger] groups@[c]@.contains(x) <==> (x < j && color@[x as int]
                        == c)),
            decreases n - j,
        {
            let c = color[j];
            let ghost before = groups@;
            groups[c].push(j);
            proof {
                assert forall|cc: int| 0 <= cc < ngroups implies #[trigger] strictly_sorted(groups@[cc]@) by {
                    if cc == c {
                        assert(all_below_usize(before[cc]@, j));
                        assert(strictly_sorted(before[cc]@));
                        assert(groups@[cc]@ == before[cc]@.push(j));
                        let g = groups@[cc]@;
                        assert forall|p: int, q: int| 0 <= p < q < g.len() implies g[p] < g[q] by {
                            if q == g.len() - 1 {
                                assert(g[p] == before[cc]@[p]);
                            } else {
                                assert(g[p] == before[cc]@[p]);
                                assert(g[q] == before[cc]@[q]);
                            }
                        }
                    } else {
                        assert(groups@[cc] == before[cc]);
                    }
                }
                assert forall|cc: int| 0 <= cc < ngroups implies #[trigger] all_below_usize(groups@[cc]@, (j + 1) as usize) by {
                    if cc == c {
                        assert(all_below_usize(before[cc]@, j));
                        assert(groups@[cc]@ == before[cc]@.push(j));
                    } else {
                        assert(groups@[cc] == before[cc]);
                        assert(all_below_usize(before[cc]@, j));
                    }
                }
                assert forall|cc: int, x: usize| 0 <= cc < ngroups implies (#[trigger] groups@[cc]@.contains(x)
                    <==> (x < j + 1 && color@[x as int] == cc)) by {
                    if cc == c {
                        assert(groups@[cc]@ == before[cc]@.push(j));
                        assert(before[cc]@.contains(x) <==> (x < j && color@[x as int] == cc));
                        if groups@[cc]@.contains(x) && x != j {
                            let t = choose|t: int| 0 <= t < groups@[cc]@.len() && groups@[cc]@[t] == x;
                            assert(before[cc]@[t] == x);
                        }
                        if x < j && color@[x as int] == cc {
                            let t = choose|t: int| 0 <= t < before[cc]@.len() && before[cc]@[t] == x;
                            assert(groups@[cc]@[t] == x);
                        }
                        if x == j {
                            assert(groups@[cc]@[before[cc]@.len() as int] == x);
                        }
                    } else {
                        assert(groups@[cc] == before[cc]);
                    }
                }
            }
            j += 1;
        }
        let r = Coloring { color, groups };
        proof {
            let gv = groups@.map_values(|g: Vec<usize>| g@);
            assert(r@.groups == gv);
            assert forall|cc: int| 0 <= cc < gv.len() implies #[trigger] strictly_sorted(gv[cc]) by {
                assert(gv[cc] == groups@[cc]@);
            }
            assert forall|cc: int, x: usize| 0 <= cc < gv.len() implies (#[trigger] gv[cc].contains(x) <==> (x
                < n && color@[x as int] == cc)) by {
                assert(gv[cc] == groups@[cc]@);
            }
        }
        r
    }
}

/// Number of stored entries in row `i`.
pub open spec fn row_len(v: SparsityView, i: int) -> nat {
    count_eq(v.row_idx, i, v.row_idx.len() as int)
}

/// Sum of the lengths of the rows stored at positions `lo..hi`.
pub open spec fn row_len_sum(v: SparsityView, lo: int, hi: int) -> nat
    decreases hi - lo,
{
    if hi <= lo {
        0
    } else {
        row_len_sum(v, lo, hi - 1) + row_len(v, v.row_idx[hi - 1] as int)
    }
}

/// The degree by which [`distance1_coloring`] orders column `j`: the total
/// length of the rows it touches.
pub open spec fn conflict_degree(v: SparsityView, j: int) -> nat {
    row_len_sum(v, v.col_ptr[j] as int, v.col_ptr[j + 1] as int)
}

/// [`conflict_degree`] of every column.
pub open spec fn conflict_degrees(v: SparsityView) -> Seq<usize> {
    Seq::new(v.ncols, |j: int| conflict_degree(v, j) as usize)
}

/// Some column conflicting with `x` comes before it by `deg` (descending,
/// then by index) and has color `c`.
pub open spec fn earlier_conflict_with(v: SparsityView, deg: Seq<usize>, colors: Seq<usize>, x: int, c: int) -> bool {
    exists|k: int|
        0 <= k < v.ncols && #[trigger] conflict(v, x, k) && key_lt(deg, true, k as usize, x as usize)
            && colors[k] == c
}

/// The greedy coloring in the order of `deg`: valid, and every column has
/// the lowest color that no earlier conflicting column has, so each lower
/// color is held by an earlier conflicting column.
pub open spec fn greedy_coloring(v: SparsityView, deg: Seq<usize>, colors: Seq<usize>) -> bool {
    &&& colors.len() == v.ncols
    &&& valid_coloring(v, colors)
    &&& forall|x: int, c: int|
        0 <= x < v.ncols && 0 <= c < colors[x] ==> #[trigger] earlier_conflict_with(v, deg, colors, x, c)
}

/// Distinct indices are ordered one way or the other.
proof fn lemma_key_total(deg: Seq<usize>, a: usize, b: usize)
    requires
        a != b,
    ensures
        key_lt(deg, true, a, b) || key_lt(deg, true, b, a),
{
}

/// Some column other than `j` among the first `n` has color `c`.
pub open spec fn color_held(colors: Seq<usize>, n: nat, j: int, c: int) -> bool {
    exists|k: int| 0 <= k < n && k != j && #[trigger] colors[k] == c
}

/// A column that must avoid `m` colors, each held by another of the `n`
/// columns, leaves `m < n`.
proof fn lemma_mex_bound(colors: Seq<usize>, n: nat, j: int, m: nat)
    requires
        colors.len() == n,
        n <= usize::MAX,
        0 <= j < n,
        forall|c: int| 0 <= c < m ==> #[trigger] color_held(colors, n, j, c),
    ensures
        m < n,
{
    let w = Seq::new(m + 1, |c: int| if c < m { (choose|k: int| 0 <= k < n && k != j && #[trigger] colors[k] == c) as usize } else { j as usize });
    assert forall|a: int| 0 <= a < w.len() implies w[a] < n && (a < m ==> colors[w[a] as int] == a && w[a] != j) by {
        if a < m {
            assert(color_held(colors, n, j, a));
        }
    }
    assert forall|a: int, b: int| 0 <= a < b < w.len() implies w[a] != w[b] by {
        assert(colors[w[a] as int] == a);
        if b < m {
            assert(colors[w[b] as int] == b);
        }
    }
    lemma_distinct_bounded_len(w, n);
}

/// Some column among the first `n` related to `x` by `rel` comes before it
/// by `deg` (descending, then by index) and has color `c`.
pub open spec fn earlier_with(rel: spec_fn(int, int) -> bool, n: nat, deg: Seq<usize>, colors: Seq<usize>, x: int, c: int) -> bool {
    exists|k: int| 0 <= k < n && #[trigger] rel(x, k) && key_lt(deg, true, k as usize, x as usize) && colors[k] == c
}

/// The invariant of a greedy coloring loop that avoids the colors of
/// columns related by `rel`, once the first `tt` columns of `order` are
/// colored, with `m` slots of forbidden colors.
pub open spec fn greedy_state(
    rel: spec_fn(int, int) -> bool,
    n: nat,
    m: nat,
    deg: Seq<usize>,
    order: Seq<usize>,
    tt: int,
    color: Seq<usize>,
    forbidden: Seq<usize>,
) -> bool {
    &&& color.len() == n
    &&& forbidden.len() == m
    &&& forall|x: int| 0 <= x < n ==> (color[x] != usize::MAX <==> #[trigger] occurs(order.take(tt), x))
    &&& forall|x: int| 0 <= x < n && color[x] != usize::MAX ==> #[trigger] color[x] < m
    &&& forall|c: int| 0 <= c < m ==> #[trigger] forbidden[c] == usize::MAX || (forbidden[c] < n
        && color[forbidden[c] as int] != usize::MAX)
    &&& forall|x: int, y: int|
        0 <= x < n && 0 <= y < n && x != y && #[trigger] rel(x, y) && color[x] != usize::MAX && color[y] != usize::MAX ==> color[x]
            != color[y]
    &&& forall|x: int, c: int|
        0 <= x < n && color[x] != usize::MAX && 0 <= c < color[x] ==> #[trigger] earlier_with(rel, n, deg, color, x, c)
}

/// Greedy distance-1 coloring of the column intersection graph, correct
/// for Jacobians. Columns are visited by decreasing degree, ties by index,
/// and each takes the lowest color not used by a conflicting column.
pub fn distance1_coloring(pattern: &Sparsity) -> (r: Coloring)
    requires
        pattern@.nrows < usize::MAX,
        pattern@.ncols + 1 < usize::MAX,
    ensures
        r@.wf(),
        greedy_coloring(pattern@, conflict_degrees(pattern@), r@.colors),
{
    proof {
        use_type_invariant(pattern);
    }
    let n = pattern.ncols();
    let t = pattern.transpose();
    proof {
        use_type_invariant(&t);
    }
    let ghost v = pattern@;
    let ghost tv = t@;
    let degree = column_degrees(pattern, &t);
    let ghost deg = degree@;
    let mut ident: Vec<usize> = Vec::new();
    let mut q: usize = 0;
    while q < n
        invariant
            q <= n,
            ident@.len() == q,
            forall|x: int| 0 <= x < q ==> ident@[x] == x,
        decreases n - q,
    {
        ident.push(q);
        q += 1;
    }
    let order = sort_by_key(&ident, &degree, true);
    proof {
        lemma_sorted_identity(ident@, order@, n as nat);
    }
    let mut color: Vec<usize> = Vec::new();
    let mut q: usize = 0;
    while q < n
        invariant
            q <= n,
            color@.len() == q,
            forall|x: int| 0 <= x < q ==> color@[x] == usize::MAX,
        decreases n - q,
    {
        color.push(usize::MAX);
        q += 1;
    }
    let mut forbidden: Vec<usize> = Vec::new();
    let mut q: usize = 0;
    while q <= n
        invariant
            q <= n + 1,
            n + 1 < usize::MAX,
            forbidden@.len() == q,
            forall|x: int| 0 <= x < q ==> forbidden@[x] == usize::MAX,
        decreases n + 1 - q,
    {
        forbidden.push(usize::MAX);
        q += 1;
    }
    proof {
        assert(order@.take(0) =~= Seq::<usize>::empty());
        assert(greedy_state(|a: int, b: int| conflict(v, a, b), n as nat, (n + 1) as nat, deg, order@, 0, color@, forbidden@));
    }
    let mut tt: usize = 0;
    while tt < n
        invariant
            v == pattern@,
            tv == t@,
            v.wf(),
            tv.wf(),
            n == v.ncols,
            tv.nrows == v.ncols,
            tv.ncols == v.nrows,
            forall|i: int, j: int| tv.has(i, j) <==> v.has(j, i),
            deg == conflict_degrees(v),
            is_permutation(order@, n as nat),
            sorted_by_key(deg, true, order@),
            tt <= n,
            n + 1 < usize::MAX,
            greedy_state(|a: int, b: int| conflict(v, a, b), n as nat, (n + 1) as nat, deg, order@, tt as int, color@, forbidden@),
        decreases n - tt,
    {
        let j = order[tt];
        proof {
            lemma_uncolored_next(|a: int, b: int| conflict(v, a, b), n as nat, (n + 1) as nat, deg, order@, tt as int, color@, forbidden@);
        }
        let ghost f0 = forbidden@;
        mark_conflicts(pattern, &t, &color, &mut forbidden, j);
        let mut c: usize = 0;
        while c < forbidden.len() && forbidden[c] == j
            invariant
                forbidden@.len() == n + 1,
                c <= n + 1,
                forall|c2: int| 0 <= c2 < c ==> forbidden@[c2] == j,
            decreases n + 1 - c,
        {
            c += 1;
        }
        proof {
            lemma_greedy_step(|a: int, b: int| conflict(v, a, b), n as nat, (n + 1) as nat, deg, order@, tt as int, color@, color@.update(j as int, c), f0, forbidden@, j as int, c as int);
        }
        color.set(j, c);
        tt += 1;
    }
    proof {
        lemma_greedy_done(|a: int, b: int| conflict(v, a, b), n as nat, (n + 1) as nat, deg, order@, color@, forbidden@);
        assert forall|i: int, x: int, y: int|
            #![trigger v.has(i, x), v.has(i, y)]
            x != y && v.has(i, x) && v.has(i, y) implies color@[x] != color@[y] by {
            assert(conflict(v, x, y));
            assert(x < n) by {
                let p = choose|p: int| v.col_ptr[x] <= p < v.col_ptr[x + 1] && v.row_idx[p] == i;
            }
            assert(y < n) by {
                let p = choose|p: int| v.col_ptr[y] <= p < v.col_ptr[y + 1] && v.row_idx[p] == i;
            }
            assert((|a: int, b: int| conflict(v, a, b))(x, y));
        }
        assert forall|x: int, c: int| 0 <= x < n && 0 <= c < color@[x] implies #[trigger] earlier_conflict_with(v, deg, color@, x, c) by {
            assert(earlier_with(|a: int, b: int| conflict(v, a, b), n as nat, deg, color@, x, c));
        }
    }
    Coloring::from_colors(color)
}

/// Mark in `forbidden`, with `j`, the color of every colored column that
/// conflicts with column `j`.
fn mark_conflicts(pattern: &Sparsity, t: &Sparsity, color: &Vec<usize>, forbidden: &mut Vec<usize>, j: usize)
    requires
        pattern@.wf(),
        t@.wf(),
        t@.nrows == pattern@.ncols,
        t@.ncols == pattern@.nrows,
        forall|i: int, k: int| t@.has(i, k) <==> pattern@.has(k, i),
        j < pattern@.ncols,
        color@.len() == pattern@.ncols,
        old(forbidden)@.len() == pattern@.ncols + 1,
        forall|x: int| 0 <= x < color@.len() && color@[x] != usize::MAX ==> #[trigger] color@[x] <= pattern@.ncols,
    ensures
        final(forbidden)@.len() == old(forbidden)@.len(),
        forall|c: int| 0 <= c < old(forbidden)@.len() ==> #[trigger] final(forbidden)@[c] == old(forbidden)@[c] || final(forbidden)@[c] == j,
        forall|c: int|
            0 <= c < old(forbidden)@.len() && #[trigger] final(forbidden)@[c] == j && old(forbidden)@[c] != j ==> exists|k: int|
                0 <= k < pattern@.ncols && k != j && conflict(pattern@, j as int, k) && color@[k] != usize::MAX && #[trigger] color@[k] == c,
        forall|k: int|
            0 <= k < pattern@.ncols && #[trigger] conflict(pattern@, j as int, k) && color@[k] != usize::MAX ==> final(forbidden)@[color@[k] as int] == j,
{
    let ghost v = pattern@;
    let ghost tv = t@;
    let ghost f0 = forbidden@;
    let col = pattern.col(j);
    let mut a: usize = 0;
    while a < col.len()
        invariant
            v == pattern@,
            tv == t@,
            v.wf(),
            tv.wf(),
            tv.nrows == v.ncols,
            tv.ncols == v.nrows,
            forall|i: int, k: int| tv.has(i, k) <==> v.has(k, i),
            j < v.ncols,
            col@ == v.col(j as int),
            a <= col@.len(),
            color@.len() == v.ncols,
            forall|x: int| 0 <= x < color@.len() && color@[x] != usize::MAX ==> #[trigger] color@[x] <= v.ncols,
            forbidden@.len() == f0.len(),
            f0.len() == v.ncols + 1,
            forall|c: int| 0 <= c < f0.len() ==> #[trigger] forbidden@[c] == f0[c] || forbidden@[c] == j,
            forall|c: int|
                0 <= c < f0.len() && #[trigger] forbidden@[c] == j && f0[c] != j ==> exists|k: int|
                    0 <= k < v.ncols && conflict(v, j as int, k) && color@[k] != usize::MAX && #[trigger] color@[k] == c,
            forall|aa: int, k: int|
                0 <= aa < a && #[trigger] v.has(col@[aa] as int, k) && k != j && color@[k] != usize::MAX ==> forbidden@[color@[k] as int] == j,
        decreases col@.len() - a,
    {
        let i = col[a];
        proof {
            assert(v.col_ptr[j as int] <= v.col_ptr[j + 1]);
            assert(v.row_idx[v.col_ptr[j as int] + a] == i);
            assert(i < v.nrows);
            assert(v.has(i as int, j as int));
        }
        let row = t.col(i);
        let mut b: usize = 0;
        while b < row.len()
            invariant
                v == pattern@,
                tv == t@,
                v.wf(),
                tv.wf(),
                tv.nrows == v.ncols,
                tv.ncols == v.nrows,
                forall|i2: int, k: int| tv.has(i2, k) <==> v.has(k, i2),
                j < v.ncols,
                i < v.nrows,
                v.has(i as int, j as int),
                col@ == v.col(j as int),
                a < col@.len(),
                col@[a as int] == i,
                row@ == tv.col(i as int),
                b <= row@.len(),
                color@.len() == v.ncols,
                forall|x: int| 0 <= x < color@.len() && color@[x] != usize::MAX ==> #[trigger] color@[x] <= v.ncols,
                forbidden@.len() == f0.len(),
                f0.len() == v.ncols + 1,
                forall|c: int| 0 <= c < f0.len() ==> #[trigger] forbidden@[c] == f0[c] || forbidden@[c] == j,
                forall|c: int|
                    0 <= c < f0.len() && #[trigger] forbidden@[c] == j && f0[c] != j ==> exists|k: int|
                        0 <= k < v.ncols && conflict(v, j as int, k) && color@[k] != usize::MAX && #[trigger] color@[k] == c,
                forall|aa: int, k: int|
                    0 <= aa < a && #[trigger] v.has(col@[aa] as int, k) && k != j && color@[k] != usize::MAX ==> forbidden@[color@[k] as int] == j,
                forall|bb: int|
                    0 <= bb < b && row@[bb] != j && color@[row@[bb] as int] != usize::MAX ==> forbidden@[color@[#[trigger] row@[bb] as int] as int] == j,
            decreases row@.len() - b,
        {
            let k = row[b];
            proof {
                assert(tv.col_ptr[i as int] <= tv.col_ptr[i + 1]);
                assert(tv.row_idx[tv.col_ptr[i as int] + b] == k);
                assert(tv.has(k as int, i as int));
                assert(v.has(i as int, k as int));
                assert(k < v.ncols);
            }
            if k != j && color[k] != usize::MAX {
                let ghost fb = forbidden@;
                proof {
                    assert(conflict(v, j as int, k as int));
                }
                forbidden.set(color[k], j);
                proof {
                    assert forall|c: int|
                        0 <= c < f0.len() && #[trigger] forbidden@[c] == j && f0[c] != j implies exists|k2: int|
                            0 <= k2 < v.ncols && conflict(v, j as int, k2) && color@[k2] != usize::MAX && #[trigger] color@[k2] == c by {
                        if c == color@[k as int] {
                            assert(color@[k as int] == c);
                        } else {
                            assert(fb[c] == j);
                        }
                    }
                }
            }
            b += 1;
        }
        proof {
            assert forall|aa: int, k: int|
                0 <= aa < a + 1 && #[trigger] v.has(col@[aa] as int, k) && k != j && color@[k] != usize::MAX implies forbidden@[color@[k] as int] == j by {
                if aa == a {
                    assert(tv.has(k, i as int));
                    let p = choose|p: int| tv.col_ptr[i as int] <= p < tv.col_ptr[i + 1] && tv.row_idx[p] == k;
                    let bb = p - tv.col_ptr[i as int];
                    assert(row@[bb] == k);
                }
            }
        }
        a += 1;
    }
    proof {
        assert forall|k: int|
            0 <= k < v.ncols && #[trigger] conflict(v, j as int, k) && color@[k] != usize::MAX implies forbidden@[color@[k] as int] == j by {
            let i = choose|i: int| #[trigger] v.has(i, j as int) && v.has(i, k);
            let p = choose|p: int| v.col_ptr[j as int] <= p < v.col_ptr[j + 1] && v.row_idx[p] == i;
            let aa = p - v.col_ptr[j as int];
            assert(col@[aa] == i);
            assert(v.has(col@[aa] as int, k));
        }
    }
}

/// The degree of every column by which [`distance1_coloring`] orders them.
fn column_degrees(pattern: &Sparsity, t: &Sparsity) -> (degree: Vec<usize>)
    requires
        pattern@.wf(),
        t@.wf(),
        t@.nrows == pattern@.ncols,
        t@.ncols == pattern@.nrows,
        forall|i: int| 0 <= i <= pattern@.nrows ==> #[trigger] t@.col_ptr[i] == count_lt(
            pattern@.row_idx,
            i,
            pattern@.row_idx.len() as int,
        ),
    ensures
        degree@ == conflict_degrees(pattern@),
        forall|j: int| 0 <= j < pattern@.ncols ==> conflict_degree(pattern@, j) <= pattern@.row_idx.len(),
{
    let ghost v = pattern@;
    let ghost tv = t@;
    let n = pattern.ncols();
    let mut degree: Vec<usize> = Vec::new();
    let mut j: usize = 0;
    while j < n
        invariant
            v == pattern@,
            tv == t@,
            v.wf(),
            tv.wf(),
            tv.ncols == v.nrows,
            forall|i: int| 0 <= i <= v.nrows ==> #[trigger] tv.col_ptr[i] == count_lt(v.row_idx, i, v.row_idx.len() as int),
            n == v.ncols,
            j <= n,
            degree@.len() == j,
            forall|q: int| 0 <= q < j ==> degree@[q] == conflict_degree(v, q),
            forall|q: int| 0 <= q < j ==> conflict_degree(v, q) <= v.row_idx.len(),
        decreases n - j,
    {
        let col = pattern.col(j);
        let ghost start = v.col_ptr[j as int] as int;
        proof {
            assert(v.col_ptr[j as int] <= v.col_ptr[j + 1]);
        }
        let mut d: usize = 0;
        let mut a: usize = 0;
        while a < col.len()
            invariant
                v == pattern@,
                tv == t@,
                v.wf(),
                tv.wf(),
                tv.ncols == v.nrows,
                forall|i: int| 0 <= i <= v.nrows ==> #[trigger] tv.col_ptr[i] == count_lt(v.row_idx, i, v.row_idx.len() as int),
                j < v.ncols,
                start == v.col_ptr[j as int],
                col@ == v.col(j as int),
                col@.len() == v.col_ptr[j + 1] - start,
                a <= col@.len(),
                d == row_len_sum(v, start, start + a),
                a == 0 ==> d == 0,
                a > 0 ==> d <= tv.col_ptr[col@[a - 1] + 1],
            decreases col@.len() - a,
        {
            let i = col[a];
            proof {
                assert(v.row_idx[start + a] == i);
                assert(i < v.nrows);
                assert(v.col_sorted(j as int));
                if a > 0 {
                    assert(v.row_idx[start + a - 1] < v.row_idx[start + a]);
                    assert(tv.col_ptr[col@[a - 1] + 1] <= tv.col_ptr[i as int]);
                }
                lemma_count_lt_step(v.row_idx, i as int, v.row_idx.len() as int);
                assert(tv.col_ptr[i + 1] <= tv.col_ptr[tv.ncols as int]);
            }
            let len = t.col(i).len();
            d = d + len;
            a += 1;
        }
        proof {
            crate::counting::lemma_count_lt_all(v.row_idx, v.nrows as int, v.row_idx.len() as int);
            if col@.len() > 0 {
                assert(tv.col_ptr[col@[col@.len() - 1] + 1] <= tv.col_ptr[tv.ncols as int]);
            }
            assert(start + col@.len() == v.col_ptr[j + 1]);
        }
        degree.push(d);
        j += 1;
    }
    assert(degree@ =~= conflict_degrees(v));
    degree
}

proof fn lemma_sorted_identity(ident: Seq<usize>, order: Seq<usize>, n: nat)
    requires
        ident.len() == n,
        forall|x: int| 0 <= x < n ==> ident[x] == x,
        order.to_multiset() =~= ident.to_multiset(),
        order.len() == n,
        bounded(order, n),
    ensures
        is_permutation(order, n),
{
    assert(ident.no_duplicates());
    ident.lemma_multiset_has_no_duplicates();
    order.lemma_multiset_has_no_duplicates_conv();
    assert forall|a: int, b: int| 0 <= a < b < order.len() implies order[a] != order[b] by {}
}

proof fn lemma_uncolored_next(
    rel: spec_fn(int, int) -> bool,
    n: nat,
    m: nat,
    deg: Seq<usize>,
    order: Seq<usize>,
    tt: int,
    color: Seq<usize>,
    forbidden: Seq<usize>,
)
    requires
        greedy_state(rel, n, m, deg, order, tt, color, forbidden),
        is_permutation(order, n),
        sorted_by_key(deg, true, order),
        0 <= tt < n,
        n < usize::MAX,
    ensures
        color[order[tt] as int] == usize::MAX,
        forall|c: int| 0 <= c < m ==> #[trigger] forbidden[c] != order[tt],
        forall|x: int| 0 <= x < n && color[x] != usize::MAX ==> key_lt(deg, true, x as usize, order[tt]),
{
    let j = order[tt];
    if occurs(order.take(tt), j as int) {
        let q = choose|q: int| 0 <= q < order.take(tt).len() && order.take(tt)[q] == j;
        assert(order[q] == order[tt]);
    }
    assert(!occurs(order.take(tt), j as int));
    assert forall|c: int| 0 <= c < m implies #[trigger] forbidden[c] != order[tt] by {
        if forbidden[c] == j {
            assert(color[forbidden[c] as int] != usize::MAX);
        }
    }
    assert forall|x: int| 0 <= x < n && color[x] != usize::MAX implies key_lt(deg, true, x as usize, order[tt]) by {
        assert(occurs(order.take(tt), x));
        let q = choose|q: int| 0 <= q < order.take(tt).len() && order.take(tt)[q] == x;
        assert(order[q] == x);
        assert(!key_lt(deg, true, order[tt], order[q]));
        lemma_key_total(deg, order[q], order[tt]);
    }
}

proof fn lemma_greedy_step(
    rel: spec_fn(int, int) -> bool,
    n: nat,
    m: nat,
    deg: Seq<usize>,
    order: Seq<usize>,
    tt: int,
    color0: Seq<usize>,
    color1: Seq<usize>,
    f0: Seq<usize>,
    f1: Seq<usize>,
    j: int,
    c: int,
)
    requires
        greedy_state(rel, n, m, deg, order, tt, color0, f0),
        forall|a: int, b: int| #[trigger] rel(a, b) ==> rel(b, a),
        is_permutation(order, n),
        0 <= tt < n,
        n < m < usize::MAX,
        j == order[tt],
        color0[j] == usize::MAX,
        forall|c2: int| 0 <= c2 < m ==> #[trigger] f0[c2] != j,
        forall|x: int| 0 <= x < n && color0[x] != usize::MAX ==> key_lt(deg, true, x as usize, j as usize),
        f1.len() == f0.len(),
        forall|c2: int| 0 <= c2 < f0.len() ==> #[trigger] f1[c2] == f0[c2] || f1[c2] == j,
        forall|c2: int|
            0 <= c2 < f0.len() && #[trigger] f1[c2] == j && f0[c2] != j ==> exists|k: int|
                0 <= k < n && k != j && rel(j, k) && color0[k] != usize::MAX && #[trigger] color0[k] == c2,
        forall|k: int| 0 <= k < n && #[trigger] rel(j, k) && color0[k] != usize::MAX ==> f1[color0[k] as int] == j,
        0 <= c <= m,
        forall|c2: int| 0 <= c2 < c ==> f1[c2] == j,
        c < m ==> f1[c] != j,
        color1 == color0.update(j, c as usize),
    ensures
        c < m,
        greedy_state(rel, n, m, deg, order, tt + 1, color1, f1),
{
    if c == m {
        assert forall|c2: int| 0 <= c2 < m implies #[trigger] color_held(color0, n, j, c2) by {
            assert(f1[c2] == j);
            assert(f0[c2] != j);
            let k = choose|k: int| 0 <= k < n && k != j && rel(j, k) && color0[k] != usize::MAX && #[trigger] color0[k] == c2;
        }
        lemma_mex_bound(color0, n, j, m);
    }
    assert(c < m);
    assert(color1[j] == c);
    assert(order.take(tt + 1) =~= order.take(tt).push(j as usize));
    assert forall|x: int| 0 <= x < n implies (color1[x] != usize::MAX <==> #[trigger] occurs(order.take(tt + 1), x)) by {
        crate::perm::lemma_occurs_push(order.take(tt), j as usize, x);
    }
    assert forall|c2: int| 0 <= c2 < m implies #[trigger] f1[c2] == usize::MAX || (f1[c2] < n
        && color1[f1[c2] as int] != usize::MAX) by {
        if f1[c2] != j {
            assert(f1[c2] == f0[c2]);
        }
    }
    assert forall|x: int, y: int|
        0 <= x < n && 0 <= y < n && x != y && #[trigger] rel(x, y) && color1[x] != usize::MAX && color1[y] != usize::MAX implies color1[x]
            != color1[y] by {
        if x == j {
            assert(f1[color0[y] as int] == j);
        } else if y == j {
            assert(rel(y, x));
            assert(f1[color0[x] as int] == j);
        }
    }
    assert forall|x: int, c2: int|
        0 <= x < n && color1[x] != usize::MAX && 0 <= c2 < color1[x] implies #[trigger] earlier_with(rel, n, deg, color1, x, c2) by {
        if x == j {
            assert(f1[c2] == j);
            let k = choose|k: int| 0 <= k < n && k != j && rel(j, k) && color0[k] != usize::MAX && #[trigger] color0[k] == c2;
            assert(key_lt(deg, true, k as usize, j as usize));
            assert(color1[k] == c2);
        } else {
            assert(earlier_with(rel, n, deg, color0, x, c2));
            let k = choose|k: int| 0 <= k < n && #[trigger] rel(x, k) && key_lt(deg, true, k as usize, x as usize) && color0[k] == c2;
            assert(k != j);
            assert(color1[k] == c2);
        }
    }
}

proof fn lemma_greedy_done(
    rel: spec_fn(int, int) -> bool,
    n: nat,
    m: nat,
    deg: Seq<usize>,
    order: Seq<usize>,
    color: Seq<usize>,
    forbidden: Seq<usize>,
)
    requires
        greedy_state(rel, n, m, deg, order, n as int, color, forbidden),
        is_permutation(order, n),
        m < usize::MAX,
    ensures
        forall|x: int| 0 <= x < color.len() ==> color[x] < m,
        forall|x: int, y: int| 0 <= x < n && 0 <= y < n && x != y && #[trigger] rel(x, y) ==> color[x] != color[y],
        forall|x: int, c: int| 0 <= x < n && 0 <= c < color[x] ==> #[trigger] earlier_with(rel, n, deg, color, x, c),
{
    assert(order.take(n as int) =~= order);
    crate::perm::lemma_permutation_covers(order, n);
    assert forall|x: int| 0 <= x < n implies color[x] != usize::MAX by {
        assert(occurs(order, x));
    }
}

/// The columns conflicting with column `j`.
pub open spec fn neighbour_set(v: SparsityView, j: int) -> Set<int> {
    Set::new(|k: int| 0 <= k < v.ncols && conflict(v, j, k))
}

/// The number of columns conflicting with each column, by which
/// [`star_coloring`] orders them.
pub open spec fn neighbour_counts(v: SparsityView) -> Seq<usize> {
    Seq::new(v.ncols, |j: int| neighbour_set(v, j).len() as usize)
}

/// Some column within two conflicts of `x` comes before it by `deg`
/// (descending, then by index) and has color `c`.
pub open spec fn earlier_near_with(v: SparsityView, deg: Seq<usize>, colors: Seq<usize>, x: int, c: int) -> bool {
    exists|k: int|
        0 <= k < v.ncols && #[trigger] near(v, x, k) && key_lt(deg, true, k as usize, x as usize) && colors[k] == c
}

/// The greedy distance-2 coloring in the order of `deg`: valid, and every
/// lower color is held by an earlier column within two conflicts.
pub open spec fn greedy_distance2_coloring(v: SparsityView, deg: Seq<usize>, colors: Seq<usize>) -> bool {
    &&& colors.len() == v.ncols
    &&& valid_distance2_coloring(v, colors)
    &&& forall|x: int, c: int|
        0 <= x < v.ncols && 0 <= c < colors[x] ==> #[trigger] earlier_near_with(v, deg, colors, x, c)
}

/// The columns sharing a row with column `j`, sorted and without
/// duplicates.
fn neighbours(pattern: &Sparsity, t: &Sparsity, j: usize) -> (out: Vec<usize>)
    requires
        pattern@.wf(),
        t@.wf(),
        t@.nrows == pattern@.ncols,
        t@.ncols == pattern@.nrows,
        forall|i: int, k: int| t@.has(i, k) <==> pattern@.has(k, i),
        j < pattern@.ncols,
    ensures
        strictly_sorted(out@),
        forall|k: usize| out@.contains(k) <==> (k < pattern@.ncols && conflict(pattern@, j as int, k as int)),
{
    let ghost v = pattern@;
    let ghost tv = t@;
    let col = pattern.col(j);
    let mut out: Vec<usize> = Vec::new();
    let mut a: usize = 0;
    while a < col.len()
        invariant
            v == pattern@,
            tv == t@,
            v.wf(),
            tv.wf(),
            tv.nrows == v.ncols,
            tv.ncols == v.nrows,
            forall|i: int, k: int| tv.has(i, k) <==> v.has(k, i),
            j < v.ncols,
            col@ == v.col(j as int),
            a <= col@.len(),
            strictly_sorted(out@),
            forall|k: usize| out@.contains(k) ==> (k < v.ncols && conflict(v, j as int, k as int)),
            forall|aa: int, k: int| 0 <= aa < a && #[trigger] v.has(col@[aa] as int, k) && k != j ==> out@.contains(k as usize),
        decreases col@.len() - a,
    {
        let i = col[a];
        proof {
            assert(v.col_ptr[j as int] <= v.col_ptr[j + 1]);
            assert(v.row_idx[v.col_ptr[j as int] + a] == i);
            assert(i < v.nrows);
            assert(v.has(i as int, j as int));
        }
        let row = t.col(i);
        let mut b: usize = 0;
        while b < row.len()
            invariant
                v == pattern@,
                tv == t@,
                v.wf(),
                tv.wf(),
                tv.nrows == v.ncols,
                tv.ncols == v.nrows,
                forall|i2: int, k: int| tv.has(i2, k) <==> v.has(k, i2),
                j < v.ncols,
                i < v.nrows,
                v.has(i as int, j as int),
                col@ == v.col(j as int),
                a < col@.len(),
                col@[a as int] == i,
                row@ == tv.col(i as int),
                b <= row@.len(),
                strictly_sorted(out@),
                forall|k: usize| out@.contains(k) ==> (k < v.ncols && conflict(v, j as int, k as int)),
                forall|aa: int, k: int| 0 <= aa < a && #[trigger] v.has(col@[aa] as int, k) && k != j ==> out@.contains(k as usize),
                forall|bb: int| 0 <= bb < b && row@[bb] != j ==> out@.contains(#[trigger] row@[bb]),
            decreases row@.len() - b,
        {
            let k = row[b];
            proof {
                assert(tv.col_ptr[i as int] <= tv.col_ptr[i + 1]);
                assert(tv.row_idx[tv.col_ptr[i as int] + b] == k);
                assert(tv.has(k as int, i as int));
                assert(v.has(i as int, k as int));
                assert(k < v.ncols);
            }
            if k != j {
                let ghost before = out@;
                insert_sorted(&mut out, k);
                proof {
                    assert(conflict(v, j as int, k as int));
                    assert forall|bb: int| 0 <= bb < b && row@[bb] != j implies out@.contains(#[trigger] row@[bb]) by {
                        assert(before.contains(row@[bb]));
                    }
                    assert forall|aa: int, k2: int| 0 <= aa < a && #[trigger] v.has(col@[aa] as int, k2) && k2 != j implies out@.contains(k2 as usize) by {
                        assert(before.contains(k2 as usize));
                    }
                }
            }
            b += 1;
        }
        proof {
            assert forall|aa: int, k: int| 0 <= aa < a + 1 && #[trigger] v.has(col@[aa] as int, k) && k != j implies out@.contains(k as usize) by {
                if aa == a {
                    assert(tv.has(k, i as int));
                    let p = choose|p: int| tv.col_ptr[i as int] <= p < tv.col_ptr[i + 1] && tv.row_idx[p] == k;
                    let bb = p - tv.col_ptr[i as int];
                    assert(row@[bb] == k);
                }
            }
        }
        a += 1;
    }
    proof {
        assert forall|k: usize| (k < v.ncols && conflict(v, j as int, k as int)) implies out@.contains(k) by {
            let i = choose|i: int| #[trigger] v.has(i, j as int) && v.has(i, k as int);
            let p = choose|p: int| v.col_ptr[j as int] <= p < v.col_ptr[j + 1] && v.row_idx[p] == i;
            let aa = p - v.col_ptr[j as int];
            assert(col@[aa] == i);
            assert(v.has(col@[aa] as int, k as int));
        }
    }
    out
}

/// A list holding exactly the neighbours of `j` has as many entries as
/// `j` has neighbours.
proof fn lemma_neighbour_count(v: SparsityView, j: int, out: Seq<usize>)
    requires
        strictly_sorted(out),
        v.ncols <= usize::MAX,
        forall|k: usize| out.contains(k) <==> (k < v.ncols && conflict(v, j, k as int)),
    ensures
        out.len() == neighbour_set(v, j).len(),
        neighbour_set(v, j).finite(),
{
    assert(distinct(out));
    assert(crate::perm::bounded(out, v.ncols)) by {
        assert forall|q: int| 0 <= q < out.len() implies out[q] < v.ncols by {
            assert(out.contains(out[q]));
        }
    }
    crate::perm::lemma_as_ints_set(out, v.ncols);
    assert(crate::perm::as_ints(out).to_set() =~= neighbour_set(v, j)) by {
        assert forall|x: int| crate::perm::as_ints(out).to_set().contains(x) <==> neighbour_set(v, j).contains(x) by {
            if neighbour_set(v, j).contains(x) {
                assert(out.contains(x as usize));
                let q = choose|q: int| 0 <= q < out.len() && out[q] == x as usize;
                assert(occurs(out, x));
            }
            if crate::perm::as_ints(out).to_set().contains(x) {
                assert(occurs(out, x));
                let q = choose|q: int| 0 <= q < out.len() && out[q] == x;
                assert(out.contains(out[q]));
            }
        }
    }
}

/// Mark in `forbidden`, with `j`, the color of every colored column at
/// most two conflicts away from column `j`.
fn mark_near(adj: &Vec<Vec<usize>>, color: &Vec<usize>, forbidden: &mut Vec<usize>, j: usize, Ghost(v): Ghost<SparsityView>)
    requires
        adj@.len() == v.ncols,
        forall|x: int, k: usize|
            0 <= x < v.ncols ==> (#[trigger] adj@[x]@.contains(k) <==> (k < v.ncols && conflict(v, x, k as int))),
        j < v.ncols,
        v.ncols + 2 < usize::MAX,
        color@.len() == v.ncols,
        old(forbidden)@.len() == v.ncols + 2,
        forall|x: int| 0 <= x < color@.len() && color@[x] != usize::MAX ==> #[trigger] color@[x] < v.ncols + 2,
    ensures
        final(forbidden)@.len() == old(forbidden)@.len(),
        forall|c: int| 0 <= c < old(forbidden)@.len() ==> #[trigger] final(forbidden)@[c] == old(forbidden)@[c] || final(forbidden)@[c] == j,
        forall|c: int|
            0 <= c < old(forbidden)@.len() && #[trigger] final(forbidden)@[c] == j && old(forbidden)@[c] != j ==> exists|k: int|
                0 <= k < v.ncols && k != j && near(v, j as int, k) && color@[k] != usize::MAX && #[trigger] color@[k] == c,
        forall|k: int|
            0 <= k < v.ncols && #[trigger] near(v, j as int, k) && color@[k] != usize::MAX ==> final(forbidden)@[color@[k] as int] == j,
{
    let ghost f0 = forbidden@;
    let ghost mut seen: Set<int> = Set::empty();
    let ghost mut done: Set<int> = Set::empty();
    let nb = &adj[j];
    let mut a: usize = 0;
    while a < nb.len()
        invariant
            adj@.len() == v.ncols,
            forall|x: int, k: usize|
                0 <= x < v.ncols ==> (#[trigger] adj@[x]@.contains(k) <==> (k < v.ncols && conflict(v, x, k as int))),
            j < v.ncols,
            v.ncols + 2 < usize::MAX,
            nb == adj@[j as int],
            a <= nb@.len(),
            color@.len() == v.ncols,
            forall|x: int| 0 <= x < color@.len() && color@[x] != usize::MAX ==> #[trigger] color@[x] < v.ncols + 2,
            forbidden@.len() == f0.len(),
            f0.len() == v.ncols + 2,
            forall|c: int| 0 <= c < f0.len() ==> #[trigger] forbidden@[c] == f0[c] || forbidden@[c] == j,
            forall|c: int|
                0 <= c < f0.len() && #[trigger] forbidden@[c] == j && f0[c] != j ==> exists|k: int|
                    0 <= k < v.ncols && k != j && near(v, j as int, k) && color@[k] != usize::MAX && #[trigger] color@[k] == c,
            forall|x: int| #[trigger] seen.contains(x) ==> 0 <= x < v.ncols && (color@[x] != usize::MAX ==> forbidden@[color@[x] as int] == j),
            forall|aa: int| 0 <= aa < a ==> done.contains(#[trigger] nb@[aa] as int),
            forall|m: int| #[trigger] done.contains(m) ==> seen.contains(m),
            forall|m: int, l: int|
                #[trigger] done.contains(m) && 0 <= l < v.ncols && #[trigger] conflict(v, m, l) && l != j ==> seen.contains(l),
        decreases nb@.len() - a,
    {
        let k = nb[a];
        proof {
            assert(adj@[j as int]@.contains(k));
            assert(conflict(v, j as int, k as int));
        }
        if color[k] != usize::MAX {
            let ghost fb = forbidden@;
            forbidden.set(color[k], j);
            proof {
                assert(near(v, j as int, k as int));
                assert forall|c: int|
                    0 <= c < f0.len() && #[trigger] forbidden@[c] == j && f0[c] != j implies exists|k2: int|
                        0 <= k2 < v.ncols && k2 != j && near(v, j as int, k2) && color@[k2] != usize::MAX && #[trigger] color@[k2] == c by {
                    if c == color@[k as int] {
                        assert(color@[k as int] == c);
                    } else {
                        assert(fb[c] == j);
                    }
                }
                assert forall|x: int| #[trigger] seen.contains(x) implies 0 <= x < v.ncols && (color@[x] != usize::MAX ==> forbidden@[color@[x] as int] == j) by {
                    if color@[x] != usize::MAX {
                        assert(fb[color@[x] as int] == j);
                    }
                }
            }
        }
        proof {
            seen = seen.insert(k as int);
        }
        let nk = &adj[k];
        let mut b: usize = 0;
        while b < nk.len()
            invariant
                adj@.len() == v.ncols,
                forall|x: int, k2: usize|
                    0 <= x < v.ncols ==> (#[trigger] adj@[x]@.contains(k2) <==> (k2 < v.ncols && conflict(v, x, k2 as int))),
                j < v.ncols,
                k < v.ncols,
                conflict(v, j as int, k as int),
                nb == adj@[j as int],
                a < nb@.len(),
                nb@[a as int] == k,
                nk == adj@[k as int],
                b <= nk@.len(),
                color@.len() == v.ncols,
                forall|x: int| 0 <= x < color@.len() && color@[x] != usize::MAX ==> #[trigger] color@[x] < v.ncols + 2,
                forbidden@.len() == f0.len(),
                f0.len() == v.ncols + 2,
                forall|c: int| 0 <= c < f0.len() ==> #[trigger] forbidden@[c] == f0[c] || forbidden@[c] == j,
                forall|c: int|
                    0 <= c < f0.len() && #[trigger] forbidden@[c] == j && f0[c] != j ==> exists|k2: int|
                        0 <= k2 < v.ncols && k2 != j && near(v, j as int, k2) && color@[k2] != usize::MAX && #[trigger] color@[k2] == c,
                forall|x: int| #[trigger] seen.contains(x) ==> 0 <= x < v.ncols && (color@[x] != usize::MAX ==> forbidden@[color@[x] as int] == j),
                forall|aa: int| 0 <= aa < a ==> done.contains(#[trigger] nb@[aa] as int),
                forall|m: int| #[trigger] done.contains(m) ==> seen.contains(m),
                forall|m: int, l: int|
                    #[trigger] done.contains(m) && 0 <= l < v.ncols && #[trigger] conflict(v, m, l) && l != j ==> seen.contains(l),
                seen.contains(k as int),
                forall|bb: int| 0 <= bb < b && nk@[bb] != j ==> seen.contains(#[trigger] nk@[bb] as int),
            decreases nk@.len() - b,
        {
            let l = nk[b];
            proof {
                assert(adj@[k as int]@.contains(l));
                assert(conflict(v, k as int, l as int));
            }
            if l != j && color[l] != usize::MAX {
                let ghost fb = forbidden@;
                forbidden.set(color[l], j);
                proof {
                    assert(conflict(v, j as int, k as int) && conflict(v, k as int, l as int));
                    assert(near(v, j as int, l as int));
                    assert forall|c: int|
                        0 <= c < f0.len() && #[trigger] forbidden@[c] == j && f0[c] != j implies exists|k2: int|
                            0 <= k2 < v.ncols && k2 != j && near(v, j as int, k2) && color@[k2] != usize::MAX && #[trigger] color@[k2] == c by {
                        if c == color@[l as int] {
                            assert(color@[l as int] == c);
                        } else {
                            assert(fb[c] == j);
                        }
                    }
                    assert forall|x: int| #[trigger] seen.contains(x) implies 0 <= x < v.ncols && (color@[x] != usize::MAX ==> forbidden@[color@[x] as int] == j) by {
                        if color@[x] != usize::MAX {
                            assert(fb[color@[x] as int] == j);
                        }
                    }
                }
            }
            proof {
                if l != j {
                    seen = seen.insert(l as int);
                }
            }
            b += 1;
        }
        proof {
            done = done.insert(k as int);
            assert forall|m: int, l: int|
                #[trigger] done.contains(m) && 0 <= l < v.ncols && #[trigger] conflict(v, m, l) && l != j implies seen.contains(l) by {
                if m == k {
                    assert(adj@[k as int]@.contains(l as usize));
                    let bb = choose|bb: int| 0 <= bb < nk@.len() && nk@[bb] == l as usize;
                    assert(seen.contains(nk@[bb] as int));
                }
            }
        }
        a += 1;
    }
    proof {
        assert forall|k: int|
            0 <= k < v.ncols && #[trigger] near(v, j as int, k) && color@[k] != usize::MAX implies forbidden@[color@[k] as int] == j by {
            if conflict(v, j as int, k) {
                assert(adj@[j as int]@.contains(k as usize));
                let aa = choose|aa: int| 0 <= aa < nb@.len() && nb@[aa] == k as usize;
                assert(done.contains(nb@[aa] as int));
                assert(seen.contains(k));
            } else {
                let mm = choose|mm: int| #[trigger] conflict(v, j as int, mm) && conflict(v, mm, k);
                assert(mm < v.ncols && 0 <= mm) by {
                    let i = choose|i: int| #[trigger] v.has(i, j as int) && v.has(i, mm);
                }
                assert(adj@[j as int]@.contains(mm as usize));
                let aa = choose|aa: int| 0 <= aa < nb@.len() && nb@[aa] == mm as usize;
                assert(done.contains(nb@[aa] as int));
                assert(done.contains(mm));
                assert(seen.contains(k));
            }
        }
    }
}

/// Star coloring for symmetric matrices recovered by direct substitution,
/// implemented as a greedy distance-2 coloring, which is strictly stronger
/// and therefore always valid. Columns are visited by decreasing number of
/// conflicting columns, ties by index.
pub fn star_coloring(pattern: &Sparsity) -> (r: Coloring)
    requires
        pattern@.nrows < usize::MAX,
        pattern@.ncols + 2 < usize::MAX,
    ensures
        r@.wf(),
        greedy_distance2_coloring(pattern@, neighbour_counts(pattern@), r@.colors),
{
    proof {
        use_type_invariant(pattern);
    }
    let n = pattern.ncols();
    let t = pattern.transpose();
    proof {
        use_type_invariant(&t);
    }
    let ghost v = pattern@;
    let mut adj: Vec<Vec<usize>> = Vec::new();
    let mut degree: Vec<usize> = Vec::new();
    let mut j: usize = 0;
    while j < n
        invariant
            v == pattern@,
            v.wf(),
            t@.wf(),
            t@.nrows == v.ncols,
            t@.ncols == v.nrows,
            forall|i: int, k: int| t@.has(i, k) <==> v.has(k, i),
            n == v.ncols,
            j <= n,
            adj@.len() == j,
            degree@.len() == j,
            forall|x: int, k: usize|
                0 <= x < j ==> (#[trigger] adj@[x]@.contains(k) <==> (k < v.ncols && conflict(v, x, k as int))),
            forall|x: int| 0 <= x < j ==> #[trigger] degree@[x] == neighbour_set(v, x).len(),
        decreases n - j,
    {
        let out = neighbours(pattern, &t, j);
        proof {
            lemma_neighbour_count(v, j as int, out@);
        }
        degree.push(out.len());
        adj.push(out);
        j += 1;
    }
    let ghost deg = degree@;
    assert(deg =~= neighbour_counts(v));
    let mut ident: Vec<usize> = Vec::new();
    let mut q: usize = 0;
    while q < n
        invariant
            q <= n,
            ident@.len() == q,
            forall|x: int| 0 <= x < q ==> ident@[x] == x,
        decreases n - q,
    {
        ident.push(q);
        q += 1;
    }
    let order = sort_by_key(&ident, &degree, true);
    proof {
        lemma_sorted_identity(ident@, order@, n as nat);
    }
    let mut color: Vec<usize> = Vec::new();
    let mut q: usize = 0;
    while q < n
        invariant
            q <= n,
            color@.len() == q,
            forall|x: int| 0 <= x < q ==> color@[x] == usize::MAX,
        decreases n - q,
    {
        color.push(usize::MAX);
        q += 1;
    }
    let mut forbidden: Vec<usize> = Vec::new();
    let mut q: usize = 0;
    while q < n + 2
        invariant
            q <= n + 2,
            n + 2 < usize::MAX,
            forbidden@.len() == q,
            forall|x: int| 0 <= x < q ==> forbidden@[x] == usize::MAX,
        decreases n + 2 - q,
    {
        forbidden.push(usize::MAX);
        q += 1;
    }
    let ghost rel = |a: int, b: int| near(v, a, b);
    proof {
        assert(order@.take(0) =~= Seq::<usize>::empty());
        assert(greedy_state(rel, n as nat, (n + 2) as nat, deg, order@, 0, color@, forbidden@));
        assert forall|a: int, b: int| #[trigger] rel(a, b) implies rel(b, a) by {
            lemma_near_symmetric(v, a, b);
        }
    }
    let mut tt: usize = 0;
    while tt < n
        invariant
            v == pattern@,
            n == v.ncols,
            n + 2 < usize::MAX,
            adj@.len() == n,
            forall|x: int, k: usize|
                0 <= x < n ==> (#[trigger] adj@[x]@.contains(k) <==> (k < v.ncols && conflict(v, x, k as int))),
            deg == degree@,
            is_permutation(order@, n as nat),
            sorted_by_key(deg, true, order@),
            rel == (|a: int, b: int| near(v, a, b)),
            forall|a: int, b: int| #[trigger] rel(a, b) ==> rel(b, a),
            tt <= n,
            greedy_state(rel, n as nat, (n + 2) as nat, deg, order@, tt as int, color@, forbidden@),
        decreases n - tt,
    {
        let j = order[tt];
        proof {
            lemma_uncolored_next(rel, n as nat, (n + 2) as nat, deg, order@, tt as int, color@, forbidden@);
        }
        let ghost f0 = forbidden@;
        mark_near(&adj, &color, &mut forbidden, j, Ghost(v));
        let mut c: usize = 0;
        while c < forbidden.len() && forbidden[c] == j
            invariant
                forbidden@.len() == n + 2,
                c <= n + 2,
                forall|c2: int| 0 <= c2 < c ==> forbidden@[c2] == j,
            decreases n + 2 - c,
        {
            c += 1;
        }
        proof {
            lemma_greedy_step(rel, n as nat, (n + 2) as nat, deg, order@, tt as int, color@, color@.update(j as int, c), f0, forbidden@, j as int, c as int);
        }
        color.set(j, c);
        tt += 1;
    }
    proof {
        lemma_greedy_done(rel, n as nat, (n + 2) as nat, deg, order@, color@, forbidden@);
        assert forall|x: int, k: int| 0 <= x < v.ncols && 0 <= k < v.ncols && #[trigger] near(v, x, k) implies color@[x] != color@[k] by {
            assert(rel(x, k));
            lemma_near_irreflexive(v, x, k);
        }
        assert forall|x: int, c: int| 0 <= x < v.ncols && 0 <= c < color@[x] implies #[trigger] earlier_near_with(
            v, deg, color@, x, c) by {
            assert(earlier_with(rel, n as nat, deg, color@, x, c));
            let k = choose|k: int| 0 <= k < n && #[trigger] rel(x, k) && key_lt(deg, true, k as usize, x as usize) && color@[k] == c;
            assert(near(v, x, k));
        }
    }
    Coloring::from_colors(color)
}

proof fn lemma_near_symmetric(v: SparsityView, a: int, b: int)
    requires
        near(v, a, b),
    ensures
        near(v, b, a),
{
    if conflict(v, a, b) {
        let i = choose|i: int| #[trigger] v.has(i, a) && v.has(i, b);
        assert(v.has(i, b) && v.has(i, a));
    } else {
        let m = choose|m: int| #[trigger] conflict(v, a, m) && conflict(v, m, b);
        let i1 = choose|i: int| #[trigger] v.has(i, a) && v.has(i, m);
        let i2 = choose|i: int| #[trigger] v.has(i, m) && v.has(i, b);
        assert(v.has(i2, b) && v.has(i2, m));
        assert(conflict(v, b, m));
        assert(v.has(i1, m) && v.has(i1, a));
        assert(conflict(v, m, a));
    }
}

proof fn lemma_near_irreflexive(v: SparsityView, a: int, b: int)
    requires
        near(v, a, b),
    ensures
        a != b,
{
}

/// Every element of `s` lies below `bound`.
pub open spec fn all_below_usize(s: Seq<usize>, bound: usize) -> bool {
    forall|p: int| 0 <= p < s.len() ==> s[p] < bound
}

/// Two different columns of row `i` have the same color.
pub open spec fn row_clash(v: SparsityView, colors: Seq<usize>, i: int) -> bool {
    exists|j: int, k: int| j != k && #[trigger] v.has(i, j) && #[trigger] v.has(i, k) && colors[j] == colors[k]
}

/// Row `i` is the first row with a clash.
pub open spec fn first_clash_row(v: SparsityView, colors: Seq<usize>, i: int) -> bool {
    &&& 0 <= i < v.nrows
    &&& row_clash(v, colors, i)
    &&& forall|ii: int| 0 <= ii < i ==> !#[trigger] row_clash(v, colors, ii)
}

/// Column `j` of row `i` has the color of an earlier column `k` of row `i`.
pub open spec fn repeats(v: SparsityView, colors: Seq<usize>, i: int, k: int, j: int) -> bool {
    &&& k < j
    &&& v.has(i, k)
    &&& v.has(i, j)
    &&& colors[k] == colors[j]
}

/// Column `j` is the first column of row `i` repeating the color of an
/// earlier one.
pub open spec fn first_repeat(v: SparsityView, colors: Seq<usize>, i: int, j: int) -> bool {
    &&& exists|k: int| #[trigger] repeats(v, colors, i, k, j)
    &&& forall|jj: int, k: int| jj < j ==> !#[trigger] repeats(v, colors, i, k, jj)
}

/// Column `k` is the first earlier column of row `i` with the color of `j`.
pub open spec fn first_partner(v: SparsityView, colors: Seq<usize>, i: int, j: int, k: int) -> bool {
    &&& repeats(v, colors, i, k, j)
    &&& forall|kk: int| kk < k ==> !#[trigger] repeats(v, colors, i, kk, j)
}

/// The report of [`verify_coloring`] on a coloring that fails: in the first
/// row with a clash, the first column repeating an earlier color, that
/// earlier column, and the color.
pub open spec fn clash_error(v: SparsityView, colors: Seq<usize>) -> Seq<char> {
    let i = choose|i: int| first_clash_row(v, colors, i);
    let j = choose|j: int| first_repeat(v, colors, i, j);
    let k = choose|k: int| first_partner(v, colors, i, j, k);
    "columns "@ + decimal(k as nat) + " and "@ + decimal(j as nat) + " share color "@ + decimal(
        colors[j] as nat,
    ) + " and both touch row "@ + decimal(i as nat)
}

/// Check that no two columns in a group share a row.
///
/// Reports the offending row and pair of columns, so that a failure is
/// debuggable rather than just a boolean.
pub fn verify_coloring(pattern: &Sparsity, coloring: &Coloring) -> (r: Result<(), String>)
    requires
        pattern@.nrows < usize::MAX,
        forall|i: int, j: int| #[trigger] pattern@.has(i, j) ==> j < coloring@.colors.len(),
    ensures
        r is Ok <==> valid_coloring(pattern@, coloring@.colors),
        r matches Err(e) ==> e@ == clash_error(pattern@, coloring@.colors),
{
    proof {
        use_type_invariant(pattern);
    }
    let ghost v = pattern@;
    let ghost colors = coloring@.colors;
    let t = pattern.transpose();
    proof {
        use_type_invariant(&t);
    }
    let ghost tv = t@;
    let col = coloring.colors();
    let nrows = pattern.nrows();
    let mut i: usize = 0;
    while i < nrows
        invariant
            v == pattern@,
            tv == t@,
            v.wf(),
            tv.wf(),
            tv.ncols == v.nrows,
            forall|a: int, b: int| tv.has(a, b) <==> v.has(b, a),
            colors == coloring@.colors,
            col@ == colors,
            forall|a: int, b: int| #[trigger] v.has(a, b) ==> b < colors.len(),
            nrows == v.nrows,
            i <= nrows,
            forall|ii: int| 0 <= ii < i ==> !#[trigger] row_clash(v, colors, ii),
        decreases nrows - i,
    {
        let cols = t.col(i);
        assert(tv.col_sorted(i as int));
        assert(tv.col_ptr[i as int] <= tv.col_ptr[i + 1] <= tv.row_idx.len()) by {
            assert(tv.col_ptr[i + 1] <= tv.col_ptr[tv.ncols as int]);
        }
        proof {
            lemma_row_columns(v, tv, i as int, cols@);
        }
        let mut a: usize = 0;
        while a < cols.len()
            invariant
                forall|y: int| 0 <= y < cols@.len() ==> v.has(i as int, #[trigger] cols@[y] as int),
                v == pattern@,
                tv == t@,
                v.wf(),
                tv.wf(),
                tv.ncols == v.nrows,
                forall|x: int, y: int| tv.has(x, y) <==> v.has(y, x),
                colors == coloring@.colors,
                col@ == colors,
                forall|x: int, y: int| #[trigger] v.has(x, y) ==> y < colors.len(),
                i < v.nrows,
                cols@ == tv.col(i as int),
                tv.col_sorted(i as int),
                tv.col_ptr[i as int] <= tv.col_ptr[i + 1] <= tv.row_idx.len(),
                a <= cols@.len(),
                forall|ii: int| 0 <= ii < i ==> !#[trigger] row_clash(v, colors, ii),
                forall|a1: int, a2: int| 0 <= a1 < a2 < a ==> colors[#[trigger] cols@[a1] as int] != colors[#[trigger] cols@[a2] as int],
            decreases cols@.len() - a,
        {
            let j = cols[a];
            proof {
                assert(tv.row_idx[tv.col_ptr[i as int] + a] == j);
                assert(tv.has(j as int, i as int));
                assert(v.has(i as int, j as int));
            }
            let c = col[j];
            let mut b: usize = 0;
            while b < a
                invariant
                    v == pattern@,
                    tv == t@,
                    v.wf(),
                    tv.wf(),
                    tv.ncols == v.nrows,
                    forall|x: int, y: int| tv.has(x, y) <==> v.has(y, x),
                    i < v.nrows,
                    cols@ == tv.col(i as int),
                    forall|ii: int| 0 <= ii < i ==> !#[trigger] row_clash(v, colors, ii),
                    forall|a1: int, a2: int| 0 <= a1 < a2 < a ==> colors[#[trigger] cols@[a1] as int] != colors[#[trigger] cols@[a2] as int],
                    a < cols@.len(),
                    colors == coloring@.colors,
                    col@ == colors,
                    j == cols@[a as int],
                    j < colors.len(),
                    c == colors[j as int],
                    forall|y: int| 0 <= y < cols@.len() ==> (#[trigger] cols@[y]) < colors.len(),
                    b <= a,
                    forall|b1: int| 0 <= b1 < b ==> colors[#[trigger] cols@[b1] as int] != c,
                decreases a - b,
            {
                let k = cols[b];
                if col[k] == c {
                    proof {
                        lemma_report_clash(v, tv, colors, i as int, cols@, a as int, b as int);
                    }
                    let mut e = text("columns ");
                    push_decimal(&mut e, k);
                    push_text(&mut e, " and ");
                    push_decimal(&mut e, j);
                    push_text(&mut e, " share color ");
                    push_decimal(&mut e, c);
                    push_text(&mut e, " and both touch row ");
                    push_decimal(&mut e, i);
                    return Err(e);
                }
                b += 1;
            }
            a += 1;
        }
        proof {
            lemma_row_clear(v, tv, colors, i as int, cols@);
        }
        i += 1;
    }
    proof {
        assert forall|i2: int, j: int, k: int|
            #![trigger v.has(i2, j), v.has(i2, k)]
            j != k && v.has(i2, j) && v.has(i2, k) implies colors[j] != colors[k] by {
            let p = choose|p: int| v.col_ptr[j] <= p < v.col_ptr[j + 1] && v.row_idx[p] == i2;
            assert(v.col_ptr[j + 1] <= v.col_ptr[v.ncols as int]);
            if colors[j] == colors[k] {
                assert(row_clash(v, colors, i2));
            }
        }
    }
    Ok(())
}

/// The columns of row `i`, read from the transpose, are exactly the
/// columns stored in that row, in increasing order.
proof fn lemma_row_columns(v: SparsityView, tv: SparsityView, i: int, cols: Seq<usize>)
    requires
        v.wf(),
        tv.wf(),
        tv.ncols == v.nrows,
        forall|a: int, b: int| tv.has(a, b) <==> v.has(b, a),
        0 <= i < v.nrows,
        cols == tv.col(i),
    ensures
        forall|y: int| 0 <= y < cols.len() ==> v.has(i, #[trigger] cols[y] as int),
        forall|x: int| #[trigger] v.has(i, x) ==> exists|y: int| 0 <= y < cols.len() && cols[y] == x,
        forall|y1: int, y2: int| 0 <= y1 < y2 < cols.len() ==> #[trigger] cols[y1] < #[trigger] cols[y2],
{
    assert(tv.col_sorted(i));
    assert(tv.col_ptr[i + 1] <= tv.col_ptr[tv.ncols as int]);
    assert forall|y: int| 0 <= y < cols.len() implies v.has(i, #[trigger] cols[y] as int) by {
        assert(tv.row_idx[tv.col_ptr[i] + y] == cols[y]);
        assert(tv.has(cols[y] as int, i));
    }
    assert forall|x: int| #[trigger] v.has(i, x) implies exists|y: int| 0 <= y < cols.len() && cols[y] == x by {
        assert(tv.has(x, i));
        let p = choose|p: int| tv.col_ptr[i] <= p < tv.col_ptr[i + 1] && tv.row_idx[p] == x;
        assert(cols[p - tv.col_ptr[i]] == x);
    }
    assert forall|y1: int, y2: int| 0 <= y1 < y2 < cols.len() implies #[trigger] cols[y1] < #[trigger] cols[y2] by {
        assert(cols[y1] == tv.row_idx[tv.col_ptr[i] + y1]);
        assert(cols[y2] == tv.row_idx[tv.col_ptr[i] + y2]);
    }
}

/// A row whose columns all have different colors has no clash.
proof fn lemma_row_clear(v: SparsityView, tv: SparsityView, colors: Seq<usize>, i: int, cols: Seq<usize>)
    requires
        v.wf(),
        tv.wf(),
        tv.ncols == v.nrows,
        forall|a: int, b: int| tv.has(a, b) <==> v.has(b, a),
        0 <= i < v.nrows,
        cols == tv.col(i),
        forall|a1: int, a2: int| 0 <= a1 < a2 < cols.len() ==> colors[#[trigger] cols[a1] as int] != colors[#[trigger] cols[a2] as int],
    ensures
        !row_clash(v, colors, i),
{
    lemma_row_columns(v, tv, i, cols);
    if row_clash(v, colors, i) {
        let (j, k) = choose|j: int, k: int| j != k && #[trigger] v.has(i, j) && #[trigger] v.has(i, k) && colors[j] == colors[k];
        let yj = choose|y: int| 0 <= y < cols.len() && cols[y] == j;
        let yk = choose|y: int| 0 <= y < cols.len() && cols[y] == k;
        if yj < yk {
            assert(colors[cols[yj] as int] != colors[cols[yk] as int]);
        } else {
            assert(colors[cols[yk] as int] != colors[cols[yj] as int]);
        }
    }
}

/// The first repeated color met row by row, column by column, is what
/// [`clash_error`] describes, and the coloring is not valid.
proof fn lemma_report_clash(v: SparsityView, tv: SparsityView, colors: Seq<usize>, i: int, cols: Seq<usize>, a: int, b: int)
    requires
        v.wf(),
        tv.wf(),
        tv.ncols == v.nrows,
        forall|x: int, y: int| tv.has(x, y) <==> v.has(y, x),
        0 <= i < v.nrows,
        cols == tv.col(i),
        0 <= b < a < cols.len(),
        forall|ii: int| 0 <= ii < i ==> !#[trigger] row_clash(v, colors, ii),
        forall|a1: int, a2: int| 0 <= a1 < a2 < a ==> colors[#[trigger] cols[a1] as int] != colors[#[trigger] cols[a2] as int],
        colors[cols[b] as int] == colors[cols[a] as int],
        forall|b1: int| 0 <= b1 < b ==> colors[#[trigger] cols[b1] as int] != colors[cols[a] as int],
    ensures
        !valid_coloring(v, colors),
        clash_error(v, colors) == "columns "@ + decimal(cols[b] as nat) + " and "@ + decimal(cols[a] as nat)
            + " share color "@ + decimal(colors[cols[a] as int] as nat) + " and both touch row "@ + decimal(i as nat),
{
    lemma_row_columns(v, tv, i, cols);
    let j = cols[a] as int;
    let k = cols[b] as int;
    assert(cols[b] < cols[a]);
    assert(v.has(i, j) && v.has(i, k));
    assert(row_clash(v, colors, i));
    assert(first_clash_row(v, colors, i));
    let ci = choose|ii: int| first_clash_row(v, colors, ii);
    assert(first_clash_row(v, colors, ci));
    if ci < i {
        assert(!row_clash(v, colors, ci));
    }
    if ci > i {
        assert(!row_clash(v, colors, i));
    }
    assert(repeats(v, colors, i, k, j));
    assert forall|jj: int, kk: int| jj < j implies !#[trigger] repeats(v, colors, i, kk, jj) by {
        if repeats(v, colors, i, kk, jj) {
            let yj = choose|y: int| 0 <= y < cols.len() && cols[y] == jj;
            let yk = choose|y: int| 0 <= y < cols.len() && cols[y] == kk;
            if yj >= a {
                if yj > a {
                    assert(cols[a] < cols[yj]);
                }
            }
            if yk >= yj {
                if yk > yj {
                    assert(cols[yj] < cols[yk]);
                }
            }
            assert(colors[cols[yk] as int] != colors[cols[yj] as int]);
        }
    }
    assert(first_repeat(v, colors, i, j));
    let cj = choose|jj: int| first_repeat(v, colors, i, jj);
    assert(first_repeat(v, colors, i, cj));
    if cj < j {
        let kk = choose|kk: int| #[trigger] repeats(v, colors, i, kk, cj);
        assert(!repeats(v, colors, i, kk, cj));
    }
    if cj > j {
        assert(!repeats(v, colors, i, k, j));
    }
    assert forall|kk: int| kk < k implies !#[trigger] repeats(v, colors, i, kk, j) by {
        if repeats(v, colors, i, kk, j) {
            let yk = choose|y: int| 0 <= y < cols.len() && cols[y] == kk;
            if yk >= b {
                if yk > b {
                    assert(cols[b] < cols[yk]);
                }
            }
            assert(colors[cols[yk] as int] != colors[cols[a] as int]);
        }
    }
    assert(first_partner(v, colors, i, j, k));
    let ck = choose|kk: int| first_partner(v, colors, i, j, kk);
    assert(first_partner(v, colors, i, j, ck));
    if ck < k {
        assert(!repeats(v, colors, i, ck, j));
    }
    if ck > k {
        assert(!repeats(v, colors, i, k, j));
    }
}

/// A distance-2 coloring is a valid distance-1 coloring: columns sharing a
/// row are one conflict apart, so they never share a color. This is why the
/// star coloring, built as a distance-2 coloring, also passes
/// [`verify_coloring`].
pub proof fn lemma_distance2_is_distance1(v: SparsityView, colors: Seq<usize>)
    requires
        v.wf(),
        valid_distance2_coloring(v, colors),
    ensures
        valid_coloring(v, colors),
{
    assert forall|i: int, j: int, k: int|
        #![trigger v.has(i, j), v.has(i, k)]
        j != k && v.has(i, j) && v.has(i, k) implies colors[j] != colors[k] by {
        assert(conflict(v, j, k));
        assert(near(v, j, k));
    }
}

/// Both greedy colorings pass [`verify_coloring`]: the distance-1 one by
/// construction, the distance-2 one because it is stronger.
pub proof fn lemma_greedy_colorings_valid(v: SparsityView, deg1: Seq<usize>, c1: Seq<usize>, deg2: Seq<usize>, c2: Seq<usize>)
    requires
        v.wf(),
        greedy_coloring(v, deg1, c1),
        greedy_distance2_coloring(v, deg2, c2),
    ensures
        valid_coloring(v, c1),
        valid_coloring(v, c2),
{
    lemma_distance2_is_distance1(v, c2);
}

/// The position of column `x` in the order by degree (descending) then
/// index, as a number that every earlier column has smaller.
pub open spec fn order_rank(deg: Seq<usize>, n: nat, x: int) -> int {
    (usize::MAX - deg[x]) * (n + 1) + x
}

/// An earlier column by degree then index has a smaller rank.
proof fn lemma_rank_earlier(deg: Seq<usize>, n: nat, y: int, x: int)
    requires
        n <= usize::MAX,
        deg.len() == n,
        0 <= y < n,
        0 <= x < n,
        key_lt(deg, true, y as usize, x as usize),
    ensures
        0 <= order_rank(deg, n, y) < order_rank(deg, n, x),
{
    let dy = usize::MAX - deg[y];
    let dx = usize::MAX - deg[x];
    assert(0 <= dy * (n + 1)) by (nonlinear_arith)
        requires
            0 <= dy,
            0 <= n,
    ;
    if deg[y] > deg[x] {
        assert(dy * (n + 1) + y < dx * (n + 1) + x) by (nonlinear_arith)
            requires
                dy + 1 <= dx,
                0 <= y < n,
                0 <= x,
        ;
    }
}

/// The greedy distance-1 coloring in a given order is unique: each column
/// has the lowest color that no earlier conflicting column has, so two
/// colorings with that property agree on every column.
pub proof fn lemma_greedy_coloring_unique(v: SparsityView, deg: Seq<usize>, c1: Seq<usize>, c2: Seq<usize>)
    requires
        v.wf(),
        v.ncols <= usize::MAX,
        deg.len() == v.ncols,
        greedy_coloring(v, deg, c1),
        greedy_coloring(v, deg, c2),
    ensures
        c1 == c2,
{
    assert forall|x: int| 0 <= x < v.ncols implies c1[x] == c2[x] by {
        lemma_greedy_unique_at(v, deg, c1, c2, x);
    }
    assert(c1 =~= c2);
}

proof fn lemma_greedy_unique_at(v: SparsityView, deg: Seq<usize>, c1: Seq<usize>, c2: Seq<usize>, x: int)
    requires
        v.wf(),
        v.ncols <= usize::MAX,
        deg.len() == v.ncols,
        greedy_coloring(v, deg, c1),
        greedy_coloring(v, deg, c2),
        0 <= x < v.ncols,
    ensures
        c1[x] == c2[x],
    decreases order_rank(deg, v.ncols, x),
{
    if c1[x] < c2[x] {
        assert(earlier_conflict_with(v, deg, c2, x, c1[x] as int));
        let y = choose|y: int|
            0 <= y < v.ncols && #[trigger] conflict(v, x, y) && key_lt(deg, true, y as usize, x as usize) && c2[y] == c1[x];
        lemma_rank_earlier(deg, v.ncols, y, x);
        lemma_greedy_unique_at(v, deg, c1, c2, y);
        let i = choose|i: int| #[trigger] v.has(i, x) && v.has(i, y);
        assert(c1[x] != c1[y]);
    } else if c2[x] < c1[x] {
        assert(earlier_conflict_with(v, deg, c1, x, c2[x] as int));
        let y = choose|y: int|
            0 <= y < v.ncols && #[trigger] conflict(v, x, y) && key_lt(deg, true, y as usize, x as usize) && c1[y] == c2[x];
        lemma_rank_earlier(deg, v.ncols, y, x);
        lemma_greedy_unique_at(v, deg, c1, c2, y);
        let i = choose|i: int| #[trigger] v.has(i, x) && v.has(i, y);
        assert(c2[x] != c2[y]);
    }
}

/// The greedy distance-2 coloring in a given order is unique, for the same
/// reason as the distance-1 one.
pub proof fn lemma_greedy_distance2_unique(v: SparsityView, deg: Seq<usize>, c1: Seq<usize>, c2: Seq<usize>)
    requires
        v.wf(),
        v.ncols <= usize::MAX,
        deg.len() == v.ncols,
        greedy_distance2_coloring(v, deg, c1),
        greedy_distance2_coloring(v, deg, c2),
    ensures
        c1 == c2,
{
    assert forall|x: int| 0 <= x < v.ncols implies c1[x] == c2[x] by {
        lemma_distance2_unique_at(v, deg, c1, c2, x);
    }
    assert(c1 =~= c2);
}

proof fn lemma_distance2_unique_at(v: SparsityView, deg: Seq<usize>, c1: Seq<usize>, c2: Seq<usize>, x: int)
    requires
        v.wf(),
        v.ncols <= usize::MAX,
        deg.len() == v.ncols,
        greedy_distance2_coloring(v, deg, c1),
        greedy_distance2_coloring(v, deg, c2),
        0 <= x < v.ncols,
    ensures
        c1[x] == c2[x],
    decreases order_rank(deg, v.ncols, x),
{
    if c1[x] < c2[x] {
        assert(earlier_near_with(v, deg, c2, x, c1[x] as int));
        let y = choose|y: int|
            0 <= y < v.ncols && #[trigger] near(v, x, y) && key_lt(deg, true, y as usize, x as usize) && c2[y] == c1[x];
        lemma_rank_earlier(deg, v.ncols, y, x);
        lemma_distance2_unique_at(v, deg, c1, c2, y);
        assert(c1[x] != c1[y]);
    } else if c2[x] < c1[x] {
        assert(earlier_near_with(v, deg, c1, x, c2[x] as int));
        let y = choose|y: int|
            0 <= y < v.ncols && #[trigger] near(v, x, y) && key_lt(deg, true, y as usize, x as usize) && c1[y] == c2[x];
        lemma_rank_earlier(deg, v.ncols, y, x);
        lemma_distance2_unique_at(v, deg, c1, c2, y);
        assert(c2[x] != c2[y]);
    }
}

/// The columns at most two conflicts away from column `j`.
pub open spec fn near_set(v: SparsityView, j: int) -> Set<int> {
    Set::new(|k: int| 0 <= k < v.ncols && near(v, j, k))
}

/// `m` different colors, each held by a column of `s`, need at least `m`
/// columns in `s`.
proof fn lemma_colors_need_columns(s: Set<int>, n: nat, colors: Seq<usize>, w: Seq<int>)
    requires
        forall|k: int| #[trigger] s.contains(k) ==> 0 <= k < n,
        forall|c: int| 0 <= c < w.len() ==> s.contains(#[trigger] w[c]) && colors[w[c]] == c,
    ensures
        w.len() <= s.len(),
        s.finite(),
{
    vstd::set_lib::lemma_int_range(0, n as int);
    assert(s.subset_of(vstd::set_lib::set_int_range(0, n as int)));
    vstd::set_lib::lemma_len_subset(s, vstd::set_lib::set_int_range(0, n as int));
    assert(w.no_duplicates()) by {
        assert forall|a: int, b: int| 0 <= a < w.len() && 0 <= b < w.len() && a != b implies w[a] != w[b] by {
            assert(colors[w[a]] == a);
            assert(colors[w[b]] == b);
        }
    }
    w.unique_seq_to_set();
    assert(w.to_set().subset_of(s));
    vstd::set_lib::lemma_len_subset(w.to_set(), s);
}

/// The greedy distance-1 coloring gives a column no color beyond the
/// number of columns it conflicts with, so it uses at most one group more
/// than the largest number of conflicts of a column.
pub proof fn lemma_greedy_color_bound(v: SparsityView, deg: Seq<usize>, colors: Seq<usize>, x: int)
    requires
        v.wf(),
        greedy_coloring(v, deg, colors),
        0 <= x < v.ncols,
    ensures
        colors[x] <= neighbour_set(v, x).len(),
{
    let m = colors[x] as int;
    let w = Seq::new(m as nat, |c: int| choose|k: int|
        0 <= k < v.ncols && #[trigger] conflict(v, x, k) && key_lt(deg, true, k as usize, x as usize) && colors[k] == c);
    assert forall|c: int| 0 <= c < w.len() implies neighbour_set(v, x).contains(#[trigger] w[c]) && colors[w[c]] == c by {
        assert(earlier_conflict_with(v, deg, colors, x, c));
    }
    lemma_colors_need_columns(neighbour_set(v, x), v.ncols, colors, w);
}

/// The greedy distance-2 coloring gives a column no color beyond the
/// number of columns at most two conflicts away.
pub proof fn lemma_distance2_color_bound(v: SparsityView, deg: Seq<usize>, colors: Seq<usize>, x: int)
    requires
        v.wf(),
        greedy_distance2_coloring(v, deg, colors),
        0 <= x < v.ncols,
    ensures
        colors[x] <= near_set(v, x).len(),
{
    let m = colors[x] as int;
    let w = Seq::new(m as nat, |c: int| choose|k: int|
        0 <= k < v.ncols && #[trigger] near(v, x, k) && key_lt(deg, true, k as usize, x as usize) && colors[k] == c);
    assert forall|c: int| 0 <= c < w.len() implies near_set(v, x).contains(#[trigger] w[c]) && colors[w[c]] == c by {
        assert(earlier_near_with(v, deg, colors, x, c));
    }
    lemma_colors_need_columns(near_set(v, x), v.ncols, colors, w);
}

/// The groups of `c` partition the `n` columns: each column lies in the
/// group of its color and in no other, every group is non-empty and lists
/// its columns in increasing order, and there is one group more than the
/// largest color, none without columns.
pub open spec fn partitions_columns(n: nat, c: ColoringView) -> bool {
    &&& c.colors.len() == n
    &&& forall|j: int|
        0 <= j < n ==> #[trigger] c.colors[j] < c.groups.len() && c.groups[c.colors[j] as int].contains(j as usize)
    &&& forall|g: int, j: usize|
        0 <= g < c.groups.len() ==> (#[trigger] c.groups[g].contains(j) <==> (j < n && c.colors[j as int] == g))
    &&& forall|g: int| 0 <= g < c.groups.len() ==> #[trigger] c.groups[g].len() > 0 && strictly_sorted(c.groups[g])
    &&& n == 0 ==> c.groups.len() == 0
    &&& n > 0 ==> exists|j: int| 0 <= j < n && c.colors[j] + 1 == c.groups.len()
}

/// Some column among the first `n` has color `g`.
pub open spec fn color_used(colors: Seq<usize>, n: nat, g: int) -> bool {
    exists|k: int| 0 <= k < n && colors[k] == g
}

/// A well-formed coloring in which every group's color is used partitions
/// the columns.
proof fn lemma_used_colors_partition(n: nat, c: ColoringView)
    requires
        c.wf(),
        c.colors.len() == n,
        n <= usize::MAX,
        forall|g: int| 0 <= g < c.groups.len() ==> #[trigger] color_used(c.colors, n, g),
    ensures
        partitions_columns(n, c),
{
    assert forall|j: int| 0 <= j < n implies #[trigger] c.colors[j] < c.groups.len() && c.groups[c.colors[j] as int].contains(
        j as usize,
    ) by {
        assert(c.colors[j as usize as int] == c.colors[j]);
    }
    assert forall|g: int| 0 <= g < c.groups.len() implies #[trigger] c.groups[g].len() > 0 && strictly_sorted(c.groups[g]) by {
        assert(color_used(c.colors, n, g));
        let k = choose|k: int| 0 <= k < n && c.colors[k] == g;
        assert(c.colors[k as usize as int] == g);
        assert(c.groups[g].contains(k as usize));
    }
}

/// The groups of a greedy distance-1 coloring partition the columns.
pub proof fn lemma_greedy_groups_partition(v: SparsityView, deg: Seq<usize>, c: ColoringView)
    requires
        v.ncols <= usize::MAX,
        c.wf(),
        greedy_coloring(v, deg, c.colors),
    ensures
        partitions_columns(v.ncols, c),
{
    assert forall|g: int| 0 <= g < c.groups.len() implies #[trigger] color_used(c.colors, v.ncols, g) by {
        let top = choose|j: int| 0 <= j < c.colors.len() && c.colors[j] == c.groups.len() - 1;
        if g < c.colors[top] {
            assert(earlier_conflict_with(v, deg, c.colors, top, g));
        } else {
            assert(c.colors[top] == g);
        }
    }
    lemma_used_colors_partition(v.ncols, c);
}

/// The groups of a greedy distance-2 (star) coloring partition the columns.
pub proof fn lemma_distance2_groups_partition(v: SparsityView, deg: Seq<usize>, c: ColoringView)
    requires
        v.ncols <= usize::MAX,
        c.wf(),
        greedy_distance2_coloring(v, deg, c.colors),
    ensures
        partitions_columns(v.ncols, c),
{
    assert forall|g: int| 0 <= g < c.groups.len() implies #[trigger] color_used(c.colors, v.ncols, g) by {
        let top = choose|j: int| 0 <= j < c.colors.len() && c.colors[j] == c.groups.len() - 1;
        if g < c.colors[top] {
            assert(earlier_near_with(v, deg, c.colors, top, g));
        } else {
            assert(c.colors[top] == g);
        }
    }
    lemma_used_colors_partition(v.ncols, c);
}

} // verus!
