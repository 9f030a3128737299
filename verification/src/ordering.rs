//! Fill-reducing orderings for the symmetric factorization.
//!
//! Reverse Cuthill–McKee is the default: strong on the banded systems that
//! come out of discretized optimal control, and a permutation on every
//! input. Ordering affects only the speed of a factorization, never its
//! answer.
use vstd::prelude::*;

use crate::perm::{
    bounded, distinct, is_inverse, is_permutation, lemma_covering_is_permutation,
    lemma_distinct_bounded_len, lemma_occurs_push, lemma_permutation_covers, occurs,
};
use crate::sort::{key_lt, sort_by_key, sorted_by_key};
use crate::sparsity::{lemma_column_of, SparsityView};

verus! {

/// Which fill-reducing permutation to use.
#[derive(Debug, Clone, Copy, PartialEq, Eq, Default)]
pub enum PivotOrder {
    /// Identity. For reproducing hand-worked examples and for debugging.
    Natural,
    /// Reverse Cuthill–McKee. Bandwidth-reducing; strong on banded systems.
    #[default]
    Rcm,
}

/// The identity permutation of `0..n`.
pub open spec fn identity(n: nat) -> Seq<usize> {
    Seq::new(n, |k: int| k as usize)
}

/// The column holding position `p` of a pattern.
pub open spec fn column_of(v: SparsityView, p: int) -> int {
    choose|j: int| 0 <= j < v.ncols && #[trigger] v.col_ptr[j] <= p < v.col_ptr[j + 1]
}

/// The column of every position of a pattern.
pub open spec fn columns(v: SparsityView) -> Seq<usize> {
    Seq::new(v.row_idx.len(), |p: int| column_of(v, p) as usize)
}

/// How often `r` is an endpoint of the off-diagonal entries before
/// position `p`, the entry at `q` joining `rows[q]` and `cols[q]`.
pub open spec fn ends_eq(rows: Seq<usize>, cols: Seq<usize>, r: int, p: int) -> nat
    decreases p,
{
    if p <= 0 {
        0
    } else {
        ends_eq(rows, cols, r, p - 1) + if rows[p - 1] != cols[p - 1] {
            (if rows[p - 1] == r { 1nat } else { 0nat }) + (if cols[p - 1] == r { 1nat } else { 0nat })
        } else {
            0nat
        }
    }
}

/// How many endpoints of the off-diagonal entries before position `p` lie
/// below `r`.
pub open spec fn ends_lt(rows: Seq<usize>, cols: Seq<usize>, r: int, p: int) -> nat
    decreases p,
{
    if p <= 0 {
        0
    } else {
        ends_lt(rows, cols, r, p - 1) + if rows[p - 1] != cols[p - 1] {
            (if rows[p - 1] < r { 1nat } else { 0nat }) + (if cols[p - 1] < r { 1nat } else { 0nat })
        } else {
            0nat
        }
    }
}

/// The entry at position `p`, joining `rows[p]` and `cols[p]`, is off the
/// diagonal and has `x` as an endpoint.
pub open spec fn incident(rows: Seq<usize>, cols: Seq<usize>, p: int, x: int) -> bool {
    rows[p] != cols[p] && (rows[p] == x || cols[p] == x)
}

/// The endpoint of the entry at `p` other than `x`.
pub open spec fn other_end(rows: Seq<usize>, cols: Seq<usize>, p: int, x: int) -> int {
    if rows[p] == x {
        cols[p] as int
    } else {
        rows[p] as int
    }
}

/// Vertices `a` and `b` of the symmetric matrix whose pattern is `v` are
/// different and joined by a stored entry, in either triangle.
pub open spec fn joined(v: SparsityView, a: int, b: int) -> bool {
    a != b && (v.has(a, b) || v.has(b, a))
}

/// Counting the entries before `p` with endpoint `x`, an entry with
/// endpoint `x` adds one.
proof fn lemma_ends_incident(rows: Seq<usize>, cols: Seq<usize>, x: int, p: int)
    requires
        0 <= p,
    ensures
        ends_eq(rows, cols, x, p + 1) == ends_eq(rows, cols, x, p) + if incident(rows, cols, p, x) { 1int } else { 0int },
{
}

/// Every count below `ends_eq(x, m)` is reached at some entry with
/// endpoint `x` before `m`.
proof fn lemma_ends_cover(rows: Seq<usize>, cols: Seq<usize>, x: int, m: int, k: int)
    requires
        0 <= m,
        0 <= k < ends_eq(rows, cols, x, m),
    ensures
        exists|q: int| 0 <= q < m && incident(rows, cols, q, x) && ends_eq(rows, cols, x, q) == k,
    decreases m,
{
    lemma_ends_incident(rows, cols, x, m - 1);
    if k < ends_eq(rows, cols, x, m - 1) {
        lemma_ends_cover(rows, cols, x, m - 1, k);
    } else {
        assert(incident(rows, cols, m - 1, x) && ends_eq(rows, cols, x, m - 1) == k);
    }
}

/// An entry with endpoint `x` comes before `p` only with a smaller count.
proof fn lemma_ends_strict(rows: Seq<usize>, cols: Seq<usize>, x: int, q: int, p: int)
    requires
        0 <= q < p,
        incident(rows, cols, q, x),
    ensures
        ends_eq(rows, cols, x, q) < ends_eq(rows, cols, x, p),
{
    lemma_ends_incident(rows, cols, x, q);
    lemma_ends_mono(rows, cols, x, x, q + 1, p);
}

proof fn lemma_ends_bounded(rows: Seq<usize>, cols: Seq<usize>, r: int, p: int)
    requires
        0 <= p,
    ensures
        ends_eq(rows, cols, r, p) <= p,
        ends_lt(rows, cols, r, p) <= 2 * p,
    decreases p,
{
    if p > 0 {
        lemma_ends_bounded(rows, cols, r, p - 1);
    }
}

proof fn lemma_ends_step(rows: Seq<usize>, cols: Seq<usize>, r: int, p: int)
    requires
        0 <= p,
    ensures
        ends_lt(rows, cols, r + 1, p) == ends_lt(rows, cols, r, p) + ends_eq(rows, cols, r, p),
    decreases p,
{
    if p > 0 {
        lemma_ends_step(rows, cols, r, p - 1);
    }
}

proof fn lemma_ends_mono(rows: Seq<usize>, cols: Seq<usize>, a: int, b: int, p: int, q: int)
    requires
        a <= b,
        0 <= p <= q,
    ensures
        ends_lt(rows, cols, a, p) <= ends_lt(rows, cols, b, q),
        ends_eq(rows, cols, a, p) <= ends_eq(rows, cols, a, q),
    decreases q,
{
    if q > p {
        lemma_ends_mono(rows, cols, a, b, p, q - 1);
    } else if p > 0 {
        lemma_ends_mono(rows, cols, a, b, p - 1, q - 1);
    }
}

proof fn lemma_ends_zero(rows: Seq<usize>, cols: Seq<usize>, p: int)
    requires
        0 <= p,
    ensures
        ends_lt(rows, cols, 0, p) == 0,
    decreases p,
{
    if p > 0 {
        lemma_ends_zero(rows, cols, p - 1);
    }
}

/// Positions of column `j` have column `j`.
pub(crate) proof fn lemma_columns_in(v: SparsityView, j: int, p: int)
    requires
        v.ptrs_wf(),
        0 <= j < v.ncols,
        v.col_ptr[j] <= p < v.col_ptr[j + 1],
    ensures
        column_of(v, p) == j,
{
    let c = column_of(v, p);
    assert(exists|jj: int| 0 <= jj < v.ncols && #[trigger] v.col_ptr[jj] <= p < v.col_ptr[jj + 1]);
    if c < j {
        assert(v.col_ptr[c + 1] <= v.col_ptr[j]);
    }
    if c > j {
        assert(v.col_ptr[j + 1] <= v.col_ptr[c]);
    }
}

/// The full (both triangles, no diagonal) adjacency of the symmetric matrix
/// whose upper triangle has the given CSC structure, as pointers and
/// neighbour lists: the list of each vertex holds exactly the vertices
/// joined to it, one slot for each off-diagonal entry it is an endpoint of.
#[verifier::rlimit(80)]
#[verifier::spinoff_prover]
fn adjacency(n: usize, col_ptr: &[usize], row_idx: &[usize]) -> (r: (Vec<usize>, Vec<usize>))
    requires
        (SparsityView { nrows: n as nat, ncols: n as nat, col_ptr: col_ptr@, row_idx: row_idx@ }).wf(),
        n < usize::MAX,
        2 * row_idx@.len() <= usize::MAX,
    ensures
        r.0@.len() == n + 1,
        r.0@[0] == 0,
        r.0@[n as int] == r.1@.len(),
        forall|a: int, b: int| 0 <= a <= b <= n ==> r.0@[a] <= r.0@[b],
        bounded(r.1@, n as nat),
        forall|x: int| 0 <= x < n ==> #[trigger] r.0@[x + 1] - r.0@[x] == ends_eq(
            row_idx@,
            columns(SparsityView { nrows: n as nat, ncols: n as nat, col_ptr: col_ptr@, row_idx: row_idx@ }),
            x,
            row_idx@.len() as int,
        ),
        forall|x: int, s: int|
            0 <= x < n && #[trigger] r.0@[x] <= s < r.0@[x + 1] ==> joined(
                SparsityView { nrows: n as nat, ncols: n as nat, col_ptr: col_ptr@, row_idx: row_idx@ },
                x,
                #[trigger] r.1@[s] as int,
            ),
        forall|x: int, w: int|
            0 <= x < n && #[trigger] joined(
                SparsityView { nrows: n as nat, ncols: n as nat, col_ptr: col_ptr@, row_idx: row_idx@ },
                x,
                w,
            ) ==> exists|s: int| r.0@[x] <= s < r.0@[x + 1] && r.1@[s] == w,
{
    let ghost v = SparsityView { nrows: n as nat, ncols: n as nat, col_ptr: col_ptr@, row_idx: row_idx@ };
    let ghost rows = row_idx@;
    let ghost cols = columns(v);
    let nnz = row_idx.len();
    let mut deg: Vec<usize> = Vec::new();
    let mut k: usize = 0;
    while k <= n
        invariant
            k <= n + 1,
            n < usize::MAX,
            deg@.len() == k,
            forall|q: int| 0 <= q < k ==> deg@[q] == 0,
        decreases n + 1 - k,
    {
        deg.push(0);
        k += 1;
    }
    // Pass 1: count endpoints per vertex.
    let mut j: usize = 0;
    while j < n
        invariant
            v.wf(),
            v == (SparsityView { nrows: n as nat, ncols: n as nat, col_ptr: col_ptr@, row_idx: row_idx@ }),
            rows == row_idx@,
            cols == columns(v),
            nnz == rows.len(),
            2 * nnz <= usize::MAX,
            j <= n,
            deg@.len() == n + 1,
            deg@[0] == 0,
            forall|x: int| 0 <= x < n ==> #[trigger] deg@[x + 1] == ends_eq(rows, cols, x, col_ptr@[j as int] as int),
        decreases n - j,
    {
        let mut p = col_ptr[j];
        let end = col_ptr[j + 1];
        assert(end <= nnz) by {
            assert(col_ptr@[j + 1] <= col_ptr@[n as int]);
        }
        while p < end
            invariant
                v.wf(),
                v == (SparsityView { nrows: n as nat, ncols: n as nat, col_ptr: col_ptr@, row_idx: row_idx@ }),
                rows == row_idx@,
                cols == columns(v),
                nnz == rows.len(),
                2 * nnz <= usize::MAX,
                j < n,
                col_ptr@[j as int] <= p <= end,
                end == col_ptr@[j + 1],
                end <= nnz,
                deg@.len() == n + 1,
                deg@[0] == 0,
                forall|x: int| 0 <= x < n ==> #[trigger] deg@[x + 1] == ends_eq(rows, cols, x, p as int),
            decreases end - p,
        {
            let i = row_idx[p];
            proof {
                lemma_columns_in(v, j as int, p as int);
                assert(cols[p as int] == j);
                lemma_ends_bounded(rows, cols, i as int, p as int);
                lemma_ends_bounded(rows, cols, j as int, p as int);
            }
            if i != j {
                deg.set(i + 1, deg[i + 1] + 1);
                deg.set(j + 1, deg[j + 1] + 1);
            }
            proof {
                assert forall|x: int| 0 <= x < n implies #[trigger] deg@[x + 1] == ends_eq(rows, cols, x, p + 1) by {}
            }
            p += 1;
        }
        j += 1;
    }
    proof {
        assert(col_ptr@[n as int] == nnz);
        lemma_ends_zero(rows, cols, nnz as int);
        assert forall|x: int| 0 < x <= n implies #[trigger] deg@[x] == ends_eq(rows, cols, x - 1, nnz as int) by {
            assert(deg@[(x - 1) + 1] == ends_eq(rows, cols, x - 1, nnz as int));
        }
    }
    // Prefix sums.
    let mut i: usize = 0;
    while i < n
        invariant
            nnz == rows.len(),
            2 * nnz <= usize::MAX,
            i <= n,
            deg@.len() == n + 1,
            forall|x: int| 0 <= x <= i ==> #[trigger] deg@[x] == ends_lt(rows, cols, x, nnz as int),
            forall|x: int| i < x <= n ==> #[trigger] deg@[x] == ends_eq(rows, cols, x - 1, nnz as int),
        decreases n - i,
    {
        proof {
            lemma_ends_step(rows, cols, i as int, nnz as int);
            lemma_ends_bounded(rows, cols, i + 1, nnz as int);
        }
        deg.set(i + 1, deg[i + 1] + deg[i]);
        i += 1;
    }
    proof {
        assert forall|a: int, b: int| 0 <= a <= b <= n implies deg@[a] <= deg@[b] by {
            lemma_ends_mono(rows, cols, a, b, nnz as int, nnz as int);
        }
        assert forall|x: int| 0 <= x < n implies #[trigger] deg@[x + 1] - deg@[x] == ends_eq(rows, cols, x, nnz as int) by {
            lemma_ends_step(rows, cols, x, nnz as int);
        }
    }
    let adj_ptr = deg.clone();
    assert(adj_ptr@ =~= deg@);
    let ghost ptr = adj_ptr@;
    let total = adj_ptr[n];
    let mut adj: Vec<usize> = Vec::new();
    let mut q: usize = 0;
    while q < total
        invariant
            q <= total,
            adj@.len() == q,
            forall|s: int| 0 <= s < q ==> adj@[s] == 0,
        decreases total - q,
    {
        adj.push(0);
        q += 1;
    }
    proof {
        if total > 0 {
            // Some endpoint exists, so there is a vertex.
            assert(n > 0) by {
                if n == 0 {
                    lemma_ends_zero(rows, cols, nnz as int);
                }
            }
        }
    }
    // Pass 2: scatter every off-diagonal entry into both endpoints' lists.
    let mut next = deg;
    let mut j: usize = 0;
    while j < n
        invariant
            v.wf(),
            v == (SparsityView { nrows: n as nat, ncols: n as nat, col_ptr: col_ptr@, row_idx: row_idx@ }),
            rows == row_idx@,
            cols == columns(v),
            nnz == rows.len(),
            j <= n,
            ptr.len() == n + 1,
            forall|x: int| 0 <= x <= n ==> #[trigger] ptr[x] == ends_lt(rows, cols, x, nnz as int),
            next@.len() == n + 1,
            forall|x: int| 0 <= x < n ==> #[trigger] next@[x] == ptr[x] + ends_eq(rows, cols, x, col_ptr@[j as int] as int),
            adj@.len() == total,
            total == ptr[n as int],
            bounded(adj@, n as nat),
            slots_filled(rows, cols, ptr, adj@, n as int, col_ptr@[j as int] as int),
        decreases n - j,
    {
        let mut p = col_ptr[j];
        let end = col_ptr[j + 1];
        assert(end <= nnz) by {
            assert(col_ptr@[j + 1] <= col_ptr@[n as int]);
        }
        while p < end
            invariant
                v.wf(),
                v == (SparsityView { nrows: n as nat, ncols: n as nat, col_ptr: col_ptr@, row_idx: row_idx@ }),
                rows == row_idx@,
                cols == columns(v),
                nnz == rows.len(),
                j < n,
                col_ptr@[j as int] <= p <= end,
                end == col_ptr@[j + 1],
                end <= nnz,
                ptr.len() == n + 1,
                forall|x: int| 0 <= x <= n ==> #[trigger] ptr[x] == ends_lt(rows, cols, x, nnz as int),
                next@.len() == n + 1,
                forall|x: int| 0 <= x < n ==> #[trigger] next@[x] == ptr[x] + ends_eq(rows, cols, x, p as int),
                adj@.len() == total,
                total == ptr[n as int],
                bounded(adj@, n as nat),
                slots_filled(rows, cols, ptr, adj@, n as int, p as int),
            decreases end - p,
        {
            let i = row_idx[p];
            proof {
                lemma_columns_in(v, j as int, p as int);
                assert(cols[p as int] == j);
            }
            scatter_entry(&mut adj, &mut next, i, j, Ghost(rows), Ghost(cols), Ghost(ptr), Ghost(n as int), Ghost(p as int));
            p += 1;
        }
        j += 1;
    }
    proof {
        assert(col_ptr@[n as int] == nnz);
        assert forall|x: int, s: int|
            0 <= x < n && #[trigger] ptr[x] <= s < ptr[x + 1] implies joined(v, x, #[trigger] adj@[s] as int) by {
            lemma_lists_sound(v, ptr, adj@, x, s);
        }
        assert forall|x: int, w: int| 0 <= x < n && #[trigger] joined(v, x, w) implies exists|s: int|
            ptr[x] <= s < ptr[x + 1] && adj@[s] == w by {
            lemma_lists_complete(v, ptr, adj@, x, w);
        }
    }
    (adj_ptr, adj)
}

/// Place the entry at position `p`, joining `i` and `j`, in both endpoints'
/// neighbour lists, at the next free slot of each.
fn scatter_entry(
    adj: &mut Vec<usize>,
    next: &mut Vec<usize>,
    i: usize,
    j: usize,
    Ghost(rows): Ghost<Seq<usize>>,
    Ghost(cols): Ghost<Seq<usize>>,
    Ghost(ptr): Ghost<Seq<usize>>,
    Ghost(n): Ghost<int>,
    Ghost(p): Ghost<int>,
)
    requires
        rows.len() == cols.len(),
        0 <= p < rows.len(),
        rows[p] == i,
        cols[p] == j,
        i < n,
        j < n,
        ptr.len() == n + 1,
        forall|x: int| 0 <= x <= n ==> #[trigger] ptr[x] == ends_lt(rows, cols, x, rows.len() as int),
        old(next)@.len() == n + 1,
        forall|x: int| 0 <= x < n ==> #[trigger] old(next)@[x] == ptr[x] + ends_eq(rows, cols, x, p),
        old(adj)@.len() == ptr[n],
        bounded(old(adj)@, n as nat),
        slots_filled(rows, cols, ptr, old(adj)@, n, p),
    ensures
        final(next)@.len() == n + 1,
        forall|x: int| 0 <= x < n ==> #[trigger] final(next)@[x] == ptr[x] + ends_eq(rows, cols, x, p + 1),
        final(adj)@.len() == ptr[n],
        bounded(final(adj)@, n as nat),
        slots_filled(rows, cols, ptr, final(adj)@, n, p + 1),
{
    if i != j {
        proof {
            lemma_adjacency_slot(rows, cols, ptr, n, i as int, p);
            lemma_adjacency_slot(rows, cols, ptr, n, j as int, p);
            lemma_scatter_step(rows, cols, ptr, adj@, n, p);
        }
        let ghost adj0 = adj@;
        let si = next[i];
        adj.set(si, j);
        next.set(i, si + 1);
        let sj = next[j];
        adj.set(sj, i);
        next.set(j, sj + 1);
        assert(adj@ == adj0.update(si as int, j).update(sj as int, i));
    } else {
        assert(slots_filled(rows, cols, ptr, adj@, n, p + 1)) by {
            assert forall|q: int, x: int|
                0 <= q < p + 1 && 0 <= x < n && #[trigger] incident(rows, cols, q, x) implies adj@[ptr[x]
                    + ends_eq(rows, cols, x, q)] == other_end(rows, cols, q, x) by {
                assert(q < p);
            }
        }
    }
    proof {
        assert forall|x: int| 0 <= x < n implies #[trigger] next@[x] == ptr[x] + ends_eq(rows, cols, x, p + 1) by {}
    }
}

/// Every entry before `m` with endpoint `x` has put its other endpoint in
/// the slot of `x`'s list that its count names.
pub open spec fn slots_filled(rows: Seq<usize>, cols: Seq<usize>, ptr: Seq<usize>, adj: Seq<usize>, n: int, m: int) -> bool {
    forall|q: int, x: int|
        0 <= q < m && 0 <= x < n && #[trigger] incident(rows, cols, q, x) ==> adj[ptr[x] + ends_eq(rows, cols, x, q)]
            == other_end(rows, cols, q, x)
}

/// Placing the entry at `p` in the lists of both its endpoints keeps every
/// earlier entry in place.
proof fn lemma_scatter_step(
    rows: Seq<usize>,
    cols: Seq<usize>,
    ptr: Seq<usize>,
    adj0: Seq<usize>,
    n: int,
    p: int,
)
    requires
        0 <= p < rows.len(),
        rows.len() == cols.len(),
        rows[p] != cols[p],
        0 <= rows[p] < n,
        0 <= cols[p] < n,
        ptr.len() == n + 1,
        forall|y: int| 0 <= y <= n ==> #[trigger] ptr[y] == ends_lt(rows, cols, y, rows.len() as int),
        adj0.len() == ptr[n],
        slots_filled(rows, cols, ptr, adj0, n, p),
    ensures
        ({
            let i = rows[p] as int;
            let j = cols[p] as int;
            let adj2 = adj0.update(ptr[i] + ends_eq(rows, cols, i, p), j as usize).update(
                ptr[j] + ends_eq(rows, cols, j, p),
                i as usize,
            );
            slots_filled(rows, cols, ptr, adj2, n, p + 1)
        }),
{
    let i = rows[p] as int;
    let j = cols[p] as int;
    let si = ptr[i] + ends_eq(rows, cols, i, p);
    let sj = ptr[j] + ends_eq(rows, cols, j, p);
    let adj1 = adj0.update(si, j as usize);
    let adj2 = adj1.update(sj, i as usize);
    lemma_adjacency_slot(rows, cols, ptr, n, i, p);
    lemma_adjacency_slot(rows, cols, ptr, n, j, p);
    assert(si != sj) by {
        if i < j {
            lemma_ends_mono(rows, cols, i + 1, j, rows.len() as int, rows.len() as int);
        } else {
            lemma_ends_mono(rows, cols, j + 1, i, rows.len() as int, rows.len() as int);
        }
    }
    assert forall|q: int, x: int|
        0 <= q < p + 1 && 0 <= x < n && #[trigger] incident(rows, cols, q, x) implies adj2[ptr[x] + ends_eq(rows, cols, x, q)]
            == other_end(rows, cols, q, x) by {
        let sq = ptr[x] + ends_eq(rows, cols, x, q);
        if q < p {
            lemma_adjacency_slot(rows, cols, ptr, n, x, q);
            assert(sq != si) by {
                if x == i {
                    lemma_ends_strict(rows, cols, x, q, p);
                } else if x < i {
                    lemma_ends_mono(rows, cols, x + 1, i, rows.len() as int, rows.len() as int);
                } else {
                    lemma_ends_mono(rows, cols, i + 1, x, rows.len() as int, rows.len() as int);
                }
            }
            assert(sq != sj) by {
                if x == j {
                    lemma_ends_strict(rows, cols, x, q, p);
                } else if x < j {
                    lemma_ends_mono(rows, cols, x + 1, j, rows.len() as int, rows.len() as int);
                } else {
                    lemma_ends_mono(rows, cols, j + 1, x, rows.len() as int, rows.len() as int);
                }
            }
        }
    }
}

/// Once every entry is placed, each slot of the list of `x` holds a vertex
/// joined to `x`.
proof fn lemma_lists_sound(v: SparsityView, ptr: Seq<usize>, adj: Seq<usize>, x: int, s: int)
    requires
        v.wf(),
        v.nrows == v.ncols,
        v.ncols < usize::MAX,
        ptr.len() == v.ncols + 1,
        forall|y: int| 0 <= y <= v.ncols ==> #[trigger] ptr[y] == ends_lt(v.row_idx, columns(v), y, v.nnz() as int),
        adj.len() == ptr[v.ncols as int],
        slots_filled(v.row_idx, columns(v), ptr, adj, v.ncols as int, v.nnz() as int),
        0 <= x < v.ncols,
        ptr[x] <= s < ptr[x + 1],
    ensures
        joined(v, x, adj[s] as int),
{
    let rows = v.row_idx;
    let cols = columns(v);
    let m = v.nnz() as int;
    assert(ptr[x + 1] - ptr[x] == ends_eq(rows, cols, x, m)) by {
        lemma_ends_step(rows, cols, x, m);
        assert(ptr[x] == ends_lt(rows, cols, x, m));
        assert(ptr[x + 1] == ends_lt(rows, cols, x + 1, m));
    }
    lemma_ends_cover(rows, cols, x, m, s - ptr[x]);
    let q = choose|q: int| 0 <= q < m && incident(rows, cols, q, x) && ends_eq(rows, cols, x, q) == s - ptr[x];
    assert(adj[s] == other_end(rows, cols, q, x));
    let c = crate::sparsity::lemma_column_of(v, q);
    lemma_columns_in(v, c, q);
    assert(cols[q] == c);
    assert(v.has(rows[q] as int, c));
}

/// Once every entry is placed, every vertex joined to `x` is in its list.
proof fn lemma_lists_complete(v: SparsityView, ptr: Seq<usize>, adj: Seq<usize>, x: int, w: int)
    requires
        v.wf(),
        v.nrows == v.ncols,
        v.ncols < usize::MAX,
        ptr.len() == v.ncols + 1,
        forall|y: int| 0 <= y <= v.ncols ==> #[trigger] ptr[y] == ends_lt(v.row_idx, columns(v), y, v.nnz() as int),
        adj.len() == ptr[v.ncols as int],
        slots_filled(v.row_idx, columns(v), ptr, adj, v.ncols as int, v.nnz() as int),
        0 <= x < v.ncols,
        joined(v, x, w),
    ensures
        exists|s: int| ptr[x] <= s < ptr[x + 1] && adj[s] == w,
{
    let rows = v.row_idx;
    let cols = columns(v);
    let n = v.ncols as int;
    let (i, j) = if v.has(x, w) {
        (x, w)
    } else {
        (w, x)
    };
    assert(v.has(i, j));
    let q = choose|q: int| v.col_ptr[j] <= q < v.col_ptr[j + 1] && v.row_idx[q] == i;
    assert(v.col_ptr[j + 1] <= v.col_ptr[n]);
    lemma_columns_in(v, j, q);
    assert(cols[q] == j);
    assert(incident(rows, cols, q, x));
    lemma_adjacency_slot(rows, cols, ptr, n, x, q);
    assert(adj[ptr[x] + ends_eq(rows, cols, x, q)] == w);
}

/// Before the off-diagonal entry at `p` has been placed, a slot remains in
/// the list of each of its endpoints `x`.
proof fn lemma_adjacency_slot(rows: Seq<usize>, cols: Seq<usize>, ptr: Seq<usize>, n: int, x: int, p: int)
    requires
        0 <= p < rows.len(),
        rows.len() == cols.len(),
        rows[p] != cols[p],
        rows[p] == x || cols[p] == x,
        0 <= x < n,
        ptr.len() == n + 1,
        forall|y: int| 0 <= y <= n ==> #[trigger] ptr[y] == ends_lt(rows, cols, y, rows.len() as int),
    ensures
        ptr[x] + ends_eq(rows, cols, x, p) < ptr[x + 1],
        ptr[x + 1] <= ptr[n],
{
    let m = rows.len() as int;
    lemma_ends_mono(rows, cols, x, x, p + 1, m);
    lemma_ends_step(rows, cols, x, m);
    lemma_ends_mono(rows, cols, x + 1, n, m, m);
}

/// The degree of each vertex: how many off-diagonal entries have it as an
/// endpoint.
pub open spec fn degrees(v: SparsityView) -> Seq<usize> {
    Seq::new(v.ncols, |x: int| ends_eq(v.row_idx, columns(v), x, v.nnz() as int) as usize)
}

/// Position `s` holds the first vertex of `order` joined to the vertex at
/// position `t`.
pub open spec fn earliest_neighbour(v: SparsityView, order: Seq<usize>, t: int, s: int) -> bool {
    &&& 0 <= s < t
    &&& joined(v, order[s] as int, order[t] as int)
    &&& forall|s2: int| 0 <= s2 < s ==> !#[trigger] joined(v, order[s2] as int, order[t] as int)
}

/// Position `t` starts a new component: every vertex joined to a vertex
/// before `t` comes before `t`, and the vertex at `t` comes first, by degree
/// then index, among those not yet placed.
pub open spec fn starts_component(v: SparsityView, deg: Seq<usize>, order: Seq<usize>, t: int) -> bool {
    &&& forall|a: int, w: int| 0 <= a < t && #[trigger] joined(v, order[a] as int, w) ==> occurs(order.take(t), w)
    &&& forall|w: int|
        0 <= w < v.ncols && w != order[t] && !#[trigger] occurs(order.take(t), w) ==> key_lt(
            deg,
            false,
            order[t],
            w as usize,
        )
}

/// `order` is a Cuthill–McKee order of the graph of `v`: a breadth-first
/// search that starts each component at its first vertex by degree then
/// index, and appends the unplaced neighbours of each vertex in turn, by
/// degree then index. Every position either starts a component or has an
/// earliest neighbour, and positions are sorted by their earliest
/// neighbour, then by degree and index.
pub open spec fn cuthill_mckee(v: SparsityView, deg: Seq<usize>, order: Seq<usize>) -> bool {
    &&& forall|t: int|
        0 <= t < order.len() ==> (exists|s: int| #[trigger] earliest_neighbour(v, order, t, s)) || starts_component(
            v,
            deg,
            order,
            t,
        )
    &&& forall|t: int, t2: int, s: int, s2: int|
        0 <= t < t2 < order.len() && #[trigger] earliest_neighbour(v, order, t, s) && #[trigger] earliest_neighbour(
            v,
            order,
            t2,
            s2,
        ) ==> s < s2 || (s == s2 && key_lt(deg, false, order[t], order[t2]))
}

/// Appending to `order` changes nothing about its earlier positions.
proof fn lemma_prefix_stable(v: SparsityView, deg: Seq<usize>, order: Seq<usize>, w: usize)
    ensures
        forall|t: int, s: int|
            0 <= t < order.len() ==> (#[trigger] earliest_neighbour(v, order.push(w), t, s) <==> earliest_neighbour(
                v,
                order,
                t,
                s,
            )),
        forall|t: int|
            0 <= t < order.len() ==> (#[trigger] starts_component(v, deg, order.push(w), t) <==> starts_component(
                v,
                deg,
                order,
                t,
            )),
{
    let o2 = order.push(w);
    assert forall|t: int| 0 <= t < order.len() implies #[trigger] o2.take(t) == order.take(t) by {
        assert(o2.take(t) =~= order.take(t));
    }
    assert forall|t: int, s: int| 0 <= t < order.len() implies (#[trigger] earliest_neighbour(v, o2, t, s) <==> earliest_neighbour(
        v,
        order,
        t,
        s,
    )) by {
        if 0 <= s < t {
            assert(o2[s] == order[s]);
            assert forall|s2: int| 0 <= s2 < s implies o2[s2] == order[s2] by {}
        }
    }
    assert forall|t: int| 0 <= t < order.len() implies (#[trigger] starts_component(v, deg, o2, t) <==> starts_component(
        v,
        deg,
        order,
        t,
    )) by {
        assert(o2.take(t) == order.take(t));
        assert forall|a: int| 0 <= a < t implies o2[a] == order[a] by {}
    }
}

/// A vertex placed as a child of position `h`, after every child of earlier
/// positions and after the children of `h` with smaller keys, keeps the
/// order Cuthill–McKee.
proof fn lemma_cm_push_child(v: SparsityView, deg: Seq<usize>, order: Seq<usize>, w: usize, h: int)
    requires
        cuthill_mckee(v, deg, order),
        0 <= h < order.len(),
        joined(v, order[h] as int, w as int),
        forall|s2: int| 0 <= s2 < h ==> !#[trigger] joined(v, order[s2] as int, w as int),
        forall|t: int, s: int|
            0 <= t < order.len() && #[trigger] earliest_neighbour(v, order, t, s) ==> s < h || (s == h && key_lt(
                deg,
                false,
                order[t],
                w,
            )),
    ensures
        cuthill_mckee(v, deg, order.push(w)),
{
    let o2 = order.push(w);
    let len = order.len() as int;
    lemma_prefix_stable(v, deg, order, w);
    assert(earliest_neighbour(v, o2, len, h)) by {
        assert forall|s2: int| 0 <= s2 < h implies !#[trigger] joined(v, o2[s2] as int, o2[len] as int) by {
            assert(o2[s2] == order[s2]);
        }
    }
    assert forall|t: int| 0 <= t < o2.len() implies (exists|s: int| #[trigger] earliest_neighbour(v, o2, t, s))
        || starts_component(v, deg, o2, t) by {
        if t < len {
            if exists|s: int| #[trigger] earliest_neighbour(v, order, t, s) {
                let s = choose|s: int| #[trigger] earliest_neighbour(v, order, t, s);
                assert(earliest_neighbour(v, o2, t, s));
            }
        }
    }
    assert forall|t: int, t2: int, s: int, s2: int|
        0 <= t < t2 < o2.len() && #[trigger] earliest_neighbour(v, o2, t, s) && #[trigger] earliest_neighbour(
            v,
            o2,
            t2,
            s2,
        ) implies s < s2 || (s == s2 && key_lt(deg, false, o2[t], o2[t2])) by {
        if t2 == len {
            assert(earliest_neighbour(v, order, t, s));
            assert(s2 == h) by {
                if s2 < h {
                    assert(!joined(v, o2[s2] as int, o2[len] as int));
                }
                if h < s2 {
                    assert(!joined(v, o2[h] as int, o2[len] as int));
                }
            }
        } else {
            assert(earliest_neighbour(v, order, t, s));
            assert(earliest_neighbour(v, order, t2, s2));
        }
    }
}

/// A vertex placed when every vertex joined to a placed one is placed, and
/// first by degree then index among the unplaced, starts a component and
/// keeps the order Cuthill–McKee.
proof fn lemma_cm_push_root(v: SparsityView, deg: Seq<usize>, order: Seq<usize>, w: usize)
    requires
        cuthill_mckee(v, deg, order),
        !occurs(order, w as int),
        forall|a: int, x: int| 0 <= a < order.len() && #[trigger] joined(v, order[a] as int, x) ==> occurs(order, x),
        forall|x: int| 0 <= x < v.ncols && x != w && !#[trigger] occurs(order, x) ==> key_lt(deg, false, w, x as usize),
    ensures
        cuthill_mckee(v, deg, order.push(w)),
{
    let o2 = order.push(w);
    let len = order.len() as int;
    lemma_prefix_stable(v, deg, order, w);
    assert(o2.take(len) =~= order);
    assert(starts_component(v, deg, o2, len)) by {
        assert forall|a: int, x: int| 0 <= a < len && #[trigger] joined(v, o2[a] as int, x) implies occurs(o2.take(len), x) by {
            assert(o2[a] == order[a]);
            assert(joined(v, order[a] as int, x));
        }
    }
    assert forall|t: int| 0 <= t < o2.len() implies (exists|s: int| #[trigger] earliest_neighbour(v, o2, t, s))
        || starts_component(v, deg, o2, t) by {
        if t < len {
            if exists|s: int| #[trigger] earliest_neighbour(v, order, t, s) {
                let s = choose|s: int| #[trigger] earliest_neighbour(v, order, t, s);
                assert(earliest_neighbour(v, o2, t, s));
            }
        }
    }
    assert forall|t: int, t2: int, s: int, s2: int|
        0 <= t < t2 < o2.len() && #[trigger] earliest_neighbour(v, o2, t, s) && #[trigger] earliest_neighbour(
            v,
            o2,
            t2,
            s2,
        ) implies s < s2 || (s == s2 && key_lt(deg, false, o2[t], o2[t2])) by {
        if t2 == len {
            assert(o2[s2] == order[s2]);
            assert(joined(v, order[s2] as int, w as int));
            assert(occurs(order, w as int));
        } else {
            assert(earliest_neighbour(v, order, t, s));
            assert(earliest_neighbour(v, order, t2, s2));
        }
    }
}

/// A vertex placed after position `t` in an order that agrees with another
/// on its first `t` positions, and joined to one of them, has the same
/// earliest neighbour with respect to both.
proof fn lemma_later_earliest(
    v: SparsityView,
    deg: Seq<usize>,
    a: Seq<usize>,
    b: Seq<usize>,
    t: int,
    t2: int,
    s: int,
)
    requires
        distinct(b),
        cuthill_mckee(v, deg, b),
        0 <= t < t2 < b.len(),
        t < a.len(),
        forall|i: int| 0 <= i < t ==> a[i] == b[i],
        a[t] == b[t2],
        earliest_neighbour(v, a, t, s),
    ensures
        earliest_neighbour(v, b, t2, s),
{
    let x = a[t];
    assert(joined(v, b[s] as int, x as int));
    if !(exists|s3: int| #[trigger] earliest_neighbour(v, b, t2, s3)) {
        assert(starts_component(v, deg, b, t2));
        assert(occurs(b.take(t2), x as int));
        let k = choose|k: int| 0 <= k < b.take(t2).len() && b.take(t2)[k] == x;
        assert(b[k] == b[t2]);
    }
    let s3 = choose|s3: int| #[trigger] earliest_neighbour(v, b, t2, s3);
    assert(s3 <= s) by {
        if s3 > s {
            assert(!joined(v, b[s] as int, b[t2] as int));
        }
    }
    assert(earliest_neighbour(v, a, t, s3)) by {
        assert(a[s3] == b[s3]);
        assert forall|s2: int| 0 <= s2 < s3 implies !#[trigger] joined(v, a[s2] as int, a[t] as int) by {
            assert(a[s2] == b[s2]);
        }
    }
    lemma_earliest_unique(v, a, t, s, s3);
}

/// Two Cuthill–McKee orders that agree on their first `t` positions agree
/// on position `t` too.
proof fn lemma_cm_step(v: SparsityView, deg: Seq<usize>, a: Seq<usize>, b: Seq<usize>, t: int)
    requires
        is_permutation(a, v.ncols),
        is_permutation(b, v.ncols),
        cuthill_mckee(v, deg, a),
        cuthill_mckee(v, deg, b),
        0 <= t < v.ncols,
        forall|i: int| 0 <= i < t ==> a[i] == b[i],
    ensures
        a[t] == b[t],
{
    let x = a[t];
    let y = b[t];
    if x != y {
        lemma_permutation_covers(a, v.ncols);
        lemma_permutation_covers(b, v.ncols);
        assert(occurs(a, y as int));
        let ty = choose|k: int| 0 <= k < a.len() && a[k] == y;
        assert(occurs(b, x as int));
        let tx = choose|k: int| 0 <= k < b.len() && b[k] == x;
        assert(ty > t) by {
            if ty < t {
                assert(b[ty] == a[ty]);
            }
        }
        assert(tx > t) by {
            if tx < t {
                assert(a[tx] == b[tx]);
            }
        }
        assert(a.take(t) =~= b.take(t));
        let ea = exists|s: int| #[trigger] earliest_neighbour(v, a, t, s);
        let eb = exists|s: int| #[trigger] earliest_neighbour(v, b, t, s);
        if ea && eb {
            let s = choose|s: int| #[trigger] earliest_neighbour(v, a, t, s);
            let s2 = choose|s2: int| #[trigger] earliest_neighbour(v, b, t, s2);
            lemma_later_earliest(v, deg, a, b, t, tx, s);
            lemma_later_earliest(v, deg, b, a, t, ty, s2);
            assert(s < s2 || (s == s2 && key_lt(deg, false, b[t], b[tx])));
            assert(s2 < s || (s2 == s && key_lt(deg, false, a[t], a[ty])));
        } else if ea {
            let s = choose|s: int| #[trigger] earliest_neighbour(v, a, t, s);
            assert(starts_component(v, deg, b, t));
            assert(joined(v, b[s] as int, x as int));
            assert(occurs(b.take(t), x as int));
            let k = choose|k: int| 0 <= k < b.take(t).len() && b.take(t)[k] == x;
            assert(b[k] == b[tx]);
        } else if eb {
            let s2 = choose|s2: int| #[trigger] earliest_neighbour(v, b, t, s2);
            assert(starts_component(v, deg, a, t));
            assert(joined(v, a[s2] as int, y as int));
            assert(occurs(a.take(t), y as int));
            let k = choose|k: int| 0 <= k < a.take(t).len() && a.take(t)[k] == y;
            assert(a[k] == a[ty]);
        } else {
            assert(starts_component(v, deg, a, t));
            assert(starts_component(v, deg, b, t));
            assert(!occurs(a.take(t), y as int)) by {
                if occurs(a.take(t), y as int) {
                    let k = choose|k: int| 0 <= k < a.take(t).len() && a.take(t)[k] == y;
                    assert(a[k] == a[ty]);
                }
            }
            assert(!occurs(b.take(t), x as int)) by {
                if occurs(b.take(t), x as int) {
                    let k = choose|k: int| 0 <= k < b.take(t).len() && b.take(t)[k] == x;
                    assert(b[k] == b[tx]);
                }
            }
            assert(key_lt(deg, false, x, y));
            assert(key_lt(deg, false, y, x));
        }
    }
}

/// The Cuthill–McKee order of a pattern is unique: two permutations of its
/// vertices that both satisfy [`cuthill_mckee`] are the same, so the
/// ordering that [`compute_ordering`] returns is determined by the pattern.
pub proof fn lemma_cuthill_mckee_unique(v: SparsityView, deg: Seq<usize>, a: Seq<usize>, b: Seq<usize>)
    requires
        is_permutation(a, v.ncols),
        is_permutation(b, v.ncols),
        cuthill_mckee(v, deg, a),
        cuthill_mckee(v, deg, b),
    ensures
        a == b,
{
    lemma_cm_prefix(v, deg, a, b, v.ncols as int);
    assert(a =~= b);
}

proof fn lemma_cm_prefix(v: SparsityView, deg: Seq<usize>, a: Seq<usize>, b: Seq<usize>, t: int)
    requires
        is_permutation(a, v.ncols),
        is_permutation(b, v.ncols),
        cuthill_mckee(v, deg, a),
        cuthill_mckee(v, deg, b),
        0 <= t <= v.ncols,
    ensures
        forall|i: int| 0 <= i < t ==> a[i] == b[i],
    decreases t,
{
    if t > 0 {
        lemma_cm_prefix(v, deg, a, b, t - 1);
        lemma_cm_step(v, deg, a, b, t - 1);
    }
}

/// `adj_ptr` and `adj` list, for each vertex of `v`, exactly the vertices
/// joined to it.
pub open spec fn lists_exact(v: SparsityView, adj_ptr: Seq<usize>, adj: Seq<usize>) -> bool {
    &&& adj_ptr.len() == v.ncols + 1
    &&& adj_ptr[v.ncols as int] == adj.len()
    &&& forall|a: int, b: int| 0 <= a <= b <= v.ncols ==> adj_ptr[a] <= adj_ptr[b]
    &&& bounded(adj, v.ncols)
    &&& forall|x: int, s: int| 0 <= x < v.ncols && #[trigger] adj_ptr[x] <= s < adj_ptr[x + 1] ==> joined(v, x, #[trigger] adj[s] as int)
    &&& forall|x: int, w: int|
        0 <= x < v.ncols && #[trigger] joined(v, x, w) ==> exists|s: int| adj_ptr[x] <= s < adj_ptr[x + 1] && adj[s] == w
}

/// The state of the search: the placed vertices are distinct, marked
/// visited, and in Cuthill–McKee order.
pub open spec fn search_state(v: SparsityView, deg: Seq<usize>, visited: Seq<bool>, order: Seq<usize>) -> bool {
    &&& deg.len() == v.ncols
    &&& visited.len() == v.ncols
    &&& distinct(order)
    &&& bounded(order, v.ncols)
    &&& forall|x: int| 0 <= x < v.ncols ==> (visited[x] <==> #[trigger] occurs(order, x))
    &&& cuthill_mckee(v, deg, order)
}

/// Every vertex joined to one of the first `h` placed vertices is placed.
pub open spec fn closed_before(v: SparsityView, order: Seq<usize>, h: int) -> bool {
    forall|a: int, w: int| 0 <= a < h && #[trigger] joined(v, order[a] as int, w) ==> occurs(order, w)
}

/// Every earliest neighbour lies before position `h`.
pub open spec fn parents_before(v: SparsityView, order: Seq<usize>, h: int) -> bool {
    forall|t: int, s: int| 0 <= t < order.len() && #[trigger] earliest_neighbour(v, order, t, s) ==> s < h
}

/// Append the unplaced neighbours of the vertex at position `h`, by degree
/// then index.
fn place_neighbours(
    adj_ptr: &Vec<usize>,
    adj: &Vec<usize>,
    degree: &Vec<usize>,
    visited: &mut Vec<bool>,
    order: &mut Vec<usize>,
    h: usize,
    Ghost(v): Ghost<SparsityView>,
)
    requires
        lists_exact(v, adj_ptr@, adj@),
        v.ncols < usize::MAX,
        search_state(v, degree@, old(visited)@, old(order)@),
        h < old(order)@.len(),
        closed_before(v, old(order)@, h as int),
        parents_before(v, old(order)@, h as int),
    ensures
        search_state(v, degree@, final(visited)@, final(order)@),
        closed_before(v, final(order)@, h + 1),
        parents_before(v, final(order)@, h + 1),
        old(order)@.len() <= final(order)@.len(),
        final(order)@.take(old(order)@.len() as int) == old(order)@,
{
    let ghost deg = degree@;
    let ghost n = v.ncols;
    let ghost pre = order@;
    proof {
        lemma_distinct_bounded_len(order@, n);
    }
    let vtx = order[h];
    let mut neighbours: Vec<usize> = Vec::new();
    let start = adj_ptr[vtx];
    let end = adj_ptr[vtx + 1];
    let mut p = start;
    assert(end <= adj@.len()) by {
        assert(adj_ptr@[vtx + 1] <= adj_ptr@[n as int]);
    }
    while p < end
        invariant
            lists_exact(v, adj_ptr@, adj@),
            n == v.ncols,
            vtx < n,
            start == adj_ptr@[vtx as int],
            end == adj_ptr@[vtx + 1],
            start <= p <= end,
            end <= adj@.len(),
            visited@.len() == n,
            bounded(neighbours@, n),
            forall|k: int| 0 <= k < neighbours@.len() ==> !visited@[#[trigger] neighbours@[k] as int] && joined(v, vtx as int, neighbours@[k] as int),
            forall|q: int| start <= q < p && !visited@[adj@[q] as int] ==> neighbours@.contains(#[trigger] adj@[q]),
        decreases end - p,
    {
        let w = adj[p];
        proof {
            assert(adj_ptr@[vtx as int] <= p < adj_ptr@[vtx + 1]);
            assert(joined(v, vtx as int, adj@[p as int] as int));
        }
        let ghost nb0 = neighbours@;
        if !visited[w] {
            neighbours.push(w);
            proof {
                assert(neighbours@[nb0.len() as int] == w);
                assert forall|q: int| start <= q < p && !visited@[adj@[q] as int] implies neighbours@.contains(#[trigger] adj@[q]) by {
                    assert(nb0.contains(adj@[q]));
                    let k = choose|k: int| 0 <= k < nb0.len() && nb0[k] == adj@[q];
                    assert(neighbours@[k] == adj@[q]);
                }
            }
        }
        p += 1;
    }
    let sorted = sort_by_key(&neighbours, degree, false);
    proof {
        assert forall|k: int| 0 <= k < sorted@.len() implies joined(v, vtx as int, #[trigger] sorted@[k] as int) by {
            assert(sorted@.contains(sorted@[k]));
            vstd::seq_lib::to_multiset_contains(sorted@, sorted@[k]);
            vstd::seq_lib::to_multiset_contains(neighbours@, sorted@[k]);
            assert(neighbours@.contains(sorted@[k]));
            let k2 = choose|k2: int| 0 <= k2 < neighbours@.len() && neighbours@[k2] == sorted@[k];
            assert(joined(v, vtx as int, neighbours@[k2] as int));
        }
    }
    let ghost bs = order@.len();
    let ghost mut ks: Seq<int> = Seq::empty();
    let mut t: usize = 0;
    while t < sorted.len()
        invariant
            n == v.ncols,
            t <= sorted@.len(),
            bounded(sorted@, n),
            sorted_by_key(deg, false, sorted@),
            forall|k: int| 0 <= k < sorted@.len() ==> joined(v, vtx as int, #[trigger] sorted@[k] as int),
            degree@ == deg,
            search_state(v, deg, visited@, order@),
            h < bs <= order@.len(),
            bs == pre.len(),
            order@.take(bs as int) == pre,
            vtx == order@[h as int],
            closed_before(v, order@, h as int),
            forall|pos: int, s: int| 0 <= pos < bs && #[trigger] earliest_neighbour(v, order@, pos, s) ==> s < h,
            ks.len() == order@.len() - bs,
            forall|pos: int| bs <= pos < order@.len() ==> #[trigger] earliest_neighbour(v, order@, pos, h as int),
            forall|pos: int| bs <= pos < order@.len() ==> 0 <= #[trigger] ks[pos - bs] < t && sorted@[ks[pos - bs]] == order@[pos],
            forall|k: int| 0 <= k < t ==> visited@[#[trigger] sorted@[k] as int],
        decreases sorted@.len() - t,
    {
        let w = sorted[t];
        if !visited[w] {
            proof {
                assert(!occurs(order@, w as int));
                lemma_batch_child(v, deg, order@, sorted@, ks, w, h as int, bs as int, t as int);
                lemma_cm_push_child(v, deg, order@, w, h as int);
            }
            let ghost old_order = order@;
            let ghost old_visited = visited@;
            visited.set(w, true);
            order.push(w);
            proof {
                assert(order@ == old_order.push(w));
                lemma_push_fresh(old_order, w, n);
                assert forall|x: int| 0 <= x < n implies (visited@[x] <==> #[trigger] occurs(order@, x)) by {
                    lemma_occurs_push(old_order, w, x);
                    assert(old_visited[x] <==> occurs(old_order, x));
                }
                lemma_prefix_stable(v, deg, old_order, w);
                assert(order@.take(bs as int) =~= pre) by {
                    assert(old_order.take(bs as int) == pre);
                }
                assert forall|a: int, x: int| 0 <= a < h && #[trigger] joined(v, order@[a] as int, x) implies occurs(order@, x) by {
                    assert(order@[a] == old_order[a]);
                    lemma_occurs_push(old_order, w, x);
                }
                assert forall|pos: int, s: int| 0 <= pos < bs && #[trigger] earliest_neighbour(v, order@, pos, s) implies s < h by {
                    assert(earliest_neighbour(v, old_order, pos, s));
                }
                let len0 = old_order.len() as int;
                assert(earliest_neighbour(v, order@, len0, h as int)) by {
                    assert forall|s2: int| 0 <= s2 < h implies !#[trigger] joined(v, order@[s2] as int, order@[len0] as int) by {
                        assert(order@[s2] == old_order[s2]);
                        if joined(v, old_order[s2] as int, w as int) {
                            assert(occurs(old_order, w as int));
                        }
                    }
                }
                let ks0 = ks;
                ks = ks.push(t as int);
                assert forall|pos: int| bs <= pos < order@.len() implies #[trigger] earliest_neighbour(v, order@, pos, h as int) by {
                    if pos < len0 {
                        assert(earliest_neighbour(v, old_order, pos, h as int));
                    }
                }
                assert forall|pos: int|
                    bs <= pos < order@.len() implies 0 <= #[trigger] ks[pos - bs] < t + 1 && sorted@[ks[pos - bs]] == order@[pos] by {
                    if pos < len0 {
                        assert(ks[pos - bs] == ks0[pos - bs]);
                        assert(old_order[pos] == order@[pos]);
                    } else {
                        assert(ks[pos - bs] == t);
                    }
                }
                assert forall|k: int| 0 <= k < t implies visited@[#[trigger] sorted@[k] as int] by {
                    assert(old_visited[sorted@[k] as int]);
                }
                assert(visited@[sorted@[t as int] as int]);
            }
        }
        t += 1;
    }
    proof {
        lemma_batch_done(v, deg, order@, pre, sorted@, neighbours@, adj_ptr@, adj@, h as int, bs as int);
    }
}

/// Place the rest of the component of the vertices placed so far, processing
/// positions from `head` on in turn.
fn explore(
    adj_ptr: &Vec<usize>,
    adj: &Vec<usize>,
    degree: &Vec<usize>,
    visited: &mut Vec<bool>,
    order: &mut Vec<usize>,
    head: usize,
    Ghost(v): Ghost<SparsityView>,
)
    requires
        lists_exact(v, adj_ptr@, adj@),
        v.ncols < usize::MAX,
        search_state(v, degree@, old(visited)@, old(order)@),
        head <= old(order)@.len(),
        closed_before(v, old(order)@, head as int),
        parents_before(v, old(order)@, head as int),
    ensures
        search_state(v, degree@, final(visited)@, final(order)@),
        closed_before(v, final(order)@, final(order)@.len() as int),
        old(order)@.len() <= final(order)@.len(),
        final(order)@.take(old(order)@.len() as int) == old(order)@,
{
    let ghost start = order@;
    let mut head = head;
    while head < order.len()
        invariant
            lists_exact(v, adj_ptr@, adj@),
            v.ncols < usize::MAX,
            search_state(v, degree@, visited@, order@),
            head <= order@.len(),
            closed_before(v, order@, head as int),
            parents_before(v, order@, head as int),
            start.len() <= order@.len(),
            order@.take(start.len() as int) == start,
        decreases v.ncols - head,
    {
        proof {
            lemma_distinct_bounded_len(order@, v.ncols);
        }
        let ghost before = order@;
        place_neighbours(adj_ptr, adj, degree, visited, order, head, Ghost(v));
        proof {
            assert(order@.take(start.len() as int) =~= start) by {
                assert(order@.take(before.len() as int) == before);
                assert forall|k: int| 0 <= k < start.len() implies order@[k] == start[k] by {
                    assert(order@[k] == before[k]);
                    assert(before.take(start.len() as int)[k] == start[k]);
                }
            }
        }
        head += 1;
    }
}

/// Reverse Cuthill–McKee over all connected components, starting each
/// component from its lowest-degree unvisited vertex.
fn rcm(n: usize, col_ptr: &[usize], row_idx: &[usize]) -> (order: Vec<usize>)
    requires
        (SparsityView { nrows: n as nat, ncols: n as nat, col_ptr: col_ptr@, row_idx: row_idx@ }).wf(),
        n < usize::MAX,
        2 * row_idx@.len() <= usize::MAX,
    ensures
        is_permutation(order@, n as nat),
        cuthill_mckee(
            SparsityView { nrows: n as nat, ncols: n as nat, col_ptr: col_ptr@, row_idx: row_idx@ },
            degrees(SparsityView { nrows: n as nat, ncols: n as nat, col_ptr: col_ptr@, row_idx: row_idx@ }),
            order@.reverse(),
        ),
{
    let ghost v = SparsityView { nrows: n as nat, ncols: n as nat, col_ptr: col_ptr@, row_idx: row_idx@ };
    let (adj_ptr, adj) = adjacency(n, col_ptr, row_idx);
    let mut degree: Vec<usize> = Vec::new();
    let mut i: usize = 0;
    while i < n
        invariant
            i <= n,
            adj_ptr@.len() == n + 1,
            forall|a: int, b: int| 0 <= a <= b <= n ==> adj_ptr@[a] <= adj_ptr@[b],
            forall|x: int| 0 <= x < n ==> #[trigger] adj_ptr@[x + 1] - adj_ptr@[x] == ends_eq(
                v.row_idx,
                columns(v),
                x,
                v.nnz() as int,
            ),
            v == (SparsityView { nrows: n as nat, ncols: n as nat, col_ptr: col_ptr@, row_idx: row_idx@ }),
            degree@.len() == i,
            forall|x: int| 0 <= x < i ==> #[trigger] degree@[x] == degrees(v)[x],
        decreases n - i,
    {
        degree.push(adj_ptr[i + 1] - adj_ptr[i]);
        assert(degree@[i as int] == degrees(v)[i as int]);
        i += 1;
    }
    let ghost deg = degree@;
    assert(deg =~= degrees(v));
    let mut visited: Vec<bool> = Vec::new();
    let mut i: usize = 0;
    while i < n
        invariant
            i <= n,
            visited@.len() == i,
            forall|x: int| 0 <= x < i ==> !visited@[x],
        decreases n - i,
    {
        visited.push(false);
        i += 1;
    }
    let mut order: Vec<usize> = Vec::new();
    assert(lists_exact(v, adj_ptr@, adj@));
    assert(search_state(v, deg, visited@, order@));
    loop
        invariant
            v == (SparsityView { nrows: n as nat, ncols: n as nat, col_ptr: col_ptr@, row_idx: row_idx@ }),
            n < usize::MAX,
            lists_exact(v, adj_ptr@, adj@),
            degree@ == deg,
            search_state(v, deg, visited@, order@),
            closed_before(v, order@, order@.len() as int),
        ensures
            search_state(v, deg, visited@, order@),
            forall|x: int| 0 <= x < n ==> #[trigger] occurs(order@, x),
        decreases n - order@.len(),
    {
        proof {
            lemma_distinct_bounded_len(order@, n as nat);
        }
        // Seed: the unvisited vertex of lowest degree, then lowest index.
        let mut seed: usize = n;
        let mut c: usize = 0;
        while c < n
            invariant
                c <= n,
                visited@.len() == n,
                degree@ == deg,
                deg.len() == n,
                seed == n || (seed < c && !visited@[seed as int]),
                seed == n ==> forall|x: int| 0 <= x < c ==> visited@[x],
                seed != n ==> forall|x: int|
                    0 <= x < c && x != seed && !visited@[x] ==> key_lt(deg, false, seed, x as usize),
            decreases n - c,
        {
            if !visited[c] && (seed == n || degree[c] < degree[seed]) {
                seed = c;
            }
            c += 1;
        }
        if seed == n {
            break;
        }
        let ghost old_order = order@;
        let ghost old_visited = visited@;
        proof {
            assert(!occurs(order@, seed as int));
            lemma_cm_push_root(v, deg, order@, seed);
        }
        let head = order.len();
        visited.set(seed, true);
        order.push(seed);
        proof {
            assert(order@ == old_order.push(seed));
            lemma_push_fresh(old_order, seed, n as nat);
            assert forall|x: int| 0 <= x < n implies (visited@[x] <==> #[trigger] occurs(order@, x)) by {
                lemma_occurs_push(old_order, seed, x);
                assert(old_visited[x] <==> occurs(old_order, x));
            }
            assert forall|a: int, w: int| 0 <= a < head && #[trigger] joined(v, order@[a] as int, w) implies occurs(order@, w) by {
                assert(order@[a] == old_order[a]);
                assert(occurs(old_order, w));
                lemma_occurs_push(old_order, seed, w);
            }
            lemma_prefix_stable(v, deg, old_order, seed);
            assert forall|t: int, s: int| 0 <= t < order@.len() && #[trigger] earliest_neighbour(v, order@, t, s) implies s < head by {
                if t == head {
                    assert(order@[s] == old_order[s]);
                    assert(joined(v, old_order[s] as int, seed as int));
                    assert(occurs(old_order, seed as int));
                }
            }
        }
        explore(&adj_ptr, &adj, &degree, &mut visited, &mut order, head, Ghost(v));
        proof {
            lemma_distinct_bounded_len(order@, n as nat);
        }
    }
    proof {
        lemma_covering_is_permutation(order@, n as nat);
    }
    let reversed = reverse(&order);
    proof {
        lemma_reverse_permutation(order@, n as nat);
        assert(reversed@.reverse() =~= order@);
    }
    reversed
}

/// Two different indices are ordered by key one way or the other.
proof fn lemma_key_order_total(deg: Seq<usize>, a: usize, b: usize)
    requires
        a != b,
    ensures
        key_lt(deg, false, a, b) || key_lt(deg, false, b, a),
{
}

/// A vertex has at most one earliest neighbour.
proof fn lemma_earliest_unique(v: SparsityView, order: Seq<usize>, t: int, s1: int, s2: int)
    requires
        earliest_neighbour(v, order, t, s1),
        earliest_neighbour(v, order, t, s2),
    ensures
        s1 == s2,
{
    if s1 < s2 {
        assert(!joined(v, order[s1] as int, order[t] as int));
    }
    if s2 < s1 {
        assert(!joined(v, order[s2] as int, order[t] as int));
    }
}

/// The unplaced neighbour `w = sorted[t]` of the vertex at `h` can follow
/// every placed vertex: positions before the batch have earliest neighbours
/// before `h`, and the batch so far holds smaller keys.
proof fn lemma_batch_child(
    v: SparsityView,
    deg: Seq<usize>,
    order: Seq<usize>,
    sorted: Seq<usize>,
    ks: Seq<int>,
    w: usize,
    h: int,
    bs: int,
    t: int,
)
    requires
        0 <= h < bs <= order.len(),
        0 <= t < sorted.len(),
        sorted[t] == w,
        !occurs(order, w as int),
        sorted_by_key(deg, false, sorted),
        joined(v, order[h] as int, w as int),
        forall|a: int, x: int| 0 <= a < h && #[trigger] joined(v, order[a] as int, x) ==> occurs(order, x),
        forall|pos: int, s: int| 0 <= pos < bs && #[trigger] earliest_neighbour(v, order, pos, s) ==> s < h,
        ks.len() == order.len() - bs,
        forall|pos: int| bs <= pos < order.len() ==> #[trigger] earliest_neighbour(v, order, pos, h),
        forall|pos: int| bs <= pos < order.len() ==> 0 <= #[trigger] ks[pos - bs] < t && sorted[ks[pos - bs]] == order[pos],
    ensures
        forall|s2: int| 0 <= s2 < h ==> !#[trigger] joined(v, order[s2] as int, w as int),
        forall|pos: int, s: int|
            0 <= pos < order.len() && #[trigger] earliest_neighbour(v, order, pos, s) ==> s < h || (s == h && key_lt(
                deg,
                false,
                order[pos],
                w,
            )),
{
    assert forall|s2: int| 0 <= s2 < h implies !#[trigger] joined(v, order[s2] as int, w as int) by {
        if joined(v, order[s2] as int, w as int) {
            assert(occurs(order, w as int));
        }
    }
    assert forall|pos: int, s: int|
        0 <= pos < order.len() && #[trigger] earliest_neighbour(v, order, pos, s) implies s < h || (s == h && key_lt(
            deg,
            false,
            order[pos],
            w,
        )) by {
        if pos >= bs {
            assert(earliest_neighbour(v, order, pos, h));
            lemma_earliest_unique(v, order, pos, s, h);
            let k = ks[pos - bs];
            assert(!key_lt(deg, false, sorted[t], sorted[k]));
            assert(order[pos] != w) by {
                assert(occurs(order, order[pos] as int));
            }
            lemma_key_order_total(deg, order[pos], w);
        }
    }
}

/// After the batch of `order[h]`, every vertex joined to a vertex before
/// `h + 1` is placed, and every earliest neighbour lies before `h + 1`.
proof fn lemma_batch_done(
    v: SparsityView,
    deg: Seq<usize>,
    order: Seq<usize>,
    pre: Seq<usize>,
    sorted: Seq<usize>,
    neighbours: Seq<usize>,
    adj_ptr: Seq<usize>,
    adj: Seq<usize>,
    h: int,
    bs: int,
)
    requires
        0 <= h < bs <= order.len(),
        bs == pre.len(),
        order.take(bs) == pre,
        order[h] < v.ncols,
        adj_ptr.len() == v.ncols + 1,
        forall|x: int, w: int|
            0 <= x < v.ncols && #[trigger] joined(v, x, w) ==> exists|s: int| adj_ptr[x] <= s < adj_ptr[x + 1] && adj[s] == w,
        forall|q: int|
            adj_ptr[order[h] as int] <= q < adj_ptr[order[h] + 1] && !occurs(pre, adj[q] as int) ==> neighbours.contains(
                #[trigger] adj[q],
            ),
        sorted.to_multiset() == neighbours.to_multiset(),
        forall|k: int| 0 <= k < sorted.len() ==> occurs(order, #[trigger] sorted[k] as int),
        forall|a: int, w: int| 0 <= a < h && #[trigger] joined(v, order[a] as int, w) ==> occurs(order, w),
        forall|pos: int, s: int| 0 <= pos < bs && #[trigger] earliest_neighbour(v, order, pos, s) ==> s < h,
        forall|pos: int| bs <= pos < order.len() ==> #[trigger] earliest_neighbour(v, order, pos, h),
    ensures
        forall|a: int, w: int| 0 <= a < h + 1 && #[trigger] joined(v, order[a] as int, w) ==> occurs(order, w),
        forall|pos: int, s: int| 0 <= pos < order.len() && #[trigger] earliest_neighbour(v, order, pos, s) ==> s < h + 1,
{
    broadcast use vstd::seq_lib::group_to_multiset_ensures;

    assert forall|a: int, w: int| 0 <= a < h + 1 && #[trigger] joined(v, order[a] as int, w) implies occurs(order, w) by {
        if a == h {
            let x = order[h] as int;
            let s = choose|s: int| adj_ptr[x] <= s < adj_ptr[x + 1] && adj[s] == w;
            if occurs(pre, w) {
                let k = choose|k: int| 0 <= k < pre.len() && pre[k] == w;
                assert(order[k] == pre[k]);
            } else {
                assert(neighbours.contains(adj[s]));
                vstd::seq_lib::to_multiset_contains(neighbours, adj[s]);
                vstd::seq_lib::to_multiset_contains(sorted, adj[s]);
                assert(sorted.contains(adj[s]));
                let k = choose|k: int| 0 <= k < sorted.len() && sorted[k] == adj[s];
                assert(occurs(order, sorted[k] as int));
            }
        }
    }
    assert forall|pos: int, s: int| 0 <= pos < order.len() && #[trigger] earliest_neighbour(v, order, pos, s) implies s < h + 1 by {
        if pos >= bs {
            lemma_earliest_unique(v, order, pos, s, h);
        }
    }
}

/// The elements of `s` in reverse order.
fn reverse(s: &Vec<usize>) -> (r: Vec<usize>)
    ensures
        r@ == s@.reverse(),
{
    let mut r: Vec<usize> = Vec::new();
    let mut k = s.len();
    while k > 0
        invariant
            k <= s@.len(),
            r@.len() == s@.len() - k,
            forall|q: int| 0 <= q < r@.len() ==> r@[q] == s@[s@.len() - 1 - q],
        decreases k,
    {
        k -= 1;
        r.push(s[k]);
    }
    assert(r@ =~= s@.reverse());
    r
}

proof fn lemma_push_fresh(s: Seq<usize>, x: usize, n: nat)
    requires
        distinct(s),
        bounded(s, n),
        x < n,
        !occurs(s, x as int),
    ensures
        distinct(s.push(x)),
        bounded(s.push(x), n),
{
    let t = s.push(x);
    assert forall|a: int, b: int| 0 <= a < b < t.len() implies t[a] != t[b] by {
        if b == s.len() {
            if t[a] == x {
                assert(occurs(s, x as int));
            }
        }
    }
}

/// The reversal of a permutation is a permutation.
pub(crate) proof fn lemma_reverse_permutation(s: Seq<usize>, n: nat)
    requires
        is_permutation(s, n),
    ensures
        is_permutation(s.reverse(), n),
{
    let r = s.reverse();
    assert forall|a: int, b: int| 0 <= a < b < r.len() implies r[a] != r[b] by {
        assert(s[s.len() - 1 - b] != s[s.len() - 1 - a]);
    }
}

/// Compute a permutation for the symmetric matrix whose upper triangle
/// (including the diagonal) has the given CSC structure: `perm[k]` is the
/// input index of the `k`-th pivot.
pub fn compute_ordering(n: usize, col_ptr: &[usize], row_idx: &[usize], kind: PivotOrder) -> (perm: Vec<usize>)
    requires
        kind == PivotOrder::Rcm ==> (SparsityView {
            nrows: n as nat,
            ncols: n as nat,
            col_ptr: col_ptr@,
            row_idx: row_idx@,
        }).wf() && n < usize::MAX && 2 * row_idx@.len() <= usize::MAX,
    ensures
        is_permutation(perm@, n as nat),
        kind == PivotOrder::Natural ==> perm@ == identity(n as nat),
        kind == PivotOrder::Rcm ==> cuthill_mckee(
            SparsityView { nrows: n as nat, ncols: n as nat, col_ptr: col_ptr@, row_idx: row_idx@ },
            degrees(SparsityView { nrows: n as nat, ncols: n as nat, col_ptr: col_ptr@, row_idx: row_idx@ }),
            perm@.reverse(),
        ),
{
    match kind {
        PivotOrder::Natural => {
            let mut perm: Vec<usize> = Vec::new();
            let mut k: usize = 0;
            while k < n
                invariant
                    k <= n,
                    perm@.len() == k,
                    forall|q: int| 0 <= q < k ==> perm@[q] == q,
                decreases n - k,
            {
                perm.push(k);
                k += 1;
            }
            assert(perm@ =~= identity(n as nat));
            assert(distinct(perm@));
            perm
        },
        PivotOrder::Rcm => rcm(n, col_ptr, row_idx),
    }
}

/// Invert a permutation: `inverse[perm[k]] == k`.
///
/// On an arbitrary sequence of indices below its length, `inverse[x]` is
/// the last position holding `x`, or zero where `x` does not occur.
pub fn invert(perm: &[usize]) -> (inv: Vec<usize>)
    requires
        bounded(perm@, perm@.len()),
    ensures
        inv@.len() == perm@.len(),
        forall|x: int|
            0 <= x < perm@.len() ==> if occurs(perm@, x) {
                &&& perm@[inv@[x] as int] == x
                &&& inv@[x] < perm@.len()
                &&& forall|k: int| inv@[x] < k < perm@.len() ==> perm@[k] != x
            } else {
                inv@[x] == 0
            },
        is_permutation(perm@, perm@.len()) ==> is_inverse(perm@, inv@) && is_permutation(
            inv@,
            perm@.len(),
        ),
{
    let n = perm.len();
    let mut inv: Vec<usize> = Vec::new();
    let mut i: usize = 0;
    while i < n
        invariant
            i <= n,
            inv@.len() == i,
            forall|x: int| 0 <= x < i ==> inv@[x] == 0,
        decreases n - i,
    {
        inv.push(0);
        i += 1;
    }
    let mut k: usize = 0;
    while k < n
        invariant
            n == perm@.len(),
            bounded(perm@, n as nat),
            k <= n,
            inv@.len() == n,
            forall|x: int|
                0 <= x < n ==> if occurs(perm@.take(k as int), x) {
                    &&& perm@[inv@[x] as int] == x
                    &&& inv@[x] < k
                    &&& forall|q: int| inv@[x] < q < k ==> perm@[q] != x
                } else {
                    inv@[x] == 0
                },
        decreases n - k,
    {
        let p = perm[k];
        inv.set(p, k);
        proof {
            assert forall|x: int| 0 <= x < n implies if occurs(perm@.take(k + 1), x) {
                &&& perm@[inv@[x] as int] == x
                &&& inv@[x] < k + 1
                &&& forall|q: int| inv@[x] < q < k + 1 ==> perm@[q] != x
            } else {
                inv@[x] == 0
            } by {
                assert(perm@.take(k + 1) =~= perm@.take(k as int).push(p));
                lemma_occurs_push(perm@.take(k as int), p, x);
                if occurs(perm@.take(k as int), x) {
                    let w = choose|w: int| 0 <= w < k && perm@.take(k as int)[w] == x;
                    assert(perm@[w] == x);
                }
            }
        }
        k += 1;
    }
    proof {
        assert(perm@.take(n as int) =~= perm@);
        if is_permutation(perm@, n as nat) {
            assert forall|k: int| 0 <= k < n implies inv@[perm@[k] as int] == k by {
                let x = perm@[k] as int;
                assert(occurs(perm@, x));
                let w = inv@[x] as int;
                if w < k {
                    assert(perm@[k] != x);
                }
                if w > k {
                    assert(perm@[w] != perm@[k]);
                }
            }
            lemma_permutation_covers(perm@, n as nat);
            assert forall|a: int, b: int| 0 <= a < b < n implies inv@[a] != inv@[b] by {
                assert(occurs(perm@, a));
                assert(occurs(perm@, b));
            }
            assert forall|x: int| 0 <= x < n implies inv@[x] < n by {
                assert(occurs(perm@, x));
            }
        }
    }
    inv
}

} // verus!
