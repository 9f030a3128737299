//! Sparsity patterns in compressed sparse column (CSC) form.
//!
//! One pattern type is shared by the derivative layer, the linear algebra
//! layer and the algorithms, so a Jacobian pattern discovered once is reused
//! for coloring, for the KKT assembly and for the symbolic factorization.
use vstd::prelude::*;

use crate::counting::{
    count_eq, count_lt, lemma_count_eq_mono, lemma_count_lt_all, lemma_count_lt_mono,
    lemma_count_lt_step, lemma_count_lt_zero, lemma_counts_bounded,
};
use crate::text::{decimal, push_decimal, push_text, text};

verus! {

/// The mathematical content of a pattern: its dimensions and its two
/// index arrays.
pub struct SparsityView {
    /// Number of rows.
    pub nrows: nat,
    /// Number of columns.
    pub ncols: nat,
    /// Column pointers, `ncols + 1` of them.
    pub col_ptr: Seq<usize>,
    /// Row index of every stored entry, column by column.
    pub row_idx: Seq<usize>,
}

impl SparsityView {
    /// The rows stored in column `j` are strictly increasing.
    pub open spec fn col_sorted(self, j: int) -> bool {
        forall|p: int, q: int|
            self.col_ptr[j] <= p < q < self.col_ptr[j + 1] ==> self.row_idx[p] < self.row_idx[q]
    }

    /// The CSC invariants: pointers of the right length, starting at zero,
    /// ending at the number of entries and non-decreasing; row indices in
    /// range and strictly increasing within each column.
    pub open spec fn wf(self) -> bool {
        &&& self.col_ptr.len() == self.ncols + 1
        &&& self.col_ptr[0] == 0
        &&& self.col_ptr[self.ncols as int] == self.row_idx.len()
        &&& forall|a: int, b: int|
            0 <= a <= b <= self.ncols ==> self.col_ptr[a] <= self.col_ptr[b]
        &&& forall|p: int| 0 <= p < self.row_idx.len() ==> self.row_idx[p] < self.nrows
        &&& forall|j: int| 0 <= j < self.ncols ==> #[trigger] self.col_sorted(j)
    }

    /// The pointer part of [`SparsityView::wf`].
    pub open spec fn ptrs_wf(self) -> bool {
        &&& self.col_ptr.len() == self.ncols + 1
        &&& self.col_ptr[0] == 0
        &&& self.col_ptr[self.ncols as int] == self.row_idx.len()
        &&& forall|a: int, b: int|
            0 <= a <= b <= self.ncols ==> self.col_ptr[a] <= self.col_ptr[b]
    }

    /// Whether entry `(i, j)` is stored.
    pub open spec fn has(self, i: int, j: int) -> bool {
        &&& 0 <= j < self.ncols
        &&& exists|p: int| self.col_ptr[j] <= p < self.col_ptr[j + 1] && self.row_idx[p] == i
    }

    /// The row indices of column `j`.
    pub open spec fn col(self, j: int) -> Seq<usize> {
        self.row_idx.subrange(self.col_ptr[j] as int, self.col_ptr[j + 1] as int)
    }

    /// Number of stored entries.
    pub open spec fn nnz(self) -> nat {
        self.row_idx.len()
    }
}

/// Column `j` passes the checks of [`Sparsity::new`]: its pointers are in
/// order and inside the row array, and its rows are in range and strictly
/// increasing.
pub open spec fn column_valid(nrows: nat, col_ptr: Seq<usize>, row_idx: Seq<usize>, j: int) -> bool {
    &&& col_ptr[j] <= col_ptr[j + 1] <= row_idx.len()
    &&& forall|k: int|
        col_ptr[j] <= k < col_ptr[j + 1] ==> #[trigger] entry_valid(nrows, col_ptr[j] as int, row_idx, k)
}

/// Entry `k` of a column starting at `start` is in range and above its
/// predecessor.
pub open spec fn entry_valid(nrows: nat, start: int, row_idx: Seq<usize>, k: int) -> bool {
    &&& row_idx[k] < nrows
    &&& k > start ==> row_idx[k - 1] < row_idx[k]
}

/// `j` is the first column that fails the checks.
pub open spec fn first_invalid_column(nrows: nat, ncols: nat, col_ptr: Seq<usize>, row_idx: Seq<usize>, j: int) -> bool {
    &&& 0 <= j < ncols
    &&& !column_valid(nrows, col_ptr, row_idx, j)
    &&& forall|i: int| 0 <= i < j ==> column_valid(nrows, col_ptr, row_idx, i)
}

/// `k` is the first entry of the column `[start, end)` that fails the checks.
pub open spec fn first_invalid_entry(nrows: nat, start: int, end: int, row_idx: Seq<usize>, k: int) -> bool {
    &&& start <= k < end
    &&& !entry_valid(nrows, start, row_idx, k)
    &&& forall|i: int| start <= i < k ==> entry_valid(nrows, start, row_idx, i)
}

/// The pointers do not decrease from column `e` to the next.
pub open spec fn ptr_step_ok(col_ptr: Seq<usize>, e: int) -> bool {
    col_ptr[e] <= col_ptr[e + 1]
}

/// `d` is the first column at which the pointers decrease.
pub open spec fn first_decrease(ncols: nat, col_ptr: Seq<usize>, d: int) -> bool {
    &&& 0 <= d < ncols
    &&& !ptr_step_ok(col_ptr, d)
    &&& forall|e: int| 0 <= e < d ==> #[trigger] ptr_step_ok(col_ptr, e)
}

/// The description [`Sparsity::new`] gives of the first invariant violated.
pub open spec fn new_error(nrows: nat, ncols: nat, col_ptr: Seq<usize>, row_idx: Seq<usize>) -> Seq<char> {
    if col_ptr.len() != ncols + 1 {
        "col_ptr has length "@ + decimal(col_ptr.len()) + " but ncols + 1 = "@ + decimal(ncols + 1)
    } else if col_ptr[0] != 0 {
        "col_ptr[0] must be 0"@
    } else if col_ptr[ncols as int] != row_idx.len() {
        "col_ptr[ncols] = "@ + decimal(col_ptr[ncols as int] as nat) + " but row_idx has length "@
            + decimal(row_idx.len())
    } else {
        let j = choose|j: int| first_invalid_column(nrows, ncols, col_ptr, row_idx, j);
        if col_ptr[j] > col_ptr[j + 1] {
            "col_ptr not non-decreasing at column "@ + decimal(j as nat)
        } else if col_ptr[j + 1] > row_idx.len() {
            // The column ends past the rows although the last pointer is the
            // number of rows: the pointers decrease further on, and the first
            // such column is the invariant reported.
            let d = choose|d: int| #[trigger] first_decrease(ncols, col_ptr, d);
            "col_ptr not non-decreasing at column "@ + decimal(d as nat)
        } else {
            let start = col_ptr[j] as int;
            let end = col_ptr[j + 1] as int;
            let k = choose|k: int| #[trigger] first_invalid_entry(nrows, start, end, row_idx, k);
            if row_idx[k] >= nrows {
                "row index "@ + decimal(row_idx[k] as nat) + " out of range in column "@ + decimal(
                    j as nat,
                )
            } else {
                "row indices in column "@ + decimal(j as nat) + " must be strictly increasing"@
            }
        }
    }
}

/// Triplet `t` addresses an entry of an `nrows x ncols` matrix.
pub open spec fn triplet_in_range(nrows: nat, ncols: nat, t: (usize, usize)) -> bool {
    t.0 < nrows && t.1 < ncols
}

/// `k` is the first triplet out of range.
pub open spec fn first_bad_triplet(nrows: nat, ncols: nat, ts: Seq<(usize, usize)>, k: int) -> bool {
    &&& 0 <= k < ts.len()
    &&& !triplet_in_range(nrows, ncols, ts[k])
    &&& forall|i: int| 0 <= i < k ==> triplet_in_range(nrows, ncols, ts[i])
}

/// The description [`Sparsity::from_triplets`] gives of the first triplet out
/// of range.
pub open spec fn triplet_error(nrows: nat, ncols: nat, ts: Seq<(usize, usize)>) -> Seq<char> {
    let k = choose|k: int| #[trigger] first_bad_triplet(nrows, ncols, ts, k);
    "triplet ("@ + decimal(ts[k].0 as nat) + ", "@ + decimal(ts[k].1 as nat) + ") out of range "@
        + decimal(nrows) + "x"@ + decimal(ncols)
}

/// Adjacent strict increase over `[lo, hi)` gives strict increase between
/// any two positions there.
pub proof fn lemma_adjacent_increasing(s: Seq<usize>, lo: int, hi: int)
    requires
        0 <= lo <= hi <= s.len(),
        forall|k: int| lo < k < hi ==> s[k - 1] < #[trigger] s[k],
    ensures
        forall|p: int, q: int| lo <= p < q < hi ==> s[p] < s[q],
    decreases hi - lo,
{
    if hi - lo > 1 {
        lemma_adjacent_increasing(s, lo, hi - 1);
        assert forall|p: int, q: int| lo <= p < q < hi implies s[p] < s[q] by {
            if q == hi - 1 && p < hi - 2 {
                assert(s[p] < s[hi - 2]);
                assert(s[hi - 2] < s[hi - 1]);
            }
        }
    }
}

/// Two well-formed patterns with the same dimensions and the same stored
/// entries are the same pattern: the CSC form of a set of entries is unique.
pub proof fn lemma_wf_unique(a: SparsityView, b: SparsityView)
    requires
        a.wf(),
        b.wf(),
        a.nrows == b.nrows,
        a.ncols == b.ncols,
        forall|i: int, j: int| a.has(i, j) <==> b.has(i, j),
    ensures
        a == b,
{
    assert forall|j: int| 0 <= j < a.ncols implies a.col(j) =~= b.col(j) by {
        lemma_col_determined(a, b, j);
    }
    lemma_ptr_agree(a, b, a.ncols as int);
    assert(a.col_ptr =~= b.col_ptr) by {
        assert forall|j: int| 0 <= j <= a.ncols implies a.col_ptr[j] == b.col_ptr[j] by {
            lemma_ptr_agree(a, b, j);
        }
    }
    assert(a.row_idx =~= b.row_idx) by {
        assert forall|p: int| 0 <= p < a.row_idx.len() implies a.row_idx[p] == b.row_idx[p] by {
            let j = lemma_column_of(a, p);
            assert(a.col(j)[p - a.col_ptr[j]] == b.col(j)[p - b.col_ptr[j]]);
        }
    }
}

/// Every position of a well-formed pattern lies in some column.
pub proof fn lemma_column_of(a: SparsityView, p: int) -> (j: int)
    requires
        a.ptrs_wf(),
        0 <= p < a.row_idx.len(),
    ensures
        0 <= j < a.ncols,
        a.col_ptr[j] <= p < a.col_ptr[j + 1],
    decreases a.ncols,
{
    lemma_column_of_from(a, p, 0)
}

proof fn lemma_column_of_from(a: SparsityView, p: int, j0: int) -> (j: int)
    requires
        a.ptrs_wf(),
        0 <= p < a.row_idx.len(),
        0 <= j0 < a.ncols,
        a.col_ptr[j0] <= p,
    ensures
        j0 <= j < a.ncols,
        a.col_ptr[j] <= p < a.col_ptr[j + 1],
    decreases a.ncols - j0,
{
    if p < a.col_ptr[j0 + 1] {
        j0
    } else {
        assert(j0 + 1 < a.ncols) by {
            if j0 + 1 == a.ncols {
                assert(a.col_ptr[a.ncols as int] == a.row_idx.len());
            }
        }
        lemma_column_of_from(a, p, j0 + 1)
    }
}

/// In a well-formed pattern, column `j` holds exactly the rows `i` with
/// `has(i, j)`, in increasing order.
proof fn lemma_col_determined(a: SparsityView, b: SparsityView, j: int)
    requires
        a.wf(),
        b.wf(),
        a.ncols == b.ncols,
        0 <= j < a.ncols,
        forall|i: int, jj: int| a.has(i, jj) <==> b.has(i, jj),
    ensures
        a.col(j) =~= b.col(j),
{
    let ca = a.col(j);
    let cb = b.col(j);
    assert(a.col_ptr[j] <= a.col_ptr[j + 1]);
    assert(b.col_ptr[j] <= b.col_ptr[j + 1]);
    assert(a.col_sorted(j));
    assert(b.col_sorted(j));
    assert forall|x: usize| ca.contains(x) <==> cb.contains(x) by {
        if ca.contains(x) {
            let t = choose|t: int| 0 <= t < ca.len() && ca[t] == x;
            assert(a.row_idx[a.col_ptr[j] + t] == x);
            assert(a.has(x as int, j));
            assert(b.has(x as int, j));
            let p = choose|p: int| b.col_ptr[j] <= p < b.col_ptr[j + 1] && b.row_idx[p] == x;
            assert(cb[p - b.col_ptr[j]] == x);
        }
        if cb.contains(x) {
            let t = choose|t: int| 0 <= t < cb.len() && cb[t] == x;
            assert(b.row_idx[b.col_ptr[j] + t] == x);
            assert(b.has(x as int, j));
            assert(a.has(x as int, j));
            let p = choose|p: int| a.col_ptr[j] <= p < a.col_ptr[j + 1] && a.row_idx[p] == x;
            assert(ca[p - a.col_ptr[j]] == x);
        }
    }
    lemma_sorted_same_elements(ca, cb);
}

/// Two strictly increasing sequences with the same elements are equal.
pub proof fn lemma_sorted_same_elements(s: Seq<usize>, t: Seq<usize>)
    requires
        forall|p: int, q: int| 0 <= p < q < s.len() ==> s[p] < s[q],
        forall|p: int, q: int| 0 <= p < q < t.len() ==> t[p] < t[q],
        forall|x: usize| s.contains(x) <==> t.contains(x),
    ensures
        s =~= t,
    decreases s.len(),
{
    if s.len() == 0 {
        if t.len() > 0 {
            assert(t.contains(t[0]));
        }
    } else if t.len() == 0 {
        assert(s.contains(s[0]));
    } else {
        // The smallest elements agree.
        assert(t.contains(s[0]));
        assert(s.contains(t[0]));
        let ps = choose|p: int| 0 <= p < s.len() && s[p] == t[0];
        let pt = choose|p: int| 0 <= p < t.len() && t[p] == s[0];
        assert(s[0] == t[0]) by {
            if ps > 0 {
                assert(s[0] < s[ps]);
            }
            if pt > 0 {
                assert(t[0] < t[pt]);
            }
        }
        let s1 = s.drop_first();
        let t1 = t.drop_first();
        assert forall|x: usize| s1.contains(x) <==> t1.contains(x) by {
            if s1.contains(x) {
                let p = choose|p: int| 0 <= p < s1.len() && s1[p] == x;
                assert(s[p + 1] == x);
                assert(s.contains(x));
                assert(t.contains(x));
                let q = choose|q: int| 0 <= q < t.len() && t[q] == x;
                assert(s[0] < s[p + 1]);
                assert(q != 0);
                assert(t1[q - 1] == x);
            }
            if t1.contains(x) {
                let p = choose|p: int| 0 <= p < t1.len() && t1[p] == x;
                assert(t[p + 1] == x);
                assert(t.contains(x));
                assert(s.contains(x));
                let q = choose|q: int| 0 <= q < s.len() && s[q] == x;
                assert(t[0] < t[p + 1]);
                assert(q != 0);
                assert(s1[q - 1] == x);
            }
        }
        lemma_sorted_same_elements(s1, t1);
        assert(s =~= seq![s[0]] + s1);
        assert(t =~= seq![t[0]] + t1);
    }
}

/// The column pointers of two well-formed patterns with equal columns agree.
proof fn lemma_ptr_agree(a: SparsityView, b: SparsityView, j: int)
    requires
        a.wf(),
        b.wf(),
        a.ncols == b.ncols,
        0 <= j <= a.ncols,
        forall|k: int| 0 <= k < a.ncols ==> a.col(k) == b.col(k),
    ensures
        a.col_ptr[j] == b.col_ptr[j],
    decreases j,
{
    if j > 0 {
        lemma_ptr_agree(a, b, j - 1);
        assert(a.col(j - 1).len() == b.col(j - 1).len());
        assert(a.col_ptr[j - 1] <= a.col_ptr[j]);
        assert(b.col_ptr[j - 1] <= b.col_ptr[j]);
    }
}

/// `s` is strictly increasing.
pub open spec fn strictly_sorted(s: Seq<usize>) -> bool {
    forall|p: int, q: int| 0 <= p < q < s.len() ==> s[p] < s[q]
}

/// Every element of `s` is below `bound`.
pub open spec fn all_below(s: Seq<usize>, bound: nat) -> bool {
    forall|p: int| 0 <= p < s.len() ==> s[p] < bound
}

/// The columns `cols[0..j]` laid end to end.
pub open spec fn concat_cols(cols: Seq<Seq<usize>>, j: int) -> Seq<usize>
    decreases j,
{
    if j <= 0 {
        Seq::empty()
    } else {
        concat_cols(cols, j - 1) + cols[j - 1]
    }
}

/// Insert `x` into the strictly increasing `col`, keeping it strictly
/// increasing and free of duplicates.
pub(crate) fn insert_sorted(col: &mut Vec<usize>, x: usize)
    requires
        strictly_sorted(old(col)@),
    ensures
        strictly_sorted(final(col)@),
        forall|y: usize| final(col)@.contains(y) <==> (old(col)@.contains(y) || y == x),
{
    let mut pos: usize = 0;
    while pos < col.len() && col[pos] < x
        invariant
            pos <= col@.len(),
            col@ == old(col)@,
            forall|q: int| 0 <= q < pos ==> col@[q] < x,
        decreases col@.len() - pos,
    {
        pos += 1;
    }
    if pos < col.len() && col[pos] == x {
        assert(col@.contains(x));
        assert forall|y: usize| col@.contains(y) <==> (old(col)@.contains(y) || y == x) by {}
        return;
    }
    let ghost before = col@;
    assert(before == old(col)@);
    col.insert(pos, x);
    proof {
        assert forall|p: int, q: int| 0 <= p < q < col@.len() implies col@[p] < col@[q] by {
            if q < pos {
            } else if q == pos {
            } else if p < pos {
                assert(before[p] < x);
                assert(x < before[pos as int]) by {
                    assert(before[pos as int] >= x);
                }
                if q - 1 > pos {
                    assert(before[pos as int] < before[q - 1]);
                }
            } else if p == pos {
                assert(before[pos as int] >= x);
                assert(before[pos as int] != x);
                if q - 1 > pos {
                    assert(before[pos as int] < before[q - 1]);
                }
            } else {
                assert(before[p - 1] < before[q - 1]);
            }
        }
        assert forall|y: usize| col@.contains(y) <==> (before.contains(y) || y == x) by {
            if col@.contains(y) {
                let t = choose|t: int| 0 <= t < col@.len() && col@[t] == y;
                if t < pos {
                    assert(before[t] == y);
                } else if t > pos {
                    assert(before[t - 1] == y);
                }
            }
            if before.contains(y) {
                let t = choose|t: int| 0 <= t < before.len() && before[t] == y;
                if t < pos {
                    assert(col@[t] == y);
                } else {
                    assert(col@[t + 1] == y);
                }
            }
            if y == x {
                assert(col@[pos as int] == x);
            }
        }
        assert forall|y: usize| col@.contains(y) <==> (old(col)@.contains(y) || y == x) by {
            assert(col@.contains(y) <==> (before.contains(y) || y == x));
        }
    }
}

/// Lay sorted columns end to end as CSC arrays.
fn flatten_columns(cols: &Vec<Vec<usize>>, nrows: usize) -> (r: (Vec<usize>, Vec<usize>))
    requires
        cols@.len() < usize::MAX,
        forall|c: int| 0 <= c < cols@.len() ==> #[trigger] strictly_sorted(cols@[c]@),
        forall|c: int| 0 <= c < cols@.len() ==> #[trigger] all_below(cols@[c]@, nrows as nat),
    ensures
        (SparsityView {
            nrows: nrows as nat,
            ncols: cols@.len(),
            col_ptr: r.0@,
            row_idx: r.1@,
        }).wf(),
        forall|i: int, j: int|
            (SparsityView {
                nrows: nrows as nat,
                ncols: cols@.len(),
                col_ptr: r.0@,
                row_idx: r.1@,
            }).has(i, j) <==> (0 <= j < cols@.len() && 0 <= i <= usize::MAX && cols@[j]@.contains(i as usize)),
{
    let ncols = cols.len();
    let mut col_ptr: Vec<usize> = Vec::new();
    let mut row_idx: Vec<usize> = Vec::new();
    col_ptr.push(0);
    let mut j: usize = 0;
    while j < ncols
        invariant
            ncols == cols@.len() < usize::MAX,
            j <= ncols,
            col_ptr@.len() == j + 1,
            col_ptr@[0] == 0,
            col_ptr@[j as int] == row_idx@.len(),
            forall|a: int, b: int| 0 <= a <= b <= j ==> col_ptr@[a] <= col_ptr@[b],
            forall|k: int|
                0 <= k < j ==> col_ptr@[k + 1] - col_ptr@[k] == (#[trigger] cols@[k])@.len(),
            forall|k: int, p: int|
                #![trigger row_idx@[p], col_ptr@[k]]
                0 <= k < j && col_ptr@[k] <= p < col_ptr@[k + 1] ==> row_idx@[p] == cols@[k]@[p
                    - col_ptr@[k]],
            forall|c: int| 0 <= c < cols@.len() ==> #[trigger] strictly_sorted(cols@[c]@),
            forall|c: int| 0 <= c < cols@.len() ==> #[trigger] all_below(cols@[c]@, nrows as nat),
        decreases ncols - j,
    {
        let c = &cols[j];
        let mut t: usize = 0;
        let ghost prefix = row_idx@;
        while t < c.len()
            invariant
                t <= c@.len(),
                c == cols@[j as int],
                row_idx@.len() == prefix.len() + t,
                forall|p: int| 0 <= p < prefix.len() ==> row_idx@[p] == prefix[p],
                forall|q: int| #![trigger c@[q]] 0 <= q < t ==> row_idx@[prefix.len() + q] == c@[q],
            decreases c@.len() - t,
        {
            row_idx.push(c[t]);
            t += 1;
        }
        col_ptr.push(row_idx.len());
        proof {
            assert forall|k: int, p: int|
                #![trigger row_idx@[p], col_ptr@[k]]
                0 <= k < j + 1 && col_ptr@[k] <= p < col_ptr@[k + 1] implies row_idx@[p]
                    == cols@[k]@[p - col_ptr@[k]] by {
                if k == j {
                    assert(c@[p - prefix.len()] == cols@[k]@[p - col_ptr@[k]]);
                } else {
                    assert(col_ptr@[k + 1] <= col_ptr@[j as int]);
                    assert(row_idx@[p] == prefix[p]);
                }
            }
        }
        j += 1;
    }
    proof {
        let ghost cs = Seq::new(cols@.len(), |c: int| cols@[c]@);
        assert forall|k: int| 0 <= k < ncols implies col_ptr@[k + 1] - col_ptr@[k] == (#[trigger] cs[k]).len() by {
            assert(cs[k] == cols@[k]@);
        }
        assert forall|k: int, p: int|
            #![trigger row_idx@[p], col_ptr@[k]]
            0 <= k < ncols && col_ptr@[k] <= p < col_ptr@[k + 1] implies row_idx@[p] == cs[k][p - col_ptr@[k]] by {
            assert(cs[k] == cols@[k]@);
        }
        assert forall|c: int| 0 <= c < cs.len() implies #[trigger] strictly_sorted(cs[c]) && all_below(cs[c], nrows as nat) by {
            assert(cs[c] == cols@[c]@);
            assert(strictly_sorted(cols@[c]@));
            assert(all_below(cols@[c]@, nrows as nat));
        }
        lemma_layout(cs, nrows as nat, col_ptr@, row_idx@);
        assert forall|i: int, jj: int|
            (SparsityView { nrows: nrows as nat, ncols: cols@.len(), col_ptr: col_ptr@, row_idx: row_idx@ }).has(i, jj)
            <==> (0 <= jj < cols@.len() && 0 <= i <= usize::MAX && cols@[jj]@.contains(i as usize)) by {
            if 0 <= jj < cols@.len() {
                assert(cs[jj] == cols@[jj]@);
            }
        }
    }
    (col_ptr, row_idx)
}

/// Columns laid end to end with matching pointers form a well-formed
/// pattern whose column `j` holds exactly the elements of `cols[j]`.
proof fn lemma_layout(cols: Seq<Seq<usize>>, nrows: nat, col_ptr: Seq<usize>, row_idx: Seq<usize>)
    requires
        col_ptr.len() == cols.len() + 1,
        col_ptr[0] == 0,
        col_ptr[cols.len() as int] == row_idx.len(),
        forall|a: int, b: int| 0 <= a <= b <= cols.len() ==> col_ptr[a] <= col_ptr[b],
        forall|k: int| 0 <= k < cols.len() ==> col_ptr[k + 1] - col_ptr[k] == (#[trigger] cols[k]).len(),
        forall|k: int, p: int|
            #![trigger row_idx[p], col_ptr[k]]
            0 <= k < cols.len() && col_ptr[k] <= p < col_ptr[k + 1] ==> row_idx[p] == cols[k][p - col_ptr[k]],
        forall|c: int| 0 <= c < cols.len() ==> #[trigger] strictly_sorted(cols[c]) && all_below(cols[c], nrows),
    ensures
        (SparsityView { nrows, ncols: cols.len(), col_ptr, row_idx }).wf(),
        forall|i: int, j: int|
            (SparsityView { nrows, ncols: cols.len(), col_ptr, row_idx }).has(i, j) <==> (0 <= j < cols.len()
                && 0 <= i <= usize::MAX && cols[j].contains(i as usize)),
{
    let v = SparsityView { nrows, ncols: cols.len(), col_ptr, row_idx };
    assert forall|p: int| 0 <= p < row_idx.len() implies row_idx[p] < nrows by {
        let k = lemma_column_of(v, p);
        assert(row_idx[p] == cols[k][p - col_ptr[k]]);
        assert(strictly_sorted(cols[k]));
        assert(all_below(cols[k], nrows));
    }
    assert forall|k: int| 0 <= k < cols.len() implies #[trigger] v.col_sorted(k) by {
        assert(strictly_sorted(cols[k]));
        assert forall|p: int, q: int| col_ptr[k] <= p < q < col_ptr[k + 1] implies row_idx[p] < row_idx[q] by {
            assert(row_idx[p] == cols[k][p - col_ptr[k]]);
            assert(row_idx[q] == cols[k][q - col_ptr[k]]);
        }
    }
    assert forall|i: int, jj: int|
        v.has(i, jj) <==> (0 <= jj < cols.len() && 0 <= i <= usize::MAX && cols[jj].contains(i as usize)) by {
        if v.has(i, jj) {
            let p = choose|p: int| col_ptr[jj] <= p < col_ptr[jj + 1] && row_idx[p] == i;
            assert(row_idx[p] == cols[jj][p - col_ptr[jj]]);
            assert(cols[jj][p - col_ptr[jj]] == i);
        }
        if 0 <= jj < cols.len() && 0 <= i <= usize::MAX && cols[jj].contains(i as usize) {
            let t = choose|t: int| 0 <= t < cols[jj].len() && cols[jj][t] == i as usize;
            let p = col_ptr[jj] + t;
            assert(row_idx[p] == cols[jj][p - col_ptr[jj]]);
        }
    }
}

/// The state of the scatter in [`Sparsity::transpose`] once the entries of
/// `a` before position `p`, which lies in column `j`, have been placed: row
/// `r` of `a` owns the slots `ptr[r]..next[r]` of the output, which hold,
/// in increasing order, columns of `a` that store row `r`; every entry
/// before `p` has its slot.
pub open spec fn transpose_filled(a: SparsityView, ptr: Seq<usize>, next: Seq<usize>, t: Seq<usize>, j: int, p: int) -> bool {
    &&& filled_has(a, ptr, next, t)
    &&& filled_sorted(a, ptr, next, t)
    &&& filled_below(a, ptr, next, t, j, p)
    &&& filled_placed(a, ptr, next, t, p)
}

/// Filled slots of row `r` hold columns of `a` that store row `r`.
#[verifier::opaque]
pub open spec fn filled_has(a: SparsityView, ptr: Seq<usize>, next: Seq<usize>, t: Seq<usize>) -> bool {
    forall|r: int, s: int|
        #![trigger next[r], t[s]]
        0 <= r < a.nrows && ptr[r] <= s < next[r] ==> a.has(r, t[s] as int)
}

/// Filled slots of each row are in increasing order.
#[verifier::opaque]
pub open spec fn filled_sorted(a: SparsityView, ptr: Seq<usize>, next: Seq<usize>, t: Seq<usize>) -> bool {
    forall|r: int, s1: int, s2: int|
        #![trigger next[r], t[s1], t[s2]]
        0 <= r < a.nrows && ptr[r] <= s1 < s2 < next[r] ==> t[s1] < t[s2]
}

/// Filled slots hold columns before `j`, or column `j` for rows already
/// met in column `j` before position `p`.
#[verifier::opaque]
pub open spec fn filled_below(a: SparsityView, ptr: Seq<usize>, next: Seq<usize>, t: Seq<usize>, j: int, p: int) -> bool {
    forall|r: int, s: int|
        #![trigger next[r], t[s]]
        0 <= r < a.nrows && ptr[r] <= s < next[r] ==> (t[s] < j || (t[s] == j && exists|q: int|
            a.col_ptr[j] <= q < p && #[trigger] a.row_idx[q] == r))
}

/// Every entry of `a` before position `p` has been placed.
#[verifier::opaque]
pub open spec fn filled_placed(a: SparsityView, ptr: Seq<usize>, next: Seq<usize>, t: Seq<usize>, p: int) -> bool {
    forall|c: int, q: int|
        #![trigger a.col_ptr[c], a.row_idx[q]]
        0 <= c < a.ncols && a.col_ptr[c] <= q < a.col_ptr[c + 1] && q < p ==> exists|s: int|
            ptr[a.row_idx[q] as int] <= s < next[a.row_idx[q] as int] && #[trigger] t[s] == c
}

proof fn lemma_transpose_slot(a: SparsityView, ptr: Seq<usize>, next: Seq<usize>, p: int)
    requires
        a.wf(),
        0 <= p < a.row_idx.len(),
        ptr.len() == a.nrows + 1,
        next.len() == a.nrows + 1,
        forall|q: int| 0 <= q <= a.nrows ==> #[trigger] ptr[q] == count_lt(a.row_idx, q, a.row_idx.len() as int),
        forall|r: int| 0 <= r < a.nrows ==> #[trigger] next[r] == ptr[r] + count_eq(a.row_idx, r, p),
    ensures
        next[a.row_idx[p] as int] < ptr[a.row_idx[p] + 1],
        ptr[a.row_idx[p] + 1] <= a.row_idx.len(),
{
    let rows = a.row_idx;
    let i = rows[p] as int;
    let n = rows.len() as int;
    lemma_count_eq_mono(rows, i, p + 1, n);
    lemma_count_lt_step(rows, i, n);
    lemma_counts_bounded(rows, i + 1, n);
    assert(ptr[i + 1] == count_lt(rows, i + 1, n));
}

/// The facts about one placement that the parts of the step lemma share.
pub open spec fn transpose_step_frame(
    a: SparsityView,
    ptr: Seq<usize>,
    next0: Seq<usize>,
    t0: Seq<usize>,
    next1: Seq<usize>,
    t1: Seq<usize>,
    j: int,
    p: int,
) -> bool {
    let i = a.row_idx[p] as int;
    let slot = next0[i] as int;
    &&& a.col_sorted(j)
    &&& a.ncols <= usize::MAX
    &&& 0 <= p < a.row_idx.len()
    &&& forall|q: int| 0 <= q < a.row_idx.len() ==> a.row_idx[q] < a.nrows
    &&& a.col_ptr.len() == a.ncols + 1
    &&& forall|x: int, y: int| 0 <= x <= y <= a.ncols ==> a.col_ptr[x] <= a.col_ptr[y]
    &&& 0 <= i < a.nrows
    &&& 0 <= j < a.ncols
    &&& a.col_ptr[j] <= p < a.col_ptr[j + 1]
    &&& ptr.len() == a.nrows + 1
    &&& next0.len() == a.nrows + 1
    &&& t0.len() == a.row_idx.len()
    &&& ptr[i] <= slot < ptr[i + 1]
    &&& 0 <= slot < t0.len()
    &&& forall|r: int| 0 <= r < a.nrows ==> #[trigger] next0[r] <= t0.len()
    &&& forall|r: int| 0 <= r < a.nrows && r != i ==> !(ptr[r] <= slot < #[trigger] next0[r])
    &&& forall|r: int| 0 <= r < a.nrows ==> ptr[r] <= #[trigger] next0[r]
    &&& t1 == t0.update(slot, j as usize)
    &&& next1 == next0.update(i, (slot + 1) as usize)
}

proof fn lemma_transpose_step_has(a: SparsityView, ptr: Seq<usize>, next0: Seq<usize>, t0: Seq<usize>, next1: Seq<usize>, t1: Seq<usize>, j: int, p: int)
    requires
        transpose_step_frame(a, ptr, next0, t0, next1, t1, j, p),
        filled_has(a, ptr, next0, t0),
    ensures
        filled_has(a, ptr, next1, t1),
{
    reveal(filled_has);
    let i = a.row_idx[p] as int;
    let slot = next0[i] as int;
    assert(a.has(i, j));
    assert forall|r: int, s: int|
        #![trigger next1[r], t1[s]]
        0 <= r < a.nrows && ptr[r] <= s < next1[r] implies a.has(r, t1[s] as int) by {
        if r == i && s == slot {
        } else {
            assert(next0[r] == next0[r]);
            assert(t1[s] == t0[s]);
        }
    }
}

proof fn lemma_transpose_step_sorted(a: SparsityView, ptr: Seq<usize>, next0: Seq<usize>, t0: Seq<usize>, next1: Seq<usize>, t1: Seq<usize>, j: int, p: int)
    requires
        transpose_step_frame(a, ptr, next0, t0, next1, t1, j, p),
        filled_sorted(a, ptr, next0, t0),
        filled_below(a, ptr, next0, t0, j, p),
    ensures
        filled_sorted(a, ptr, next1, t1),
        filled_below(a, ptr, next1, t1, j, p + 1),
{
    reveal(filled_sorted);
    reveal(filled_below);
    let i = a.row_idx[p] as int;
    let slot = next0[i] as int;
    // Everything already in row i's region is a column before j.
    assert forall|s: int| ptr[i] <= s < next0[i] implies t0[s] < j by {
        assert(next0[i] == next0[i]);
        assert(t0[s] == t0[s]);
        if t0[s] == j {
            let q = choose|q: int| a.col_ptr[j] <= q < p && #[trigger] a.row_idx[q] == i;
            assert(a.col_sorted(j));
            assert(a.row_idx[q] < a.row_idx[p]);
        }
    }
    assert forall|r: int, s1: int, s2: int|
        #![trigger next1[r], t1[s1], t1[s2]]
        0 <= r < a.nrows && ptr[r] <= s1 < s2 < next1[r] implies t1[s1] < t1[s2] by {
        assert(next0[r] == next0[r]);
        if r == i && s2 == slot {
            assert(t0[s1] < j);
            assert(t1[s1] == t0[s1]);
        } else {
            assert(t1[s1] == t0[s1]);
            assert(t1[s2] == t0[s2]);
        }
    }
    assert forall|r: int, s: int|
        #![trigger next1[r], t1[s]]
        0 <= r < a.nrows && ptr[r] <= s < next1[r] implies (t1[s] < j || (t1[s] == j && exists|q: int|
            a.col_ptr[j] <= q < p + 1 && #[trigger] a.row_idx[q] == r)) by {
        if r == i && s == slot {
            assert(a.row_idx[p] == r);
        } else {
            assert(next0[r] == next0[r]);
            assert(t1[s] == t0[s]);
            if t0[s] == j {
                let q = choose|q: int| a.col_ptr[j] <= q < p && #[trigger] a.row_idx[q] == r;
                assert(a.row_idx[q] == r);
            }
        }
    }
}

#[verifier::rlimit(50)]
proof fn lemma_transpose_step_placed(a: SparsityView, ptr: Seq<usize>, next0: Seq<usize>, t0: Seq<usize>, next1: Seq<usize>, t1: Seq<usize>, j: int, p: int)
    requires
        transpose_step_frame(a, ptr, next0, t0, next1, t1, j, p),
        filled_placed(a, ptr, next0, t0, p),
    ensures
        filled_placed(a, ptr, next1, t1, p + 1),
{
    reveal(filled_placed);
    let i = a.row_idx[p] as int;
    let slot = next0[i] as int;
    assert forall|c: int, q: int|
        #![trigger a.col_ptr[c], a.row_idx[q]]
        0 <= c < a.ncols && a.col_ptr[c] <= q < a.col_ptr[c + 1] && q < p + 1 implies exists|s: int|
            ptr[a.row_idx[q] as int] <= s < next1[a.row_idx[q] as int] && #[trigger] t1[s] == c by {
        if q == p {
            if c < j {
                assert(a.col_ptr[c + 1] <= a.col_ptr[j]);
            } else if c > j {
                assert(a.col_ptr[j + 1] <= a.col_ptr[c]);
            }
            assert(c == j);
            assert(t1[slot] == c);
            assert(ptr[i] <= slot < next1[i]);
        } else {
            let rq = a.row_idx[q] as int;
            let s = choose|s: int| ptr[rq] <= s < next0[rq] && #[trigger] t0[s] == c;
            assert(next0[rq] == next0[rq]);
            assert(s != slot);
            assert(t1[s] == c);
        }
    }
}

#[verifier::rlimit(50)]
proof fn lemma_transpose_step(
    a: SparsityView,
    ptr: Seq<usize>,
    next0: Seq<usize>,
    t0: Seq<usize>,
    next1: Seq<usize>,
    t1: Seq<usize>,
    j: int,
    p: int,
)
    requires
        a.wf(),
        a.ncols <= usize::MAX,
        0 <= j < a.ncols,
        a.col_ptr[j] <= p < a.col_ptr[j + 1],
        ptr.len() == a.nrows + 1,
        forall|q: int| 0 <= q <= a.nrows ==> #[trigger] ptr[q] == count_lt(a.row_idx, q, a.row_idx.len() as int),
        forall|x: int, y: int| 0 <= x <= y <= a.nrows ==> ptr[x] <= ptr[y],
        next0.len() == a.nrows + 1,
        t0.len() == a.row_idx.len(),
        forall|r: int| 0 <= r < a.nrows ==> #[trigger] next0[r] == ptr[r] + count_eq(a.row_idx, r, p),
        transpose_filled(a, ptr, next0, t0, j, p),
        next0[a.row_idx[p] as int] < ptr[a.row_idx[p] + 1],
        t1 == t0.update(next0[a.row_idx[p] as int] as int, j as usize),
        next1 == next0.update(a.row_idx[p] as int, (next0[a.row_idx[p] as int] + 1) as usize),
    ensures
        forall|r: int| 0 <= r < a.nrows ==> #[trigger] next1[r] == ptr[r] + count_eq(a.row_idx, r, p + 1),
        transpose_filled(a, ptr, next1, t1, j, p + 1),
{
    let rows = a.row_idx;
    let i = rows[p] as int;
    let slot = next0[i] as int;
    let n = rows.len() as int;
    assert(0 <= i < a.nrows);
    assert forall|r: int| 0 <= r < a.nrows && r != i implies !(ptr[r] <= slot < #[trigger] next0[r]) by {
        lemma_count_eq_mono(rows, r, p, n);
        lemma_count_lt_step(rows, r, n);
        if r < i {
            assert(ptr[r + 1] <= ptr[i]);
        } else {
            assert(ptr[i + 1] <= ptr[r]);
        }
    }
    assert forall|r: int| 0 <= r < a.nrows implies ptr[r] <= #[trigger] next0[r] by {}
    assert forall|r: int| 0 <= r < a.nrows implies #[trigger] next0[r] <= t0.len() by {
        lemma_count_eq_mono(rows, r, p, n);
        lemma_count_lt_step(rows, r, n);
        assert(ptr[r + 1] <= ptr[a.nrows as int]);
        lemma_count_lt_all(rows, a.nrows as int, n);
    }
    assert(a.col_sorted(j));
    lemma_count_lt_all(rows, a.nrows as int, n);
    assert(ptr[i + 1] <= ptr[a.nrows as int]);
    assert(a.col_ptr[j + 1] <= a.col_ptr[a.ncols as int]);
    assert forall|r: int| 0 <= r < a.nrows implies #[trigger] next1[r] == ptr[r] + count_eq(rows, r, p + 1) by {}
    assert(transpose_step_frame(a, ptr, next0, t0, next1, t1, j, p));
    lemma_transpose_step_has(a, ptr, next0, t0, next1, t1, j, p);
    lemma_transpose_step_sorted(a, ptr, next0, t0, next1, t1, j, p);
    lemma_transpose_step_placed(a, ptr, next0, t0, next1, t1, j, p);
}

proof fn lemma_transpose_next_column(a: SparsityView, ptr: Seq<usize>, next: Seq<usize>, t: Seq<usize>, j: int, p: int)
    requires
        0 <= j < a.ncols,
        a.col_ptr.len() == a.ncols + 1,
        p == a.col_ptr[j + 1],
        transpose_filled(a, ptr, next, t, j, p),
    ensures
        transpose_filled(a, ptr, next, t, j + 1, p),
{
    reveal(filled_below);
    assert forall|r: int, s: int|
        #![trigger next[r], t[s]]
        0 <= r < a.nrows && ptr[r] <= s < next[r] implies (t[s] < j + 1 || (t[s] == j + 1 && exists|q: int|
            a.col_ptr[j + 1] <= q < p && #[trigger] a.row_idx[q] == r)) by {
        assert(t[s] < j || (t[s] == j && exists|q: int| a.col_ptr[j] <= q < p && #[trigger] a.row_idx[q] == r));
    }
    assert(filled_below(a, ptr, next, t, j + 1, p));
}

proof fn lemma_transpose_done(a: SparsityView, ptr: Seq<usize>, next: Seq<usize>, t: Seq<usize>)
    requires
        a.wf(),
        ptr.len() == a.nrows + 1,
        forall|q: int| 0 <= q <= a.nrows ==> #[trigger] ptr[q] == count_lt(a.row_idx, q, a.row_idx.len() as int),
        forall|x: int, y: int| 0 <= x <= y <= a.nrows ==> ptr[x] <= ptr[y],
        ptr[0] == 0,
        ptr[a.nrows as int] == a.row_idx.len(),
        t.len() == a.row_idx.len(),
        next.len() == a.nrows + 1,
        forall|r: int| 0 <= r < a.nrows ==> #[trigger] next[r] == ptr[r] + count_eq(a.row_idx, r, a.row_idx.len() as int),
        transpose_filled(a, ptr, next, t, a.ncols as int, a.row_idx.len() as int),
    ensures
        (SparsityView { nrows: a.ncols, ncols: a.nrows, col_ptr: ptr, row_idx: t }).wf(),
        forall|i: int, j: int|
            (SparsityView { nrows: a.ncols, ncols: a.nrows, col_ptr: ptr, row_idx: t }).has(i, j) <==> a.has(j, i),
{
    let v = SparsityView { nrows: a.ncols, ncols: a.nrows, col_ptr: ptr, row_idx: t };
    let n = a.row_idx.len() as int;
    assert forall|r: int| 0 <= r < a.nrows implies #[trigger] next[r] == ptr[r + 1] by {
        lemma_count_lt_step(a.row_idx, r, n);
    }
    assert forall|s: int| 0 <= s < t.len() implies t[s] < a.ncols by {
        let r = lemma_column_of(v, s);
        assert(next[r] == ptr[r + 1]);
        reveal(filled_has);
        assert(a.has(r, t[s] as int));
    }
    assert forall|r: int| 0 <= r < a.nrows implies #[trigger] v.col_sorted(r) by {
        assert(next[r] == ptr[r + 1]);
        assert forall|s1: int, s2: int| ptr[r] <= s1 < s2 < ptr[r + 1] implies t[s1] < t[s2] by {
            reveal(filled_sorted);
            assert(t[s1] == t[s1] && t[s2] == t[s2]);
        }
    }
    assert forall|i: int, j: int| v.has(i, j) <==> a.has(j, i) by {
        if v.has(i, j) {
            let s = choose|s: int| ptr[j] <= s < ptr[j + 1] && t[s] == i;
            assert(next[j] == ptr[j + 1]);
            reveal(filled_has);
            assert(a.has(j, t[s] as int));
        }
        if a.has(j, i) {
            let q = choose|q: int| a.col_ptr[i] <= q < a.col_ptr[i + 1] && a.row_idx[q] == j;
            assert(a.col_ptr[i + 1] <= a.row_idx.len());
            assert(a.col_ptr[i] == a.col_ptr[i]);
            reveal(filled_placed);
            let s = choose|s: int| ptr[a.row_idx[q] as int] <= s < next[a.row_idx[q] as int] && #[trigger] t[s] == i;
            assert(next[j] == ptr[j + 1]);
        }
    }
}

/// A CSC sparsity pattern for an `nrows x ncols` matrix.
///
/// Its invariants, [`SparsityView::wf`], are established by every
/// constructor: sorted, duplicate-free columns are relied upon throughout.
#[derive(PartialEq, Eq, Debug)]
pub struct Sparsity {
    nrows: usize,
    ncols: usize,
    col_ptr: Vec<usize>,
    row_idx: Vec<usize>,
}

impl Clone for Sparsity {
    fn clone(&self) -> (r: Self)
        ensures
            r@ == self@,
    {
        proof {
            use_type_invariant(self);
        }
        let r = Sparsity {
            nrows: self.nrows,
            ncols: self.ncols,
            col_ptr: self.col_ptr.clone(),
            row_idx: self.row_idx.clone(),
        };
        assert(r.col_ptr@ =~= self.col_ptr@);
        assert(r.row_idx@ =~= self.row_idx@);
        r
    }
}

impl View for Sparsity {
    type V = SparsityView;

    closed spec fn view(&self) -> SparsityView {
        SparsityView {
            nrows: self.nrows as nat,
            ncols: self.ncols as nat,
            col_ptr: self.col_ptr@,
            row_idx: self.row_idx@,
        }
    }
}

impl Sparsity {
    /// Every pattern is well formed.
    #[verifier::type_invariant]
    pub open spec fn inv(&self) -> bool {
        self@.wf()
    }

    /// Build a pattern, validating the invariants.
    ///
    /// Returns a description of the first invariant violated.
    #[verifier::loop_isolation(false)]
    pub fn new(nrows: usize, ncols: usize, col_ptr: Vec<usize>, row_idx: Vec<usize>) -> (res: Result<
        Self,
        String,
    >)
        requires
            ncols < usize::MAX,
        ensures
            res is Ok <==> (SparsityView {
                nrows: nrows as nat,
                ncols: ncols as nat,
                col_ptr: col_ptr@,
                row_idx: row_idx@,
            }).wf(),
            res matches Ok(s) ==> s@ == (SparsityView {
                nrows: nrows as nat,
                ncols: ncols as nat,
                col_ptr: col_ptr@,
                row_idx: row_idx@,
            }),
            res matches Err(e) ==> e@ == new_error(nrows as nat, ncols as nat, col_ptr@, row_idx@),
    {
        let ghost v = SparsityView {
            nrows: nrows as nat,
            ncols: ncols as nat,
            col_ptr: col_ptr@,
            row_idx: row_idx@,
        };
        if col_ptr.len() != ncols + 1 {
            let mut e = text("col_ptr has length ");
            push_decimal(&mut e, col_ptr.len());
            push_text(&mut e, " but ncols + 1 = ");
            push_decimal(&mut e, ncols + 1);
            return Err(e);
        }
        if col_ptr[0] != 0 {
            return Err(text("col_ptr[0] must be 0"));
        }
        if col_ptr[ncols] != row_idx.len() {
            let mut e = text("col_ptr[ncols] = ");
            push_decimal(&mut e, col_ptr[ncols]);
            push_text(&mut e, " but row_idx has length ");
            push_decimal(&mut e, row_idx.len());
            return Err(e);
        }
        let mut j: usize = 0;
        while j < ncols
            invariant
                0 <= j <= ncols < usize::MAX,
                col_ptr@.len() == ncols + 1,
                col_ptr@[0] == 0,
                col_ptr@[ncols as int] == row_idx@.len(),
                v == (SparsityView {
                    nrows: nrows as nat,
                    ncols: ncols as nat,
                    col_ptr: col_ptr@,
                    row_idx: row_idx@,
                }),
                forall|i: int| 0 <= i < j ==> column_valid(nrows as nat, col_ptr@, row_idx@, i),
                forall|a: int, b: int| 0 <= a <= b <= j ==> col_ptr@[a] <= col_ptr@[b],
                forall|p: int| 0 <= p < col_ptr@[j as int] ==> row_idx@[p] < nrows,
                col_ptr@[j as int] <= row_idx@.len(),
            decreases ncols - j,
        {
            let start = col_ptr[j];
            let end = col_ptr[j + 1];
            if start > end {
                proof {
                    lemma_first_column(nrows as nat, ncols as nat, col_ptr@, row_idx@, j as int);
                }
                let mut e = text("col_ptr not non-decreasing at column ");
                push_decimal(&mut e, j);
                return Err(e);
            }
            if end > row_idx.len() {
                // The pointers must decrease at some later column, since the
                // last one is the number of rows; name the first.
                let mut d: usize = j + 1;
                while d < ncols && col_ptr[d] <= col_ptr[d + 1]
                    invariant
                        j + 1 <= d <= ncols,
                        col_ptr@.len() == ncols + 1,
                        col_ptr@[ncols as int] == row_idx@.len(),
                        col_ptr@[d as int] > row_idx@.len(),
                        forall|e: int| 0 <= e < d ==> #[trigger] ptr_step_ok(col_ptr@, e),
                    decreases ncols - d,
                {
                    d += 1;
                }
                proof {
                    assert(!column_valid(nrows as nat, col_ptr@, row_idx@, j as int));
                    lemma_first_column(nrows as nat, ncols as nat, col_ptr@, row_idx@, j as int);
                    assert(first_decrease(ncols as nat, col_ptr@, d as int));
                    let dd = choose|dd: int| #[trigger] first_decrease(ncols as nat, col_ptr@, dd);
                    assert(first_decrease(ncols as nat, col_ptr@, dd));
                    if dd < d {
                        assert(ptr_step_ok(col_ptr@, dd));
                    }
                    if dd > d {
                        assert(ptr_step_ok(col_ptr@, d as int));
                    }
                    assert(!v.wf()) by {
                        if v.wf() {
                            assert(col_ptr@[d as int] <= col_ptr@[d + 1]);
                        }
                    }
                }
                let mut e = text("col_ptr not non-decreasing at column ");
                push_decimal(&mut e, d);
                return Err(e);
            }
            let mut k = start;
            while k < end
                invariant
                    start <= k <= end <= row_idx@.len(),
                    start == col_ptr@[j as int],
                    end == col_ptr@[j + 1],
                    forall|i: int| start <= i < k ==> #[trigger] entry_valid(nrows as nat, start as int, row_idx@, i),
                decreases end - k,
            {
                let i = row_idx[k];
                if i >= nrows {
                    proof {
                        assert(!entry_valid(nrows as nat, start as int, row_idx@, k as int));
                        lemma_first_entry(nrows as nat, start as int, end as int, row_idx@, k as int);
                        lemma_first_column(nrows as nat, ncols as nat, col_ptr@, row_idx@, j as int);
                    }
                    let mut e = text("row index ");
                    push_decimal(&mut e, i);
                    push_text(&mut e, " out of range in column ");
                    push_decimal(&mut e, j);
                    return Err(e);
                }
                if k > start && row_idx[k - 1] >= i {
                    proof {
                        assert(!entry_valid(nrows as nat, start as int, row_idx@, k as int));
                        assert(!v.wf()) by {
                            if v.wf() {
                                assert(v.col_sorted(j as int));
                                assert(row_idx@[k - 1] < row_idx@[k as int]);
                            }
                        }
                        lemma_first_entry(nrows as nat, start as int, end as int, row_idx@, k as int);
                        lemma_first_column(nrows as nat, ncols as nat, col_ptr@, row_idx@, j as int);
                    }
                    let mut e = text("row indices in column ");
                    push_decimal(&mut e, j);
                    push_text(&mut e, " must be strictly increasing");
                    return Err(e);
                }
                k += 1;
            }
            assert(column_valid(nrows as nat, col_ptr@, row_idx@, j as int));
            assert forall|p: int| 0 <= p < col_ptr@[j + 1] implies row_idx@[p] < nrows by {
                if p >= start {
                    assert(entry_valid(nrows as nat, start as int, row_idx@, p));
                }
            }
            j += 1;
        }
        proof {
            assert forall|jj: int| 0 <= jj < ncols implies #[trigger] v.col_sorted(jj) by {
                assert(column_valid(nrows as nat, col_ptr@, row_idx@, jj));
                let lo = col_ptr@[jj] as int;
                let hi = col_ptr@[jj + 1] as int;
                assert forall|k: int| lo < k < hi implies row_idx@[k - 1] < #[trigger] row_idx@[k] by {
                    assert(entry_valid(nrows as nat, lo, row_idx@, k));
                }
                lemma_adjacent_increasing(row_idx@, lo, hi);
            }
        }
        Ok(Sparsity { nrows, ncols, col_ptr, row_idx })
    }

    /// Build a pattern from unsorted, possibly duplicated `(row, col)` pairs.
    pub fn from_triplets(nrows: usize, ncols: usize, triplets: &[(usize, usize)]) -> (res: Result<
        Self,
        String,
    >)
        requires
            ncols < usize::MAX,
        ensures
            res is Err <==> exists|k: int|
                0 <= k < triplets@.len() && !triplet_in_range(nrows as nat, ncols as nat, #[trigger] triplets@[k]),
            res matches Err(e) ==> e@ == triplet_error(nrows as nat, ncols as nat, triplets@),
            res matches Ok(s) ==> {
                &&& s@.nrows == nrows
                &&& s@.ncols == ncols
                &&& forall|i: int, j: int|
                    s@.has(i, j) <==> exists|k: int|
                        0 <= k < triplets@.len() && triplets@[k].0 == i && #[trigger] triplets@[k].1 == j
            },
    {
        let mut cols: Vec<Vec<usize>> = Vec::new();
        let mut c: usize = 0;
        while c < ncols
            invariant
                c <= ncols,
                cols@.len() == c,
                forall|q: int| 0 <= q < c ==> (#[trigger] cols@[q])@.len() == 0,
            decreases ncols - c,
        {
            cols.push(Vec::new());
            c += 1;
        }
        let mut t: usize = 0;
        while t < triplets.len()
            invariant
                t <= triplets@.len(),
                cols@.len() == ncols,
                forall|q: int| 0 <= q < t ==> triplet_in_range(nrows as nat, ncols as nat, #[trigger] triplets@[q]),
                forall|q: int| 0 <= q < ncols ==> #[trigger] strictly_sorted(cols@[q]@),
                forall|q: int| 0 <= q < ncols ==> #[trigger] all_below(cols@[q]@, nrows as nat),
                forall|q: int, x: usize|
                    0 <= q < ncols ==> (#[trigger] cols@[q]@.contains(x) <==> exists|k: int|
                        0 <= k < t && triplets@[k].0 == x && #[trigger] triplets@[k].1 == q),
            decreases triplets@.len() - t,
        {
            let (i, j) = triplets[t];
            if i >= nrows || j >= ncols {
                proof {
                    assert(first_bad_triplet(nrows as nat, ncols as nat, triplets@, t as int));
                    let k = choose|k: int| #[trigger] first_bad_triplet(nrows as nat, ncols as nat, triplets@, k);
                    if k < t {
                        assert(triplet_in_range(nrows as nat, ncols as nat, triplets@[k]));
                    }
                    if k > t {
                        assert(triplet_in_range(nrows as nat, ncols as nat, triplets@[t as int]));
                    }
                }
                let mut e = text("triplet (");
                push_decimal(&mut e, i);
                push_text(&mut e, ", ");
                push_decimal(&mut e, j);
                push_text(&mut e, ") out of range ");
                push_decimal(&mut e, nrows);
                push_text(&mut e, "x");
                push_decimal(&mut e, ncols);
                return Err(e);
            }
            let ghost before = cols@;
            insert_sorted(&mut cols[j], i);
            proof {
                assert forall|q: int| 0 <= q < ncols implies #[trigger] all_below(cols@[q]@, nrows as nat) by {
                    if q == j {
                        assert(all_below(before[q]@, nrows as nat));
                        assert forall|p: int| 0 <= p < cols@[q]@.len() implies cols@[q]@[p] < nrows by {
                            assert(cols@[q]@.contains(cols@[q]@[p]));
                        }
                    } else {
                        assert(cols@[q] == before[q]);
                    }
                }
                assert forall|q: int| 0 <= q < ncols implies #[trigger] strictly_sorted(cols@[q]@) by {
                    if q != j {
                        assert(cols@[q] == before[q]);
                    }
                }
                assert forall|q: int, x: usize| 0 <= q < ncols implies (#[trigger] cols@[q]@.contains(x)
                    <==> exists|k: int| 0 <= k < t + 1 && triplets@[k].0 == x && #[trigger] triplets@[k].1 == q) by {
                    if q != j {
                        assert(cols@[q] == before[q]);
                        if exists|k: int| 0 <= k < t + 1 && triplets@[k].0 == x && #[trigger] triplets@[k].1 == q {
                            let k = choose|k: int| 0 <= k < t + 1 && triplets@[k].0 == x && #[trigger] triplets@[k].1 == q;
                            assert(k != t);
                        }
                    } else {
                        assert(before[q]@.contains(x) <==> exists|k: int| 0 <= k < t && triplets@[k].0 == x
                            && #[trigger] triplets@[k].1 == q);
                        if x == i {
                            assert(triplets@[t as int].0 == x && triplets@[t as int].1 == q);
                        }
                        if exists|k: int| 0 <= k < t + 1 && triplets@[k].0 == x && #[trigger] triplets@[k].1 == q {
                            let k = choose|k: int| 0 <= k < t + 1 && triplets@[k].0 == x && #[trigger] triplets@[k].1 == q;
                            if k < t {
                                assert(before[q]@.contains(x));
                            }
                        }
                    }
                }
            }
            t += 1;
        }
        let (col_ptr, row_idx) = flatten_columns(&cols, nrows);
        let s = Sparsity { nrows, ncols, col_ptr, row_idx };
        proof {
            assert forall|i: int, j: int|
                s@.has(i, j) <==> exists|k: int|
                    0 <= k < triplets@.len() && triplets@[k].0 == i && #[trigger] triplets@[k].1 == j by {
                if exists|k: int| 0 <= k < triplets@.len() && triplets@[k].0 == i && #[trigger] triplets@[k].1 == j {
                    let k = choose|k: int| 0 <= k < triplets@.len() && triplets@[k].0 == i && #[trigger] triplets@[k].1 == j;
                    assert(triplet_in_range(nrows as nat, ncols as nat, triplets@[k]));
                    assert(cols@[j]@.contains(i as usize));
                }
                if s@.has(i, j) {
                    assert(cols@[j]@.contains(i as usize));
                }
            }
        }
        Ok(s)
    }

    /// A fully dense pattern: every entry of the `nrows x ncols` matrix.
    pub fn dense(nrows: usize, ncols: usize) -> (s: Self)
        requires
            ncols < usize::MAX,
            nrows * ncols <= usize::MAX,
        ensures
            s@.nrows == nrows,
            s@.ncols == ncols,
            forall|i: int, j: int| s@.has(i, j) <==> (0 <= i < nrows && 0 <= j < ncols),
    {
        let mut col_ptr: Vec<usize> = Vec::new();
        let mut row_idx: Vec<usize> = Vec::new();
        col_ptr.push(0);
        let mut j: usize = 0;
        while j < ncols
            invariant
                j <= ncols < usize::MAX,
                nrows * ncols <= usize::MAX,
                col_ptr@.len() == j + 1,
                row_idx@.len() == j * nrows,
                forall|k: int| 0 <= k <= j ==> #[trigger] col_ptr@[k] == k * nrows,
                forall|p: int| 0 <= p < row_idx@.len() ==> #[trigger] row_idx@[p] == p % (nrows as int),
            decreases ncols - j,
        {
            proof {
                assert((j + 1) * nrows <= nrows * ncols) by (nonlinear_arith)
                    requires
                        j < ncols,
                ;
                assert((j + 1) * nrows == j * nrows + nrows) by (nonlinear_arith);
            }
            let mut i: usize = 0;
            while i < nrows
                invariant
                    i <= nrows,
                    (j + 1) * nrows <= usize::MAX,
                    (j + 1) * nrows == j * nrows + nrows,
                    row_idx@.len() == j * nrows + i,
                    forall|p: int| 0 <= p < row_idx@.len() ==> #[trigger] row_idx@[p] == p % (nrows as int),
                decreases nrows - i,
            {
                proof {
                    lemma_block_mod(j as int, i as int, nrows as int);
                }
                row_idx.push(i);
                i += 1;
            }
            col_ptr.push(row_idx.len());
            j += 1;
        }
        let ghost v = SparsityView {
            nrows: nrows as nat,
            ncols: ncols as nat,
            col_ptr: col_ptr@,
            row_idx: row_idx@,
        };
        proof {
            assert forall|a: int, b: int| 0 <= a <= b <= ncols implies col_ptr@[a] <= col_ptr@[b] by {
                assert(a * nrows <= b * nrows) by (nonlinear_arith)
                    requires
                        a <= b,
                ;
            }
            assert forall|p: int| 0 <= p < row_idx@.len() implies row_idx@[p] < nrows by {
                assert(row_idx@[p] == p % (nrows as int));
                assert(nrows > 0) by (nonlinear_arith)
                    requires
                        p < ncols * nrows,
                        0 <= p,
                ;
            }
            assert forall|jj: int| 0 <= jj < ncols implies #[trigger] v.col_sorted(jj) by {
                assert forall|p: int, q: int|
                    col_ptr@[jj] <= p < q < col_ptr@[jj + 1] implies row_idx@[p] < row_idx@[q] by {
                    assert((jj + 1) * nrows == jj * nrows + nrows) by (nonlinear_arith);
                    assert((jj + 1) * nrows <= ncols * nrows) by (nonlinear_arith)
                        requires
                            jj < ncols,
                    ;
                    lemma_block_mod(jj, p - jj * nrows, nrows as int);
                    lemma_block_mod(jj, q - jj * nrows, nrows as int);
                    assert(row_idx@[p] == p % (nrows as int));
                    assert(row_idx@[q] == q % (nrows as int));
                }
            }
            assert forall|i: int, jj: int| v.has(i, jj) <==> (0 <= i < nrows && 0 <= jj < ncols) by {
                if 0 <= i < nrows && 0 <= jj < ncols {
                    assert((jj + 1) * nrows == jj * nrows + nrows) by (nonlinear_arith);
                    assert((jj + 1) * nrows <= ncols * nrows) by (nonlinear_arith)
                        requires
                            jj < ncols,
                    ;
                    lemma_block_mod(jj, i, nrows as int);
                    assert(row_idx@[jj * nrows + i] == (jj * nrows + i) % (nrows as int));
                    assert(v.col_ptr[jj] <= jj * nrows + i < v.col_ptr[jj + 1]);
                }
                if v.has(i, jj) {
                    let p = choose|p: int| v.col_ptr[jj] <= p < v.col_ptr[jj + 1] && v.row_idx[p] == i;
                    assert((jj + 1) * nrows == jj * nrows + nrows) by (nonlinear_arith);
                    assert((jj + 1) * nrows <= ncols * nrows) by (nonlinear_arith)
                        requires
                            jj < ncols,
                    ;
                    lemma_block_mod(jj, p - jj * nrows, nrows as int);
                    assert(row_idx@[p] == p % (nrows as int));
                }
            }
        }
        Sparsity { nrows, ncols, col_ptr, row_idx }
    }

    /// Transpose the pattern. `O(nnz + n)`, output columns sorted.
    pub fn transpose(&self) -> (t: Self)
        requires
            self@.nrows < usize::MAX,
        ensures
            t@.nrows == self@.ncols,
            t@.ncols == self@.nrows,
            forall|i: int, j: int| t@.has(i, j) <==> self@.has(j, i),
            forall|i: int|
                0 <= i <= self@.nrows ==> #[trigger] t@.col_ptr[i] == count_lt(
                    self@.row_idx,
                    i,
                    self@.row_idx.len() as int,
                ),
    {
        proof {
            use_type_invariant(self);
        }
        let nrows = self.nrows;
        let ncols = self.ncols;
        let nnz = self.row_idx.len();
        let ghost rows = self.row_idx@;
        let ghost cp = self.col_ptr@;
        // Entries per row, shifted by one.
        let mut counts: Vec<usize> = Vec::new();
        let mut r: usize = 0;
        while r <= nrows
            invariant
                r <= nrows + 1,
                nrows < usize::MAX,
                counts@.len() == r,
                forall|q: int| 0 <= q < r ==> counts@[q] == 0,
            decreases nrows + 1 - r,
        {
            counts.push(0);
            r += 1;
        }
        let mut p: usize = 0;
        while p < nnz
            invariant
                self@.wf(),
                rows == self@.row_idx,
                nnz == rows.len(),
                nrows == self@.nrows,
                p <= nnz,
                counts@.len() == nrows + 1,
                counts@[0] == 0,
                forall|q: int| 0 <= q < nrows ==> #[trigger] counts@[q + 1] == count_eq(rows, q, p as int),
            decreases nnz - p,
        {
            let i = self.row_idx[p];
            proof {
                lemma_counts_bounded(rows, i as int, p as int);
            }
            counts.set(i + 1, counts[i + 1] + 1);
            proof {
                assert forall|q: int| 0 <= q < nrows implies #[trigger] counts@[q + 1] == count_eq(rows, q, p + 1) by {
                }
            }
            p += 1;
        }
        // Prefix sums: counts[r] becomes the number of entries above row r.
        proof {
            lemma_count_lt_zero(rows, nnz as int);
            assert forall|q: int| 0 < q <= nrows implies #[trigger] counts@[q] == count_eq(rows, q - 1, nnz as int) by {
                assert(counts@[(q - 1) + 1] == count_eq(rows, q - 1, nnz as int));
            }
        }
        let mut i: usize = 0;
        while i < nrows
            invariant
                nnz == rows.len(),
                i <= nrows,
                counts@.len() == nrows + 1,
                forall|q: int| 0 <= q <= i ==> #[trigger] counts@[q] == count_lt(rows, q, nnz as int),
                forall|q: int| i < q <= nrows ==> #[trigger] counts@[q] == count_eq(rows, q - 1, nnz as int),
            decreases nrows - i,
        {
            proof {
                lemma_count_lt_step(rows, i as int, nnz as int);
                lemma_counts_bounded(rows, i + 1, nnz as int);
                lemma_count_lt_zero(rows, nnz as int);
            }
            counts.set(i + 1, counts[i + 1] + counts[i]);
            i += 1;
        }
        proof {
            lemma_count_lt_zero(rows, nnz as int);
            lemma_count_lt_all(rows, nrows as int, nnz as int);
            assert forall|a: int, b: int| 0 <= a <= b <= nrows implies counts@[a] <= counts@[b] by {
                lemma_count_lt_mono(rows, a, b, nnz as int);
            }
        }
        let col_ptr = counts.clone();
        assert(col_ptr@ =~= counts@);
        let ghost ptr = col_ptr@;
        let mut row_idx: Vec<usize> = Vec::new();
        let mut q: usize = 0;
        while q < nnz
            invariant
                q <= nnz,
                row_idx@.len() == q,
            decreases nnz - q,
        {
            row_idx.push(0);
            q += 1;
        }
        let mut next = counts;
        let mut j: usize = 0;
        let mut p: usize = 0;
        proof {
            reveal(filled_has);
            reveal(filled_sorted);
            reveal(filled_below);
            reveal(filled_placed);
            assert(transpose_filled(self@, ptr, next@, row_idx@, 0, 0));
        }
        while j < ncols
            invariant
                self@.wf(),
                rows == self@.row_idx,
                cp == self@.col_ptr,
                nnz == rows.len(),
                nrows == self@.nrows,
                ncols == self@.ncols,
                j <= ncols,
                p == cp[j as int],
                ptr.len() == nrows + 1,
                forall|q: int| 0 <= q <= nrows ==> #[trigger] ptr[q] == count_lt(rows, q, nnz as int),
                forall|a: int, b: int| 0 <= a <= b <= nrows ==> ptr[a] <= ptr[b],
                row_idx@.len() == nnz,
                next@.len() == nrows + 1,
                forall|r: int| 0 <= r < nrows ==> #[trigger] next@[r] == ptr[r] + count_eq(rows, r, p as int),
                transpose_filled(self@, ptr, next@, row_idx@, j as int, p as int),
            decreases ncols - j,
        {
            let end = self.col_ptr[j + 1];
            while p < end
                invariant
                    self@.wf(),
                    rows == self@.row_idx,
                    cp == self@.col_ptr,
                    nnz == rows.len(),
                    nrows == self@.nrows,
                    ncols == self@.ncols,
                    j < ncols,
                    cp[j as int] <= p <= end,
                    end == cp[j + 1],
                    ptr.len() == nrows + 1,
                    forall|q: int| 0 <= q <= nrows ==> #[trigger] ptr[q] == count_lt(rows, q, nnz as int),
                    forall|a: int, b: int| 0 <= a <= b <= nrows ==> ptr[a] <= ptr[b],
                    row_idx@.len() == nnz,
                    next@.len() == nrows + 1,
                    forall|r: int| 0 <= r < nrows ==> #[trigger] next@[r] == ptr[r] + count_eq(rows, r, p as int),
                    transpose_filled(self@, ptr, next@, row_idx@, j as int, p as int),
                decreases end - p,
            {
                let i = self.row_idx[p];
                let ghost before = row_idx@;
                let ghost next_before = next@;
                proof {
                    lemma_transpose_slot(self@, ptr, next@, p as int);
                }
                row_idx.set(next[i], j);
                next.set(i, next[i] + 1);
                proof {
                    lemma_transpose_step(self@, ptr, next_before, before, next@, row_idx@, j as int, p as int);
                }
                p += 1;
            }
            proof {
                lemma_transpose_next_column(self@, ptr, next@, row_idx@, j as int, p as int);
            }
            j += 1;
        }
        proof {
            lemma_transpose_done(self@, ptr, next@, row_idx@);
        }
        Sparsity { nrows: ncols, ncols: nrows, col_ptr, row_idx }
    }

    /// Number of rows.
    pub fn nrows(&self) -> (r: usize)
        ensures
            r == self@.nrows,
    {
        self.nrows
    }

    /// Number of columns.
    pub fn ncols(&self) -> (r: usize)
        ensures
            r == self@.ncols,
    {
        self.ncols
    }

    /// Number of stored entries.
    pub fn nnz(&self) -> (r: usize)
        ensures
            r == self@.nnz(),
    {
        self.row_idx.len()
    }

    /// Column pointers, length `ncols + 1`.
    pub fn col_ptr(&self) -> (r: &[usize])
        ensures
            r@ == self@.col_ptr,
    {
        self.col_ptr.as_slice()
    }

    /// Row indices, length `nnz`.
    pub fn row_idx(&self) -> (r: &[usize])
        ensures
            r@ == self@.row_idx,
    {
        self.row_idx.as_slice()
    }

    /// Row indices of column `j`, sorted ascending.
    pub fn col(&self, j: usize) -> (r: &[usize])
        requires
            j < self@.ncols,
        ensures
            r@ == self@.col(j as int),
    {
        proof {
            use_type_invariant(self);
        }
        vstd::slice::slice_subrange(self.row_idx.as_slice(), self.col_ptr[j], self.col_ptr[j + 1])
    }
}

/// `t` is the transpose of `a`: dimensions swapped and entry `(i, j)` of
/// `t` stored exactly when `(j, i)` is stored in `a`.
pub open spec fn is_transpose(t: SparsityView, a: SparsityView) -> bool {
    &&& t.nrows == a.ncols
    &&& t.ncols == a.nrows
    &&& forall|i: int, j: int| t.has(i, j) <==> a.has(j, i)
}

/// Transposing twice gives back the pattern: the transpose of the
/// transpose of a well-formed pattern is that pattern, arrays and all.
pub proof fn lemma_transpose_involution(a: SparsityView, t: SparsityView, u: SparsityView)
    requires
        a.wf(),
        t.wf(),
        u.wf(),
        is_transpose(t, a),
        is_transpose(u, t),
    ensures
        u == a,
{
    lemma_wf_unique(u, a);
}

/// The order of the triplets and their repetitions do not matter: two
/// lists holding the same pairs give the same pattern.
pub proof fn lemma_triplets_order_irrelevant(
    a: SparsityView,
    b: SparsityView,
    ts1: Seq<(usize, usize)>,
    ts2: Seq<(usize, usize)>,
)
    requires
        a.wf(),
        b.wf(),
        a.nrows == b.nrows,
        a.ncols == b.ncols,
        forall|i: int, j: int| a.has(i, j) <==> exists|k: int| 0 <= k < ts1.len() && ts1[k].0 == i && #[trigger] ts1[k].1 == j,
        forall|i: int, j: int| b.has(i, j) <==> exists|k: int| 0 <= k < ts2.len() && ts2[k].0 == i && #[trigger] ts2[k].1 == j,
        forall|t: (usize, usize)| ts1.contains(t) <==> ts2.contains(t),
    ensures
        a == b,
{
    assert forall|i: int, j: int| a.has(i, j) <==> b.has(i, j) by {
        if a.has(i, j) {
            let k = choose|k: int| 0 <= k < ts1.len() && ts1[k].0 == i && #[trigger] ts1[k].1 == j;
            assert(ts1.contains(ts1[k]));
            let k2 = choose|k2: int| 0 <= k2 < ts2.len() && ts2[k2] == ts1[k];
            assert(ts2[k2].0 == i && ts2[k2].1 == j);
        }
        if b.has(i, j) {
            let k = choose|k: int| 0 <= k < ts2.len() && ts2[k].0 == i && #[trigger] ts2[k].1 == j;
            assert(ts2.contains(ts2[k]));
            let k2 = choose|k2: int| 0 <= k2 < ts1.len() && ts1[k2] == ts2[k];
            assert(ts1[k2].0 == i && ts1[k2].1 == j);
        }
    }
    lemma_wf_unique(a, b);
}

/// Position `t` of block `j` of width `n` has remainder `t`.
proof fn lemma_block_mod(j: int, t: int, n: int)
    requires
        0 <= j,
        0 <= t < n,
    ensures
        (j * n + t) % n == t,
{
    vstd::arithmetic::div_mod::lemma_fundamental_div_mod_converse(j * n + t, n, j, t);
}

proof fn lemma_first_column(nrows: nat, ncols: nat, col_ptr: Seq<usize>, row_idx: Seq<usize>, j: int)
    requires
        0 <= j < ncols,
        !column_valid(nrows, col_ptr, row_idx, j),
        forall|i: int| 0 <= i < j ==> column_valid(nrows, col_ptr, row_idx, i),
    ensures
        (choose|jj: int| first_invalid_column(nrows, ncols, col_ptr, row_idx, jj)) == j,
{
    assert(first_invalid_column(nrows, ncols, col_ptr, row_idx, j));
    let jj = choose|jj: int| first_invalid_column(nrows, ncols, col_ptr, row_idx, jj);
    assert(first_invalid_column(nrows, ncols, col_ptr, row_idx, jj));
    if jj < j {
        assert(column_valid(nrows, col_ptr, row_idx, jj));
    }
    if jj > j {
        assert(column_valid(nrows, col_ptr, row_idx, j));
    }
}

proof fn lemma_first_entry(nrows: nat, start: int, end: int, row_idx: Seq<usize>, k: int)
    requires
        start <= k < end,
        !entry_valid(nrows, start, row_idx, k),
        forall|i: int| start <= i < k ==> #[trigger] entry_valid(nrows, start, row_idx, i),
    ensures
        (choose|kk: int| first_invalid_entry(nrows, start, end, row_idx, kk)) == k,
{
    assert(first_invalid_entry(nrows, start, end, row_idx, k));
    let kk = choose|kk: int| first_invalid_entry(nrows, start, end, row_idx, kk);
    assert(first_invalid_entry(nrows, start, end, row_idx, kk));
    if kk < k {
        assert(entry_valid(nrows, start, row_idx, kk));
    }
    if kk > k {
        assert(entry_valid(nrows, start, row_idx, k));
    }
}

/// The position of stored entry `(r, c)`, found by bisection in column `c`.
pub(crate) fn find_row(s: &Sparsity, r: usize, c: usize) -> (q: usize)
    requires
        s@.has(r as int, c as int),
    ensures
        s@.col_ptr[c as int] <= q < s@.col_ptr[c + 1],
        s@.row_idx[q as int] == r,
{
    proof {
        use_type_invariant(s);
    }
    let ghost v = s@;
    let cp = s.col_ptr();
    let ri = s.row_idx();
    let mut lo = cp[c];
    let mut hi = cp[c + 1];
    proof {
        assert(v.col_sorted(c as int));
    }
    while lo < hi
        invariant
            v == s@,
            v.wf(),
            cp@ == v.col_ptr,
            ri@ == v.row_idx,
            c < v.ncols,
            v.col_ptr[c as int] <= lo,
            hi <= v.col_ptr[c + 1],
            v.col_sorted(c as int),
            exists|q: int| lo <= q < hi && v.row_idx[q] == r,
        decreases hi - lo,
    {
        let mid = lo + (hi - lo) / 2;
        assert(v.col_ptr[c + 1] <= v.row_idx.len()) by {
            assert(v.col_ptr[c + 1] <= v.col_ptr[v.ncols as int]);
        }
        let x = ri[mid];
        if x == r {
            return mid;
        } else if x < r {
            proof {
                let q = choose|q: int| lo <= q < hi && v.row_idx[q] == r;
                if q <= mid {
                    if q < mid {
                        assert(v.row_idx[q] < v.row_idx[mid as int]);
                    }
                }
            }
            lo = mid + 1;
        } else {
            proof {
                let q = choose|q: int| lo <= q < hi && v.row_idx[q] == r;
                if q >= mid {
                    if q > mid {
                        assert(v.row_idx[mid as int] < v.row_idx[q]);
                    }
                }
            }
            hi = mid;
        }
    }
    proof {
        let q = choose|q: int| lo <= q < hi && v.row_idx[q] == r;
    }
    lo
}

/// Which coloring a compressed derivative needs.
#[derive(Debug, Clone, Copy, PartialEq, Eq)]
pub enum ColoringKind {
    /// Distance-1 coloring of the column intersection graph, correct for
    /// Jacobians: two columns share a color only if they share no row.
    Distance1,
    /// Star coloring, for symmetric matrices recovered by direct
    /// substitution; strictly stronger than distance-1.
    Star,
}

} // verus!
