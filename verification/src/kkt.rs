//! Index maps between sparsity patterns, for transposes and for scattering
//! blocks into an assembled KKT matrix.
use vstd::prelude::*;

use crate::ordering::{column_of, lemma_columns_in};
use crate::perm::{is_permutation, lemma_distinct_bounded_len};
use crate::ldlt::{analyse_error, below_diagonal, factor_fits, lemma_analysis_unique, square_upper, Symbolic, SymbolicView};
use crate::ordering::PivotOrder;
use crate::sparsity::{find_row, is_transpose, lemma_column_of, lemma_transpose_involution, lemma_wf_unique, triplet_in_range, Sparsity, SparsityView};
use crate::text::{decimal, push_decimal, push_text, text};

verus! {

/// Maps the values of one sparsity pattern into another: value `k` of the
/// source goes to position `positions()[k]` of the destination.
#[derive(Debug, Clone)]
pub struct ValueMap {
    positions: Vec<usize>,
}

impl View for ValueMap {
    type V = Seq<usize>;

    closed spec fn view(&self) -> Seq<usize> {
        self.positions@
    }
}

impl ValueMap {
    /// The destination position of each source value.
    pub fn positions(&self) -> (r: &[usize])
        ensures
            r@ == self@,
    {
        self.positions.as_slice()
    }
}

/// Position `t_pos` of `t` holds the transpose of the entry at position
/// `pos` of `p`: it lies in the column named by that entry's row and holds
/// that entry's column.
pub open spec fn moved_to(p: SparsityView, t: SparsityView, pos: int, t_pos: int) -> bool {
    let i = p.row_idx[pos] as int;
    &&& t.col_ptr[i] <= t_pos < t.col_ptr[i + 1]
    &&& t.row_idx[t_pos] == column_of(p, pos)
}

/// Transpose a pattern and record where each value moves.
pub fn transpose_with_map(p: &Sparsity) -> (r: (Sparsity, ValueMap))
    requires
        p@.nrows < usize::MAX,
    ensures
        r.0@.nrows == p@.ncols,
        r.0@.ncols == p@.nrows,
        forall|i: int, j: int| r.0@.has(i, j) <==> p@.has(j, i),
        r.1@.len() == p@.nnz(),
        forall|pos: int| 0 <= pos < p@.nnz() ==> moved_to(p@, r.0@, pos, #[trigger] r.1@[pos] as int),
{
    proof {
        use_type_invariant(p);
    }
    let ghost v = p@;
    let t = p.transpose();
    let n = p.ncols();
    let cp = p.col_ptr();
    let ri = p.row_idx();
    let mut positions: Vec<usize> = Vec::new();
    let mut j: usize = 0;
    while j < n
        invariant
            v == p@,
            v.wf(),
            n == v.ncols,
            cp@ == v.col_ptr,
            ri@ == v.row_idx,
            t@.ncols == v.nrows,
            forall|a: int, b: int| t@.has(a, b) <==> v.has(b, a),
            j <= n,
            positions@.len() == v.col_ptr[j as int],
            forall|q: int| 0 <= q < positions@.len() ==> moved_to(v, t@, q, #[trigger] positions@[q] as int),
        decreases n - j,
    {
        let mut pos = cp[j];
        assert(v.col_ptr[j as int] <= v.col_ptr[j + 1] <= v.row_idx.len()) by {
            assert(v.col_ptr[j + 1] <= v.col_ptr[n as int]);
        }
        while pos < cp[j + 1]
            invariant
                v == p@,
                v.wf(),
                n == v.ncols,
                cp@ == v.col_ptr,
                ri@ == v.row_idx,
                t@.ncols == v.nrows,
                forall|a: int, b: int| t@.has(a, b) <==> v.has(b, a),
                j < n,
                v.col_ptr[j as int] <= pos <= v.col_ptr[j + 1],
                v.col_ptr[j + 1] <= v.row_idx.len(),
                positions@.len() == pos,
                forall|q: int| 0 <= q < positions@.len() ==> moved_to(v, t@, q, #[trigger] positions@[q] as int),
            decreases v.col_ptr[j + 1] - pos,
        {
            let i = ri[pos];
            proof {
                lemma_columns_in(v, j as int, pos as int);
                assert(v.has(i as int, j as int));
                assert(t@.has(j as int, i as int));
            }
            let q = find_row(&t, j, i);
            positions.push(q);
            proof {
                assert(moved_to(v, t@, pos as int, positions@[pos as int] as int));
            }
            pos += 1;
        }
        j += 1;
    }
    assert(v.col_ptr[n as int] == v.nnz());
    (t, ValueMap { positions })
}

/// The column of position `pos` holds it.
proof fn lemma_column_of_holds(a: SparsityView, pos: int)
    requires
        a.wf(),
        0 <= pos < a.nnz(),
    ensures
        0 <= column_of(a, pos) < a.ncols,
        a.col_ptr[column_of(a, pos)] <= pos < a.col_ptr[column_of(a, pos) + 1],
{
    let j = lemma_column_of(a, pos);
    lemma_columns_in(a, j, pos);
}

/// Two entries moved to the same slot of the transpose are the same entry.
proof fn lemma_moved_injective(a: SparsityView, t: SparsityView, pos1: int, pos2: int, q: int)
    requires
        a.wf(),
        t.wf(),
        is_transpose(t, a),
        0 <= pos1 < a.nnz(),
        0 <= pos2 < a.nnz(),
        moved_to(a, t, pos1, q),
        moved_to(a, t, pos2, q),
    ensures
        pos1 == pos2,
{
    let i1 = a.row_idx[pos1] as int;
    let i2 = a.row_idx[pos2] as int;
    assert(i1 == i2) by {
        if i1 < i2 {
            assert(t.col_ptr[i1 + 1] <= t.col_ptr[i2]);
        }
        if i2 < i1 {
            assert(t.col_ptr[i2 + 1] <= t.col_ptr[i1]);
        }
    }
    let j = column_of(a, pos1);
    lemma_column_of_holds(a, pos1);
    lemma_column_of_holds(a, pos2);
    assert(column_of(a, pos2) == j);
    assert(a.col_sorted(j));
    if pos1 < pos2 {
        assert(a.row_idx[pos1] < a.row_idx[pos2]);
    }
    if pos2 < pos1 {
        assert(a.row_idx[pos2] < a.row_idx[pos1]);
    }
}

/// Every entry of a pattern has a slot in its transpose, so a pattern has
/// no more entries than its transpose.
proof fn lemma_nnz_le_transpose(a: SparsityView, t: SparsityView)
    requires
        a.wf(),
        t.wf(),
        is_transpose(t, a),
    ensures
        a.nnz() <= t.nnz(),
{
    let w = Seq::new(a.nnz(), |pos: int| (choose|q: int| moved_to(a, t, pos, q)) as usize);
    assert forall|pos: int| 0 <= pos < a.nnz() implies moved_to(a, t, pos, #[trigger] w[pos] as int) && w[pos] < t.nnz() by {
        lemma_column_of_holds(a, pos);
        let i = a.row_idx[pos] as int;
        let j = column_of(a, pos);
        assert(a.has(i, j));
        assert(t.has(j, i));
        let q = choose|q: int| t.col_ptr[i] <= q < t.col_ptr[i + 1] && t.row_idx[q] == j;
        assert(moved_to(a, t, pos, q));
        assert(t.col_ptr[i + 1] <= t.col_ptr[t.ncols as int]);
    }
    assert forall|p1: int, p2: int| 0 <= p1 < p2 < w.len() implies w[p1] != w[p2] by {
        if w[p1] == w[p2] {
            lemma_moved_injective(a, t, p1, p2, w[p1] as int);
        }
    }
    lemma_distinct_bounded_len(w, t.nnz());
}

/// The positions recorded by [`transpose_with_map`] are a permutation of
/// the value slots: every value of the pattern lands in its own slot of
/// the transpose and every slot receives one.
pub proof fn lemma_transpose_map_permutes(p: SparsityView, t: SparsityView, positions: Seq<usize>)
    requires
        p.wf(),
        t.wf(),
        is_transpose(t, p),
        positions.len() == p.nnz(),
        forall|pos: int| 0 <= pos < p.nnz() ==> moved_to(p, t, pos, #[trigger] positions[pos] as int),
    ensures
        is_permutation(positions, p.nnz()),
{
    assert(is_transpose(p, t));
    lemma_nnz_le_transpose(t, p);
    assert forall|pos: int| 0 <= pos < positions.len() implies positions[pos] < p.nnz() by {
        let i = p.row_idx[pos] as int;
        assert(moved_to(p, t, pos, positions[pos] as int));
        assert(t.col_ptr[i + 1] <= t.col_ptr[t.ncols as int]);
    }
    assert forall|p1: int, p2: int| 0 <= p1 < p2 < positions.len() implies positions[p1] != positions[p2] by {
        if positions[p1] == positions[p2] {
            assert(moved_to(p, t, p1, positions[p1] as int));
            assert(moved_to(p, t, p2, positions[p2] as int));
            lemma_moved_injective(p, t, p1, p2, positions[p1] as int);
        }
    }
}

/// Constraint `i` has a slack at primal index `r`.
pub open spec fn slack_at(slack: Seq<Option<usize>>, i: int, r: int) -> bool {
    slack[i] matches Some(s) && s == r
}

/// Entry `(r, c)` lies in one of the constraint columns `nv..nv + m` of the
/// KKT matrix: a transposed Jacobian entry, a slack coefficient, or the
/// column's diagonal.
pub open spec fn constraint_entry(
    nv: nat,
    m: nat,
    jac_t: SparsityView,
    slack: Seq<Option<usize>>,
    r: int,
    c: int,
) -> bool {
    &&& nv <= c < nv + m
    &&& jac_t.has(r, c - nv) || slack_at(slack, c - nv, r) || r == c
}

/// The diagonal entry `(c, c)`.
pub open spec fn diagonal_pair(c: int) -> (usize, usize) {
    (c as usize, c as usize)
}

/// Append the entries of `a` in storage order, each as `(row, column)`.
fn push_entries(t: &mut Vec<(usize, usize)>, a: &Sparsity)
    ensures
        final(t)@.len() == old(t)@.len() + a@.nnz(),
        forall|k: int| 0 <= k < old(t)@.len() ==> #[trigger] final(t)@[k] == old(t)@[k],
        forall|k: int|
            old(t)@.len() <= k < final(t)@.len() ==> #[trigger] final(t)@[k] == (
                a@.row_idx[k - old(t)@.len()],
                column_of(a@, k - old(t)@.len()) as usize,
            ),
{
    proof {
        use_type_invariant(a);
    }
    let ghost v = a@;
    let ghost t0 = t@;
    let n = a.ncols();
    let cp = a.col_ptr();
    let ri = a.row_idx();
    let mut j: usize = 0;
    while j < n
        invariant
            v == a@,
            v.wf(),
            n == v.ncols,
            cp@ == v.col_ptr,
            ri@ == v.row_idx,
            j <= n,
            t@.len() == t0.len() + v.col_ptr[j as int],
            forall|k: int| 0 <= k < t0.len() ==> #[trigger] t@[k] == t0[k],
            forall|k: int|
                t0.len() <= k < t@.len() ==> #[trigger] t@[k] == (v.row_idx[k - t0.len()], column_of(v, k - t0.len()) as usize),
        decreases n - j,
    {
        let mut p = cp[j];
        assert(v.col_ptr[j as int] <= v.col_ptr[j + 1] <= v.row_idx.len()) by {
            assert(v.col_ptr[j + 1] <= v.col_ptr[n as int]);
        }
        while p < cp[j + 1]
            invariant
                v == a@,
                v.wf(),
                n == v.ncols,
                cp@ == v.col_ptr,
                ri@ == v.row_idx,
                j < n,
                v.col_ptr[j as int] <= p <= v.col_ptr[j + 1],
                v.col_ptr[j + 1] <= v.row_idx.len(),
                t@.len() == t0.len() + p,
                forall|k: int| 0 <= k < t0.len() ==> #[trigger] t@[k] == t0[k],
                forall|k: int|
                    t0.len() <= k < t@.len() ==> #[trigger] t@[k] == (v.row_idx[k - t0.len()], column_of(v, k - t0.len()) as usize),
            decreases v.col_ptr[j + 1] - p,
        {
            proof {
                lemma_columns_in(v, j as int, p as int);
            }
            t.push((ri[p], j));
            p += 1;
        }
        j += 1;
    }
}

/// Append the diagonal entries `(j, j)` for `j < count`.
fn push_diagonal(t: &mut Vec<(usize, usize)>, count: usize)
    ensures
        final(t)@.len() == old(t)@.len() + count,
        forall|k: int| 0 <= k < old(t)@.len() ==> #[trigger] final(t)@[k] == old(t)@[k],
        forall|k: int|
            old(t)@.len() <= k < final(t)@.len() ==> #[trigger] final(t)@[k] == (
                (k - old(t)@.len()) as usize,
                (k - old(t)@.len()) as usize,
            ),
{
    let ghost t0 = t@;
    let mut j: usize = 0;
    while j < count
        invariant
            j <= count,
            t@.len() == t0.len() + j,
            forall|k: int| 0 <= k < t0.len() ==> #[trigger] t@[k] == t0[k],
            forall|k: int|
                t0.len() <= k < t@.len() ==> #[trigger] t@[k] == ((k - t0.len()) as usize, (k - t0.len()) as usize),
        decreases count - j,
    {
        t.push((j, j));
        j += 1;
    }
}

/// Append the constraint columns `nv..nv + m`: for each constraint its
/// transposed Jacobian entries, its slack coefficient, and its diagonal.
fn push_constraint_columns(
    t: &mut Vec<(usize, usize)>,
    nv: usize,
    m: usize,
    jac_t: &Sparsity,
    slack: &[Option<usize>],
) -> (at: Ghost<(Seq<int>, Seq<int>, Seq<int>)>)
    requires
        jac_t@.ncols == m,
        nv + m < usize::MAX,
        slack@.len() >= m,
    ensures
        old(t)@.len() <= final(t)@.len() <= old(t)@.len() + jac_t@.nnz() + 2 * m,
        forall|k: int| 0 <= k < old(t)@.len() ==> #[trigger] final(t)@[k] == old(t)@[k],
        forall|k: int|
            old(t)@.len() <= k < final(t)@.len() ==> constraint_entry(
                nv as nat,
                m as nat,
                jac_t@,
                slack@,
                #[trigger] final(t)@[k].0 as int,
                final(t)@[k].1 as int,
            ),
        at@.0.len() == jac_t@.nnz(),
        forall|p: int|
            0 <= p < jac_t@.nnz() ==> old(t)@.len() <= #[trigger] at@.0[p] < final(t)@.len() && final(t)@[at@.0[p]] == (
                jac_t@.row_idx[p],
                (nv + column_of(jac_t@, p)) as usize,
            ),
        at@.1.len() == m,
        forall|i: int, r: int|
            0 <= i < m && #[trigger] slack_at(slack@, i, r) ==> old(t)@.len() <= at@.1[i] < final(t)@.len() && final(t)@[at@.1[i]]
                == (r as usize, (nv + i) as usize),
        at@.2.len() == m,
        forall|i: int|
            0 <= i < m ==> old(t)@.len() <= #[trigger] at@.2[i] < final(t)@.len() && final(t)@[at@.2[i]] == diagonal_pair(nv + i),
{
    proof {
        use_type_invariant(jac_t);
    }
    let ghost v = jac_t@;
    let ghost sl = slack@;
    let ghost t0 = t@;
    let ghost mut jac_at: Seq<int> = Seq::empty();
    let ghost mut slack_k: Seq<int> = Seq::empty();
    let ghost mut diag_k: Seq<int> = Seq::empty();
    let cp = jac_t.col_ptr();
    let ri = jac_t.row_idx();
    let mut i: usize = 0;
    while i < m
        invariant
            v == jac_t@,
            v.wf(),
            sl == slack@,
            sl.len() >= m,
            v.ncols == m,
            nv + m < usize::MAX,
            cp@ == v.col_ptr,
            ri@ == v.row_idx,
            i <= m,
            t0.len() <= t@.len() <= t0.len() + v.col_ptr[i as int] + 2 * i,
            forall|k: int| 0 <= k < t0.len() ==> #[trigger] t@[k] == t0[k],
            forall|k: int|
                t0.len() <= k < t@.len() ==> constraint_entry(
                    nv as nat,
                    m as nat,
                    v,
                    sl,
                    #[trigger] t@[k].0 as int,
                    t@[k].1 as int,
                ),
            jac_at.len() == v.col_ptr[i as int],
            forall|p: int|
                0 <= p < jac_at.len() ==> t0.len() <= #[trigger] jac_at[p] < t@.len() && t@[jac_at[p]] == (
                    v.row_idx[p],
                    (nv + column_of(v, p)) as usize,
                ),
            slack_k.len() == i,
            forall|ii: int, r: int|
                0 <= ii < i && #[trigger] slack_at(sl, ii, r) ==> t0.len() <= slack_k[ii] < t@.len() && t@[slack_k[ii]] == (
                    r as usize,
                    (nv + ii) as usize,
                ),
            diag_k.len() == i,
            forall|ii: int|
                0 <= ii < i ==> t0.len() <= #[trigger] diag_k[ii] < t@.len() && t@[diag_k[ii]] == (
                    (nv + ii) as usize,
                    (nv + ii) as usize,
                ),
        decreases m - i,
    {
        let c = nv + i;
        let mut p = cp[i];
        assert(v.col_ptr[i as int] <= v.col_ptr[i + 1] <= v.row_idx.len()) by {
            assert(v.col_ptr[i + 1] <= v.col_ptr[m as int]);
        }
        while p < cp[i + 1]
            invariant
                v == jac_t@,
                v.wf(),
                sl == slack@,
                sl.len() >= m,
                v.ncols == m,
                nv + m < usize::MAX,
                cp@ == v.col_ptr,
                ri@ == v.row_idx,
                i < m,
                c == nv + i,
                v.col_ptr[i as int] <= p <= v.col_ptr[i + 1],
                v.col_ptr[i + 1] <= v.row_idx.len(),
                t0.len() <= t@.len() <= t0.len() + p + 2 * i,
                forall|k: int| 0 <= k < t0.len() ==> #[trigger] t@[k] == t0[k],
                forall|k: int|
                    t0.len() <= k < t@.len() ==> constraint_entry(
                        nv as nat,
                        m as nat,
                        v,
                        sl,
                        #[trigger] t@[k].0 as int,
                        t@[k].1 as int,
                    ),
                jac_at.len() == p,
                forall|pp: int|
                    0 <= pp < jac_at.len() ==> t0.len() <= #[trigger] jac_at[pp] < t@.len() && t@[jac_at[pp]] == (
                        v.row_idx[pp],
                        (nv + column_of(v, pp)) as usize,
                    ),
                slack_k.len() == i,
                forall|ii: int, r: int|
                    0 <= ii < i && #[trigger] slack_at(sl, ii, r) ==> t0.len() <= slack_k[ii] < t@.len() && t@[slack_k[ii]] == (
                        r as usize,
                        (nv + ii) as usize,
                    ),
                diag_k.len() == i,
                forall|ii: int|
                    0 <= ii < i ==> t0.len() <= #[trigger] diag_k[ii] < t@.len() && t@[diag_k[ii]] == (
                        (nv + ii) as usize,
                        (nv + ii) as usize,
                    ),
            decreases v.col_ptr[i + 1] - p,
        {
            proof {
                lemma_columns_in(v, i as int, p as int);
                assert(v.has(v.row_idx[p as int] as int, i as int));
                jac_at = jac_at.push(t@.len() as int);
            }
            t.push((ri[p], c));
            p += 1;
        }
        match slack[i] {
            Some(r) => {
                proof {
                    slack_k = slack_k.push(t@.len() as int);
                    assert(slack_at(sl, i as int, r as int));
                }
                t.push((r, c));
            },
            None => {
                proof {
                    slack_k = slack_k.push(0);
                }
            },
        }
        proof {
            diag_k = diag_k.push(t@.len() as int);
        }
        t.push((c, c));
        proof {
            assert forall|ii: int, r: int|
                0 <= ii < i + 1 && #[trigger] slack_at(sl, ii, r) implies t0.len() <= slack_k[ii] < t@.len() && t@[slack_k[ii]]
                == (r as usize, (nv + ii) as usize) by {
                if ii == i {
                    assert(sl[ii] == slack@[ii]);
                }
            }
        }
        i += 1;
    }
    proof {
        assert(v.col_ptr[m as int] == v.nnz());
        assert forall|ii: int| 0 <= ii < m implies t@[#[trigger] diag_k[ii]] == diagonal_pair(nv + ii) by {}
    }
    Ghost((jac_at, slack_k, diag_k))
}

/// The blocks have the shapes the problem's sizes call for: an `n x n`
/// Hessian and an `nv x m` transposed Jacobian.
pub open spec fn kkt_dims_ok(nv: nat, n: nat, m: nat, hess: SparsityView, jac_t: SparsityView) -> bool {
    &&& hess.nrows == n
    &&& hess.ncols == n
    &&& jac_t.nrows == nv
    &&& jac_t.ncols == m
}

/// Entry `(r, c)` of the assembled `(nv + m) x (nv + m)` KKT pattern: a
/// Hessian entry, a diagonal entry, or an entry of a constraint column.
pub open spec fn kkt_has(
    nv: nat,
    m: nat,
    hess: SparsityView,
    jac_t: SparsityView,
    slack: Seq<Option<usize>>,
    r: int,
    c: int,
) -> bool {
    ||| hess.has(r, c)
    ||| (r == c && 0 <= c < nv + m)
    ||| constraint_entry(nv, m, jac_t, slack, r, c)
}

/// The assembly stays inside the machine: the dimension and the entries
/// fit in `usize`, every constraint has a slack slot, and
/// every Hessian entry and slack lies inside the system.
pub open spec fn kkt_fits(nv: nat, m: nat, hess: SparsityView, jac_t: SparsityView, slack: Seq<Option<usize>>) -> bool {
    &&& nv + m < usize::MAX
    &&& 2 * (hess.nnz() + nv + jac_t.nnz() + 2 * m) <= usize::MAX
    &&& slack.len() >= m
    &&& forall|i: int, j: int| #[trigger] hess.has(i, j) ==> i < nv + m && j < nv + m
    &&& forall|i: int, r: int| 0 <= i < m && #[trigger] slack_at(slack, i, r) ==> r < nv + m
}

/// No entry of the assembled system lies below its diagonal: the Hessian
/// block is an upper triangle and no slack sits below its column's diagonal.
pub open spec fn kkt_upper(nv: nat, m: nat, hess: SparsityView, slack: Seq<Option<usize>>) -> bool {
    &&& forall|i: int, j: int| #[trigger] hess.has(i, j) ==> i <= j
    &&& forall|i: int, r: int| 0 <= i < m && #[trigger] slack_at(slack, i, r) ==> r <= nv + i
}

/// The assembled KKT pattern, the one well-formed pattern holding exactly
/// the entries of [`kkt_has`].
pub open spec fn kkt_pattern(
    nv: nat,
    m: nat,
    hess: SparsityView,
    jac_t: SparsityView,
    slack: Seq<Option<usize>>,
) -> SparsityView {
    choose|v: SparsityView|
        {
            &&& v.wf()
            &&& v.nrows == nv + m
            &&& v.ncols == nv + m
            &&& forall|r: int, c: int| #[trigger] v.has(r, c) <==> kkt_has(nv, m, hess, jac_t, slack, r, c)
        }
}

/// The description [`KktSystem::new`] gives of inputs it refuses.
pub open spec fn kkt_error(
    nv: nat,
    n: nat,
    m: nat,
    hess: SparsityView,
    jac_t: SparsityView,
    slack: Seq<Option<usize>>,
) -> Seq<char> {
    if hess.nrows != n || hess.ncols != n {
        "hessian pattern is "@ + decimal(hess.nrows) + "x"@ + decimal(hess.ncols) + ", expected "@ + decimal(n) + "x"@
            + decimal(n)
    } else if jac_t.nrows != nv || jac_t.ncols != m {
        "transposed jacobian is "@ + decimal(jac_t.nrows) + "x"@ + decimal(jac_t.ncols) + ", expected "@ + decimal(nv)
            + "x"@ + decimal(m)
    } else {
        "symbolic analysis: "@ + ("matrix structure is invalid: "@ + analyse_error(kkt_pattern(nv, m, hess, jac_t, slack)))
    }
}

/// A pattern has no more entries than a list of pairs that names each of
/// them.
proof fn lemma_nnz_le_pairs(v: SparsityView, t: Seq<(usize, usize)>)
    requires
        v.wf(),
        t.len() <= usize::MAX,
        forall|i: int, j: int|
            #[trigger] v.has(i, j) ==> exists|k: int| 0 <= k < t.len() && t[k].0 == i && #[trigger] t[k].1 == j,
    ensures
        v.nnz() <= t.len(),
{
    let w = Seq::new(
        v.nnz(),
        |q: int| (choose|k: int| 0 <= k < t.len() && t[k].0 == v.row_idx[q] && t[k].1 == column_of(v, q)) as usize,
    );
    assert forall|q: int| 0 <= q < v.nnz() implies #[trigger] w[q] < t.len() && t[w[q] as int].0 == v.row_idx[q] && t[w[q] as int].1
        == column_of(v, q) by {
        lemma_column_of_holds(v, q);
        let j = column_of(v, q);
        assert(v.has(v.row_idx[q] as int, j));
    }
    assert forall|q1: int, q2: int| 0 <= q1 < q2 < w.len() implies w[q1] != w[q2] by {
        if w[q1] == w[q2] {
            lemma_column_of_holds(v, q1);
            lemma_column_of_holds(v, q2);
            let j = column_of(v, q1);
            assert(column_of(v, q2) == j);
            assert(v.col_sorted(j));
            assert(v.row_idx[q1] < v.row_idx[q2]);
        }
    }
    lemma_distinct_bounded_len(w, t.len());
}

/// Assemble the KKT pattern from its blocks.
fn assemble_kkt_pattern(
    nv: usize,
    n: usize,
    m: usize,
    hess: &Sparsity,
    jac_t: &Sparsity,
    slack: &[Option<usize>],
) -> (p: Sparsity)
    requires
        kkt_dims_ok(nv as nat, n as nat, m as nat, hess@, jac_t@),
        kkt_fits(nv as nat, m as nat, hess@, jac_t@, slack@),
    ensures
        p@.nrows == nv + m,
        p@.ncols == nv + m,
        forall|r: int, c: int| #[trigger] p@.has(r, c) <==> kkt_has(nv as nat, m as nat, hess@, jac_t@, slack@, r, c),
        p@.nnz() <= hess@.nnz() + nv + jac_t@.nnz() + 2 * m,
{
    proof {
        use_type_invariant(hess);
        use_type_invariant(jac_t);
    }
    let ghost hv = hess@;
    let ghost jv = jac_t@;
    let ghost sl = slack@;
    let dim = nv + m;
    let mut t: Vec<(usize, usize)> = Vec::new();
    push_entries(&mut t, hess);
    let ghost h = t@.len();
    push_diagonal(&mut t, nv);
    let ghost d = t@.len();
    let at = push_constraint_columns(&mut t, nv, m, jac_t, slack);
    let ghost tv = t@;
    let count = t.len();
    proof {
        assert forall|k: int| 0 <= k < tv.len() implies triplet_in_range(dim as nat, dim as nat, #[trigger] tv[k])
            && kkt_has(nv as nat, m as nat, hv, jv, sl, tv[k].0 as int, tv[k].1 as int) by {
            if k < h {
                lemma_column_of_holds(hv, k);
                assert(hv.has(hv.row_idx[k] as int, column_of(hv, k)));
            } else if k < d {
            } else {
                assert(constraint_entry(nv as nat, m as nat, jv, sl, tv[k].0 as int, tv[k].1 as int));
                if jv.has(tv[k].0 as int, tv[k].1 - nv) {
                } else if slack_at(sl, tv[k].1 - nv, tv[k].0 as int) {
                }
            }
        }
        assert forall|r: int, c: int| kkt_has(nv as nat, m as nat, hv, jv, sl, r, c) implies exists|k: int|
            0 <= k < tv.len() && tv[k].0 == r && #[trigger] tv[k].1 == c by {
            if hv.has(r, c) {
                let q = choose|q: int| hv.col_ptr[c] <= q < hv.col_ptr[c + 1] && hv.row_idx[q] == r;
                assert(hv.col_ptr[c + 1] <= hv.col_ptr[hv.ncols as int]);
                lemma_columns_in(hv, c, q);
                assert(tv[q] == (hv.row_idx[q], column_of(hv, q) as usize));
            } else if r == c && 0 <= c < nv {
                assert(tv[h + c] == ((c) as usize, (c) as usize));
            } else if r == c && nv <= c < nv + m {
                assert(tv[at@.2[c - nv]] == diagonal_pair(c));
            } else {
                assert(constraint_entry(nv as nat, m as nat, jv, sl, r, c));
                let i = c - nv;
                if jv.has(r, i) {
                    let q = choose|q: int| jv.col_ptr[i] <= q < jv.col_ptr[i + 1] && jv.row_idx[q] == r;
                    assert(jv.col_ptr[i + 1] <= jv.col_ptr[jv.ncols as int]);
                    lemma_columns_in(jv, i, q);
                    assert(tv[at@.0[q]] == (jv.row_idx[q], (nv + column_of(jv, q)) as usize));
                } else {
                    assert(slack_at(sl, i, r));
                    assert(tv[at@.1[i]] == (r as usize, (nv + i) as usize));
                }
            }
        }
    }
    match Sparsity::from_triplets(dim, dim, &t) {
        Ok(p) => {
            proof {
                use_type_invariant(&p);
                assert forall|r: int, c: int| #[trigger] p@.has(r, c) implies exists|k: int|
                    0 <= k < tv.len() && tv[k].0 == r && #[trigger] tv[k].1 == c by {}
                assert(tv.len() == count);
                lemma_nnz_le_pairs(p@, tv);
            }
            p
        },
        Err(_) => {
            proof {
                let k = choose|k: int| 0 <= k < tv.len() && !triplet_in_range(dim as nat, dim as nat, #[trigger] tv[k]);
                assert(triplet_in_range(dim as nat, dim as nat, tv[k]));
            }
            Sparsity::dense(0, 0)
        },
    }
}

/// Position `q` of `v` holds entry `(r, c)`.
pub open spec fn holds_at(v: SparsityView, q: int, r: int, c: int) -> bool {
    &&& 0 <= c < v.ncols
    &&& v.col_ptr[c] <= q < v.col_ptr[c + 1]
    &&& v.row_idx[q] == r
}

/// The constraints among the first `m` that have a slack, in increasing
/// order.
pub open spec fn slack_columns(slack: Seq<Option<usize>>, m: nat) -> Seq<int>
    decreases m,
{
    if m == 0 {
        Seq::empty()
    } else {
        let earlier = slack_columns(slack, (m - 1) as nat);
        if slack[m - 1] is Some {
            earlier.push(m - 1)
        } else {
            earlier
        }
    }
}

/// The structure of a primal-dual KKT system: its pattern and symbolic
/// factorization, the sign expected of each pivot, and where every block
/// entry lives among the matrix's values.
pub struct KktSystemView {
    /// Number of primal variables including slacks.
    pub nv: nat,
    /// Number of constraints.
    pub m: nat,
    /// The assembled upper-triangular pattern.
    pub pattern: SparsityView,
    /// Its symbolic factorization.
    pub symbolic: SymbolicView,
    /// `1` for each primal pivot, `-1` for each dual one.
    pub signs: Seq<i8>,
    /// Position of the `(j, j)` diagonal for each primal variable.
    pub diag_v: Seq<usize>,
    /// Position of the `(nv + i, nv + i)` diagonal for each constraint.
    pub diag_c: Seq<usize>,
    /// Where each upper-triangular Hessian value goes.
    pub hess_map: Seq<usize>,
    /// Where each transposed Jacobian value goes.
    pub jac_map: Seq<usize>,
    /// Where the `-1` slack coefficients go, one per constraint with a slack.
    pub slack_positions: Seq<usize>,
}

impl KktSystemView {
    /// This is the system that [`KktSystem::new`] builds from its arguments.
    pub open spec fn describes(
        self,
        nv: nat,
        m: nat,
        hess: SparsityView,
        jac_t: SparsityView,
        slack: Seq<Option<usize>>,
        ordering: PivotOrder,
    ) -> bool {
        &&& self.nv == nv
        &&& self.m == m
        &&& self.pattern.wf()
        &&& self.pattern.nrows == nv + m
        &&& self.pattern.ncols == nv + m
        &&& forall|r: int, c: int| #[trigger] self.pattern.has(r, c) <==> kkt_has(nv, m, hess, jac_t, slack, r, c)
        &&& self.symbolic.analyses(self.pattern, ordering)
        &&& self.signs.len() == nv + m
        &&& forall|k: int| 0 <= k < nv + m ==> #[trigger] self.signs[k] == (if k < nv { 1i8 } else { -1i8 })
        &&& self.diag_v.len() == nv
        &&& forall|j: int| 0 <= j < nv ==> holds_at(self.pattern, #[trigger] self.diag_v[j] as int, j, j)
        &&& self.diag_c.len() == m
        &&& forall|i: int| 0 <= i < m ==> holds_at(self.pattern, #[trigger] self.diag_c[i] as int, nv + i, nv + i)
        &&& self.hess_map.len() == hess.nnz()
        &&& forall|q: int|
            0 <= q < hess.nnz() ==> holds_at(
                self.pattern,
                #[trigger] self.hess_map[q] as int,
                hess.row_idx[q] as int,
                column_of(hess, q),
            )
        &&& self.jac_map.len() == jac_t.nnz()
        &&& forall|q: int|
            0 <= q < jac_t.nnz() ==> holds_at(
                self.pattern,
                #[trigger] self.jac_map[q] as int,
                jac_t.row_idx[q] as int,
                nv + column_of(jac_t, q),
            )
        &&& self.slack_positions.len() == slack_columns(slack, m).len()
        &&& forall|k: int|
            0 <= k < self.slack_positions.len() ==> holds_at(
                self.pattern,
                #[trigger] self.slack_positions[k] as int,
                slack[slack_columns(slack, m)[k]]->0 as int,
                nv + slack_columns(slack, m)[k],
            )
    }
}

/// The assembled KKT system for one problem, with its symbolic factorization
/// and the index maps needed to refill it cheaply.
#[derive(Debug)]
pub struct KktSystem {
    nv: usize,
    m: usize,
    pattern: Sparsity,
    symbolic: Symbolic,
    signs: Vec<i8>,
    diag_v: Vec<usize>,
    diag_c: Vec<usize>,
    hess_map: ValueMap,
    jac_map: ValueMap,
    slack_positions: Vec<usize>,
}

impl View for KktSystem {
    type V = KktSystemView;

    closed spec fn view(&self) -> KktSystemView {
        KktSystemView {
            nv: self.nv as nat,
            m: self.m as nat,
            pattern: self.pattern@,
            symbolic: self.symbolic@,
            signs: self.signs@,
            diag_v: self.diag_v@,
            diag_c: self.diag_c@,
            hess_map: self.hess_map@,
            jac_map: self.jac_map@,
            slack_positions: self.slack_positions@,
        }
    }
}

/// A well-formed pattern holding exactly the KKT entries is the KKT
/// pattern.
proof fn lemma_is_kkt_pattern(
    nv: nat,
    m: nat,
    hess: SparsityView,
    jac_t: SparsityView,
    slack: Seq<Option<usize>>,
    p: SparsityView,
)
    requires
        p.wf(),
        p.nrows == nv + m,
        p.ncols == nv + m,
        forall|r: int, c: int| #[trigger] p.has(r, c) <==> kkt_has(nv, m, hess, jac_t, slack, r, c),
    ensures
        p == kkt_pattern(nv, m, hess, jac_t, slack),
{
    let kp = kkt_pattern(nv, m, hess, jac_t, slack);
    assert(exists|v: SparsityView|
        {
            &&& v.wf()
            &&& v.nrows == nv + m
            &&& v.ncols == nv + m
            &&& forall|r: int, c: int| #[trigger] v.has(r, c) <==> kkt_has(nv, m, hess, jac_t, slack, r, c)
        }) by {
        assert(p.wf());
    }
    assert forall|r: int, c: int| kp.has(r, c) <==> p.has(r, c) by {}
    lemma_wf_unique(kp, p);
}

/// The assembled pattern is refused by the analysis exactly when an entry
/// lies below the diagonal, which only the Hessian block or a slack can
/// put there.
proof fn lemma_kkt_square_upper(
    nv: nat,
    n: nat,
    m: nat,
    hess: SparsityView,
    jac_t: SparsityView,
    slack: Seq<Option<usize>>,
    p: SparsityView,
)
    requires
        kkt_dims_ok(nv, n, m, hess, jac_t),
        kkt_fits(nv, m, hess, jac_t, slack),
        jac_t.wf(),
        p.nrows == nv + m,
        p.ncols == nv + m,
        forall|r: int, c: int| #[trigger] p.has(r, c) <==> kkt_has(nv, m, hess, jac_t, slack, r, c),
    ensures
        square_upper(p) <==> kkt_upper(nv, m, hess, slack),
{
    if square_upper(p) {
        assert forall|i: int, j: int| #[trigger] hess.has(i, j) implies i <= j by {
            assert(p.has(i, j));
            if i > j {
                assert(below_diagonal(p, j));
            }
        }
        assert forall|i: int, r: int| 0 <= i < m && #[trigger] slack_at(slack, i, r) implies r <= nv + i by {
            assert(p.has(r, nv + i));
            if r > nv + i {
                assert(below_diagonal(p, nv + i));
            }
        }
    }
    if kkt_upper(nv, m, hess, slack) {
        assert forall|j: int| 0 <= j < p.ncols implies !#[trigger] below_diagonal(p, j) by {
            if below_diagonal(p, j) {
                let i = choose|i: int| #[trigger] p.has(i, j) && i > j;
                assert(kkt_has(nv, m, hess, jac_t, slack, i, j));
                if jac_t.has(i, j - nv) {
                    let q = choose|q: int| jac_t.col_ptr[j - nv] <= q < jac_t.col_ptr[j - nv + 1] && jac_t.row_idx[q] == i;
                    assert(jac_t.col_ptr[j - nv + 1] <= jac_t.col_ptr[jac_t.ncols as int]);
                }
            }
        }
    }
}

impl KktSystem {
    /// Every system's pattern is square, of the dimension its sizes give.
    #[verifier::type_invariant]
    spec fn inv(&self) -> bool {
        &&& self.nv + self.m == self.pattern@.ncols
        &&& self.pattern@.nrows == self.pattern@.ncols
        &&& self.symbolic@.n == self.pattern@.ncols
    }

    /// Build the system.
    ///
    /// * `hess_upper` is the upper-triangular pattern of the `n x n` Hessian
    ///   block (dense for quasi-Newton, the model's for exact Hessians).
    /// * `jac_t` is the `nv x m` transposed Jacobian pattern **excluding** the
    ///   slack `-1` entries, which are added here.
    /// * `slack_row[i]` is `Some(row)` when constraint `i` has a slack at
    ///   primal index `row`.
    ///
    /// Refuses blocks of the wrong shape, and an assembled pattern that the
    /// symbolic analysis refuses.
    pub fn new(
        nv: usize,
        n: usize,
        m: usize,
        hess_upper: &Sparsity,
        jac_t: &Sparsity,
        slack_row: &[Option<usize>],
        ordering: PivotOrder,
    ) -> (res: Result<Self, String>)
        requires
            kkt_dims_ok(nv as nat, n as nat, m as nat, hess_upper@, jac_t@) ==> kkt_fits(
                nv as nat,
                m as nat,
                hess_upper@,
                jac_t@,
                slack_row@,
            ),
            kkt_dims_ok(nv as nat, n as nat, m as nat, hess_upper@, jac_t@) && kkt_upper(
                nv as nat,
                m as nat,
                hess_upper@,
                slack_row@,
            ) ==> factor_fits(kkt_pattern(nv as nat, m as nat, hess_upper@, jac_t@, slack_row@), ordering),
        ensures
            res is Ok <==> kkt_dims_ok(nv as nat, n as nat, m as nat, hess_upper@, jac_t@) && kkt_upper(
                nv as nat,
                m as nat,
                hess_upper@,
                slack_row@,
            ),
            res matches Ok(k) ==> k@.describes(nv as nat, m as nat, hess_upper@, jac_t@, slack_row@, ordering),
            res matches Err(e) ==> e@ == kkt_error(nv as nat, n as nat, m as nat, hess_upper@, jac_t@, slack_row@),
    {
        proof {
            use_type_invariant(hess_upper);
            use_type_invariant(jac_t);
        }
        let ghost hv = hess_upper@;
        let ghost jv = jac_t@;
        let ghost sl = slack_row@;
        if hess_upper.nrows() != n || hess_upper.ncols() != n {
            let mut e = text("hessian pattern is ");
            push_decimal(&mut e, hess_upper.nrows());
            push_text(&mut e, "x");
            push_decimal(&mut e, hess_upper.ncols());
            push_text(&mut e, ", expected ");
            push_decimal(&mut e, n);
            push_text(&mut e, "x");
            push_decimal(&mut e, n);
            proof {
                reveal_strlit("hessian pattern is ");
                reveal_strlit("x");
                reveal_strlit(", expected ");
            }
            return Err(e);
        }
        if jac_t.nrows() != nv || jac_t.ncols() != m {
            let mut e = text("transposed jacobian is ");
            push_decimal(&mut e, jac_t.nrows());
            push_text(&mut e, "x");
            push_decimal(&mut e, jac_t.ncols());
            push_text(&mut e, ", expected ");
            push_decimal(&mut e, nv);
            push_text(&mut e, "x");
            push_decimal(&mut e, m);
            proof {
                reveal_strlit("transposed jacobian is ");
                reveal_strlit("x");
                reveal_strlit(", expected ");
            }
            return Err(e);
        }
        let dim = nv + m;
        let pattern = assemble_kkt_pattern(nv, n, m, hess_upper, jac_t, slack_row);
        proof {
            use_type_invariant(&pattern);
            lemma_kkt_square_upper(nv as nat, n as nat, m as nat, hv, jv, sl, pattern@);
            lemma_is_kkt_pattern(nv as nat, m as nat, hv, jv, sl, pattern@);
        }
        let symbolic = match Symbolic::analyse(&pattern, ordering) {
            Ok(s) => s,
            Err(e) => {
                let mut msg = text("symbolic analysis: ");
                let detail = e.message();
                push_text(&mut msg, detail.as_str());
                proof {
                    reveal_strlit("symbolic analysis: ");
                    assert(detail@ == "matrix structure is invalid: "@ + analyse_error(
                        kkt_pattern(nv as nat, m as nat, hv, jv, sl),
                    ));
                }
                return Err(msg);
            },
        };
        let ghost pv = pattern@;
        // Primal and dual diagonals.
        let mut diag_v: Vec<usize> = Vec::new();
        let mut j: usize = 0;
        while j < nv
            invariant
                pv == pattern@,
                forall|r: int, c: int| #[trigger] pv.has(r, c) <==> kkt_has(nv as nat, m as nat, hv, jv, sl, r, c),
                nv + m == dim,
                j <= nv,
                diag_v@.len() == j,
                forall|jj: int| 0 <= jj < j ==> holds_at(pv, #[trigger] diag_v@[jj] as int, jj, jj),
            decreases nv - j,
        {
            assert(pv.has(j as int, j as int));
            let q = find_row(&pattern, j, j);
            diag_v.push(q);
            j += 1;
        }
        let mut diag_c: Vec<usize> = Vec::new();
        let mut i: usize = 0;
        while i < m
            invariant
                pv == pattern@,
                forall|r: int, c: int| #[trigger] pv.has(r, c) <==> kkt_has(nv as nat, m as nat, hv, jv, sl, r, c),
                nv + m == dim,
                dim < usize::MAX,
                i <= m,
                diag_c@.len() == i,
                forall|ii: int| 0 <= ii < i ==> holds_at(pv, #[trigger] diag_c@[ii] as int, nv + ii, nv + ii),
            decreases m - i,
        {
            assert(pv.has((nv + i) as int, (nv + i) as int));
            let q = find_row(&pattern, nv + i, nv + i);
            diag_c.push(q);
            i += 1;
        }
        // The Hessian block, in its own storage order.
        let hcp = hess_upper.col_ptr();
        let hri = hess_upper.row_idx();
        let mut hess_positions: Vec<usize> = Vec::new();
        let mut j: usize = 0;
        while j < n
            invariant
                pv == pattern@,
                forall|r: int, c: int| #[trigger] pv.has(r, c) <==> kkt_has(nv as nat, m as nat, hv, jv, sl, r, c),
                hv == hess_upper@,
                hv.wf(),
                hv.ncols == n,
                hcp@ == hv.col_ptr,
                hri@ == hv.row_idx,
                j <= n,
                hess_positions@.len() == hv.col_ptr[j as int],
                forall|q: int|
                    0 <= q < hess_positions@.len() ==> holds_at(
                        pv,
                        #[trigger] hess_positions@[q] as int,
                        hv.row_idx[q] as int,
                        column_of(hv, q),
                    ),
            decreases n - j,
        {
            let mut p = hcp[j];
            assert(hv.col_ptr[j as int] <= hv.col_ptr[j + 1] <= hv.row_idx.len()) by {
                assert(hv.col_ptr[j + 1] <= hv.col_ptr[n as int]);
            }
            while p < hcp[j + 1]
                invariant
                    pv == pattern@,
                    forall|r: int, c: int| #[trigger] pv.has(r, c) <==> kkt_has(nv as nat, m as nat, hv, jv, sl, r, c),
                    hv == hess_upper@,
                    hv.wf(),
                    hv.ncols == n,
                    hcp@ == hv.col_ptr,
                    hri@ == hv.row_idx,
                    j < n,
                    hv.col_ptr[j as int] <= p <= hv.col_ptr[j + 1],
                    hv.col_ptr[j + 1] <= hv.row_idx.len(),
                    hess_positions@.len() == p,
                    forall|q: int|
                        0 <= q < hess_positions@.len() ==> holds_at(
                            pv,
                            #[trigger] hess_positions@[q] as int,
                            hv.row_idx[q] as int,
                            column_of(hv, q),
                        ),
                decreases hv.col_ptr[j + 1] - p,
            {
                let r = hri[p];
                proof {
                    lemma_columns_in(hv, j as int, p as int);
                    assert(hv.has(r as int, j as int));
                    assert(pv.has(r as int, j as int));
                }
                let q = find_row(&pattern, r, j);
                hess_positions.push(q);
                p += 1;
            }
            j += 1;
        }
        // The transposed Jacobian, in the constraint columns.
        let jcp = jac_t.col_ptr();
        let jri = jac_t.row_idx();
        let mut jac_positions: Vec<usize> = Vec::new();
        let mut i: usize = 0;
        while i < m
            invariant
                pv == pattern@,
                forall|r: int, c: int| #[trigger] pv.has(r, c) <==> kkt_has(nv as nat, m as nat, hv, jv, sl, r, c),
                jv == jac_t@,
                jv.wf(),
                jv.ncols == m,
                nv + m == dim,
                dim < usize::MAX,
                jcp@ == jv.col_ptr,
                jri@ == jv.row_idx,
                i <= m,
                jac_positions@.len() == jv.col_ptr[i as int],
                forall|q: int|
                    0 <= q < jac_positions@.len() ==> holds_at(
                        pv,
                        #[trigger] jac_positions@[q] as int,
                        jv.row_idx[q] as int,
                        nv + column_of(jv, q),
                    ),
            decreases m - i,
        {
            let mut p = jcp[i];
            assert(jv.col_ptr[i as int] <= jv.col_ptr[i + 1] <= jv.row_idx.len()) by {
                assert(jv.col_ptr[i + 1] <= jv.col_ptr[m as int]);
            }
            while p < jcp[i + 1]
                invariant
                    pv == pattern@,
                    forall|r: int, c: int| #[trigger] pv.has(r, c) <==> kkt_has(nv as nat, m as nat, hv, jv, sl, r, c),
                    jv == jac_t@,
                    jv.wf(),
                    jv.ncols == m,
                    nv + m == dim,
                    dim < usize::MAX,
                    jcp@ == jv.col_ptr,
                    jri@ == jv.row_idx,
                    i < m,
                    jv.col_ptr[i as int] <= p <= jv.col_ptr[i + 1],
                    jv.col_ptr[i + 1] <= jv.row_idx.len(),
                    jac_positions@.len() == p,
                    forall|q: int|
                        0 <= q < jac_positions@.len() ==> holds_at(
                            pv,
                            #[trigger] jac_positions@[q] as int,
                            jv.row_idx[q] as int,
                            nv + column_of(jv, q),
                        ),
                decreases jv.col_ptr[i + 1] - p,
            {
                let r = jri[p];
                proof {
                    lemma_columns_in(jv, i as int, p as int);
                    assert(jv.has(r as int, i as int));
                    assert(constraint_entry(nv as nat, m as nat, jv, sl, r as int, nv + i));
                    assert(pv.has(r as int, nv + i));
                }
                let q = find_row(&pattern, r, nv + i);
                jac_positions.push(q);
                p += 1;
            }
            i += 1;
        }
        // The slack coefficients.
        let mut slack_positions: Vec<usize> = Vec::new();
        let mut i: usize = 0;
        while i < m
            invariant
                pv == pattern@,
                forall|r: int, c: int| #[trigger] pv.has(r, c) <==> kkt_has(nv as nat, m as nat, hv, jv, sl, r, c),
                sl == slack_row@,
                sl.len() >= m,
                nv + m == dim,
                dim < usize::MAX,
                i <= m,
                slack_positions@.len() == slack_columns(sl, i as nat).len(),
                forall|k: int|
                    0 <= k < slack_positions@.len() ==> holds_at(
                        pv,
                        #[trigger] slack_positions@[k] as int,
                        sl[slack_columns(sl, i as nat)[k]]->0 as int,
                        nv + slack_columns(sl, i as nat)[k],
                    ),
            decreases m - i,
        {
            let ghost cols = slack_columns(sl, i as nat);
            match slack_row[i] {
                Some(r) => {
                    proof {
                        assert(slack_at(sl, i as int, r as int));
                        assert(constraint_entry(nv as nat, m as nat, jv, sl, r as int, nv + i));
                        assert(pv.has(r as int, nv + i));
                    }
                    let q = find_row(&pattern, r, nv + i);
                    slack_positions.push(q);
                    proof {
                        assert(slack_columns(sl, (i + 1) as nat) == cols.push(i as int));
                    }
                },
                None => {
                    proof {
                        assert(slack_columns(sl, (i + 1) as nat) == cols);
                    }
                },
            }
            i += 1;
        }
        // Pivot signs: positive for the primal block, negative for the dual.
        let mut signs: Vec<i8> = Vec::new();
        let mut k: usize = 0;
        while k < dim
            invariant
                k <= dim,
                signs@.len() == k,
                forall|kk: int| 0 <= kk < k ==> #[trigger] signs@[kk] == (if kk < nv { 1i8 } else { -1i8 }),
            decreases dim - k,
        {
            if k < nv {
                signs.push(1);
            } else {
                signs.push(-1);
            }
            k += 1;
        }
        Ok(KktSystem {
            nv,
            m,
            pattern,
            symbolic,
            signs,
            diag_v,
            diag_c,
            hess_map: ValueMap { positions: hess_positions },
            jac_map: ValueMap { positions: jac_positions },
            slack_positions,
        })
    }
}

impl KktSystem {
    /// Number of primal variables including slacks.
    pub fn nv(&self) -> (r: usize)
        ensures
            r == self@.nv,
    {
        self.nv
    }

    /// Number of constraints.
    pub fn m(&self) -> (r: usize)
        ensures
            r == self@.m,
    {
        self.m
    }

    /// Dimension of the KKT matrix.
    pub fn dim(&self) -> (r: usize)
        ensures
            r == self@.nv + self@.m,
    {
        proof {
            use_type_invariant(self);
        }
        self.pattern.ncols()
    }

    /// Nonzeros in the factor. Diagnostics and ordering comparisons.
    pub fn factor_nnz(&self) -> (r: usize)
        ensures
            r == self@.symbolic.lp[self@.symbolic.n as int],
    {
        self.symbolic.l_nnz()
    }

    /// The assembled pattern.
    pub fn pattern(&self) -> (r: &Sparsity)
        ensures
            r@ == self@.pattern,
    {
        &self.pattern
    }

    /// The symbolic factorization of the pattern.
    pub fn symbolic(&self) -> (r: &Symbolic)
        ensures
            r@ == self@.symbolic,
    {
        &self.symbolic
    }

    /// The sign expected of each pivot: `1` primal, `-1` dual.
    pub fn signs(&self) -> (r: &[i8])
        ensures
            r@ == self@.signs,
    {
        self.signs.as_slice()
    }

    /// Position of the `(j, j)` diagonal for each primal variable.
    pub fn diag_v(&self) -> (r: &[usize])
        ensures
            r@ == self@.diag_v,
    {
        self.diag_v.as_slice()
    }

    /// Position of the `(nv + i, nv + i)` diagonal for each constraint.
    pub fn diag_c(&self) -> (r: &[usize])
        ensures
            r@ == self@.diag_c,
    {
        self.diag_c.as_slice()
    }

    /// Where the upper-triangular Hessian values go.
    pub fn hess_map(&self) -> (r: &ValueMap)
        ensures
            r@ == self@.hess_map,
    {
        &self.hess_map
    }

    /// Where the transposed Jacobian values go.
    pub fn jac_map(&self) -> (r: &ValueMap)
        ensures
            r@ == self@.jac_map,
    {
        &self.jac_map
    }

    /// Where the `-1` slack coefficients go.
    pub fn slack_positions(&self) -> (r: &[usize])
        ensures
            r@ == self@.slack_positions,
    {
        self.slack_positions.as_slice()
    }

    /// Recover `(row, col)` for a position in the value array.
    pub fn entry_coords(&self, pos: usize) -> (r: (usize, usize))
        requires
            pos < self@.pattern.nnz(),
        ensures
            r.0 == self@.pattern.row_idx[pos as int],
            r.1 == column_of(self@.pattern, pos as int),
    {
        proof {
            use_type_invariant(self);
            use_type_invariant(&self.pattern);
        }
        let ghost v = self.pattern@;
        let cp = self.pattern.col_ptr();
        let ri = self.pattern.row_idx();
        // The column is the last `j` with `col_ptr[j] <= pos`.
        let mut lo: usize = 0;
        let mut hi: usize = self.pattern.ncols();
        while hi - lo > 1
            invariant
                v == self.pattern@,
                v.wf(),
                cp@ == v.col_ptr,
                lo < hi <= v.ncols,
                v.col_ptr[lo as int] <= pos < v.col_ptr[hi as int],
            decreases hi - lo,
        {
            let mid = lo + (hi - lo) / 2;
            if cp[mid] <= pos {
                lo = mid;
            } else {
                hi = mid;
            }
        }
        proof {
            lemma_columns_in(v, lo as int, pos as int);
        }
        (ri[pos], lo)
    }
}

/// In a well-formed pattern an entry is stored at one position only.
proof fn lemma_holds_at_unique(v: SparsityView, q1: int, q2: int, r: int, c: int)
    requires
        v.wf(),
        holds_at(v, q1, r, c),
        holds_at(v, q2, r, c),
    ensures
        q1 == q2,
{
    assert(v.col_sorted(c));
    if q1 < q2 {
        assert(v.row_idx[q1] < v.row_idx[q2]);
    }
    if q2 < q1 {
        assert(v.row_idx[q2] < v.row_idx[q1]);
    }
}

/// The KKT structure depends only on the blocks, the slacks and the
/// ordering: two systems built from the same inputs agree in pattern,
/// analysis, pivot signs and every position map, so the structure is built
/// once and only the values change from iteration to iteration.
pub proof fn lemma_kkt_system_unique(
    nv: nat,
    m: nat,
    hess: SparsityView,
    jac_t: SparsityView,
    slack: Seq<Option<usize>>,
    ordering: PivotOrder,
    a: KktSystemView,
    b: KktSystemView,
)
    requires
        a.describes(nv, m, hess, jac_t, slack, ordering),
        b.describes(nv, m, hess, jac_t, slack, ordering),
    ensures
        a == b,
{
    lemma_wf_unique(a.pattern, b.pattern);
    let v = a.pattern;
    lemma_analysis_unique(v, ordering, a.symbolic, b.symbolic);
    assert(a.signs =~= b.signs);
    assert forall|j: int| 0 <= j < nv implies a.diag_v[j] == b.diag_v[j] by {
        lemma_holds_at_unique(v, a.diag_v[j] as int, b.diag_v[j] as int, j, j);
    }
    assert(a.diag_v =~= b.diag_v);
    assert forall|i: int| 0 <= i < m implies a.diag_c[i] == b.diag_c[i] by {
        lemma_holds_at_unique(v, a.diag_c[i] as int, b.diag_c[i] as int, nv + i, nv + i);
    }
    assert(a.diag_c =~= b.diag_c);
    assert forall|q: int| 0 <= q < hess.nnz() implies a.hess_map[q] == b.hess_map[q] by {
        lemma_holds_at_unique(v, a.hess_map[q] as int, b.hess_map[q] as int, hess.row_idx[q] as int, column_of(hess, q));
    }
    assert(a.hess_map =~= b.hess_map);
    assert forall|q: int| 0 <= q < jac_t.nnz() implies a.jac_map[q] == b.jac_map[q] by {
        lemma_holds_at_unique(v, a.jac_map[q] as int, b.jac_map[q] as int, jac_t.row_idx[q] as int, nv + column_of(jac_t, q));
    }
    assert(a.jac_map =~= b.jac_map);
    let cols = slack_columns(slack, m);
    assert forall|k: int| 0 <= k < a.slack_positions.len() implies a.slack_positions[k] == b.slack_positions[k] by {
        lemma_holds_at_unique(
            v,
            a.slack_positions[k] as int,
            b.slack_positions[k] as int,
            slack[cols[k]]->0 as int,
            nv + cols[k],
        );
    }
    assert(a.slack_positions =~= b.slack_positions);
}

/// The transpose of a well-formed pattern holds as many entries as the
/// pattern, and transposing it again gives the pattern back.
pub proof fn lemma_transpose_laws(a: SparsityView, t: SparsityView, u: SparsityView)
    requires
        a.wf(),
        t.wf(),
        u.wf(),
        is_transpose(t, a),
        is_transpose(u, t),
    ensures
        t.nrows == a.ncols,
        t.ncols == a.nrows,
        t.nnz() == a.nnz(),
        u == a,
{
    lemma_nnz_le_transpose(a, t);
    assert(is_transpose(a, t));
    lemma_nnz_le_transpose(t, a);
    lemma_transpose_involution(a, t, u);
}

} // verus!
