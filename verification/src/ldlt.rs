//! Symbolic analysis for a sparse `LDL^T` factorization of a symmetric
//! matrix given by its upper triangle: the fill-reducing permutation, the
//! permuted upper pattern with every diagonal present, where each input
//! entry lands, the elimination tree and the column pointers of `L`.
//!
//! The elimination tree is built in the up-looking style of `QDLDL`: column
//! `j` walks from each of its rows up the tree built so far until it meets a
//! node already visited for `j`, hanging every root it meets under `j`.
use vstd::prelude::*;

use crate::ordering::{
    column_of, compute_ordering, cuthill_mckee, degrees, identity, invert, lemma_columns_in, lemma_cuthill_mckee_unique,
    lemma_reverse_permutation, PivotOrder,
};
use crate::perm::{is_inverse, is_permutation, lemma_permutation_covers};
use crate::sparsity::{find_row, Sparsity, SparsityView};
use crate::text::{decimal, push_decimal, push_text, text};

verus! {

/// Failures of the factorization.
#[derive(Debug, Clone, PartialEq)]
pub enum LdltError {
    /// The input pattern was not a square upper triangle.
    Structure(String),
    /// A pivot was exactly zero and regularization was disabled.
    ZeroPivot(usize),
    /// A pivot or an intermediate became non-finite.
    NonFinite(usize),
    /// A slice handed in had the wrong length.
    Dimension(String),
}

/// The text describing a factorization failure.
pub open spec fn ldlt_error_text(e: LdltError) -> Seq<char> {
    match e {
        LdltError::Structure(m) => "matrix structure is invalid: "@ + m@,
        LdltError::ZeroPivot(k) => "zero pivot at position "@ + decimal(k as nat)
            + "; enable dynamic regularization or raise delta_w"@,
        LdltError::NonFinite(k) => "non-finite value encountered at pivot "@ + decimal(k as nat),
        LdltError::Dimension(m) => "dimension mismatch: "@ + m@,
    }
}

impl LdltError {
    /// The human-readable description of the failure.
    pub fn message(&self) -> (r: String)
        ensures
            r@ == ldlt_error_text(*self),
    {
        match self {
            LdltError::Structure(m) => {
                let mut r = text("matrix structure is invalid: ");
                push_text(&mut r, m.as_str());
                r
            },
            LdltError::ZeroPivot(k) => {
                let mut r = text("zero pivot at position ");
                push_decimal(&mut r, *k);
                push_text(&mut r, "; enable dynamic regularization or raise delta_w");
                r
            },
            LdltError::NonFinite(k) => {
                let mut r = text("non-finite value encountered at pivot ");
                push_decimal(&mut r, *k);
                r
            },
            LdltError::Dimension(m) => {
                let mut r = text("dimension mismatch: ");
                push_text(&mut r, m.as_str());
                r
            },
        }
    }
}

/// The inertia of a symmetric matrix: counts of positive, negative and zero
/// eigenvalues.
#[derive(Debug, Clone, Copy, PartialEq, Eq, Default)]
pub struct Inertia {
    /// Number of positive eigenvalues.
    pub positive: usize,
    /// Number of negative eigenvalues.
    pub negative: usize,
    /// Number of eigenvalues indistinguishable from zero.
    pub zero: usize,
}

impl Inertia {
    /// Whether this is the inertia an interior-point KKT matrix must have
    /// for the step to be a descent direction on the tangent space: `n`
    /// positive, `m` negative, none zero.
    pub fn is_kkt_correct(self, n: usize, m: usize) -> (r: bool)
        ensures
            r == (self.positive == n && self.negative == m && self.zero == 0),
    {
        self.positive == n && self.negative == m && self.zero == 0
    }
}

/// Following parent links of `etree` from `a`, each to a larger node, one
/// arrives at `b`.
pub open spec fn reaches(etree: Seq<usize>, a: int, b: int) -> bool
    decreases b - a,
{
    if a == b {
        true
    } else if 0 <= a < b && a < etree.len() && etree[a] != usize::MAX && a < etree[a] <= b {
        reaches(etree, etree[a] as int, b)
    } else {
        false
    }
}

/// The positions `iperm` gives to rows `i` and `j`, smaller first: where an
/// entry `(i, j)` of the symmetric matrix lands in the permuted upper
/// triangle.
pub open spec fn permuted(iperm: Seq<usize>, i: int, j: int) -> (int, int) {
    let a = iperm[i] as int;
    let b = iperm[j] as int;
    if a <= b {
        (a, b)
    } else {
        (b, a)
    }
}

/// Where the entry stored at position `p` of `v` lands.
pub open spec fn placed(v: SparsityView, iperm: Seq<usize>, p: int) -> (int, int) {
    permuted(iperm, v.row_idx[p] as int, column_of(v, p))
}

/// Column `j` holds an entry below the diagonal.
pub open spec fn below_diagonal(v: SparsityView, j: int) -> bool {
    exists|i: int| #[trigger] v.has(i, j) && i > j
}

/// Column `j` is the first to hold an entry below the diagonal.
pub open spec fn first_below_diagonal(v: SparsityView, j: int) -> bool {
    &&& 0 <= j < v.ncols
    &&& below_diagonal(v, j)
    &&& forall|jj: int| 0 <= jj < j ==> !#[trigger] below_diagonal(v, jj)
}

/// The pattern is square and holds only its upper triangle, the input that
/// [`Symbolic::analyse`] accepts.
pub open spec fn square_upper(v: SparsityView) -> bool {
    &&& v.nrows == v.ncols
    &&& forall|j: int| 0 <= j < v.ncols ==> !#[trigger] below_diagonal(v, j)
}

/// The description [`Symbolic::analyse`] gives of a pattern it refuses.
pub open spec fn analyse_error(v: SparsityView) -> Seq<char> {
    if v.nrows != v.ncols {
        "matrix must be square, got "@ + decimal(v.nrows) + "x"@ + decimal(v.ncols)
    } else {
        let j = choose|j: int| first_below_diagonal(v, j);
        "entry ("@ + decimal(v.row_idx[v.col_ptr[j + 1] - 1] as nat) + ", "@ + decimal(j as nat)
            + ") is below the diagonal; supply the upper triangle"@
    }
}

/// The mathematical content of a symbolic analysis.
pub struct SymbolicView {
    /// Matrix dimension.
    pub n: nat,
    /// `perm[k]` is the input index of pivot `k`.
    pub perm: Seq<usize>,
    /// `iperm[i]` is the pivot position of input index `i`.
    pub iperm: Seq<usize>,
    /// The permuted upper-triangular pattern, diagonal always present.
    pub upper: SparsityView,
    /// `value_map[p]` is where input entry `p` lands in `upper`.
    pub value_map: Seq<usize>,
    /// Position in `upper` of each diagonal entry.
    pub diag_pos: Seq<usize>,
    /// Parent of each node in the elimination tree, `usize::MAX` at roots.
    pub etree: Seq<usize>,
    /// Column pointers of the strictly lower part of `L`.
    pub lp: Seq<usize>,
    /// The ordering strategy that produced the permutation.
    pub ordering: PivotOrder,
}

impl SymbolicView {
    /// The invariants of an analysis: an inverse pair of permutations, a
    /// well-formed upper-triangular pattern with its whole diagonal, the
    /// diagonal positions, value slots inside the pattern, the elimination
    /// tree of the pattern (each node's parent is the first column whose row
    /// subtree holds it, roots are in none, and every stored off-diagonal
    /// entry lies on a path of the tree), and the column pointers of `L`,
    /// column `k` holding one entry for each row subtree that holds `k`.
    pub open spec fn wf(self) -> bool {
        &&& self.n < usize::MAX
        &&& is_permutation(self.perm, self.n)
        &&& is_permutation(self.iperm, self.n)
        &&& is_inverse(self.perm, self.iperm)
        &&& self.upper.wf()
        &&& self.upper.nrows == self.n
        &&& self.upper.ncols == self.n
        &&& forall|r: int, c: int| #[trigger] self.upper.has(r, c) ==> r <= c
        &&& forall|k: int| 0 <= k < self.n ==> #[trigger] self.upper.has(k, k)
        &&& self.diag_pos.len() == self.n
        &&& forall|k: int|
            0 <= k < self.n ==> self.upper.col_ptr[k] <= #[trigger] self.diag_pos[k] < self.upper.col_ptr[k + 1]
                && self.upper.row_idx[self.diag_pos[k] as int] == k
        &&& forall|p: int| 0 <= p < self.value_map.len() ==> #[trigger] self.value_map[p] < self.upper.nnz()
        &&& is_elimination_tree(self.upper, self.etree)
        &&& self.lp.len() == self.n + 1
        &&& self.lp[0] == 0
        &&& forall|k: int| 0 <= k < self.n ==> #[trigger] self.lp[k + 1] == self.lp[k] + row_count(self.upper, self.etree, k, self.n as int)
        &&& forall|a: int, b: int| 0 <= a <= b <= self.n ==> self.lp[a] <= self.lp[b]
    }

    /// This is the analysis of `v` with the ordering `ordering`: a
    /// permutation (the identity for the natural ordering, the reverse of
    /// the Cuthill–McKee order for RCM) and its inverse,
    /// the permuted upper pattern holding exactly the diagonal and the
    /// landing place of every entry of `v`, and each entry's slot in it.
    pub open spec fn analyses(self, v: SparsityView, ordering: PivotOrder) -> bool {
        &&& self.wf()
        &&& self.n == v.ncols
        &&& self.ordering == ordering
        &&& ordering == PivotOrder::Natural ==> self.perm == identity(self.n)
        &&& ordering == PivotOrder::Rcm ==> cuthill_mckee(v, degrees(v), self.perm.reverse())
        &&& forall|r: int, c: int|
            #[trigger] self.upper.has(r, c) <==> ((r == c && 0 <= c < self.n) || exists|p: int|
                0 <= p < v.nnz() && #[trigger] placed(v, self.iperm, p) == (r, c))
        &&& self.value_map.len() == v.nnz()
        &&& forall|p: int|
            0 <= p < v.nnz() ==> self.upper.col_ptr[placed(v, self.iperm, p).1] <= #[trigger] self.value_map[p]
                < self.upper.col_ptr[placed(v, self.iperm, p).1 + 1] && self.upper.row_idx[self.value_map[p] as int]
                == placed(v, self.iperm, p).0
    }
}

/// The upper pattern of the symmetric matrix permuted by `iperm`: the whole
/// diagonal and the landing place of every entry of `pattern`.
fn permuted_pattern(pattern: &Sparsity, iperm: &Vec<usize>) -> (u: Sparsity)
    requires
        pattern@.nrows == pattern@.ncols,
        pattern@.ncols < usize::MAX,
        is_permutation(iperm@, pattern@.ncols),
    ensures
        u@.nrows == pattern@.ncols,
        u@.ncols == pattern@.ncols,
        forall|r: int, c: int|
            #[trigger] u@.has(r, c) <==> ((r == c && 0 <= c < pattern@.ncols) || exists|p: int|
                0 <= p < pattern@.nnz() && #[trigger] placed(pattern@, iperm@, p) == (r, c)),
{
    proof {
        use_type_invariant(pattern);
    }
    let ghost v = pattern@;
    let n = pattern.ncols();
    let cp = pattern.col_ptr();
    let ri = pattern.row_idx();
    let mut trip: Vec<(usize, usize)> = Vec::new();
    let mut k: usize = 0;
    while k < n
        invariant
            k <= n,
            trip@.len() == k,
            forall|q: int| 0 <= q < k ==> (#[trigger] trip@[q]).0 == q && trip@[q].1 == q,
        decreases n - k,
    {
        trip.push((k, k));
        k += 1;
    }
    let mut j: usize = 0;
    while j < n
        invariant
            v == pattern@,
            v.wf(),
            n == v.ncols,
            v.nrows == n,
            cp@ == v.col_ptr,
            ri@ == v.row_idx,
            is_permutation(iperm@, n as nat),
            j <= n,
            trip@.len() == n + v.col_ptr[j as int],
            forall|q: int| 0 <= q < n ==> (#[trigger] trip@[q]).0 == q && trip@[q].1 == q,
            forall|q: int|
                0 <= q < v.col_ptr[j as int] ==> (#[trigger] trip@[n + q]).0 == placed(v, iperm@, q).0
                    && trip@[n + q].1 == placed(v, iperm@, q).1,
        decreases n - j,
    {
        let mut p = cp[j];
        assert(v.col_ptr[j as int] <= v.col_ptr[j + 1] <= v.row_idx.len()) by {
            assert(v.col_ptr[j + 1] <= v.col_ptr[n as int]);
        }
        while p < cp[j + 1]
            invariant
                v == pattern@,
                v.wf(),
                n == v.ncols,
                v.nrows == n,
                cp@ == v.col_ptr,
                ri@ == v.row_idx,
                is_permutation(iperm@, n as nat),
                j < n,
                v.col_ptr[j as int] <= p <= v.col_ptr[j + 1],
                v.col_ptr[j + 1] <= v.row_idx.len(),
                trip@.len() == n + p,
                forall|q: int| 0 <= q < n ==> (#[trigger] trip@[q]).0 == q && trip@[q].1 == q,
                forall|q: int|
                    0 <= q < p ==> (#[trigger] trip@[n + q]).0 == placed(v, iperm@, q).0 && trip@[n + q].1
                        == placed(v, iperm@, q).1,
            decreases v.col_ptr[j + 1] - p,
        {
            let i = ri[p];
            let a = iperm[i];
            let b = iperm[j];
            proof {
                lemma_columns_in(v, j as int, p as int);
            }
            if a <= b {
                trip.push((a, b));
            } else {
                trip.push((b, a));
            }
            assert(trip@[n + p as int] == trip@.last());
            p += 1;
        }
        j += 1;
    }
    let ghost t = trip@;
    assert(v.col_ptr[n as int] == v.nnz());
    proof {
        assert forall|q: int| 0 <= q < t.len() implies crate::sparsity::triplet_in_range(n as nat, n as nat, #[trigger] t[q]) by {
            if q >= n {
                let pq = q - n;
                let jj = column_of(v, pq);
                crate::sparsity::lemma_column_of(v, pq);
                assert(t[n + pq] == t[q]);
            }
        }
    }
    match Sparsity::from_triplets(n, n, trip.as_slice()) {
        Ok(u) => {
            proof {
                assert forall|r: int, c: int|
                    #[trigger] u@.has(r, c) <==> ((r == c && 0 <= c < n) || exists|p: int|
                        0 <= p < v.nnz() && #[trigger] placed(v, iperm@, p) == (r, c)) by {
                    if u@.has(r, c) {
                        let kk = choose|kk: int| 0 <= kk < t.len() && t[kk].0 == r && #[trigger] t[kk].1 == c;
                        if kk >= n {
                            let pq = kk - n;
                            assert(t[n + pq] == t[kk]);
                            assert(placed(v, iperm@, pq) == (r, c));
                        }
                    }
                    if r == c && 0 <= c < n {
                        assert(t[c].0 == r && t[c].1 == c);
                    }
                    if exists|p: int| 0 <= p < v.nnz() && #[trigger] placed(v, iperm@, p) == (r, c) {
                        let pq = choose|p: int| 0 <= p < v.nnz() && #[trigger] placed(v, iperm@, p) == (r, c);
                        assert(t[n + pq].0 == r && t[n + pq].1 == c);
                    }
                }
            }
            u
        },
        Err(_) => {
            // Every triplet lies in range, so this arm is never taken.
            proof {
                assert(false);
            }
            Sparsity::dense(0, 0)
        },
    }
}

/// The slot in `u` of every entry of `pattern`.
fn map_entries(pattern: &Sparsity, iperm: &Vec<usize>, u: &Sparsity) -> (value_map: Vec<usize>)
    requires
        pattern@.nrows == pattern@.ncols,
        is_permutation(iperm@, pattern@.ncols),
        u@.ncols == pattern@.ncols,
        forall|p: int| 0 <= p < pattern@.nnz() ==> #[trigger] u@.has(placed(pattern@, iperm@, p).0, placed(pattern@, iperm@, p).1),
    ensures
        value_map@.len() == pattern@.nnz(),
        forall|p: int|
            0 <= p < pattern@.nnz() ==> u@.col_ptr[placed(pattern@, iperm@, p).1] <= #[trigger] value_map@[p]
                < u@.col_ptr[placed(pattern@, iperm@, p).1 + 1] && u@.row_idx[value_map@[p] as int]
                == placed(pattern@, iperm@, p).0,
{
    proof {
        use_type_invariant(pattern);
    }
    let ghost v = pattern@;
    let n = pattern.ncols();
    let cp = pattern.col_ptr();
    let ri = pattern.row_idx();
    let mut value_map: Vec<usize> = Vec::new();
    let mut j: usize = 0;
    while j < n
        invariant
            v == pattern@,
            v.wf(),
            n == v.ncols,
            v.nrows == n,
            cp@ == v.col_ptr,
            ri@ == v.row_idx,
            is_permutation(iperm@, n as nat),
            u@.ncols == n,
            forall|p: int| 0 <= p < v.nnz() ==> #[trigger] u@.has(placed(v, iperm@, p).0, placed(v, iperm@, p).1),
            j <= n,
            value_map@.len() == v.col_ptr[j as int],
            forall|q: int|
                0 <= q < value_map@.len() ==> u@.col_ptr[placed(v, iperm@, q).1] <= #[trigger] value_map@[q]
                    < u@.col_ptr[placed(v, iperm@, q).1 + 1] && u@.row_idx[value_map@[q] as int] == placed(v, iperm@, q).0,
        decreases n - j,
    {
        let mut p = cp[j];
        assert(v.col_ptr[j as int] <= v.col_ptr[j + 1] <= v.row_idx.len()) by {
            assert(v.col_ptr[j + 1] <= v.col_ptr[n as int]);
        }
        while p < cp[j + 1]
            invariant
                v == pattern@,
                v.wf(),
                n == v.ncols,
                v.nrows == n,
                cp@ == v.col_ptr,
                ri@ == v.row_idx,
                is_permutation(iperm@, n as nat),
                u@.ncols == n,
                forall|p: int| 0 <= p < v.nnz() ==> #[trigger] u@.has(placed(v, iperm@, p).0, placed(v, iperm@, p).1),
                j < n,
                v.col_ptr[j as int] <= p <= v.col_ptr[j + 1],
                v.col_ptr[j + 1] <= v.row_idx.len(),
                value_map@.len() == p,
                forall|q: int|
                    0 <= q < value_map@.len() ==> u@.col_ptr[placed(v, iperm@, q).1] <= #[trigger] value_map@[q]
                        < u@.col_ptr[placed(v, iperm@, q).1 + 1] && u@.row_idx[value_map@[q] as int] == placed(v, iperm@, q).0,
            decreases v.col_ptr[j + 1] - p,
        {
            let i = ri[p];
            let a = iperm[i];
            let b = iperm[j];
            proof {
                lemma_columns_in(v, j as int, p as int);
                assert(u@.has(placed(v, iperm@, p as int).0, placed(v, iperm@, p as int).1));
            }
            let q = if a <= b {
                find_row(u, a, b)
            } else {
                find_row(u, b, a)
            };
            value_map.push(q);
            p += 1;
        }
        j += 1;
    }
    assert(v.col_ptr[n as int] == v.nnz());
    value_map
}

/// The position in `u` of each diagonal entry.
fn diagonal_positions(u: &Sparsity) -> (diag_pos: Vec<usize>)
    requires
        forall|k: int| 0 <= k < u@.ncols ==> #[trigger] u@.has(k, k),
    ensures
        diag_pos@.len() == u@.ncols,
        forall|k: int|
            0 <= k < u@.ncols ==> u@.col_ptr[k] <= #[trigger] diag_pos@[k] < u@.col_ptr[k + 1] && u@.row_idx[diag_pos@[k] as int] == k,
{
    let n = u.ncols();
    let mut diag_pos: Vec<usize> = Vec::new();
    let mut k: usize = 0;
    while k < n
        invariant
            n == u@.ncols,
            forall|k: int| 0 <= k < u@.ncols ==> #[trigger] u@.has(k, k),
            k <= n,
            diag_pos@.len() == k,
            forall|x: int|
                0 <= x < k ==> u@.col_ptr[x] <= #[trigger] diag_pos@[x] < u@.col_ptr[x + 1] && u@.row_idx[diag_pos@[x] as int] == x,
        decreases n - k,
    {
        assert(u@.has(k as int, k as int));
        let q = find_row(u, k, k);
        diag_pos.push(q);
        k += 1;
    }
    diag_pos
}

/// A path of parent links ends no lower than it starts.
proof fn lemma_reaches_up(etree: Seq<usize>, a: int, b: int)
    requires
        reaches(etree, a, b),
    ensures
        a <= b,
    decreases b - a,
{
    if a != b {
        lemma_reaches_up(etree, etree[a] as int, b);
    }
}

/// Paths of parent links compose.
proof fn lemma_reaches_trans(etree: Seq<usize>, a: int, b: int, c: int)
    requires
        reaches(etree, a, b),
        reaches(etree, b, c),
    ensures
        reaches(etree, a, c),
    decreases b - a,
{
    if a != b {
        lemma_reaches_up(etree, b, c);
        lemma_reaches_trans(etree, etree[a] as int, b, c);
    }
}

/// A node reaches its parent.
proof fn lemma_reaches_parent(etree: Seq<usize>, a: int)
    requires
        0 <= a < etree.len(),
        etree[a] != usize::MAX,
        a < etree[a],
    ensures
        reaches(etree, a, etree[a] as int),
{
    assert(reaches(etree, etree[a] as int, etree[a] as int));
}

/// Giving a root a parent keeps every path.
proof fn lemma_reaches_graft(etree: Seq<usize>, y: int, parent: usize, a: int, b: int)
    requires
        reaches(etree, a, b),
        0 <= y < etree.len(),
        etree[y] == usize::MAX,
    ensures
        reaches(etree.update(y, parent), a, b),
    decreases b - a,
{
    if a != b {
        lemma_reaches_graft(etree, y, parent, etree[a] as int, b);
    }
}

/// Node `k` is in the row subtree of column `j`: it lies below `j` on the
/// path of `etree` from the row of some stored entry of column `j` up to
/// `j`. These are the columns `k` for which `L[j, k]` is stored.
pub open spec fn in_row(u: SparsityView, etree: Seq<usize>, j: int, k: int) -> bool {
    &&& 0 <= k < j
    &&& exists|i: int| #[trigger] u.has(i, j) && reaches(etree, i, k) && reaches(etree, k, j)
}

/// `etree` is the elimination tree of the square pattern `u`: parents are
/// larger than their children, every stored off-diagonal entry lies on a
/// path of the tree, each node's parent is the first column whose row
/// subtree holds it, and a root is in no row subtree.
pub open spec fn is_elimination_tree(u: SparsityView, etree: Seq<usize>) -> bool {
    &&& etree.len() == u.ncols
    &&& forall|i: int| 0 <= i < u.ncols ==> #[trigger] etree[i] == usize::MAX || i < etree[i] < u.ncols
    &&& forall|r: int, c: int| #[trigger] u.has(r, c) && r < c ==> reaches(etree, r, c)
    &&& forall|k: int| 0 <= k < u.ncols && #[trigger] etree[k] == usize::MAX ==> forall|c: int| !#[trigger] in_row(u, etree, c, k)
    &&& forall|k: int|
        0 <= k < u.ncols && #[trigger] etree[k] != usize::MAX ==> in_row(u, etree, etree[k] as int, k) && forall|c: int|
            c < etree[k] ==> !#[trigger] in_row(u, etree, c, k)
}

/// How many of the columns before `m` have `k` in their row subtree: the
/// number of entries of column `k` of `L` in those rows.
pub open spec fn row_count(u: SparsityView, etree: Seq<usize>, k: int, m: int) -> nat
    decreases m,
{
    if m <= 0 {
        0
    } else {
        row_count(u, etree, k, m - 1) + if in_row(u, etree, m - 1, k) {
            1nat
        } else {
            0nat
        }
    }
}

/// `e1` is `e0` with some roots hung under `j`.
pub open spec fn grafted(e0: Seq<usize>, e1: Seq<usize>, j: int) -> bool {
    &&& e1.len() == e0.len()
    &&& forall|x: int| 0 <= x < e0.len() ==> #[trigger] e1[x] == e0[x] || (e0[x] == usize::MAX && e1[x] == j)
}

/// Hanging roots under `j` changes no path that ends below `j`.
proof fn lemma_reaches_grafted(e0: Seq<usize>, e1: Seq<usize>, j: int, a: int, b: int)
    requires
        grafted(e0, e1, j),
        b < j,
    ensures
        reaches(e1, a, b) <==> reaches(e0, a, b),
    decreases b - a,
{
    if a != b && 0 <= a < b && a < e0.len() {
        assert(e1[a] == e0[a] || (e0[a] == usize::MAX && e1[a] == j));
        if e0[a] != usize::MAX && a < e0[a] <= b {
            lemma_reaches_grafted(e0, e1, j, e0[a] as int, b);
        }
    }
}

/// Hanging roots under `j` changes no row subtree of a column before `j`.
proof fn lemma_in_row_grafted(u: SparsityView, e0: Seq<usize>, e1: Seq<usize>, j: int, c: int, k: int)
    requires
        grafted(e0, e1, j),
        c < j,
    ensures
        in_row(u, e1, c, k) <==> in_row(u, e0, c, k),
{
    if in_row(u, e1, c, k) {
        let i = choose|i: int| #[trigger] u.has(i, c) && reaches(e1, i, k) && reaches(e1, k, c);
        lemma_reaches_grafted(e0, e1, j, i, k);
        lemma_reaches_grafted(e0, e1, j, k, c);
    }
    if in_row(u, e0, c, k) {
        let i = choose|i: int| #[trigger] u.has(i, c) && reaches(e0, i, k) && reaches(e0, k, c);
        lemma_reaches_grafted(e0, e1, j, i, k);
        lemma_reaches_grafted(e0, e1, j, k, c);
    }
}

/// Hanging roots under `j` changes no count over the columns before `j`.
proof fn lemma_row_count_grafted(u: SparsityView, e0: Seq<usize>, e1: Seq<usize>, j: int, k: int, m: int)
    requires
        grafted(e0, e1, j),
        m <= j,
    ensures
        row_count(u, e1, k, m) == row_count(u, e0, k, m),
    decreases m,
{
    if m > 0 {
        lemma_row_count_grafted(u, e0, e1, j, k, m - 1);
        lemma_in_row_grafted(u, e0, e1, j, m - 1, k);
    }
}

/// The entries of `L` below its diagonal in its first `m` columns, for the
/// pattern `u` with elimination tree `etree`.
pub open spec fn factor_count(u: SparsityView, etree: Seq<usize>, m: int) -> nat
    decreases m,
{
    if m <= 0 {
        0
    } else {
        factor_count(u, etree, m - 1) + row_count(u, etree, m - 1, u.ncols as int)
    }
}

/// Counting the entries of `L` over more columns never gives fewer.
proof fn lemma_factor_count_mono(u: SparsityView, etree: Seq<usize>, a: int, b: int)
    requires
        0 <= a <= b,
    ensures
        factor_count(u, etree, a) <= factor_count(u, etree, b),
    decreases b - a,
{
    if a < b {
        lemma_factor_count_mono(u, etree, a, b - 1);
    }
}

/// `perm`, `iperm`, `u` and `etree` are the permutation, its inverse, the
/// permuted upper pattern and its elimination tree that the analysis of
/// `v` with `ordering` computes.
pub open spec fn analysis_shape(
    v: SparsityView,
    ordering: PivotOrder,
    perm: Seq<usize>,
    iperm: Seq<usize>,
    u: SparsityView,
    etree: Seq<usize>,
) -> bool {
    &&& is_permutation(perm, v.ncols)
    &&& is_inverse(perm, iperm)
    &&& ordering == PivotOrder::Natural ==> perm == identity(v.ncols)
    &&& ordering == PivotOrder::Rcm ==> cuthill_mckee(v, degrees(v), perm.reverse())
    &&& u.wf()
    &&& u.nrows == v.ncols
    &&& u.ncols == v.ncols
    &&& forall|r: int, c: int|
        #[trigger] u.has(r, c) <==> ((r == c && 0 <= c < v.ncols) || exists|p: int|
            0 <= p < v.nnz() && #[trigger] placed(v, iperm, p) == (r, c))
    &&& is_elimination_tree(u, etree)
}

/// The entries of `L` below its diagonal in the analysis of `v` with
/// `ordering` can be counted in `usize`.
pub open spec fn factor_fits(v: SparsityView, ordering: PivotOrder) -> bool {
    forall|perm: Seq<usize>, iperm: Seq<usize>, u: SparsityView, etree: Seq<usize>|
        #[trigger] analysis_shape(v, ordering, perm, iperm, u, etree) ==> factor_count(u, etree, v.ncols as int)
            <= usize::MAX
}


/// A count over `m` columns is at most `m`.
proof fn lemma_row_count_bound(u: SparsityView, etree: Seq<usize>, k: int, m: int)
    requires
        0 <= m,
    ensures
        row_count(u, etree, k, m) <= m,
    decreases m,
{
    if m > 0 {
        lemma_row_count_bound(u, etree, k, m - 1);
    }
}

/// In a set of marked nodes whose parents are marked or `j`, every node
/// on a path from a marked node up to a node below `j` is marked.
proof fn lemma_marked_path(etree: Seq<usize>, work: Seq<usize>, j: int, x: int, k: int)
    requires
        0 <= x < work.len() == etree.len(),
        work[x] == j,
        x != j,
        forall|y: int|
            0 <= y < work.len() && #[trigger] work[y] == j && y != j ==> etree[y] != usize::MAX && y < etree[y] && (
            etree[y] == j || work[etree[y] as int] == j),
        reaches(etree, x, k),
        k < j <= work.len(),
    ensures
        0 <= k < work.len(),
        work[k] == j,
    decreases k - x,
{
    if x != k {
        let m = etree[x] as int;
        assert(etree[x] != usize::MAX && x < etree[x]);
        assert(m <= k);
        assert(m != j);
        lemma_marked_path(etree, work, j, m, k);
    }
}

/// A path of parent links below `b` depends only on the links of the nodes
/// from `a` up to `b`.
proof fn lemma_reaches_agree(e1: Seq<usize>, e2: Seq<usize>, a: int, b: int)
    requires
        e1.len() == e2.len(),
        forall|x: int| a <= x < b ==> #[trigger] e1[x] == e2[x],
        reaches(e1, a, b),
    ensures
        reaches(e2, a, b),
    decreases b - a,
{
    if a != b {
        lemma_reaches_agree(e1, e2, e1[a] as int, b);
    }
}

/// Two ancestors of one node lie on one path: the lower reaches the higher.
proof fn lemma_reaches_chain(etree: Seq<usize>, i: int, k: int, j: int)
    requires
        reaches(etree, i, k),
        reaches(etree, i, j),
        k <= j,
    ensures
        reaches(etree, k, j),
    decreases k - i,
{
    if i != k {
        if i == j {
            lemma_reaches_up(etree, i, k);
        } else {
            lemma_reaches_chain(etree, etree[i] as int, k, j);
        }
    }
}

/// With every stored entry on a path of the tree, a node `k` reached from
/// a row `i` of column `j > k` lies in the row subtree of `j`.
proof fn lemma_in_row_from_entry(u: SparsityView, etree: Seq<usize>, i: int, j: int, k: int)
    requires
        forall|r: int, c: int| #[trigger] u.has(r, c) && r < c ==> reaches(etree, r, c),
        u.has(i, j),
        reaches(etree, i, k),
        0 <= k < j,
    ensures
        in_row(u, etree, j, k),
{
    lemma_reaches_up(etree, i, k);
    assert(reaches(etree, i, j));
    lemma_reaches_chain(etree, i, k, j);
}

/// Two elimination trees of one pattern agreeing below node `k` agree at
/// `k`.
proof fn lemma_etree_unique_at(u: SparsityView, e1: Seq<usize>, e2: Seq<usize>, k: int)
    requires
        is_elimination_tree(u, e1),
        is_elimination_tree(u, e2),
        0 <= k < u.ncols,
        forall|x: int| 0 <= x < k ==> #[trigger] e1[x] == e2[x],
    ensures
        e1[k] == e2[k],
{
    // A node of the row subtree of `c` in one tree is in it in the other.
    assert forall|c: int| #[trigger] in_row(u, e1, c, k) implies in_row(u, e2, c, k) by {
        let i = choose|i: int| #[trigger] u.has(i, c) && reaches(e1, i, k) && reaches(e1, k, c);
        lemma_reaches_up(e1, i, k);
        lemma_reaches_agree(e1, e2, i, k);
        lemma_in_row_from_entry(u, e2, i, c, k);
    }
    assert forall|c: int| #[trigger] in_row(u, e2, c, k) implies in_row(u, e1, c, k) by {
        let i = choose|i: int| #[trigger] u.has(i, c) && reaches(e2, i, k) && reaches(e2, k, c);
        lemma_reaches_up(e2, i, k);
        assert forall|x: int| i <= x < k implies #[trigger] e2[x] == e1[x] by {}
        lemma_reaches_agree(e2, e1, i, k);
        lemma_in_row_from_entry(u, e1, i, c, k);
    }
    if e1[k] != usize::MAX {
        assert(in_row(u, e2, e1[k] as int, k));
    }
    if e2[k] != usize::MAX {
        assert(in_row(u, e1, e2[k] as int, k));
    }
    if e1[k] != usize::MAX && e2[k] != usize::MAX {
        if e1[k] < e2[k] {
            assert(!in_row(u, e2, e1[k] as int, k));
        }
        if e2[k] < e1[k] {
            assert(!in_row(u, e1, e2[k] as int, k));
        }
    }
}

/// The elimination tree of a pattern is unique: two trees with the
/// properties of [`is_elimination_tree`] are the same, so the tree that
/// [`Symbolic::analyse`] returns is determined by the permuted pattern.
pub proof fn lemma_elimination_tree_unique(u: SparsityView, e1: Seq<usize>, e2: Seq<usize>)
    requires
        is_elimination_tree(u, e1),
        is_elimination_tree(u, e2),
    ensures
        e1 == e2,
{
    lemma_etree_prefix(u, e1, e2, u.ncols as int);
    assert(e1 =~= e2);
}

proof fn lemma_etree_prefix(u: SparsityView, e1: Seq<usize>, e2: Seq<usize>, k: int)
    requires
        is_elimination_tree(u, e1),
        is_elimination_tree(u, e2),
        0 <= k <= u.ncols,
    ensures
        forall|x: int| 0 <= x < k ==> e1[x] == e2[x],
    decreases k,
{
    if k > 0 {
        lemma_etree_prefix(u, e1, e2, k - 1);
        lemma_etree_unique_at(u, e1, e2, k - 1);
    }
}

/// A permutation has one inverse.
proof fn lemma_inverse_unique(p: Seq<usize>, q1: Seq<usize>, q2: Seq<usize>, n: nat)
    requires
        is_permutation(p, n),
        is_inverse(p, q1),
        is_inverse(p, q2),
    ensures
        q1 == q2,
{
    lemma_permutation_covers(p, n);
    assert forall|x: int| 0 <= x < n implies q1[x] == q2[x] by {
        assert(crate::perm::occurs(p, x));
        let k = choose|k: int| 0 <= k < p.len() && p[k] == x;
        assert(q1[p[k] as int] == k && q2[p[k] as int] == k);
    }
    assert(q1 =~= q2);
}

/// A row is stored at most once in a column of a well-formed pattern.
proof fn lemma_slot_unique(u: SparsityView, c: int, a: int, b: int)
    requires
        u.wf(),
        0 <= c < u.ncols,
        u.col_ptr[c] <= a < u.col_ptr[c + 1],
        u.col_ptr[c] <= b < u.col_ptr[c + 1],
        u.row_idx[a] == u.row_idx[b],
    ensures
        a == b,
{
    assert(u.col_sorted(c));
}

/// Column pointers with the same start and the same column counts are the
/// same.
proof fn lemma_lp_unique(u: SparsityView, etree: Seq<usize>, lp1: Seq<usize>, lp2: Seq<usize>, n: int, k: int)
    requires
        lp1.len() == n + 1,
        lp2.len() == n + 1,
        lp1[0] == 0,
        lp2[0] == 0,
        forall|x: int| 0 <= x < n ==> #[trigger] lp1[x + 1] == lp1[x] + row_count(u, etree, x, n),
        forall|x: int| 0 <= x < n ==> #[trigger] lp2[x + 1] == lp2[x] + row_count(u, etree, x, n),
        0 <= k <= n,
    ensures
        forall|x: int| 0 <= x <= k ==> lp1[x] == lp2[x],
    decreases k,
{
    if k > 0 {
        lemma_lp_unique(u, etree, lp1, lp2, n, k - 1);
        let x = k - 1;
        assert(lp1[x + 1] == lp1[x] + row_count(u, etree, x, n));
        assert(lp2[x + 1] == lp2[x] + row_count(u, etree, x, n));
    }
}

/// The symbolic analysis depends only on the pattern and the ordering: two
/// analyses of one pattern with one ordering are the same, permutation,
/// permuted pattern, value slots, elimination tree and column pointers of
/// `L` alike, so it is computed once and reused for every factorization.
pub proof fn lemma_analysis_unique(v: SparsityView, ordering: PivotOrder, s1: SymbolicView, s2: SymbolicView)
    requires
        s1.analyses(v, ordering),
        s2.analyses(v, ordering),
    ensures
        s1 == s2,
{
    let n = s1.n;
    if ordering == PivotOrder::Natural {
        assert(s1.perm == s2.perm);
    } else {
        lemma_reverse_permutation(s1.perm, n);
        lemma_reverse_permutation(s2.perm, n);
        lemma_cuthill_mckee_unique(v, degrees(v), s1.perm.reverse(), s2.perm.reverse());
        assert(s1.perm =~= s1.perm.reverse().reverse());
        assert(s2.perm =~= s2.perm.reverse().reverse());
    }
    lemma_inverse_unique(s1.perm, s1.iperm, s2.iperm, n);
    assert forall|r: int, c: int| s1.upper.has(r, c) <==> s2.upper.has(r, c) by {
        assert(s1.upper.has(r, c) <==> ((r == c && 0 <= c < n) || exists|p: int|
            0 <= p < v.nnz() && #[trigger] placed(v, s1.iperm, p) == (r, c)));
        assert(s2.upper.has(r, c) <==> ((r == c && 0 <= c < n) || exists|p: int|
            0 <= p < v.nnz() && #[trigger] placed(v, s2.iperm, p) == (r, c)));
    }
    crate::sparsity::lemma_wf_unique(s1.upper, s2.upper);
    let u = s1.upper;
    assert forall|p: int| 0 <= p < v.nnz() implies s1.value_map[p] == s2.value_map[p] by {
        let c = placed(v, s1.iperm, p).1;
        assert(u.has(placed(v, s1.iperm, p).0, c));
        lemma_slot_unique(u, c, s1.value_map[p] as int, s2.value_map[p] as int);
    }
    assert(s1.value_map =~= s2.value_map);
    assert forall|k: int| 0 <= k < n implies s1.diag_pos[k] == s2.diag_pos[k] by {
        lemma_slot_unique(u, k, s1.diag_pos[k] as int, s2.diag_pos[k] as int);
    }
    assert(s1.diag_pos =~= s2.diag_pos);
    lemma_elimination_tree_unique(u, s1.etree, s2.etree);
    lemma_lp_unique(u, s1.etree, s1.lp, s2.lp, n as int, n as int);
    assert(s1.lp =~= s2.lp);
}

/// The state before column `j`: the tree holds the parents found so far,
/// each the first column whose row subtree holds the node, the roots are in
/// no row subtree yet, and each node has counted its row subtrees.
pub open spec fn tree_before(u: SparsityView, etree: Seq<usize>, lnz: Seq<usize>, j: int) -> bool {
    &&& forall|x: int| 0 <= x < u.ncols ==> #[trigger] etree[x] == usize::MAX || (x < etree[x] < j)
    &&& forall|k: int|
        0 <= k < u.ncols && #[trigger] etree[k] == usize::MAX ==> forall|c: int| c < j ==> !#[trigger] in_row(u, etree, c, k)
    &&& forall|k: int|
        0 <= k < u.ncols && #[trigger] etree[k] != usize::MAX ==> in_row(u, etree, etree[k] as int, k) && forall|c: int|
            c < etree[k] ==> !#[trigger] in_row(u, etree, c, k)
    &&& forall|k: int| 0 <= k < u.ncols ==> #[trigger] lnz[k] == row_count(u, etree, k, j)
}

/// After the walks of column `j`, the marked nodes are exactly its row
/// subtree, so the tree and the counts move on to column `j + 1`.
proof fn lemma_column_done(
    u: SparsityView,
    e0: Seq<usize>,
    l0: Seq<usize>,
    etree: Seq<usize>,
    lnz: Seq<usize>,
    work: Seq<usize>,
    j: int,
)
    requires
        u.wf(),
        0 <= j < u.ncols,
        u.nrows == u.ncols,
        etree.len() == u.ncols,
        lnz.len() == u.ncols,
        work.len() == u.ncols,
        e0.len() == u.ncols,
        l0.len() == u.ncols,
        tree_before(u, e0, l0, j),
        grafted(e0, etree, j),
        forall|x: int| 0 <= x < u.ncols && #[trigger] etree[x] != e0[x] ==> work[x] == j,
        forall|x: int| 0 <= x < u.ncols ==> #[trigger] lnz[x] == l0[x] + if work[x] == j && x != j { 1int } else { 0int },
        forall|x: int| 0 <= x < u.ncols && #[trigger] work[x] == j && x != j ==> x < j && etree[x] != usize::MAX,
        forall|k: int| 0 <= k < u.ncols ==> ((#[trigger] work[k] == j && k != j) <==> in_row(u, etree, j, k)),
        forall|x: int| 0 <= x < u.ncols ==> #[trigger] etree[x] == usize::MAX || (x < etree[x] <= j),
    ensures
        tree_before(u, etree, lnz, j + 1),
{
    assert forall|k: int|
        0 <= k < u.ncols && #[trigger] etree[k] == usize::MAX implies forall|c: int| c < j + 1 ==> !#[trigger] in_row(u, etree, c, k) by {
        assert(e0[k] == usize::MAX);
        assert forall|c: int| c < j + 1 implies !#[trigger] in_row(u, etree, c, k) by {
            if c < j {
                lemma_in_row_grafted(u, e0, etree, j, c, k);
            } else if c == j {
                assert(!(work[k] == j && k != j));
            }
        }
    }
    assert forall|k: int|
        0 <= k < u.ncols && #[trigger] etree[k] != usize::MAX implies in_row(u, etree, etree[k] as int, k) && forall|c: int|
            c < etree[k] ==> !#[trigger] in_row(u, etree, c, k) by {
        if e0[k] != usize::MAX {
            assert(etree[k] == e0[k]);
            lemma_in_row_grafted(u, e0, etree, j, e0[k] as int, k);
            assert forall|c: int| c < etree[k] implies !#[trigger] in_row(u, etree, c, k) by {
                lemma_in_row_grafted(u, e0, etree, j, c, k);
            }
        } else {
            assert(etree[k] == j);
            assert(work[k] == j);
            assert forall|c: int| c < etree[k] implies !#[trigger] in_row(u, etree, c, k) by {
                lemma_in_row_grafted(u, e0, etree, j, c, k);
            }
        }
    }
    assert forall|k: int| 0 <= k < u.ncols implies #[trigger] lnz[k] == row_count(u, etree, k, j + 1) by {
        lemma_row_count_grafted(u, e0, etree, j, k, j);
        assert(row_count(u, etree, k, j + 1) == row_count(u, etree, k, j) + if in_row(u, etree, j, k) {
            1nat
        } else {
            0nat
        });
    }
}

/// The elimination tree of the upper pattern `u` and the column pointers
/// of the strictly lower part of its factor, in the up-looking style: column
/// `j` walks from each of its rows up the tree, counting one entry of `L` in
/// row `j` for each node it passes, until it meets a node already visited
/// for `j`; every root it meets is hung under `j`.
///
/// The nodes visited for column `j` are its row subtree; each node's parent
/// is the first column whose row subtree holds it, and column `k` of `L`
/// has one entry for each row subtree holding `k`.
fn elimination_tree(u: &Sparsity) -> (r: (Vec<usize>, Vec<usize>))
    requires
        u@.nrows == u@.ncols,
        u@.ncols < usize::MAX,
        forall|e: Seq<usize>| #[trigger] is_elimination_tree(u@, e) ==> factor_count(u@, e, u@.ncols as int) <= usize::MAX,
        forall|r: int, c: int| #[trigger] u@.has(r, c) ==> r <= c,
    ensures
        is_elimination_tree(u@, r.0@),
        r.1@.len() == u@.ncols + 1,
        r.1@[0] == 0,
        forall|k: int| 0 <= k < u@.ncols ==> #[trigger] r.1@[k + 1] == r.1@[k] + row_count(u@, r.0@, k, u@.ncols as int),
        forall|a: int, b: int| 0 <= a <= b <= u@.ncols ==> r.1@[a] <= r.1@[b],
{
    proof {
        use_type_invariant(u);
    }
    let ghost uv = u@;
    let n = u.ncols();
    let ap = u.col_ptr();
    let ai = u.row_idx();
    let mut etree: Vec<usize> = Vec::new();
    let mut lnz: Vec<usize> = Vec::new();
    let mut work: Vec<usize> = Vec::new();
    let mut k: usize = 0;
    while k < n
        invariant
            k <= n,
            etree@.len() == k,
            lnz@.len() == k,
            work@.len() == k,
            forall|x: int| 0 <= x < k ==> #[trigger] etree@[x] == usize::MAX,
            forall|x: int| 0 <= x < k ==> #[trigger] lnz@[x] == 0,
            forall|x: int| 0 <= x < k ==> #[trigger] work@[x] == usize::MAX,
        decreases n - k,
    {
        etree.push(usize::MAX);
        lnz.push(0);
        work.push(usize::MAX);
        k += 1;
    }
    assert(tree_before(uv, etree@, lnz@, 0));
    let mut j: usize = 0;
    while j < n
        invariant
            uv == u@,
            uv.wf(),
            n == uv.ncols,
            uv.nrows == n,
            n < usize::MAX,
            ap@ == uv.col_ptr,
            ai@ == uv.row_idx,
            forall|r: int, c: int| #[trigger] uv.has(r, c) ==> r <= c,
            j <= n,
            etree@.len() == n,
            lnz@.len() == n,
            work@.len() == n,
            tree_before(uv, etree@, lnz@, j as int),
            forall|x: int| 0 <= x < n ==> #[trigger] work@[x] == usize::MAX || work@[x] < j,
            forall|r: int, c: int| #[trigger] uv.has(r, c) && r < c && c < j ==> reaches(etree@, r, c),
        decreases n - j,
    {
        let ghost e0 = etree@;
        let ghost l0 = lnz@;
        work.set(j, j);
        let ghost mut srcq: Seq<int> = Seq::new(n as nat, |x: int| 0int);
        let mut p = ap[j];
        assert(uv.col_ptr[j as int] <= uv.col_ptr[j + 1] <= uv.row_idx.len()) by {
            assert(uv.col_ptr[j + 1] <= uv.col_ptr[n as int]);
        }
        while p < ap[j + 1]
            invariant
                uv == u@,
                uv.wf(),
                n == uv.ncols,
                uv.nrows == n,
                n < usize::MAX,
                ap@ == uv.col_ptr,
                ai@ == uv.row_idx,
                forall|r: int, c: int| #[trigger] uv.has(r, c) ==> r <= c,
                j < n,
                uv.col_ptr[j as int] <= p <= uv.col_ptr[j + 1],
                uv.col_ptr[j + 1] <= uv.row_idx.len(),
                etree@.len() == n,
                lnz@.len() == n,
                work@.len() == n,
                e0.len() == n,
                l0.len() == n,
                work@[j as int] == j,
                tree_before(uv, e0, l0, j as int),
                grafted(e0, etree@, j as int),
                forall|x: int| 0 <= x < n && #[trigger] etree@[x] != e0[x] ==> work@[x] == j,
                forall|x: int| 0 <= x < n ==> #[trigger] lnz@[x] == l0[x] + if work@[x] == j && x != j { 1int } else { 0int },
                forall|x: int| 0 <= x < n ==> #[trigger] etree@[x] == usize::MAX || (x < etree@[x] && etree@[x] <= j),
                forall|x: int| 0 <= x < n ==> #[trigger] work@[x] == usize::MAX || work@[x] <= j,
                forall|r: int, c: int| #[trigger] uv.has(r, c) && r < c && c < j ==> reaches(etree@, r, c),
                forall|x: int| 0 <= x < n && #[trigger] work@[x] == j ==> reaches(etree@, x, j as int),
                forall|q: int| uv.col_ptr[j as int] <= q < p ==> reaches(etree@, #[trigger] uv.row_idx[q] as int, j as int),
                forall|y: int|
                    0 <= y < n && #[trigger] work@[y] == j && y != j ==> y < j && etree@[y] != usize::MAX && y < etree@[y] && (
                    etree@[y] == j || work@[etree@[y] as int] == j),
                srcq.len() == n,
                forall|x: int|
                    0 <= x < n && #[trigger] work@[x] == j && x != j ==> uv.col_ptr[j as int] <= srcq[x] < p && reaches(
                        etree@,
                        uv.row_idx[srcq[x]] as int,
                        x,
                    ),
                forall|q: int| uv.col_ptr[j as int] <= q < p ==> #[trigger] uv.row_idx[q] == j || work@[uv.row_idx[q] as int] == j,
            decreases uv.col_ptr[j + 1] - p,
        {
            let mut i = ai[p];
            proof {
                assert(uv.has(i as int, j as int));
            }
            let ghost i0 = i as int;
            while work[i] != j
                invariant
                    uv == u@,
                    n == uv.ncols,
                    n < usize::MAX,
                    j < n,
                    uv.col_ptr[j as int] <= p < uv.col_ptr[j + 1],
                    uv.col_ptr[j + 1] <= uv.row_idx.len(),
                    i0 == uv.row_idx[p as int],
                    etree@.len() == n,
                    lnz@.len() == n,
                    work@.len() == n,
                    e0.len() == n,
                    l0.len() == n,
                    work@[j as int] == j,
                    tree_before(uv, e0, l0, j as int),
                    0 <= i0 <= i <= j,
                    reaches(etree@, i0, i as int),
                    i == i0 || work@[i0] == j,
                    grafted(e0, etree@, j as int),
                    forall|x: int| 0 <= x < n && #[trigger] etree@[x] != e0[x] ==> work@[x] == j,
                    forall|x: int| 0 <= x < n ==> #[trigger] lnz@[x] == l0[x] + if work@[x] == j && x != j { 1int } else { 0int },
                    forall|x: int| 0 <= x < n ==> #[trigger] etree@[x] == usize::MAX || (x < etree@[x] && etree@[x] <= j),
                    forall|x: int| 0 <= x < n ==> #[trigger] work@[x] == usize::MAX || work@[x] <= j,
                    forall|r: int, c: int| #[trigger] uv.has(r, c) && r < c && c < j ==> reaches(etree@, r, c),
                    forall|x: int|
                        0 <= x < n && #[trigger] work@[x] == j ==> reaches(etree@, x, j as int) || (x < i && reaches(
                            etree@,
                            x,
                            i as int,
                        )),
                    forall|q: int| uv.col_ptr[j as int] <= q < p ==> reaches(etree@, #[trigger] uv.row_idx[q] as int, j as int),
                    forall|y: int|
                        0 <= y < n && #[trigger] work@[y] == j && y != j ==> y < j && etree@[y] != usize::MAX && y < etree@[y] && (
                        etree@[y] == j || work@[etree@[y] as int] == j || etree@[y] == i),
                    srcq.len() == n,
                    forall|x: int|
                        0 <= x < n && #[trigger] work@[x] == j && x != j ==> uv.col_ptr[j as int] <= srcq[x] <= p && reaches(
                            etree@,
                            uv.row_idx[srcq[x]] as int,
                            x,
                        ),
                    forall|q: int| uv.col_ptr[j as int] <= q < p ==> #[trigger] uv.row_idx[q] == j || work@[uv.row_idx[q] as int] == j,
                decreases j - i,
            {
                proof {
                    lemma_row_count_bound(uv, e0, i as int, j as int);
                }
                if etree[i] == usize::MAX {
                    let ghost eb = etree@;
                    etree.set(i, j);
                    proof {
                        assert(etree@ == eb.update(i as int, j));
                        assert(e0[i as int] == usize::MAX);
                        lemma_reaches_graft(eb, i as int, j, i0, i as int);
                        assert forall|r: int, c: int| #[trigger] uv.has(r, c) && r < c && c < j implies reaches(etree@, r, c) by {
                            lemma_reaches_graft(eb, i as int, j, r, c);
                        }
                        assert forall|x: int|
                            0 <= x < n && #[trigger] work@[x] == j implies reaches(etree@, x, j as int) || (x < i && reaches(
                                etree@,
                                x,
                                i as int,
                            )) by {
                            if reaches(eb, x, j as int) {
                                lemma_reaches_graft(eb, i as int, j, x, j as int);
                            } else {
                                lemma_reaches_graft(eb, i as int, j, x, i as int);
                            }
                        }
                        assert forall|q: int| uv.col_ptr[j as int] <= q < p implies reaches(etree@, #[trigger] uv.row_idx[q] as int, j as int) by {
                            lemma_reaches_graft(eb, i as int, j, uv.row_idx[q] as int, j as int);
                        }
                        assert forall|x: int|
                            0 <= x < n && #[trigger] work@[x] == j && x != j implies uv.col_ptr[j as int] <= srcq[x] <= p && reaches(
                                etree@,
                                uv.row_idx[srcq[x]] as int,
                                x,
                            ) by {
                            lemma_reaches_graft(eb, i as int, j, uv.row_idx[srcq[x]] as int, x);
                        }
                    }
                }
                lnz.set(i, lnz[i] + 1);
                work.set(i, j);
                proof {
                    srcq = srcq.update(i as int, p as int);
                }
                let next = etree[i];
                proof {
                    lemma_reaches_parent(etree@, i as int);
                    lemma_reaches_trans(etree@, i0, i as int, next as int);
                    assert forall|x: int|
                        0 <= x < n && #[trigger] work@[x] == j implies reaches(etree@, x, j as int) || (x < next && reaches(
                            etree@,
                            x,
                            next as int,
                        )) by {
                        if x != i && !reaches(etree@, x, j as int) {
                            lemma_reaches_trans(etree@, x, i as int, next as int);
                        }
                    }
                    assert forall|x: int|
                        0 <= x < n && #[trigger] work@[x] == j && x != j implies uv.col_ptr[j as int] <= srcq[x] <= p && reaches(
                            etree@,
                            uv.row_idx[srcq[x]] as int,
                            x,
                        ) by {
                        if x == i {
                            assert(srcq[x] == p);
                        }
                    }
                }
                i = next;
            }
            proof {
                assert(reaches(etree@, i as int, j as int));
                lemma_reaches_trans(etree@, i0, i as int, j as int);
                assert forall|x: int| 0 <= x < n && #[trigger] work@[x] == j implies reaches(etree@, x, j as int) by {
                    if !reaches(etree@, x, j as int) {
                        lemma_reaches_trans(etree@, x, i as int, j as int);
                    }
                }
            }
            p += 1;
        }
        proof {
            assert forall|r: int, c: int| #[trigger] uv.has(r, c) && r < c && c < j + 1 implies reaches(etree@, r, c) by {
                if c == j {
                    let q = choose|q: int| uv.col_ptr[c] <= q < uv.col_ptr[c + 1] && uv.row_idx[q] == r;
                    assert(reaches(etree@, uv.row_idx[q] as int, j as int));
                }
            }
            assert forall|k: int| 0 <= k < n implies ((#[trigger] work@[k] == j && k != j) <==> in_row(uv, etree@, j as int, k)) by {
                if work@[k] == j && k != j {
                    let q = srcq[k];
                    assert(uv.has(uv.row_idx[q] as int, j as int));
                }
                if in_row(uv, etree@, j as int, k) {
                    let i = choose|i: int| #[trigger] uv.has(i, j as int) && reaches(etree@, i, k) && reaches(etree@, k, j as int);
                    let q = choose|q: int| uv.col_ptr[j as int] <= q < uv.col_ptr[j + 1] && uv.row_idx[q] == i;
                    lemma_reaches_up(etree@, i, k);
                    assert(uv.row_idx[q] == j || work@[uv.row_idx[q] as int] == j);
                    lemma_marked_path(etree@, work@, j as int, i, k);
                }
            }
            lemma_column_done(uv, e0, l0, etree@, lnz@, work@, j as int);
        }
        j += 1;
    }
    let ghost total = factor_count(uv, etree@, n as int);
    proof {
        assert forall|kk: int|
            0 <= kk < n && #[trigger] etree@[kk] == usize::MAX implies forall|c: int| !#[trigger] in_row(uv, etree@, c, kk) by {
            assert forall|c: int| !#[trigger] in_row(uv, etree@, c, kk) by {
                if c < n {
                    assert(c < n as int);
                }
            }
        }
    }
    proof {
        assert(is_elimination_tree(uv, etree@));
    }
    let mut lp: Vec<usize> = Vec::new();
    lp.push(0);
    let mut acc: usize = 0;
    let mut k: usize = 0;
    while k < n
        invariant
            n == uv.ncols,
            total == factor_count(uv, etree@, n as int),
            total <= usize::MAX,
            lnz@.len() == n,
            forall|x: int| 0 <= x < n ==> #[trigger] lnz@[x] == row_count(uv, etree@, x, n as int),
            k <= n,
            lp@.len() == k + 1,
            lp@[0] == 0,
            lp@[k as int] == acc,
            acc == factor_count(uv, etree@, k as int),
            forall|x: int| 0 <= x < k ==> #[trigger] lp@[x + 1] == lp@[x] + row_count(uv, etree@, x, n as int),
            forall|a: int, b: int| 0 <= a <= b <= k ==> lp@[a] <= lp@[b],
        decreases n - k,
    {
        proof {
            lemma_factor_count_mono(uv, etree@, k + 1, n as int);
        }
        acc = acc + lnz[k];
        lp.push(acc);
        k += 1;
    }
    (etree, lp)
}

/// Column `j` holding an entry below the diagonal and no earlier column
/// holding one, `j` is the column that `analyse_error` reports.
proof fn lemma_first_below(v: SparsityView, j: int)
    requires
        first_below_diagonal(v, j),
    ensures
        (choose|jj: int| first_below_diagonal(v, jj)) == j,
{
    let jj = choose|jj: int| first_below_diagonal(v, jj);
    assert(first_below_diagonal(v, jj));
    if jj < j {
        assert(!below_diagonal(v, jj));
    }
    if jj > j {
        assert(!below_diagonal(v, j));
    }
}

/// The last entry of the first column holding an entry below the diagonal,
/// with that column, if any column does.
fn below_diagonal_entry(pattern: &Sparsity) -> (r: Option<(usize, usize)>)
    ensures
        r is None <==> forall|j: int| 0 <= j < pattern@.ncols ==> !#[trigger] below_diagonal(pattern@, j),
        r matches Some((last, j)) ==> first_below_diagonal(pattern@, j as int) && last
            == pattern@.row_idx[pattern@.col_ptr[j + 1] - 1],
{
    proof {
        use_type_invariant(pattern);
    }
    let ghost v = pattern@;
    let n = pattern.ncols();
    let mut j: usize = 0;
    while j < n
        invariant
            v == pattern@,
            v.wf(),
            n == v.ncols,
            j <= n,
            forall|jj: int| 0 <= jj < j ==> !#[trigger] below_diagonal(v, jj),
        decreases n - j,
    {
        let col = pattern.col(j);
        assert(v.col_ptr[j as int] <= v.col_ptr[j + 1] <= v.row_idx.len()) by {
            assert(v.col_ptr[j + 1] <= v.col_ptr[n as int]);
        }
        assert(v.col_sorted(j as int));
        if col.len() > 0 {
            let last = col[col.len() - 1];
            assert(last == v.row_idx[v.col_ptr[j + 1] - 1]);
            if last > j {
                assert(v.has(last as int, j as int));
                assert(below_diagonal(v, j as int));
                return Some((last, j));
            }
            proof {
                assert forall|i: int| #[trigger] v.has(i, j as int) implies i <= j by {
                    let p = choose|p: int| v.col_ptr[j as int] <= p < v.col_ptr[j + 1] && v.row_idx[p] == i;
                    if p < v.col_ptr[j + 1] - 1 {
                        assert(v.row_idx[p] < v.row_idx[v.col_ptr[j + 1] - 1]);
                    }
                }
            }
        }
        j += 1;
    }
    None
}

/// The symbolic analysis of a symmetric matrix: permutation, permuted
/// pattern, elimination tree and the structure of `L`. It depends only on
/// the pattern, so it is computed once and reused for every numeric
/// factorization.
#[derive(Debug)]
pub struct Symbolic {
    n: usize,
    perm: Vec<usize>,
    iperm: Vec<usize>,
    upper: Sparsity,
    value_map: Vec<usize>,
    diag_pos: Vec<usize>,
    etree: Vec<usize>,
    lp: Vec<usize>,
    ordering: PivotOrder,
}

impl View for Symbolic {
    type V = SymbolicView;

    closed spec fn view(&self) -> SymbolicView {
        SymbolicView {
            n: self.n as nat,
            perm: self.perm@,
            iperm: self.iperm@,
            upper: self.upper@,
            value_map: self.value_map@,
            diag_pos: self.diag_pos@,
            etree: self.etree@,
            lp: self.lp@,
            ordering: self.ordering,
        }
    }
}

impl Symbolic {
    /// Every analysis satisfies [`SymbolicView::wf`].
    #[verifier::type_invariant]
    pub open spec fn inv(&self) -> bool {
        self@.wf()
    }

    /// Analyse the structure of a symmetric matrix given by its upper
    /// triangle (row index at most the column index for every stored entry).
    ///
    /// Refuses, with [`LdltError::Structure`], a pattern that is not square
    /// or holds an entry below the diagonal, naming the last entry of the
    /// first such column.
    pub fn analyse(pattern: &Sparsity, ordering: PivotOrder) -> (res: Result<Symbolic, LdltError>)
        requires
            pattern@.ncols < usize::MAX,
            2 * pattern@.nnz() <= usize::MAX,
            square_upper(pattern@) ==> factor_fits(pattern@, ordering),
        ensures
            res is Ok <==> square_upper(pattern@),
            res matches Ok(s) ==> s@.analyses(pattern@, ordering),
            res matches Err(e) ==> e matches LdltError::Structure(m) && m@ == analyse_error(pattern@),
    {
        proof {
            use_type_invariant(pattern);
        }
        let ghost v = pattern@;
        let n = pattern.ncols();
        if pattern.nrows() != n {
            let mut e = text("matrix must be square, got ");
            push_decimal(&mut e, pattern.nrows());
            push_text(&mut e, "x");
            push_decimal(&mut e, n);
            return Err(LdltError::Structure(e));
        }
        match below_diagonal_entry(pattern) {
            Some((last, j)) => {
                proof {
                    lemma_first_below(v, j as int);
                }
                let mut e = text("entry (");
                push_decimal(&mut e, last);
                push_text(&mut e, ", ");
                push_decimal(&mut e, j);
                push_text(&mut e, ") is below the diagonal; supply the upper triangle");
                return Err(LdltError::Structure(e));
            },
            None => {},
        }
        assert(square_upper(v));
        Ok(Symbolic::build(pattern, ordering))
    }

    /// The analysis of a square upper-triangular pattern.
    fn build(pattern: &Sparsity, ordering: PivotOrder) -> (s: Symbolic)
        requires
            square_upper(pattern@),
            pattern@.ncols < usize::MAX,
            2 * pattern@.nnz() <= usize::MAX,
            factor_fits(pattern@, ordering),
        ensures
            s@.analyses(pattern@, ordering),
    {
        proof {
            use_type_invariant(pattern);
        }
        let ghost v = pattern@;
        let n = pattern.ncols();
        let cp = pattern.col_ptr();
        let ri = pattern.row_idx();
        assert((SparsityView { nrows: n as nat, ncols: n as nat, col_ptr: cp@, row_idx: ri@ }) == v);
        let perm = compute_ordering(n, cp, ri, ordering);
        let iperm = invert(perm.as_slice());
        let upper = permuted_pattern(pattern, &iperm);
        proof {
            assert forall|p: int| 0 <= p < v.nnz() implies #[trigger] upper@.has(
                placed(v, iperm@, p).0,
                placed(v, iperm@, p).1,
            ) by {
                assert(placed(v, iperm@, p) == (placed(v, iperm@, p).0, placed(v, iperm@, p).1));
            }
            assert forall|r: int, c: int| #[trigger] upper@.has(r, c) implies r <= c by {
                if !(r == c) {
                    let p = choose|p: int| 0 <= p < v.nnz() && #[trigger] placed(v, iperm@, p) == (r, c);
                }
            }
            assert forall|k: int| 0 <= k < n implies #[trigger] upper@.has(k, k) by {}
        }
        let value_map = map_entries(pattern, &iperm, &upper);
        let diag_pos = diagonal_positions(&upper);
        proof {
            use_type_invariant(&upper);
            assert forall|e: Seq<usize>| #[trigger] is_elimination_tree(upper@, e) implies factor_count(
                upper@,
                e,
                n as int,
            ) <= usize::MAX by {
                assert(analysis_shape(v, ordering, perm@, iperm@, upper@, e));
            }
        }
        let (etree, lp) = elimination_tree(&upper);
        proof {
            use_type_invariant(&upper);
            assert forall|p: int| 0 <= p < value_map@.len() implies #[trigger] value_map@[p] < upper@.nnz() by {
                let c = placed(v, iperm@, p).1;
                assert(upper@.has(placed(v, iperm@, p).0, c));
                assert(upper@.col_ptr[c + 1] <= upper@.col_ptr[n as int]);
            }
        }
        Symbolic { n, perm, iperm, upper, value_map, diag_pos, etree, lp, ordering }
    }

    /// Matrix dimension.
    pub fn n(&self) -> (r: usize)
        ensures
            r == self@.n,
    {
        self.n
    }

    /// Number of entries of `L` below its unit diagonal.
    pub fn l_nnz(&self) -> (r: usize)
        ensures
            r == self@.lp[self@.n as int],
    {
        proof {
            use_type_invariant(self);
        }
        self.lp[self.n]
    }

    /// The permutation used; `perm()[k]` is the input index of pivot `k`.
    pub fn perm(&self) -> (r: &[usize])
        ensures
            r@ == self@.perm,
    {
        self.perm.as_slice()
    }

    /// The inverse permutation; `inverse_perm()[i]` is the pivot position of
    /// input index `i`.
    pub fn inverse_perm(&self) -> (r: &[usize])
        ensures
            r@ == self@.iperm,
    {
        self.iperm.as_slice()
    }

    /// The ordering strategy that produced the permutation.
    pub fn ordering(&self) -> (r: PivotOrder)
        ensures
            r == self@.ordering,
    {
        self.ordering
    }

    /// The permuted upper-triangular pattern, with its whole diagonal.
    pub fn upper(&self) -> (r: &Sparsity)
        ensures
            r@ == self@.upper,
    {
        &self.upper
    }

    /// Where each input entry lands among the values of [`Symbolic::upper`].
    pub fn value_map(&self) -> (r: &[usize])
        ensures
            r@ == self@.value_map,
    {
        self.value_map.as_slice()
    }

    /// Position of each diagonal entry among the values of [`Symbolic::upper`].
    pub fn diag_pos(&self) -> (r: &[usize])
        ensures
            r@ == self@.diag_pos,
    {
        self.diag_pos.as_slice()
    }

    /// Parent of each pivot in the elimination tree, `usize::MAX` at roots.
    pub fn etree(&self) -> (r: &[usize])
        ensures
            r@ == self@.etree,
    {
        self.etree.as_slice()
    }

    /// Column pointers of the strictly lower part of `L`.
    pub fn l_col_ptr(&self) -> (r: &[usize])
        ensures
            r@ == self@.lp,
    {
        self.lp.as_slice()
    }
}

} // verus!
