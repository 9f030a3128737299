//! Permutations of `0..n` and the counting facts they rest on.
use vstd::prelude::*;
use vstd::set_lib::{lemma_int_range, lemma_len_subset, set_int_range};

verus! {

/// No value occurs twice in `s`.
pub open spec fn distinct(s: Seq<usize>) -> bool {
    forall|a: int, b: int| 0 <= a < b < s.len() ==> s[a] != s[b]
}

/// Value `x` occurs in `s`.
pub open spec fn occurs(s: Seq<usize>, x: int) -> bool {
    exists|k: int| 0 <= k < s.len() && s[k] == x
}

/// Every value of `s` lies below `n`.
pub open spec fn bounded(s: Seq<usize>, n: nat) -> bool {
    forall|k: int| 0 <= k < s.len() ==> s[k] < n
}

/// `s` is a permutation of `0..n`: `n` distinct values below `n`.
pub open spec fn is_permutation(s: Seq<usize>, n: nat) -> bool {
    &&& s.len() == n
    &&& bounded(s, n)
    &&& distinct(s)
}

/// `inv` undoes `perm`: `inv[perm[k]] == k` for every position `k`.
pub open spec fn is_inverse(perm: Seq<usize>, inv: Seq<usize>) -> bool {
    &&& inv.len() == perm.len()
    &&& forall|k: int| 0 <= k < perm.len() ==> inv[perm[k] as int] == k
}

/// The values of `s` as mathematical integers.
pub open spec fn as_ints(s: Seq<usize>) -> Seq<int> {
    s.map_values(|x: usize| x as int)
}

/// The values of a sequence of distinct values below `n`, as a set of
/// integers: as many as the sequence has entries, all below `n`.
pub proof fn lemma_as_ints_set(s: Seq<usize>, n: nat)
    requires
        distinct(s),
        bounded(s, n),
    ensures
        as_ints(s).to_set().finite(),
        as_ints(s).to_set().len() == s.len(),
        as_ints(s).to_set().subset_of(set_int_range(0, n as int)),
        forall|x: int| as_ints(s).to_set().contains(x) <==> #[trigger] occurs(s, x),
{
    let t = as_ints(s);
    assert(t.no_duplicates()) by {
        assert forall|a: int, b: int| 0 <= a < t.len() && 0 <= b < t.len() && a != b implies t[a] != t[b] by {
            if a < b {
                assert(s[a] != s[b]);
            } else {
                assert(s[b] != s[a]);
            }
        }
    }
    t.unique_seq_to_set();
    vstd::seq_lib::seq_to_set_is_finite(t);
    assert forall|x: int| t.to_set().contains(x) <==> #[trigger] occurs(s, x) by {
        if t.to_set().contains(x) {
            assert(t.contains(x));
            let k = choose|k: int| 0 <= k < t.len() && t[k] == x;
            assert(s[k] == x);
        }
        if occurs(s, x) {
            let k = choose|k: int| 0 <= k < s.len() && s[k] == x;
            assert(t[k] == x);
            assert(t.contains(x));
        }
    }
}

/// Appending `x` adds exactly `x` to what occurs.
pub proof fn lemma_occurs_push(s: Seq<usize>, x: usize, y: int)
    ensures
        occurs(s.push(x), y) <==> (occurs(s, y) || y == x),
{
    let t = s.push(x);
    if occurs(t, y) {
        let k = choose|k: int| 0 <= k < t.len() && t[k] == y;
        if k < s.len() {
            assert(s[k] == y);
        }
    }
    if occurs(s, y) {
        let k = choose|k: int| 0 <= k < s.len() && s[k] == y;
        assert(t[k] == y);
    }
    if y == x {
        assert(t[s.len() as int] == y);
    }
}

/// A sequence of distinct values below `n` has at most `n` entries.
pub proof fn lemma_distinct_bounded_len(s: Seq<usize>, n: nat)
    requires
        distinct(s),
        bounded(s, n),
    ensures
        s.len() <= n,
{
    lemma_as_ints_set(s, n);
    lemma_int_range(0, n as int);
    lemma_len_subset(as_ints(s).to_set(), set_int_range(0, n as int));
}

/// A sequence of `n` distinct values below `n` holds every value below `n`.
pub proof fn lemma_permutation_covers(s: Seq<usize>, n: nat)
    requires
        is_permutation(s, n),
    ensures
        forall|x: int| 0 <= x < n ==> #[trigger] occurs(s, x),
{
    let a = as_ints(s).to_set();
    let r = set_int_range(0, n as int);
    lemma_as_ints_set(s, n);
    lemma_int_range(0, n as int);
    assert forall|x: int| 0 <= x < n implies #[trigger] occurs(s, x) by {
        if !a.contains(x) {
            assert(a.subset_of(r.remove(x)));
            lemma_len_subset(a, r.remove(x));
        }
    }
}

/// A sequence of distinct values below `n` that holds every value below
/// `n` is a permutation of `0..n`.
pub proof fn lemma_covering_is_permutation(s: Seq<usize>, n: nat)
    requires
        distinct(s),
        bounded(s, n),
        forall|x: int| 0 <= x < n ==> #[trigger] occurs(s, x),
    ensures
        is_permutation(s, n),
{
    let a = as_ints(s).to_set();
    let r = set_int_range(0, n as int);
    lemma_as_ints_set(s, n);
    lemma_int_range(0, n as int);
    assert forall|x: int| r.contains(x) implies a.contains(x) by {
        assert(occurs(s, x));
    }
    assert(r.subset_of(a));
    lemma_len_subset(r, a);
    lemma_len_subset(a, r);
}

/// Inverting twice gives back the permutation: if `q` undoes the
/// permutation `p` and `r` undoes `q`, then `r` is `p`.
pub proof fn lemma_inverse_involution(p: Seq<usize>, q: Seq<usize>, r: Seq<usize>, n: nat)
    requires
        is_permutation(p, n),
        is_inverse(p, q),
        is_inverse(q, r),
    ensures
        r == p,
{
    assert forall|k: int| 0 <= k < n implies r[k] == p[k] by {
        assert(q[p[k] as int] == k);
        assert(r[q[p[k] as int] as int] == p[k]);
    }
    assert(r =~= p);
}

} // verus!
