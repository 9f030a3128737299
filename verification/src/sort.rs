//! Ordering vertices by degree, ties broken by index.
use vstd::prelude::*;

use crate::perm::bounded;

verus! {

/// `a` comes strictly before `b`: by degree (ascending, or descending when
/// `desc`), then by index.
pub open spec fn key_lt(deg: Seq<usize>, desc: bool, a: usize, b: usize) -> bool {
    if desc {
        deg[a as int] > deg[b as int] || (deg[a as int] == deg[b as int] && a < b)
    } else {
        deg[a as int] < deg[b as int] || (deg[a as int] == deg[b as int] && a < b)
    }
}

/// `s` is ordered by [`key_lt`].
pub open spec fn sorted_by_key(deg: Seq<usize>, desc: bool, s: Seq<usize>) -> bool {
    forall|p: int, q: int| 0 <= p < q < s.len() ==> !key_lt(deg, desc, s[q], s[p])
}

/// Executable [`key_lt`].
pub fn key_less(deg: &Vec<usize>, desc: bool, a: usize, b: usize) -> (r: bool)
    requires
        a < deg@.len(),
        b < deg@.len(),
    ensures
        r == key_lt(deg@, desc, a, b),
{
    if desc {
        deg[a] > deg[b] || (deg[a] == deg[b] && a < b)
    } else {
        deg[a] < deg[b] || (deg[a] == deg[b] && a < b)
    }
}

proof fn lemma_insert_multiset(s: Seq<usize>, pos: int, x: usize)
    requires
        0 <= pos <= s.len(),
    ensures
        s.insert(pos, x).to_multiset() =~= s.to_multiset().insert(x),
{
    broadcast use vstd::seq_lib::group_to_multiset_ensures;

    let t = s.insert(pos, x);
    assert(t.remove(pos) =~= s);
    assert(t.remove(pos).to_multiset() =~= t.to_multiset().remove(x));
    assert(t.to_multiset().count(x) > 0) by {
        assert(t[pos] == x);
        assert(t.contains(x));
    }
}

/// The items ordered by [`key_lt`], a rearrangement of the input.
pub fn sort_by_key(items: &Vec<usize>, deg: &Vec<usize>, desc: bool) -> (r: Vec<usize>)
    requires
        bounded(items@, deg@.len()),
    ensures
        r@.to_multiset() =~= items@.to_multiset(),
        r@.len() == items@.len(),
        bounded(r@, deg@.len()),
        sorted_by_key(deg@, desc, r@),
{
    broadcast use vstd::seq_lib::group_to_multiset_ensures;

    let mut r: Vec<usize> = Vec::new();
    let mut k: usize = 0;
    while k < items.len()
        invariant
            k <= items@.len(),
            bounded(items@, deg@.len()),
            r@.to_multiset() =~= items@.take(k as int).to_multiset(),
            r@.len() == k,
            bounded(r@, deg@.len()),
            sorted_by_key(deg@, desc, r@),
        decreases items@.len() - k,
    {
        let x = items[k];
        let mut pos: usize = 0;
        let ghost r0 = r@;
        while pos < r.len() && !key_less(deg, desc, x, r[pos])
            invariant
                r@ == r0,
                pos <= r@.len(),
                x < deg@.len(),
                bounded(r@, deg@.len()),
                forall|q: int| 0 <= q < pos ==> !key_lt(deg@, desc, x, r@[q]),
            decreases r@.len() - pos,
        {
            pos += 1;
        }
        let ghost before = r@;
        r.insert(pos, x);
        proof {
            lemma_insert_multiset(before, pos as int, x);
            assert(r@ == before.insert(pos as int, x));
            assert(items@.take(k + 1) =~= items@.take(k as int).push(x));
            vstd::seq_lib::to_multiset_build(items@.take(k as int), x);
            assert(r@.to_multiset() =~= items@.take(k + 1).to_multiset());
            assert forall|p: int, q: int| 0 <= p < q < r@.len() implies !key_lt(deg@, desc, r@[q], r@[p]) by {
                if q < pos {
                } else if q == pos {
                    // r[p] = before[p], and x is not below it.
                    assert(!key_lt(deg@, desc, x, before[p]));
                } else if p < pos {
                    assert(!key_lt(deg@, desc, before[q - 1], before[p]));
                } else if p == pos {
                    // x is below before[pos] <= before[q - 1].
                    assert(key_lt(deg@, desc, x, before[pos as int]));
                    if q - 1 > pos {
                        assert(!key_lt(deg@, desc, before[q - 1], before[pos as int]));
                    }
                } else {
                    assert(!key_lt(deg@, desc, before[q - 1], before[p - 1]));
                }
            }
        }
        k += 1;
    }
    assert(items@.take(items@.len() as int) =~= items@);
    r
}

} // verus!
