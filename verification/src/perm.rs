//! Permutations of `[0, n)` as mathematical sequences.
//!
//! A preference row is a strict total order over the opposite side of the
//! instance, written as a sequence of partner indices.  This module defines
//! what it means for such a sequence to be a permutation and proves the
//! facts about inverses that the rank-matrix transform relies on.

use vstd::prelude::*;

verus! {

/// `s` is a permutation of `[0, n)`: it has length `n`, every entry is an
/// index below `n`, no entry repeats, and every index below `n` occurs.
pub open spec fn is_perm(s: Seq<usize>, n: nat) -> bool {
    &&& s.len() == n
    &&& forall|i: int| 0 <= i < n ==> #[trigger] s[i] < n
    &&& forall|i: int, j: int|
        #![trigger s[i], s[j]]
        0 <= i < n && 0 <= j < n && i != j ==> s[i] != s[j]
    &&& forall|v: usize| v < n ==> #[trigger] s.contains(v)
}

/// `q` inverts `p`: the entry of `q` at position `p[i]` is `i`.
pub open spec fn is_inverse_of(q: Seq<usize>, p: Seq<usize>) -> bool {
    &&& q.len() == p.len()
    &&& forall|i: int| 0 <= i < p.len() ==> #[trigger] q[p[i] as int] == i
}

/// The inverse of a permutation is itself a permutation and inverts in both
/// directions: `p[q[v]] == v` for every `v < n`.
pub proof fn lemma_inverse_of_perm(p: Seq<usize>, q: Seq<usize>, n: nat)
    requires
        n <= usize::MAX,
        is_perm(p, n),
        is_inverse_of(q, p),
    ensures
        is_perm(q, n),
        is_inverse_of(p, q),
{
    assert forall|j: int| 0 <= j < n implies #[trigger] q[j] < n && p[q[j] as int] == j by {
        assert(p.contains(j as usize));
        let i = choose|i: int| 0 <= i < p.len() && #[trigger] p[i] == j as usize;
        assert(q[p[i] as int] == i);
    }
    assert forall|i: int, j: int|
        #![trigger q[i], q[j]]
        0 <= i < n && 0 <= j < n && i != j implies q[i] != q[j] by {
        assert(p[q[i] as int] == i);
        assert(p[q[j] as int] == j);
    }
    assert forall|v: usize| v < n implies #[trigger] q.contains(v) by {
        assert(q[p[v as int] as int] == v as int);
        assert(0 <= p[v as int] < n);
    }
}

/// Reversing a permutation yields a permutation.
pub proof fn lemma_reverse_perm(s: Seq<usize>, n: nat)
    requires
        is_perm(s, n),
    ensures
        is_perm(s.reverse(), n),
{
    let r = s.reverse();
    assert(r.len() == n);
    assert(forall|i: int| 0 <= i < n ==> #[trigger] r[i] == s[n - 1 - i]);
    assert forall|v: usize| v < n implies #[trigger] r.contains(v) by {
        assert(s.contains(v));
        let i = choose|i: int| 0 <= i < s.len() && s[i] == v;
        assert(r[n - 1 - i] == v);
    }
}

/// Inverting twice gives back the original permutation.
///
/// This is the round-trip law of the rank-matrix transform: the rank table
/// built from a preference row is itself a permutation, and building a rank
/// table from the rank table restores the preference row.
pub proof fn lemma_inverse_involution(p: Seq<usize>, q: Seq<usize>, r: Seq<usize>, n: nat)
    requires
        n <= usize::MAX,
        is_perm(p, n),
        is_inverse_of(q, p),
        is_inverse_of(r, q),
    ensures
        r == p,
{
    lemma_inverse_of_perm(p, q, n);
    assert forall|j: int| 0 <= j < n implies r[j] == p[j] by {
        assert(q[p[j] as int] == j);
        assert(r[q[p[j] as int] as int] == p[j] as int);
    }
    assert(r =~= p);
}

} // verus!
