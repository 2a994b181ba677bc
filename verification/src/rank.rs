//! Rank-matrix transforms that preprocess preference matrices into the
//! engine's internal representation.
//!
//! A raw preference row lists partner indices most-preferred first.  The
//! engine wants (a) the row reversed, so that the most preferred remaining
//! partner can be popped from the end, and (b) for each receiver the inverse
//! of her row: a rank table mapping proposer index to preference rank.

use vstd::prelude::*;

use crate::perm::is_inverse_of;
use crate::perm::is_perm;
use crate::perm::lemma_inverse_of_perm;

verus! {

/// Reverse one preference row.
fn reverse_row(row: &Vec<usize>) -> (r: Vec<usize>)
    ensures
        r@ == row@.reverse(),
{
    let n = row.len();
    let mut r: Vec<usize> = Vec::new();
    let mut i: usize = 0;
    while i < n
        invariant
            i <= n,
            n == row@.len(),
            r@.len() == i,
            forall|j: int| 0 <= j < i ==> #[trigger] r@[j] == row@[n - 1 - j],
        decreases n - i,
    {
        r.push(row[n - 1 - i]);
        i = i + 1;
    }
    assert(r@ =~= row@.reverse());
    r
}

/// Reverse every proposer's preference row in a square matrix, so that
/// "take next best" becomes a pop from the end.
pub fn make_men_preferences(p: Vec<Vec<usize>>) -> (r: Vec<Vec<usize>>)
    requires
        forall|m: int| 0 <= m < p@.len() ==> (#[trigger] p@[m])@.len() == p@.len(),
    ensures
        r@.len() == p@.len(),
        forall|m: int| 0 <= m < p@.len() ==> (#[trigger] r@[m])@ == p@[m]@.reverse(),
{
    let n = p.len();
    let mut r: Vec<Vec<usize>> = Vec::new();
    let mut m: usize = 0;
    while m < n
        invariant
            m <= n,
            n == p@.len(),
            r@.len() == m,
            forall|j: int| 0 <= j < m ==> (#[trigger] r@[j])@ == p@[j]@.reverse(),
        decreases n - m,
    {
        let rev = reverse_row(&p[m]);
        r.push(rev);
        m = m + 1;
    }
    r
}

/// Invert one permutation row: the result holds, at position `v`, the index
/// at which `v` stands in `row`.
fn invert_row(row: &Vec<usize>) -> (r: Vec<usize>)
    requires
        is_perm(row@, row@.len()),
    ensures
        is_inverse_of(r@, row@),
        is_perm(r@, row@.len()),
{
    let n = row.len();
    let mut r: Vec<usize> = vec![0; n];
    let mut i: usize = 0;
    while i < n
        invariant
            i <= n,
            n == row@.len(),
            is_perm(row@, row@.len()),
            r@.len() == n,
            forall|j: int| 0 <= j < i ==> #[trigger] r@[row@[j] as int] == j,
        decreases n - i,
    {
        let v = row[i];
        let ghost prev = r@;
        r[v] = i;
        assert forall|j: int| 0 <= j < i + 1 implies #[trigger] r@[row@[j] as int] == j by {
            if j < i {
                assert(row@[j] != row@[i as int]);
                assert(prev[row@[j] as int] == j);
            }
        }
        i = i + 1;
    }
    proof {
        lemma_inverse_of_perm(row@, r@, row@.len());
    }
    r
}

/// Turn a square matrix of preference rows (each a permutation, most
/// preferred first) into the matrix of rank tables: entry `[w][m]` of the
/// result is the rank partner `m` has in row `w` (0 = most preferred).
pub fn make_rank_matrix(p: Vec<Vec<usize>>) -> (r: Vec<Vec<usize>>)
    requires
        forall|w: int| 0 <= w < p@.len() ==> is_perm((#[trigger] p@[w])@, p@.len()),
    ensures
        r@.len() == p@.len(),
        forall|w: int| 0 <= w < p@.len() ==> is_inverse_of((#[trigger] r@[w])@, p@[w]@),
        forall|w: int| 0 <= w < p@.len() ==> is_perm((#[trigger] r@[w])@, p@.len()),
{
    let n = p.len();
    let mut r: Vec<Vec<usize>> = Vec::new();
    let mut w: usize = 0;
    while w < n
        invariant
            w <= n,
            n == p@.len(),
            forall|j: int| 0 <= j < n ==> is_perm((#[trigger] p@[j])@, n as nat),
            r@.len() == w,
            forall|j: int| 0 <= j < w ==> is_inverse_of((#[trigger] r@[j])@, p@[j]@),
            forall|j: int| 0 <= j < w ==> is_perm((#[trigger] r@[j])@, n as nat),
        decreases n - w,
    {
        let inv = invert_row(&p[w]);
        r.push(inv);
        w = w + 1;
    }
    r
}

} // verus!
