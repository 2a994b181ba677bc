//! Random preference generation for synthetic instances.

use vstd::prelude::*;

use crate::perm::is_perm;

verus! {

/// Relies on `rand::seq::index::sample`, which returns exactly `amount`
/// distinct indices drawn from `0..length` in arbitrary order; called with
/// `amount == length == n` the result is a uniformly random permutation of
/// `[0, n)`.  `rand::thread_rng` supplies the generator and
/// `IndexVec::into_vec` converts the result.  No promise is made about
/// which permutation comes back.  For `length` above `u32::MAX`, `sample`
/// switches to a rejection sampler that debug-asserts `amount < length`,
/// so a full-length sample of that size can panic; the bound below keeps
/// that input out (an instance that large could not hold its own
/// preference matrix anyway).
#[verifier::external_body]
fn random_perm(n: usize) -> (r: Vec<usize>)
    requires
        n <= u32::MAX as usize,
    ensures
        is_perm(r@, n as nat),
{
    rand::seq::index::sample(&mut rand::thread_rng(), n, n).into_vec()
}

/// A square matrix of `n` independently sampled random permutation rows.
pub(crate) fn rand_pref_matrix(n: usize) -> (r: Vec<Vec<usize>>)
    requires
        n <= u32::MAX as usize,
    ensures
        r@.len() == n,
        forall|i: int| 0 <= i < n ==> is_perm((#[trigger] r@[i])@, n as nat),
    decreases n,
{
    let mut r: Vec<Vec<usize>> = Vec::new();
    let mut i: usize = 0;
    while i < n
        invariant
            n <= u32::MAX as usize,
            i <= n,
            r@.len() == i,
            forall|j: int| 0 <= j < i ==> is_perm((#[trigger] r@[j])@, n as nat),
        decreases n - i,
    {
        r.push(random_perm(n));
        i = i + 1;
    }
    r
}

} // verus!
