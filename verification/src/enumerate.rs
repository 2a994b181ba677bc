//! Exhaustive enumeration of preference orders and preference matrices.
//!
//! Permutations of `[0, n)` are produced by recursive insertion: each
//! permutation of `[0, n-1)` yields `n` permutations of `[0, n)` by
//! inserting `n - 1` at every possible position.  Preference matrices are
//! the row-wise cross product of permutations, optionally with the first
//! row held fixed to the identity order (a relabeling-symmetry
//! optimization chosen by the caller).

use vstd::prelude::*;

use crate::engine::rows_of;
use crate::perm::is_perm;

verus! {

/// All sequences obtained by inserting `x` into `v`, position by position.
pub open spec fn insert_all(v: Seq<usize>, x: usize) -> Seq<Seq<usize>> {
    Seq::new(v.len() + 1, |i: int| v.insert(i, x))
}

/// The insertion map for a fixed new element, named so that proofs can
/// refer to one and the same function value.
pub open spec fn insertions_of(x: usize) -> spec_fn(Seq<usize>) -> Seq<Seq<usize>> {
    |v: Seq<usize>| insert_all(v, x)
}

/// Every permutation of `[0, n)`, in the order the generator produces them.
pub open spec fn all_perms(n: nat) -> Seq<Seq<usize>>
    decreases n,
{
    if n == 0 {
        seq![Seq::<usize>::empty()]
    } else {
        all_perms((n - 1) as nat).flat_map(insertions_of((n - 1) as usize))
    }
}

/// Wrap a preference row as a one-row matrix.
pub open spec fn single_row() -> spec_fn(Seq<usize>) -> Seq<Seq<usize>> {
    |p: Seq<usize>| seq![p]
}

/// Extend each matrix by each of the given rows.
pub open spec fn extended_with(perms: Seq<Seq<usize>>) -> spec_fn(Seq<Seq<usize>>) -> Seq<
    Seq<Seq<usize>>,
> {
    |mt: Seq<Seq<usize>>| perms.map_values(|p: Seq<usize>| mt.push(p))
}

/// The identity preference order.
pub open spec fn identity_perm(n: nat) -> Seq<usize> {
    Seq::new(n, |i: int| i as usize)
}

/// Every preference matrix with the given number of rows over permutations
/// of `[0, n)`; with `fixed_first` the first row is the identity order.
pub open spec fn all_pref_matrices_upto(n: nat, rows: nat, fixed_first: bool) -> Seq<
    Seq<Seq<usize>>,
>
    decreases rows,
{
    if rows <= 1 {
        if fixed_first {
            seq![seq![identity_perm(n)]]
        } else {
            all_perms(n).map_values(single_row())
        }
    } else {
        all_pref_matrices_upto(n, (rows - 1) as nat, fixed_first).flat_map(
            extended_with(all_perms(n)),
        )
    }
}

/// Every full preference matrix for an instance of size `n` (matrices have
/// `n` rows, or a single row at size zero, mirroring the generator).
pub open spec fn all_pref_matrices(n: nat, fixed_first: bool) -> Seq<Seq<Seq<usize>>> {
    all_pref_matrices_upto(n, if n == 0 { 1nat } else { n }, fixed_first)
}

/// An element of one of the mapped sequences is an element of the flat map.
proof fn lemma_flat_map_member<A, B>(s: Seq<A>, f: spec_fn(A) -> Seq<B>, k: int, x: B)
    requires
        0 <= k < s.len(),
        f(s[k]).contains(x),
    ensures
        s.flat_map(f).contains(x),
    decreases s.len(),
{
    let d = s.drop_last();
    assert(d.push(s.last()) =~= s);
    d.lemma_flat_map_push(f, s.last());
    assert(s.flat_map(f) == d.flat_map(f) + f(s.last()));
    if k == s.len() - 1 {
        let o = choose|o: int| 0 <= o < f(s.last()).len() && (#[trigger] f(s.last())[o]) == x;
        assert(s.flat_map(f)[d.flat_map(f).len() + o] == x);
    } else {
        assert(d[k] == s[k]);
        lemma_flat_map_member(d, f, k, x);
        let j = choose|j: int| 0 <= j < d.flat_map(f).len() && d.flat_map(f)[j] == x;
        assert(s.flat_map(f)[j] == x);
    }
}

/// Every element of a flat map comes from one of the mapped sequences.
proof fn lemma_flat_map_origin<A, B>(s: Seq<A>, f: spec_fn(A) -> Seq<B>, j: int) -> (r: (
    int,
    int,
))
    requires
        0 <= j < s.flat_map(f).len(),
    ensures
        0 <= r.0 < s.len(),
        0 <= r.1 < f(s[r.0]).len(),
        s.flat_map(f)[j] == f(s[r.0])[r.1],
    decreases s.len(),
{
    if s.len() == 0 {
        assert(s.map_values(f).flatten() =~= Seq::<B>::empty());
        (0, 0)
    } else {
        let d = s.drop_last();
        assert(d.push(s.last()) =~= s);
        d.lemma_flat_map_push(f, s.last());
        assert(s.flat_map(f) == d.flat_map(f) + f(s.last()));
        if j < d.flat_map(f).len() {
            let r = lemma_flat_map_origin(d, f, j);
            assert(d[r.0] == s[r.0]);
            r
        } else {
            (s.len() - 1, j - d.flat_map(f).len())
        }
    }
}

/// Inserting the new largest element anywhere into a permutation of
/// `[0, n)` gives a permutation of `[0, n + 1)`.
proof fn lemma_insert_perm(v: Seq<usize>, n: nat, i: int)
    requires
        is_perm(v, n),
        n < usize::MAX,
        0 <= i <= v.len(),
    ensures
        is_perm(v.insert(i, n as usize), n + 1),
{
    let w = v.insert(i, n as usize);
    v.insert_ensures(i, n as usize);
    assert forall|a: int, b: int|
        #![trigger w[a], w[b]]
        0 <= a < n + 1 && 0 <= b < n + 1 && a != b implies w[a] != w[b] by {
        if a != i && b != i {
            let a0 = if a < i { a } else { a - 1 };
            let b0 = if b < i { b } else { b - 1 };
            assert(w[a] == v[a0] && w[b] == v[b0]);
        } else if a == i {
            let b0 = if b < i { b } else { b - 1 };
            assert(w[b] == v[b0] && v[b0] < n);
        } else {
            let a0 = if a < i { a } else { a - 1 };
            assert(w[a] == v[a0] && v[a0] < n);
        }
    }
    assert forall|x: usize| x < n + 1 implies #[trigger] w.contains(x) by {
        if x == n {
            assert(w[i] == x);
        } else {
            assert(v.contains(x));
            let a0 = choose|a0: int| 0 <= a0 < v.len() && v[a0] == x;
            if a0 < i {
                assert(w[a0] == x);
            } else {
                assert(w[a0 + 1] == x);
            }
        }
    }
    assert forall|a: int| 0 <= a < n + 1 implies #[trigger] w[a] < n + 1 by {
        if a != i {
            let a0 = if a < i { a } else { a - 1 };
            assert(w[a] == v[a0]);
        }
    }
}

/// The enumerator of orderings is sound: everything it lists is a
/// permutation of `[0, n)`.
pub proof fn lemma_all_perms_sound(n: nat)
    requires
        n <= usize::MAX,
    ensures
        forall|j: int| 0 <= j < all_perms(n).len() ==> is_perm(#[trigger] all_perms(n)[j], n),
    decreases n,
{
    if n == 0 {
        assert(all_perms(0)[0] =~= Seq::<usize>::empty());
        assert(is_perm(all_perms(0)[0], 0));
    } else {
        lemma_all_perms_sound((n - 1) as nat);
        let prev = all_perms((n - 1) as nat);
        let f = insertions_of((n - 1) as usize);
        assert forall|j: int| 0 <= j < all_perms(n).len() implies is_perm(
            #[trigger] all_perms(n)[j],
            n,
        ) by {
            let r = lemma_flat_map_origin(prev, f, j);
            let v = prev[r.0];
            assert(is_perm(v, (n - 1) as nat));
            assert(f(v)[r.1] == v.insert(r.1, (n - 1) as usize));
            lemma_insert_perm(v, (n - 1) as nat, r.1);
        }
    }
}

/// The enumerator of orderings is complete: every permutation of `[0, n)`
/// is listed.
pub proof fn lemma_all_perms_complete(n: nat, s: Seq<usize>)
    requires
        n <= usize::MAX,
        is_perm(s, n),
    ensures
        all_perms(n).contains(s),
    decreases n,
{
    if n == 0 {
        assert(s =~= Seq::<usize>::empty());
        assert(all_perms(0)[0] == s);
    } else {
        let x = (n - 1) as usize;
        assert(s.contains(x));
        let p = choose|p: int| 0 <= p < s.len() && s[p] == x;
        let v = s.remove(p);
        s.remove_ensures(p);
        assert(is_perm(v, (n - 1) as nat)) by {
            assert forall|a: int, b: int|
                #![trigger v[a], v[b]]
                0 <= a < n - 1 && 0 <= b < n - 1 && a != b implies v[a] != v[b] by {
                let a0 = if a < p { a } else { a + 1 };
                let b0 = if b < p { b } else { b + 1 };
                assert(v[a] == s[a0] && v[b] == s[b0]);
            }
            assert forall|a: int| 0 <= a < n - 1 implies #[trigger] v[a] < n - 1 by {
                let a0 = if a < p { a } else { a + 1 };
                assert(v[a] == s[a0]);
                assert(s[a0] != s[p]);
            }
            assert forall|y: usize| y < n - 1 implies #[trigger] v.contains(y) by {
                assert(s.contains(y));
                let a0 = choose|a0: int| 0 <= a0 < s.len() && s[a0] == y;
                assert(a0 != p);
                if a0 < p {
                    assert(v[a0] == y);
                } else {
                    assert(v[a0 - 1] == y);
                }
            }
        }
        lemma_all_perms_complete((n - 1) as nat, v);
        let prev = all_perms((n - 1) as nat);
        let k = choose|k: int| 0 <= k < prev.len() && prev[k] == v;
        let f = insertions_of(x);
        assert(s =~= v.insert(p, x)) by {
            v.insert_ensures(p, x);
        }
        assert(f(prev[k])[p] == s);
        assert(f(prev[k]).contains(s));
        lemma_flat_map_member(prev, f, k, s);
    }
}

/// What the matrix enumerator promises of each listed matrix: the right
/// number of rows (one when `n == 0`, mirroring the generator), every row
/// a permutation, and the identity first row when it is held fixed.
pub open spec fn valid_pref_matrix(n: nat, fixed_first: bool, mt: Seq<Seq<usize>>) -> bool {
    &&& mt.len() == if n == 0 {
        1nat
    } else {
        n
    }
    &&& forall|i: int| 0 <= i < mt.len() ==> is_perm(#[trigger] mt[i], n)
    &&& fixed_first ==> mt[0] == identity_perm(n)
}

proof fn lemma_identity_perm(n: nat)
    requires
        n <= usize::MAX,
    ensures
        is_perm(identity_perm(n), n),
{
    let s = identity_perm(n);
    assert forall|v: usize| v < n implies #[trigger] s.contains(v) by {
        assert(s[v as int] == v);
    }
}

proof fn lemma_matrices_upto_sound(n: nat, rows: nat, fixed_first: bool)
    requires
        n <= usize::MAX,
        rows >= 1,
    ensures
        forall|j: int|
            0 <= j < all_pref_matrices_upto(n, rows, fixed_first).len() ==> {
                let mt = #[trigger] all_pref_matrices_upto(n, rows, fixed_first)[j];
                &&& mt.len() == rows
                &&& forall|i: int| 0 <= i < mt.len() ==> is_perm(#[trigger] mt[i], n)
                &&& fixed_first ==> mt[0] == identity_perm(n)
            },
    decreases rows,
{
    lemma_all_perms_sound(n);
    if rows == 1 {
        if fixed_first {
            lemma_identity_perm(n);
        } else {
            assert forall|j: int|
                0 <= j < all_pref_matrices_upto(n, 1, fixed_first).len() implies {
                let mt = #[trigger] all_pref_matrices_upto(n, 1, fixed_first)[j];
                &&& mt.len() == 1
                &&& forall|i: int| 0 <= i < mt.len() ==> is_perm(#[trigger] mt[i], n)
                &&& fixed_first ==> mt[0] == identity_perm(n)
            } by {
                assert(all_pref_matrices_upto(n, 1, fixed_first)[j] == single_row()(
                    all_perms(n)[j],
                ));
            }
        }
    } else {
        lemma_matrices_upto_sound(n, (rows - 1) as nat, fixed_first);
        let cs = all_pref_matrices_upto(n, (rows - 1) as nat, fixed_first);
        let g = extended_with(all_perms(n));
        assert forall|j: int|
            0 <= j < all_pref_matrices_upto(n, rows, fixed_first).len() implies {
            let mt = #[trigger] all_pref_matrices_upto(n, rows, fixed_first)[j];
            &&& mt.len() == rows
            &&& forall|i: int| 0 <= i < mt.len() ==> is_perm(#[trigger] mt[i], n)
            &&& fixed_first ==> mt[0] == identity_perm(n)
        } by {
            let r = lemma_flat_map_origin(cs, g, j);
            let mt = all_pref_matrices_upto(n, rows, fixed_first)[j];
            assert(mt == cs[r.0].push(all_perms(n)[r.1]));
            assert(forall|i: int|
                0 <= i < rows - 1 ==> (#[trigger] mt[i]) == cs[r.0][i]);
        }
    }
}

proof fn lemma_matrices_upto_complete(n: nat, rows: nat, fixed_first: bool, mt: Seq<Seq<usize>>)
    requires
        n <= usize::MAX,
        rows >= 1,
        mt.len() == rows,
        forall|i: int| 0 <= i < mt.len() ==> is_perm(#[trigger] mt[i], n),
        fixed_first ==> mt[0] == identity_perm(n),
    ensures
        all_pref_matrices_upto(n, rows, fixed_first).contains(mt),
    decreases rows,
{
    if rows == 1 {
        if fixed_first {
            assert(mt =~= seq![identity_perm(n)]);
            assert(all_pref_matrices_upto(n, 1, fixed_first)[0] == mt);
        } else {
            lemma_all_perms_complete(n, mt[0]);
            let k = choose|k: int|
                0 <= k < all_perms(n).len() && (#[trigger] all_perms(n)[k]) == mt[0];
            assert(all_pref_matrices_upto(n, 1, fixed_first)[k] == single_row()(
                all_perms(n)[k],
            ));
            assert(all_pref_matrices_upto(n, 1, fixed_first)[k] =~= mt);
        }
    } else {
        let d = mt.drop_last();
        assert(forall|i: int| 0 <= i < d.len() ==> (#[trigger] d[i]) == mt[i]);
        lemma_matrices_upto_complete(n, (rows - 1) as nat, fixed_first, d);
        let cs = all_pref_matrices_upto(n, (rows - 1) as nat, fixed_first);
        let k = choose|k: int| 0 <= k < cs.len() && (#[trigger] cs[k]) == d;
        lemma_all_perms_complete(n, mt.last());
        let o = choose|o: int|
            0 <= o < all_perms(n).len() && (#[trigger] all_perms(n)[o]) == mt.last();
        let g = extended_with(all_perms(n));
        assert(g(cs[k])[o] == d.push(mt.last()));
        assert(d.push(mt.last()) =~= mt);
        assert(g(cs[k]).contains(mt));
        lemma_flat_map_member(cs, g, k, mt);
    }
}

/// The matrix enumerator is sound: everything it lists is a full valid
/// preference matrix of the requested shape.
pub proof fn lemma_all_pref_matrices_sound(n: nat, fixed_first: bool)
    requires
        n <= usize::MAX,
    ensures
        forall|j: int|
            0 <= j < all_pref_matrices(n, fixed_first).len() ==> valid_pref_matrix(
                n,
                fixed_first,
                #[trigger] all_pref_matrices(n, fixed_first)[j],
            ),
{
    let rows: nat = if n == 0 { 1 } else { n };
    lemma_matrices_upto_sound(n, rows, fixed_first);
}

/// The matrix enumerator is complete: every valid preference matrix of the
/// requested shape is listed, so driving the engine over the enumeration
/// covers the whole input space.
pub proof fn lemma_all_pref_matrices_complete(n: nat, fixed_first: bool, mt: Seq<Seq<usize>>)
    requires
        n <= usize::MAX,
        valid_pref_matrix(n, fixed_first, mt),
    ensures
        all_pref_matrices(n, fixed_first).contains(mt),
{
    let rows: nat = if n == 0 { 1 } else { n };
    lemma_matrices_upto_complete(n, rows, fixed_first, mt);
}

/// Copy a preference row.
fn copy_row(row: &Vec<usize>) -> (r: Vec<usize>)
    ensures
        r@ == row@,
{
    let mut r: Vec<usize> = Vec::new();
    let mut i: usize = 0;
    while i < row.len()
        invariant
            i <= row@.len(),
            r@.len() == i,
            forall|j: int| 0 <= j < i ==> #[trigger] r@[j] == row@[j],
        decreases row@.len() - i,
    {
        r.push(row[i]);
        i = i + 1;
    }
    assert(r@ =~= row@);
    r
}

/// Copy a preference matrix.
fn copy_matrix(mt: &Vec<Vec<usize>>) -> (r: Vec<Vec<usize>>)
    ensures
        rows_of(r@) == rows_of(mt@),
        r@.len() == mt@.len(),
    decreases mt@.len(),
{
    let mut r: Vec<Vec<usize>> = Vec::new();
    let mut i: usize = 0;
    while i < mt.len()
        invariant
            i <= mt@.len(),
            r@.len() == i,
            forall|j: int| 0 <= j < i ==> (#[trigger] r@[j])@ == mt@[j]@,
        decreases mt@.len() - i,
    {
        r.push(copy_row(&mt[i]));
        i = i + 1;
    }
    assert(rows_of(r@) =~= rows_of(mt@));
    r
}

/// Every possible ordering of `size` elements, by recursive insertion of
/// the largest element at every position into every smaller ordering.
#[verifier::loop_isolation(false)]
pub fn all_possible_individual_preferences(size: usize) -> (r: Vec<Vec<usize>>)
    ensures
        rows_of(r@) == all_perms(size as nat),
    decreases size,
{
    if size == 0 {
        let mut r: Vec<Vec<usize>> = Vec::new();
        r.push(Vec::new());
        proof {
            assert(rows_of(r@)[0] =~= Seq::<usize>::empty());
            assert(rows_of(r@) =~= all_perms(0));
        }
        return r;
    }
    let x = size - 1;
    let prev = all_possible_individual_preferences(x);
    let ghost pv = rows_of(prev@);
    let ghost f = insertions_of(x);
    proof {
        lemma_all_perms_sound(x as nat);
    }
    let mut out: Vec<Vec<usize>> = Vec::new();
    let mut pi: usize = 0;
    proof {
        assert(rows_of(out@) =~= pv.take(0).flat_map(f)) by {
            assert(pv.take(0).map_values(f) =~= Seq::<Seq<Seq<usize>>>::empty());
        }
    }
    while pi < prev.len()
        invariant
            pi <= prev@.len(),
            rows_of(out@) == pv.take(pi as int).flat_map(f),
        decreases prev@.len() - pi,
    {
        let v = &prev[pi];
        proof {
            assert(is_perm(pv[pi as int], x as nat));
            assert(v@.len() == x);
        }
        let mut i: usize = 0;
        proof {
            assert(insert_all(v@, x).take(0) =~= Seq::<Seq<usize>>::empty());
            assert(rows_of(out@) =~= pv.take(pi as int).flat_map(f) + insert_all(v@, x).take(0));
        }
        while i <= v.len()
            invariant
                i <= v@.len() + 1,
                rows_of(out@) == pv.take(pi as int).flat_map(f) + insert_all(v@, x).take(
                    i as int,
                ),
            decreases v@.len() + 1 - i,
        {
            let mut nv: Vec<usize> = Vec::new();
            let mut a: usize = 0;
            while a < i
                invariant
                    a <= i,
                    i <= v@.len() + 1,
                    nv@.len() == a,
                    forall|b: int| 0 <= b < a ==> #[trigger] nv@[b] == v@[b],
                decreases i - a,
            {
                nv.push(v[a]);
                a = a + 1;
            }
            nv.push(x);
            let mut c: usize = i;
            while c < v.len()
                invariant
                    i <= c,
                    c <= v@.len(),
                    nv@.len() == c + 1,
                    forall|b: int| 0 <= b < i ==> #[trigger] nv@[b] == v@[b],
                    nv@[i as int] == x,
                    forall|b: int| i < b <= c ==> #[trigger] nv@[b] == v@[b - 1],
                decreases v@.len() - c,
            {
                nv.push(v[c]);
                c = c + 1;
            }
            proof {
                v@.insert_ensures(i as int, x);
                assert(nv@ =~= v@.insert(i as int, x));
            }
            let ghost before = rows_of(out@);
            out.push(nv);
            proof {
                assert(rows_of(out@) =~= before.push(nv@));
                assert(insert_all(v@, x)[i as int] == v@.insert(i as int, x));
                assert(insert_all(v@, x).take(i as int + 1) =~= insert_all(v@, x).take(
                    i as int,
                ).push(nv@));
                assert(rows_of(out@) =~= pv.take(pi as int).flat_map(f) + insert_all(
                    v@,
                    x,
                ).take(i as int + 1));
            }
            i = i + 1;
        }
        proof {
            assert(insert_all(v@, x).take(v@.len() as int + 1) =~= insert_all(v@, x));
            pv.lemma_flat_map_take_append(f, pi as int);
            assert(pv[pi as int] == v@);
            assert(f(pv[pi as int]) == insert_all(v@, x));
            assert(rows_of(out@) == pv.take(pi as int + 1).flat_map(f));
        }
        pi = pi + 1;
    }
    proof {
        assert(pv.take(pv.len() as int) =~= pv);
        assert(rows_of(out@) == all_perms(size as nat));
    }
    out
}

/// Every possible preference matrix for `size` participants: the row-wise
/// cross product of all orderings.  With `fixed_first` the first row is
/// held fixed to the identity order, exploiting relabeling symmetry.
#[verifier::loop_isolation(false)]
pub fn all_possible_preferences(size: usize, fixed_first: bool) -> (r: Vec<Vec<Vec<usize>>>)
    ensures
        mats_of(r@) == all_pref_matrices(size as nat, fixed_first),
{
    let perms = all_possible_individual_preferences(size);
    let ghost ps = rows_of(perms@);
    let mut cur: Vec<Vec<Vec<usize>>> = Vec::new();
    if fixed_first {
        let mut ident: Vec<usize> = Vec::new();
        let mut i: usize = 0;
        while i < size
            invariant
                i <= size,
                ident@.len() == i,
                forall|j: int| 0 <= j < i ==> #[trigger] ident@[j] == j,
            decreases size - i,
        {
            ident.push(i);
            i = i + 1;
        }
        let mut mt: Vec<Vec<usize>> = Vec::new();
        mt.push(ident);
        cur.push(mt);
        proof {
            assert(mats_of(cur@)[0] =~= seq![identity_perm(size as nat)]) by {
                assert(mats_of(cur@)[0][0] =~= identity_perm(size as nat));
            }
            assert(mats_of(cur@) =~= seq![seq![identity_perm(size as nat)]]);
        }
    } else {
        let mut pi: usize = 0;
        while pi < perms.len()
            invariant
                pi <= perms@.len(),
                mats_of(cur@) == ps.take(pi as int).map_values(single_row()),
            decreases perms@.len() - pi,
        {
            let mut mt: Vec<Vec<usize>> = Vec::new();
            mt.push(copy_row(&perms[pi]));
            let ghost before = mats_of(cur@);
            cur.push(mt);
            proof {
                assert(mats_of(cur@) =~= before.push(rows_of(mt@)));
                assert(rows_of(mt@) =~= single_row()(ps[pi as int]));
                assert(ps.take(pi as int + 1).map_values(single_row()) =~= ps.take(
                    pi as int,
                ).map_values(single_row()).push(single_row()(ps[pi as int])));
            }
            pi = pi + 1;
        }
        proof {
            assert(ps.take(ps.len() as int) =~= ps);
        }
    }
    proof {
        assert(mats_of(cur@) == all_pref_matrices_upto(size as nat, 1, fixed_first));
    }
    let mut row: usize = 1;
    while row < size
        invariant
            1 <= row || size == 0,
            row <= size || (row == 1 && size == 0),
            mats_of(cur@) == all_pref_matrices_upto(
                size as nat,
                if row == 0 { 1nat } else { row as nat },
                fixed_first,
            ),
        decreases size - row,
    {
        let ghost cs = mats_of(cur@);
        let ghost g = extended_with(ps);
        let mut next: Vec<Vec<Vec<usize>>> = Vec::new();
        let mut mi: usize = 0;
        proof {
            assert(mats_of(next@) =~= cs.take(0).flat_map(g)) by {
                assert(cs.take(0).map_values(g) =~= Seq::<Seq<Seq<Seq<usize>>>>::empty());
            }
        }
        while mi < cur.len()
            invariant
                mi <= cur@.len(),
                mats_of(next@) == cs.take(mi as int).flat_map(g),
            decreases cur@.len() - mi,
        {
            let mut pi: usize = 0;
            proof {
                assert(g(cs[mi as int]).take(0) =~= Seq::<Seq<Seq<usize>>>::empty());
                assert(mats_of(next@) =~= cs.take(mi as int).flat_map(g) + g(
                    cs[mi as int],
                ).take(0));
            }
            while pi < perms.len()
                invariant
                    pi <= perms@.len(),
                    mi < cur@.len(),
                    mats_of(next@) == cs.take(mi as int).flat_map(g) + g(cs[mi as int]).take(
                        pi as int,
                    ),
                decreases perms@.len() - pi,
            {
                let mut mt = copy_matrix(&cur[mi]);
                mt.push(copy_row(&perms[pi]));
                let ghost before = mats_of(next@);
                next.push(mt);
                proof {
                    assert(mats_of(next@) =~= before.push(rows_of(mt@)));
                    assert(rows_of(mt@) =~= cs[mi as int].push(ps[pi as int]));
                    assert(g(cs[mi as int])[pi as int] == cs[mi as int].push(ps[pi as int]));
                    assert(g(cs[mi as int]).take(pi as int + 1) =~= g(cs[mi as int]).take(
                        pi as int,
                    ).push(rows_of(mt@)));
                }
                pi = pi + 1;
            }
            proof {
                assert(g(cs[mi as int]).take(g(cs[mi as int]).len() as int) =~= g(
                    cs[mi as int],
                ));
                cs.lemma_flat_map_take_append(g, mi as int);
                assert(mats_of(next@) == cs.take(mi as int + 1).flat_map(g));
            }
            mi = mi + 1;
        }
        proof {
            assert(cs.take(cs.len() as int) =~= cs);
        }
        cur = next;
        row = row + 1;
    }
    cur
}

/// The matrices of a vector of matrices, as a sequence of sequences of
/// sequences.
pub open spec fn mats_of(v: Seq<Vec<Vec<usize>>>) -> Seq<Seq<Seq<usize>>> {
    Seq::new(v.len(), |i: int| rows_of(v[i]@))
}

} // verus!
