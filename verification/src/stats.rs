//! Outcome-rank statistics over solved instances.
//!
//! Recording an instance solves it and counts, for every receiver, the rank
//! she gives her final partner (receiver-side satisfaction) and the rank her
//! partner gave her in his original preference order (proposer-side
//! satisfaction).  The counters are indexed by rank: entry `rk` counts how
//! often a participant obtained their rank-`rk` choice.

use vstd::prelude::*;

use crate::engine::GaleShapley;
use crate::engine::MatchState;
use crate::engine::solve;
use crate::perm::is_perm;

verus! {

/// The position of `v` in `s` (meaningful when `s` holds `v` exactly once).
pub open spec fn pos_of(s: Seq<usize>, v: usize) -> int {
    choose|i: int| 0 <= i < s.len() && s[i] == v
}

/// Receiver-side achieved ranks of a quiescent state: entry `w` is the rank
/// receiver `w` gives her final partner.
pub open spec fn women_ranks(f: MatchState) -> Seq<int> {
    Seq::new(f.n(), |w: int| f.rank[w][f.eng[w]->0 as int] as int)
}

/// Proposer-side achieved ranks of a quiescent state: entry `w` is the rank
/// the final partner of receiver `w` gave her in his original preference
/// order (his rows are stored reversed, so rank is counted from the end).
pub open spec fn men_ranks(f: MatchState) -> Seq<int> {
    Seq::new(
        f.n(),
        |w: int| f.full[f.eng[w]->0 as int].len() - 1 - pos_of(
            f.full[f.eng[w]->0 as int],
            w as usize,
        ),
    )
}

/// How many of the first `k` entries of `ranks` equal `rk`.
pub open spec fn count_rank(ranks: Seq<int>, rk: int, k: int) -> int
    decreases k,
{
    if k <= 0 {
        0
    } else {
        count_rank(ranks, rk, k - 1) + if ranks[k - 1] == rk {
            1int
        } else {
            0int
        }
    }
}

/// Sum of a sequence of integers.
pub open spec fn sum_int(s: Seq<int>) -> int
    decreases s.len(),
{
    if s.len() == 0 {
        0
    } else {
        sum_int(s.drop_last()) + s.last()
    }
}

/// Sum of a sequence of counters.
pub open spec fn sum_usize(s: Seq<usize>) -> int
    decreases s.len(),
{
    if s.len() == 0 {
        0
    } else {
        sum_usize(s.drop_last()) + s.last()
    }
}

proof fn lemma_sum_usize_pointwise(a: Seq<usize>, b: Seq<int>, c: Seq<usize>)
    requires
        a.len() == b.len(),
        a.len() == c.len(),
        forall|i: int| 0 <= i < a.len() ==> (#[trigger] c[i]) as int == a[i] + b[i],
    ensures
        sum_usize(c) == sum_usize(a) + sum_int(b),
    decreases a.len(),
{
    if a.len() > 0 {
        lemma_sum_usize_pointwise(a.drop_last(), b.drop_last(), c.drop_last());
        assert(forall|i: int|
            0 <= i < a.len() - 1 ==> (#[trigger] a.drop_last()[i]) == a[i]);
        assert(forall|i: int|
            0 <= i < a.len() - 1 ==> (#[trigger] b.drop_last()[i]) == b[i]);
        assert(forall|i: int|
            0 <= i < a.len() - 1 ==> (#[trigger] c.drop_last()[i]) == c[i]);
        assert(c.last() as int == a.last() + b.last());
    }
}

proof fn lemma_count_rank_bounds(ranks: Seq<int>, rk: int, k: int)
    ensures
        0 <= count_rank(ranks, rk, k) <= if k <= 0 {
            0int
        } else {
            k
        },
    decreases k,
{
    if k > 0 {
        lemma_count_rank_bounds(ranks, rk, k - 1);
    }
}

proof fn lemma_sum_pointwise(a: Seq<int>, b: Seq<int>, c: Seq<int>)
    requires
        a.len() == b.len(),
        a.len() == c.len(),
        forall|i: int| 0 <= i < a.len() ==> #[trigger] c[i] == a[i] + b[i],
    ensures
        sum_int(c) == sum_int(a) + sum_int(b),
    decreases a.len(),
{
    if a.len() > 0 {
        lemma_sum_pointwise(a.drop_last(), b.drop_last(), c.drop_last());
        assert(forall|i: int|
            0 <= i < a.len() - 1 ==> (#[trigger] c.drop_last()[i]) == c[i]);
        assert(forall|i: int|
            0 <= i < a.len() - 1 ==> (#[trigger] a.drop_last()[i]) == a[i]);
        assert(forall|i: int|
            0 <= i < a.len() - 1 ==> (#[trigger] b.drop_last()[i]) == b[i]);
        assert(c.last() == a.last() + b.last());
    }
}

proof fn lemma_sum_indicator(s: Seq<int>, v: int)
    requires
        0 <= v < s.len(),
        forall|i: int| 0 <= i < s.len() ==> #[trigger] s[i] == if i == v {
            1int
        } else {
            0int
        },
    ensures
        sum_int(s) == 1,
    decreases s.len(),
{
    let d = s.drop_last();
    assert(forall|i: int| 0 <= i < s.len() - 1 ==> (#[trigger] d[i]) == s[i]);
    if v == s.len() - 1 {
        assert(s.last() == 1);
        lemma_sum_all_zero(d);
    } else {
        assert(s.last() == 0);
        lemma_sum_indicator(d, v);
    }
}

proof fn lemma_sum_all_zero(s: Seq<int>)
    requires
        forall|i: int| 0 <= i < s.len() ==> #[trigger] s[i] == 0,
    ensures
        sum_int(s) == 0,
    decreases s.len(),
{
    if s.len() > 0 {
        let d = s.drop_last();
        assert(forall|i: int| 0 <= i < s.len() - 1 ==> (#[trigger] d[i]) == s[i]);
        lemma_sum_all_zero(d);
        assert(s.last() == 0);
    }
}

proof fn lemma_counts_upto(ranks: Seq<int>, n: int, k: int)
    requires
        0 <= k <= ranks.len(),
        0 <= n,
        forall|i: int| 0 <= i < ranks.len() ==> 0 <= #[trigger] ranks[i] < n,
    ensures
        sum_int(Seq::new(n as nat, |rk: int| count_rank(ranks, rk, k))) == k,
    decreases k,
{
    let cur = Seq::new(n as nat, |rk: int| count_rank(ranks, rk, k));
    if k == 0 {
        lemma_sum_all_zero(cur);
    } else {
        lemma_counts_upto(ranks, n, k - 1);
        let prev = Seq::new(n as nat, |rk: int| count_rank(ranks, rk, k - 1));
        let ind = Seq::new(n as nat, |rk: int| if rk == ranks[k - 1] {
            1int
        } else {
            0int
        });
        assert(forall|rk: int| 0 <= rk < n ==> #[trigger] cur[rk] == prev[rk] + ind[rk]);
        lemma_sum_pointwise(prev, ind, cur);
        assert(0 <= ranks[k - 1] < n);
        lemma_sum_indicator(ind, ranks[k - 1]);
    }
}

/// Each participant achieves exactly one rank, so the per-rank counts of
/// one solved instance sum to the instance size.
pub proof fn lemma_rank_counts_total(ranks: Seq<int>, n: int)
    requires
        n == ranks.len(),
        forall|i: int| 0 <= i < n ==> 0 <= #[trigger] ranks[i] < n,
    ensures
        sum_int(Seq::new(n as nat, |rk: int| count_rank(ranks, rk, n))) == n,
{
    lemma_counts_upto(ranks, n, n);
}

/// In a solved instance every achieved rank lies in `[0, n)`, on both
/// sides.
proof fn lemma_ranks_in_range(f: MatchState)
    requires
        f.wf(),
        f.quiescent(),
        forall|w: int| 0 <= w < f.n() ==> (#[trigger] f.eng[w]) is Some,
    ensures
        forall|i: int| 0 <= i < f.n() ==> 0 <= #[trigger] women_ranks(f)[i] < f.n(),
        forall|i: int| 0 <= i < f.n() ==> 0 <= #[trigger] men_ranks(f)[i] < f.n(),
{
    let n = f.n() as int;
    assert forall|i: int| 0 <= i < n implies 0 <= #[trigger] women_ranks(f)[i] < n by {
        let m = f.eng[i]->0 as int;
        assert(0 <= m < n);
        assert(is_perm(f.rank[i], f.n()));
        assert(f.rank[i][m] < n);
    }
    assert forall|i: int| 0 <= i < n implies 0 <= #[trigger] men_ranks(f)[i] < n by {
        let m = f.eng[i]->0 as int;
        assert(0 <= m < n);
        assert(is_perm(f.full[m], f.n()));
        assert(f.full[m].contains(i as usize));
        let p = pos_of(f.full[m], i as usize);
        assert(0 <= p < n && f.full[m][p] == i as usize);
    }
}

/// Statistics invariant: recording one instance adds exactly one count per
/// receiver on the receiver side and one per proposer on the proposer side,
/// so each side's counters gain `n` in total.
pub proof fn lemma_add_problem_totals(f: MatchState)
    requires
        f.wf(),
        f.quiescent(),
        forall|w: int| 0 <= w < f.n() ==> (#[trigger] f.eng[w]) is Some,
    ensures
        sum_int(
            Seq::new(f.n(), |rk: int| count_rank(women_ranks(f), rk, f.n() as int)),
        ) == f.n(),
        sum_int(
            Seq::new(f.n(), |rk: int| count_rank(men_ranks(f), rk, f.n() as int)),
        ) == f.n(),
{
    let n = f.n() as int;
    lemma_ranks_in_range(f);
    lemma_rank_counts_total(women_ranks(f), n);
    lemma_rank_counts_total(men_ranks(f), n);
}

/// Statistics invariant in full: counters that gained, per rank, exactly
/// the per-rank counts of one solved instance — the relation
/// [`Stats::add_problem`] ensures between its old and new counters — have
/// gained exactly the instance size in total, on each side.
pub proof fn lemma_add_problem_gains_size(
    s0: MatchState,
    men0: Seq<usize>,
    men1: Seq<usize>,
    women0: Seq<usize>,
    women1: Seq<usize>,
)
    requires
        s0.wf(),
        men0.len() == s0.n(),
        men1.len() == s0.n(),
        women0.len() == s0.n(),
        women1.len() == s0.n(),
        forall|rk: int|
            0 <= rk < s0.n() ==> (#[trigger] men1[rk]) as int == men0[rk] + count_rank(
                men_ranks(solve(s0)),
                rk,
                s0.n() as int,
            ),
        forall|rk: int|
            0 <= rk < s0.n() ==> (#[trigger] women1[rk]) as int == women0[rk] + count_rank(
                women_ranks(solve(s0)),
                rk,
                s0.n() as int,
            ),
    ensures
        sum_usize(men1) == sum_usize(men0) + s0.n(),
        sum_usize(women1) == sum_usize(women0) + s0.n(),
{
    let f = solve(s0);
    let n = s0.n() as int;
    crate::engine::lemma_solve_props(s0);
    crate::engine::lemma_quiescent_total(f);
    lemma_add_problem_totals(f);
    let mcounts = Seq::new(f.n(), |rk: int| count_rank(men_ranks(f), rk, f.n() as int));
    let wcounts = Seq::new(f.n(), |rk: int| count_rank(women_ranks(f), rk, f.n() as int));
    lemma_sum_usize_pointwise(men0, mcounts, men1);
    lemma_sum_usize_pointwise(women0, wcounts, women1);
}

/// Per-rank outcome counters over many recorded instances.
pub struct Stats {
    /// `men[rk]`: how often a proposer obtained his rank-`rk` choice.
    pub men: Vec<usize>,
    /// `women[rk]`: how often a receiver obtained her rank-`rk` choice.
    pub women: Vec<usize>,
}

impl Stats {
    /// Fresh counters for instances of the given size.
    pub fn new(size: usize) -> (r: Stats)
        ensures
            r.men@.len() == size,
            r.women@.len() == size,
            forall|i: int| 0 <= i < size ==> #[trigger] r.men@[i] == 0,
            forall|i: int| 0 <= i < size ==> #[trigger] r.women@[i] == 0,
    {
        let mut men: Vec<usize> = Vec::new();
        let mut women: Vec<usize> = Vec::new();
        let mut i: usize = 0;
        while i < size
            invariant
                i <= size,
                men@.len() == i,
                women@.len() == i,
                forall|j: int| 0 <= j < i ==> #[trigger] men@[j] == 0,
                forall|j: int| 0 <= j < i ==> #[trigger] women@[j] == 0,
            decreases size - i,
        {
            men.push(0);
            women.push(0);
            i = i + 1;
        }
        Stats { men, women }
    }

    /// Add another accumulator's counts into this one, counter by counter.
    /// This is how independently filled accumulators (one per worker) are
    /// combined after all of them have finished recording.
    #[verifier::loop_isolation(false)]
    pub fn merge(&mut self, other: &Stats)
        requires
            old(self).men@.len() == other.men@.len(),
            old(self).women@.len() == other.women@.len(),
            forall|i: int|
                0 <= i < other.men@.len() ==> #[trigger] old(self).men@[i] + other.men@[i]
                    <= usize::MAX,
            forall|i: int|
                0 <= i < other.women@.len() ==> #[trigger] old(self).women@[i] + other.women@[i]
                    <= usize::MAX,
        ensures
            final(self).men@.len() == old(self).men@.len(),
            final(self).women@.len() == old(self).women@.len(),
            forall|i: int|
                0 <= i < other.men@.len() ==> (#[trigger] final(self).men@[i]) == old(
                    self,
                ).men@[i] + other.men@[i],
            forall|i: int|
                0 <= i < other.women@.len() ==> (#[trigger] final(self).women@[i]) == old(
                    self,
                ).women@[i] + other.women@[i],
    {
        let n = other.men.len();
        let mut i: usize = 0;
        while i < n
            invariant
                i <= n,
                self.men@.len() == n,
                forall|j: int|
                    0 <= j < i ==> (#[trigger] self.men@[j]) == old(self).men@[j]
                        + other.men@[j],
                forall|j: int| i <= j < n ==> (#[trigger] self.men@[j]) == old(self).men@[j],
                self.women@ == old(self).women@,
            decreases n - i,
        {
            let ghost prev = self.men@;
            self.men[i] = self.men[i] + other.men[i];
            proof {
                assert(forall|j: int|
                    0 <= j < n && j != i ==> (#[trigger] self.men@[j]) == prev[j]);
            }
            i = i + 1;
        }
        let m = other.women.len();
        let mut k: usize = 0;
        while k < m
            invariant
                k <= m,
                self.women@.len() == m,
                forall|j: int|
                    0 <= j < k ==> (#[trigger] self.women@[j]) == old(self).women@[j]
                        + other.women@[j],
                forall|j: int| k <= j < m ==> (#[trigger] self.women@[j]) == old(self).women@[j],
                self.men@.len() == n,
                forall|j: int|
                    0 <= j < n ==> (#[trigger] self.men@[j]) == old(self).men@[j]
                        + other.men@[j],
            decreases m - k,
        {
            let ghost prev = self.women@;
            self.women[k] = self.women[k] + other.women[k];
            proof {
                assert(forall|j: int|
                    0 <= j < m && j != k ==> (#[trigger] self.women@[j]) == prev[j]);
            }
            k = k + 1;
        }
    }

    /// Solve `pb` and add its achieved ranks to the counters: for every
    /// rank `rk`, the receiver-side counter `rk` gains the number of
    /// receivers whose final partner she ranks `rk`, and the proposer-side
    /// counter `rk` gains the number of receivers whose final partner
    /// ranked them `rk`.
    #[verifier::loop_isolation(false)]
    pub fn add_problem(&mut self, pb: GaleShapley)
        requires
            pb@.wf(),
            forall|m: int| 0 <= m < pb@.n() ==> (#[trigger] pb@.stacks[m]).len() == pb@.n(),
            old(self).men@.len() == pb@.n(),
            old(self).women@.len() == pb@.n(),
            forall|i: int|
                0 <= i < pb@.n() ==> #[trigger] old(self).men@[i] + pb@.n() <= usize::MAX,
            forall|i: int|
                0 <= i < pb@.n() ==> #[trigger] old(self).women@[i] + pb@.n() <= usize::MAX,
        ensures
            final(self).men@.len() == old(self).men@.len(),
            final(self).women@.len() == old(self).women@.len(),
            forall|rk: int|
                0 <= rk < pb@.n() ==> #[trigger] final(self).men@[rk] == old(self).men@[rk]
                    + count_rank(men_ranks(solve(pb@)), rk, pb@.n() as int),
            forall|rk: int|
                0 <= rk < pb@.n() ==> #[trigger] final(self).women@[rk] == old(self).women@[rk]
                    + count_rank(women_ranks(solve(pb@)), rk, pb@.n() as int),
    {
        let ghost s0 = pb@;
        let ghost f = solve(pb@);
        let mut pb = pb;
        let n = pb.size();
        let men_preference_ranks = pb.men_rank_matrix();
        let _matching = pb.find_stable_marriage();
        proof {
            crate::engine::lemma_solve_props(s0);
            crate::engine::lemma_quiescent_total(f);
        }
        let mut w: usize = 0;
        while w < n
            invariant
                pb@ == f,
                w <= n,
                self.men@.len() == n,
                self.women@.len() == n,
                forall|rk: int|
                    0 <= rk < n ==> #[trigger] self.men@[rk] == old(self).men@[rk] + count_rank(
                        men_ranks(f),
                        rk,
                        w as int,
                    ),
                forall|rk: int|
                    0 <= rk < n ==> #[trigger] self.women@[rk] == old(self).women@[rk]
                        + count_rank(women_ranks(f), rk, w as int),
            decreases n - w,
        {
            let m = pb.current_woman_engagement(w).unwrap();
            proof {
                assert(f.eng[w as int] is Some && f.eng[w as int]->0 == m);
                assert(m < n);
                assert(is_perm(f.rank[w as int], f.n()));
            }
            let wp = pb.women_preferences();
            let wrow = &wp[w];
            let m_rank = wrow[m];
            let mrow = &men_preference_ranks[m];
            proof {
                assert(is_perm(f.full[m as int], f.n()));
                assert(f.full[m as int].contains(w));
                let p = pos_of(f.full[m as int], w);
                assert(0 <= p < n && f.full[m as int][p] == w);
                assert(mrow@[w as int] == n - 1 - p);
                assert(m_rank == women_ranks(f)[w as int]);
                assert(mrow@[w as int] == men_ranks(f)[w as int]);
                lemma_count_rank_bounds(men_ranks(f), mrow@[w as int] as int, w as int);
                lemma_count_rank_bounds(women_ranks(f), m_rank as int, w as int);
            }
            let w_rank = mrow[w];
            let ghost men_prev = self.men@;
            let ghost women_prev = self.women@;
            self.men[w_rank] = self.men[w_rank] + 1;
            self.women[m_rank] = self.women[m_rank] + 1;
            proof {
                assert forall|rk: int|
                    0 <= rk < n implies #[trigger] self.men@[rk] == old(self).men@[rk]
                    + count_rank(men_ranks(f), rk, w + 1) by {
                    if rk != w_rank {
                        assert(self.men@[rk] == men_prev[rk]);
                    }
                }
                assert forall|rk: int|
                    0 <= rk < n implies #[trigger] self.women@[rk] == old(self).women@[rk]
                    + count_rank(women_ranks(f), rk, w + 1) by {
                    if rk != m_rank {
                        assert(self.women@[rk] == women_prev[rk]);
                    }
                }
            }
            w = w + 1;
        }
    }
}

} // verus!
