//! The deferred-acceptance matching engine.
//!
//! An instance holds, for each proposer, a stack of the receivers he has not
//! proposed to yet (least preferred first, so the most preferred remaining
//! receiver is popped from the end), for each receiver a rank table over the
//! proposers (0 = most preferred), the current engagement of each receiver,
//! and the stack of currently free proposers.  One round pops a free
//! proposer, pops his best remaining receiver and lets her accept, reject,
//! or displace her current partner.  Quiescence is reached when no proposer
//! is free; every receiver is then engaged and the engagements form a stable
//! matching.
//!
//! The ghost type [`MatchState`] mirrors this state exactly; the one-round
//! transition is the spec function [`MatchState::step`] and running to
//! quiescence is [`solve`].  The executable engine is proved to follow these
//! functions step by step, which makes its outcome a function of the input
//! instance alone.

use vstd::prelude::*;

use crate::perm::is_inverse_of;
use crate::perm::is_perm;
use crate::perm::lemma_reverse_perm;
use crate::rank::make_men_preferences;
use crate::rank::make_rank_matrix;

verus! {

/// A proposer index.
pub type Man = usize;

/// A receiver index.
pub type Woman = usize;

/// Ghost state of a matching engine instance.
#[verifier::ext_equal]
pub ghost struct MatchState {
    /// Remaining preference stack of each proposer: a prefix of `full` for
    /// that proposer, popped from the end.
    pub stacks: Seq<Seq<usize>>,
    /// The complete preference row of each proposer as built at
    /// construction: least preferred first, most preferred last.
    pub full: Seq<Seq<usize>>,
    /// `rank[w][m]` is the rank receiver `w` gives proposer `m`
    /// (0 = most preferred).
    pub rank: Seq<Seq<usize>>,
    /// `eng[w]` is the proposer receiver `w` is currently engaged to.
    pub eng: Seq<Option<usize>>,
    /// Stack of currently free proposers.
    pub free: Seq<usize>,
}

/// Number of receivers that are currently engaged.
pub open spec fn count_some(s: Seq<Option<usize>>) -> int
    decreases s.len(),
{
    if s.len() == 0 {
        0
    } else {
        count_some(s.drop_last()) + if s.last() is Some {
            1int
        } else {
            0int
        }
    }
}

/// Total number of proposals that can still be made.
pub open spec fn sum_stack_len(ss: Seq<Seq<usize>>) -> int
    decreases ss.len(),
{
    if ss.len() == 0 {
        0
    } else {
        sum_stack_len(ss.drop_last()) + ss.last().len()
    }
}

proof fn lemma_count_some_bounds(s: Seq<Option<usize>>)
    ensures
        0 <= count_some(s) <= s.len(),
        count_some(s) == s.len() ==> forall|i: int|
            0 <= i < s.len() ==> (#[trigger] s[i]) is Some,
        (forall|i: int| 0 <= i < s.len() ==> (#[trigger] s[i]) is None) ==> count_some(s) == 0,
        (forall|i: int| 0 <= i < s.len() ==> (#[trigger] s[i]) is Some) ==> count_some(s)
            == s.len(),
    decreases s.len(),
{
    if s.len() > 0 {
        lemma_count_some_bounds(s.drop_last());
        assert(forall|i: int| 0 <= i < s.len() - 1 ==> (#[trigger] s.drop_last()[i]) == s[i]);
        assert(s.last() == s[s.len() - 1]);
        if count_some(s) == s.len() {
            assert(count_some(s.drop_last()) == s.len() - 1);
            assert forall|i: int| 0 <= i < s.len() implies (#[trigger] s[i]) is Some by {
                if i < s.len() - 1 {
                    assert(s.drop_last()[i] is Some);
                }
            }
        }
        if forall|i: int| 0 <= i < s.len() ==> (#[trigger] s[i]) is None {
            assert(forall|i: int|
                0 <= i < s.len() - 1 ==> (#[trigger] s.drop_last()[i]) is None);
        }
        if forall|i: int| 0 <= i < s.len() ==> (#[trigger] s[i]) is Some {
            assert(forall|i: int|
                0 <= i < s.len() - 1 ==> (#[trigger] s.drop_last()[i]) is Some);
        }
    }
}

proof fn lemma_count_some_update(s: Seq<Option<usize>>, w: int, v: Option<usize>)
    requires
        0 <= w < s.len(),
    ensures
        count_some(s.update(w, v)) == count_some(s) - (if s[w] is Some {
            1int
        } else {
            0int
        }) + (if v is Some {
            1int
        } else {
            0int
        }),
    decreases s.len(),
{
    let t = s.update(w, v);
    if w == s.len() - 1 {
        assert(t.drop_last() =~= s.drop_last());
        assert(t.last() == v);
    } else {
        assert(t.drop_last() =~= s.drop_last().update(w, v));
        assert(t.last() == s.last());
        lemma_count_some_update(s.drop_last(), w, v);
        assert(s.drop_last()[w] == s[w]);
    }
}

proof fn lemma_sum_stack_nonneg(ss: Seq<Seq<usize>>)
    ensures
        sum_stack_len(ss) >= 0,
    decreases ss.len(),
{
    if ss.len() > 0 {
        lemma_sum_stack_nonneg(ss.drop_last());
    }
}

proof fn lemma_sum_stack_update(ss: Seq<Seq<usize>>, m: int, v: Seq<usize>)
    requires
        0 <= m < ss.len(),
    ensures
        sum_stack_len(ss.update(m, v)) == sum_stack_len(ss) - ss[m].len() + v.len(),
    decreases ss.len(),
{
    let t = ss.update(m, v);
    if m == ss.len() - 1 {
        assert(t.drop_last() =~= ss.drop_last());
        assert(t.last() == v);
    } else {
        assert(t.drop_last() =~= ss.drop_last().update(m, v));
        assert(t.last() == ss.last());
        lemma_sum_stack_update(ss.drop_last(), m, v);
        assert(ss.drop_last()[m] == ss[m]);
    }
}

impl MatchState {
    /// The instance size: the common number of proposers and receivers.
    pub open spec fn n(self) -> nat {
        self.eng.len()
    }

    pub open spec fn sizes_ok(self) -> bool {
        &&& self.n() <= usize::MAX
        &&& self.stacks.len() == self.n()
        &&& self.full.len() == self.n()
        &&& self.rank.len() == self.n()
    }

    /// Every complete preference row and every rank row is a permutation.
    pub open spec fn prefs_ok(self) -> bool {
        &&& forall|m: int| 0 <= m < self.n() ==> is_perm(#[trigger] self.full[m], self.n())
        &&& forall|w: int| 0 <= w < self.n() ==> is_perm(#[trigger] self.rank[w], self.n())
    }

    /// Each remaining stack is the prefix of the proposer's complete row
    /// that he has not popped yet.
    pub open spec fn stacks_ok(self) -> bool {
        forall|m: int|
            0 <= m < self.n() ==> (#[trigger] self.stacks[m]).len() <= self.n()
                && self.stacks[m] == self.full[m].take(self.stacks[m].len() as int)
    }

    /// Proposer `m` is engaged to some receiver.
    pub open spec fn engaged(self, m: usize) -> bool {
        exists|w: int| 0 <= w < self.eng.len() && (#[trigger] self.eng[w]) == Some(m)
    }

    /// The free stack holds exactly the unengaged proposers, once each.
    pub open spec fn free_ok(self) -> bool {
        &&& forall|i: int| 0 <= i < self.free.len() ==> (#[trigger] self.free[i]) < self.n()
        &&& self.free.no_duplicates()
        &&& forall|m: usize|
            m < self.n() ==> ((#[trigger] self.free.contains(m)) <==> !self.engaged(m))
    }

    /// An engaged proposer's partner sits exactly at his next pop position:
    /// she was the receiver he popped last.
    pub open spec fn eng_ok(self) -> bool {
        forall|w: int|
            0 <= w < self.n() && (#[trigger] self.eng[w]) is Some ==> {
                let m = self.eng[w]->0 as int;
                &&& 0 <= m < self.n()
                &&& self.stacks[m].len() < self.n()
                &&& self.full[m][self.stacks[m].len() as int] == w as usize
            }
    }

    pub open spec fn counts_ok(self) -> bool {
        count_some(self.eng) + self.free.len() == self.n()
    }

    /// Proposer `m` has not proposed to receiver `w` yet.
    pub open spec fn pending(self, m: int, w: int) -> bool {
        self.stacks[m].contains(w as usize)
    }

    /// Receiver `w` strictly prefers her current partner to proposer `m`.
    pub open spec fn prefers_partner(self, w: int, m: int) -> bool {
        &&& self.eng[w] is Some
        &&& self.rank[w][self.eng[w]->0 as int] < self.rank[w][m]
    }

    /// Every receiver that a proposer has already proposed to, and is not
    /// engaged to, holds a partner she strictly prefers to him.  This is the
    /// reason a receiver lost once is lost for good.
    pub open spec fn rejections_ok(self) -> bool {
        forall|m: int, w: int|
            #![trigger self.pending(m, w)]
            0 <= m < self.n() && 0 <= w < self.n() && !self.pending(m, w) && self.eng[w]
                != Some(m as usize) ==> self.prefers_partner(w, m)
    }

    /// The engine invariant: holds of a freshly built instance and is
    /// preserved by every round.
    pub open spec fn wf(self) -> bool {
        &&& self.sizes_ok()
        &&& self.prefs_ok()
        &&& self.stacks_ok()
        &&& self.free_ok()
        &&& self.eng_ok()
        &&& self.counts_ok()
        &&& self.rejections_ok()
    }

    /// No proposer is free: the terminal state.
    pub open spec fn quiescent(self) -> bool {
        self.free.len() == 0
    }

    /// The proposer that moves next: the most recently pushed free one.
    pub open spec fn proposer(self) -> usize {
        self.free.last()
    }

    /// The receiver he proposes to: his best remaining one.
    pub open spec fn proposee(self) -> usize {
        self.stacks[self.proposer() as int].last()
    }

    pub open spec fn can_step(self) -> bool {
        &&& self.free.len() > 0
        &&& (self.proposer() as int) < self.stacks.len()
        &&& self.stacks[self.proposer() as int].len() > 0
    }

    /// One proposal round.  The proposee accepts a first proposal, displaces
    /// her partner for a better-ranked one, or rejects; a proposal is
    /// consumed in every case.
    pub open spec fn step(self) -> MatchState
        recommends
            self.can_step(),
    {
        let m = self.proposer();
        let w = self.proposee();
        let stacks2 = self.stacks.update(m as int, self.stacks[m as int].drop_last());
        if self.eng[w as int] is Some {
            let m2 = self.eng[w as int]->0;
            if self.rank[w as int][m as int] < self.rank[w as int][m2 as int] {
                MatchState {
                    stacks: stacks2,
                    eng: self.eng.update(w as int, Some(m)),
                    free: self.free.drop_last().push(m2),
                    ..self
                }
            } else {
                MatchState { stacks: stacks2, ..self }
            }
        } else {
            MatchState {
                stacks: stacks2,
                eng: self.eng.update(w as int, Some(m)),
                free: self.free.drop_last(),
                ..self
            }
        }
    }
}

/// Run rounds until quiescence.  This is the whole algorithm as one spec
/// function: what the executable engine returns is proved equal to it.
pub open spec fn solve(s: MatchState) -> MatchState
    decreases sum_stack_len(s.stacks),
    via solve_decreases
{
    if s.can_step() {
        solve(s.step())
    } else {
        s
    }
}

#[via_fn]
proof fn solve_decreases(s: MatchState) {
    if s.can_step() {
        lemma_sum_stack_nonneg(s.stacks);
        lemma_sum_stack_nonneg(s.step().stacks);
        lemma_sum_stack_update(
            s.stacks,
            s.proposer() as int,
            s.stacks[s.proposer() as int].drop_last(),
        );
    }
}

/// A well-formed state with a free proposer can always take a round: a free
/// proposer never runs out of receivers to propose to.
pub proof fn lemma_wf_progress(s: MatchState)
    requires
        s.wf(),
        s.free.len() > 0,
    ensures
        s.can_step(),
{
    let m = s.proposer();
    assert(s.free[s.free.len() - 1] == m);
    if s.stacks[m as int].len() == 0 {
        lemma_count_some_bounds(s.eng);
        assert(count_some(s.eng) < s.eng.len());
        assert(!(forall|i: int| 0 <= i < s.eng.len() ==> (#[trigger] s.eng[i]) is Some));
        let w = choose|i: int| 0 <= i < s.eng.len() && !((#[trigger] s.eng[i]) is Some);
        assert(!s.pending(m as int, w));
        assert(false);
    }
}

/// The partner of an engaged receiver has already popped her off his stack.
proof fn lemma_partner_not_pending(s: MatchState, w: int)
    requires
        s.wf(),
        0 <= w < s.n(),
        s.eng[w] is Some,
    ensures
        s.eng[w]->0 < s.n(),
        !s.pending(s.eng[w]->0 as int, w),
{
    let m = s.eng[w]->0 as int;
    let stk = s.stacks[m];
    assert(stk == s.full[m].take(stk.len() as int));
    if s.pending(m, w) {
        let i = choose|i: int| 0 <= i < stk.len() && stk[i] == w as usize;
        assert(s.full[m][i] == w as usize);
        assert(s.full[m][stk.len() as int] == w as usize);
        assert(false);
    }
}

/// A proposer is engaged to at most one receiver.
proof fn lemma_engaged_unique(s: MatchState, w1: int, w2: int)
    requires
        s.wf(),
        0 <= w1 < s.n(),
        0 <= w2 < s.n(),
        s.eng[w1] is Some,
        s.eng[w1] == s.eng[w2],
    ensures
        w1 == w2,
{
    let m = s.eng[w1]->0 as int;
    assert(s.full[m][s.stacks[m].len() as int] == w1 as usize);
    assert(s.full[m][s.stacks[m].len() as int] == w2 as usize);
}

/// One round preserves the engine invariant, consumes exactly one proposal,
/// and never makes any receiver worse off.
pub proof fn lemma_step_wf(s: MatchState)
    requires
        s.wf(),
        s.free.len() > 0,
    ensures
        s.can_step(),
        s.step().wf(),
        s.step().full == s.full,
        s.step().rank == s.rank,
        s.step().n() == s.n(),
        sum_stack_len(s.step().stacks) == sum_stack_len(s.stacks) - 1,
        forall|w: int|
            0 <= w < s.n() && (#[trigger] s.eng[w]) is Some ==> s.step().eng[w] is Some
                && s.rank[w][s.step().eng[w]->0 as int] <= s.rank[w][s.eng[w]->0 as int],
{
    lemma_wf_progress(s);
    let n = s.n();
    let m = s.proposer();
    let w = s.proposee();
    let t = s.step();
    let k = s.stacks[m as int].len() - 1;

    assert(s.free[s.free.len() - 1] == m);
    assert(s.free.contains(m));
    assert(!s.engaged(m));
    assert(forall|w2: int| 0 <= w2 < n ==> (#[trigger] s.eng[w2]) != Some(m));
    assert(m < n);
    assert(s.stacks[m as int] == s.full[m as int].take(k + 1));
    assert(w == s.full[m as int][k]);
    assert(is_perm(s.full[m as int], n));
    assert(w < n);
    assert(t.stacks[m as int] =~= s.full[m as int].take(k));
    assert(s.stacks[m as int] =~= t.stacks[m as int].push(w));
    assert(forall|m1: int| 0 <= m1 < n && m1 != m ==> t.stacks[m1] == s.stacks[m1]);
    assert(!t.stacks[m as int].contains(w)) by {
        if t.stacks[m as int].contains(w) {
            let i = choose|i: int| 0 <= i < k && t.stacks[m as int][i] == w;
            assert(s.full[m as int][i] == w);
            assert(false);
        }
    }
    lemma_sum_stack_update(s.stacks, m as int, s.stacks[m as int].drop_last());

    let fd = s.free.drop_last();
    assert(forall|i: int| 0 <= i < fd.len() ==> (#[trigger] fd[i]) == s.free[i]);
    assert(fd.no_duplicates()) by {
        assert forall|i: int, j: int|
            0 <= i < fd.len() && 0 <= j < fd.len() && i != j implies fd[i] != fd[j] by {
            assert(s.free[i] != s.free[j]);
        }
    }
    assert(!fd.contains(m)) by {
        if fd.contains(m) {
            let i = choose|i: int| 0 <= i < fd.len() && fd[i] == m;
            assert(s.free[i] == s.free[s.free.len() - 1]);
            assert(false);
        }
    }
    assert(forall|x: usize| x != m ==> (fd.contains(x) <==> s.free.contains(x))) by {
        assert forall|x: usize| x != m && s.free.contains(x) implies fd.contains(x) by {
            let i = choose|i: int| 0 <= i < s.free.len() && s.free[i] == x;
            assert(i != s.free.len() - 1);
            assert(fd[i] == x);
        }
        assert forall|x: usize| x != m && fd.contains(x) implies s.free.contains(x) by {
            let i = choose|i: int| 0 <= i < fd.len() && fd[i] == x;
            assert(s.free[i] == x);
        }
    }

    if s.eng[w as int] is Some {
        let m2 = s.eng[w as int]->0;
        assert(m2 < n);
        assert(s.engaged(m2)) by {
            assert(s.eng[w as int] == Some(m2));
        }
        assert(m2 != m);
        assert(!s.free.contains(m2));
        lemma_partner_not_pending(s, w as int);
        assert(!s.pending(m2 as int, w as int));
        if s.rank[w as int][m as int] < s.rank[w as int][m2 as int] {
            // the proposee displaces her partner for the better-ranked proposer
            assert(t.eng == s.eng.update(w as int, Some(m)));
            assert(t.free == fd.push(m2));
            assert(t.free[t.free.len() - 1] == m2);
            assert(forall|i: int| 0 <= i < fd.len() ==> (#[trigger] t.free[i]) == fd[i]);
            assert(forall|x: usize|
                (#[trigger] t.free.contains(x)) <==> (fd.contains(x) || x == m2)) by {
                assert forall|x: usize| t.free.contains(x) implies fd.contains(x) || x == m2 by {
                    let i = choose|i: int| 0 <= i < t.free.len() && t.free[i] == x;
                    if i < fd.len() {
                        assert(fd[i] == x);
                    }
                }
                assert forall|x: usize| fd.contains(x) implies t.free.contains(x) by {
                    let i = choose|i: int| 0 <= i < fd.len() && fd[i] == x;
                    assert(t.free[i] == x);
                }
            }
            assert(t.free.no_duplicates()) by {
                assert forall|i: int, j: int|
                    0 <= i < t.free.len() && 0 <= j < t.free.len() && i != j implies t.free[i]
                    != t.free[j] by {
                    if i < fd.len() && j < fd.len() {
                        assert(fd[i] != fd[j]);
                    } else if i < fd.len() {
                        assert(fd.contains(fd[i]));
                    } else if j < fd.len() {
                        assert(fd.contains(fd[j]));
                    }
                }
            }
            assert forall|x: usize| x < n implies ((#[trigger] t.free.contains(x)) <==> !t.engaged(
                x,
            )) by {
                if x == m {
                    assert(t.eng[w as int] == Some(m));
                    assert(t.engaged(m));
                    assert(!t.free.contains(m));
                } else if x == m2 {
                    assert(t.free.contains(m2));
                    if t.engaged(m2) {
                        let w2 = choose|w2: int|
                            0 <= w2 < t.eng.len() && (#[trigger] t.eng[w2]) == Some(m2);
                        assert(w2 != w);
                        assert(s.eng[w2] == Some(m2));
                        lemma_engaged_unique(s, w as int, w2);
                        assert(false);
                    }
                } else {
                    if s.engaged(x) {
                        let w2 = choose|w2: int|
                            0 <= w2 < s.eng.len() && (#[trigger] s.eng[w2]) == Some(x);
                        assert(w2 != w);
                        assert(t.eng[w2] == Some(x));
                        assert(t.engaged(x));
                    }
                    if t.engaged(x) {
                        let w2 = choose|w2: int|
                            0 <= w2 < t.eng.len() && (#[trigger] t.eng[w2]) == Some(x);
                        assert(w2 != w);
                        assert(s.eng[w2] == Some(x));
                        assert(s.engaged(x));
                    }
                }
            }
            assert forall|w2: int| 0 <= w2 < n && (#[trigger] t.eng[w2]) is Some implies {
                let m3 = t.eng[w2]->0 as int;
                &&& 0 <= m3 < n
                &&& t.stacks[m3].len() < n
                &&& t.full[m3][t.stacks[m3].len() as int] == w2 as usize
            } by {
                if w2 == w {
                    assert(t.eng[w2]->0 == m);
                    assert(t.stacks[m as int].len() == k);
                } else {
                    assert(t.eng[w2] == s.eng[w2]);
                    let m3 = s.eng[w2]->0 as int;
                    assert(m3 != m);
                    assert(t.stacks[m3] == s.stacks[m3]);
                }
            }
            lemma_count_some_update(s.eng, w as int, Some(m));
            assert forall|m1: int, w1: int|
                #![trigger t.pending(m1, w1)]
                0 <= m1 < n && 0 <= w1 < n && !t.pending(m1, w1) && t.eng[w1] != Some(
                m1 as usize,
            ) implies t.prefers_partner(w1, m1) by {
                if m1 == m {
                    if w1 != w {
                        assert(!s.pending(m1, w1));
                        assert(s.prefers_partner(w1, m1));
                        assert(t.eng[w1] == s.eng[w1]);
                    }
                } else {
                    assert(t.stacks[m1] == s.stacks[m1]);
                    assert(s.pending(m1, w1) == t.pending(m1, w1));
                    if w1 == w {
                        if m1 == m2 {
                            assert(t.eng[w1] == Some(m));
                        } else {
                            assert(!s.pending(m1, w1));
                            assert(s.prefers_partner(w1, m1));
                        }
                    } else {
                        assert(!s.pending(m1, w1));
                        assert(s.prefers_partner(w1, m1));
                        assert(t.eng[w1] == s.eng[w1]);
                    }
                }
            }
            assert(t.wf());
        } else {
            // the proposee keeps her partner; the proposal is lost for good
            assert(t.eng == s.eng);
            assert(t.free == s.free);
            assert(forall|x: usize| (#[trigger] t.engaged(x)) == s.engaged(x));
            assert forall|w2: int| 0 <= w2 < n && (#[trigger] t.eng[w2]) is Some implies {
                let m3 = t.eng[w2]->0 as int;
                &&& 0 <= m3 < n
                &&& t.stacks[m3].len() < n
                &&& t.full[m3][t.stacks[m3].len() as int] == w2 as usize
            } by {
                let m3 = s.eng[w2]->0 as int;
                assert(m3 != m);
                assert(t.stacks[m3] == s.stacks[m3]);
            }
            assert forall|m1: int, w1: int|
                #![trigger t.pending(m1, w1)]
                0 <= m1 < n && 0 <= w1 < n && !t.pending(m1, w1) && t.eng[w1] != Some(
                m1 as usize,
            ) implies t.prefers_partner(w1, m1) by {
                if m1 == m {
                    if w1 == w {
                        assert(s.rank[w as int][m2 as int] <= s.rank[w as int][m as int]);
                        assert(s.rank[w as int][m2 as int] != s.rank[w as int][m as int]);
                        assert(t.prefers_partner(w1, m1));
                    } else {
                        assert(!s.pending(m1, w1));
                        assert(s.prefers_partner(w1, m1));
                    }
                } else {
                    assert(t.stacks[m1] == s.stacks[m1]);
                    assert(s.pending(m1, w1) == t.pending(m1, w1));
                    assert(!s.pending(m1, w1));
                    assert(s.prefers_partner(w1, m1));
                }
            }
            assert(t.wf());
        }
    } else {
        // a first proposal: the proposee accepts
        assert(t.eng == s.eng.update(w as int, Some(m)));
        assert(t.free == fd);
        assert forall|x: usize| x < n implies ((#[trigger] t.free.contains(x)) <==> !t.engaged(
            x,
        )) by {
            if x == m {
                assert(t.eng[w as int] == Some(m));
                assert(t.engaged(m));
                assert(!t.free.contains(m));
            } else {
                if s.engaged(x) {
                    let w2 = choose|w2: int|
                        0 <= w2 < s.eng.len() && (#[trigger] s.eng[w2]) == Some(x);
                    assert(w2 != w);
                    assert(t.eng[w2] == Some(x));
                    assert(t.engaged(x));
                }
                if t.engaged(x) {
                    let w2 = choose|w2: int|
                        0 <= w2 < t.eng.len() && (#[trigger] t.eng[w2]) == Some(x);
                    assert(w2 != w);
                    assert(s.eng[w2] == Some(x));
                    assert(s.engaged(x));
                }
            }
        }
        assert forall|w2: int| 0 <= w2 < n && (#[trigger] t.eng[w2]) is Some implies {
            let m3 = t.eng[w2]->0 as int;
            &&& 0 <= m3 < n
            &&& t.stacks[m3].len() < n
            &&& t.full[m3][t.stacks[m3].len() as int] == w2 as usize
        } by {
            if w2 == w {
                assert(t.eng[w2]->0 == m);
                assert(t.stacks[m as int].len() == k);
            } else {
                assert(t.eng[w2] == s.eng[w2]);
                let m3 = s.eng[w2]->0 as int;
                assert(m3 != m);
                assert(t.stacks[m3] == s.stacks[m3]);
            }
        }
        lemma_count_some_update(s.eng, w as int, Some(m));
        assert forall|m1: int, w1: int|
            #![trigger t.pending(m1, w1)]
            0 <= m1 < n && 0 <= w1 < n && !t.pending(m1, w1) && t.eng[w1] != Some(
            m1 as usize,
        ) implies t.prefers_partner(w1, m1) by {
            if m1 == m {
                if w1 != w {
                    assert(!s.pending(m1, w1));
                    assert(s.prefers_partner(w1, m1));
                    assert(t.eng[w1] == s.eng[w1]);
                }
            } else {
                assert(t.stacks[m1] == s.stacks[m1]);
                assert(s.pending(m1, w1) == t.pending(m1, w1));
                if w1 == w {
                    assert(s.pending(m1, w1)) by {
                        if !s.pending(m1, w1) {
                            assert(s.prefers_partner(w1, m1));
                            assert(false);
                        }
                    }
                } else {
                    assert(!s.pending(m1, w1));
                    assert(s.prefers_partner(w1, m1));
                    assert(t.eng[w1] == s.eng[w1]);
                }
            }
        }
        assert(t.wf());
    }
}

/// Running to quiescence from any well-formed state terminates in a
/// well-formed quiescent state with the same preference data, and no
/// receiver ends up with a worse-ranked partner than she currently holds.
pub proof fn lemma_solve_props(s: MatchState)
    requires
        s.wf(),
    ensures
        solve(s).wf(),
        solve(s).quiescent(),
        solve(s).full == s.full,
        solve(s).rank == s.rank,
        solve(s).n() == s.n(),
        forall|w: int|
            0 <= w < s.n() && (#[trigger] s.eng[w]) is Some ==> solve(s).eng[w] is Some
                && s.rank[w][solve(s).eng[w]->0 as int] <= s.rank[w][s.eng[w]->0 as int],
    decreases sum_stack_len(s.stacks),
{
    lemma_sum_stack_nonneg(s.stacks);
    if s.can_step() {
        lemma_step_wf(s);
        lemma_sum_stack_nonneg(s.step().stacks);
        lemma_solve_props(s.step());
        let t = s.step();
        assert(solve(s) == solve(t));
        assert forall|w: int|
            0 <= w < s.n() && (#[trigger] s.eng[w]) is Some implies solve(s).eng[w] is Some
                && s.rank[w][solve(s).eng[w]->0 as int] <= s.rank[w][s.eng[w]->0 as int] by {
            assert(t.eng[w] is Some);
            assert(t.rank[w][solve(t).eng[w]->0 as int] <= t.rank[w][t.eng[w]->0 as int]);
        }
    } else {
        if s.free.len() > 0 {
            lemma_wf_progress(s);
        }
    }
}

/// Solving is a function of the engine state alone: equal instances solve
/// to equal outcomes.  This is why solving the same input twice yields the
/// same matching.
pub proof fn lemma_solve_deterministic(s1: MatchState, s2: MatchState)
    requires
        s1 == s2,
    ensures
        solve(s1) == solve(s2),
{
}

/// At quiescence every receiver is engaged and no two receivers share a
/// proposer; conversely every proposer is engaged to some receiver.
pub proof fn lemma_quiescent_total(s: MatchState)
    requires
        s.wf(),
        s.quiescent(),
    ensures
        forall|w: int|
            0 <= w < s.n() ==> (#[trigger] s.eng[w]) is Some && s.eng[w]->0 < s.n(),
        forall|w1: int, w2: int|
            #![trigger s.eng[w1], s.eng[w2]]
            0 <= w1 < s.n() && 0 <= w2 < s.n() && w1 != w2 ==> s.eng[w1]->0 != s.eng[w2]->0,
        forall|m: usize| m < s.n() ==> (#[trigger] s.engaged(m)),
{
    lemma_count_some_bounds(s.eng);
    assert(count_some(s.eng) == s.eng.len());
    assert forall|w1: int, w2: int|
        #![trigger s.eng[w1], s.eng[w2]]
        0 <= w1 < s.n() && 0 <= w2 < s.n() && w1 != w2 implies s.eng[w1]->0 != s.eng[w2]->0 by {
        if s.eng[w1]->0 == s.eng[w2]->0 {
            lemma_engaged_unique(s, w1, w2);
        }
    }
    assert forall|m: usize| m < s.n() implies (#[trigger] s.engaged(m)) by {
        assert(!s.free.contains(m));
    }
}

/// `w1` stands later than `w2` in the reversed preference row `fullrow`:
/// the proposer whose row this is strictly prefers `w1` to `w2`.
pub open spec fn man_prefers(fullrow: Seq<usize>, w1: usize, w2: usize) -> bool {
    exists|i: int, j: int|
        #![trigger fullrow[i], fullrow[j]]
        0 <= j < i < fullrow.len() && fullrow[i] == w1 && fullrow[j] == w2
}

/// Read [`man_prefers`] back in terms of the raw input row (most preferred
/// first, as handed to [`GaleShapley::init`], which stores it reversed): a
/// proposer prefers the receiver standing earlier in his input row.
pub proof fn lemma_man_prefers_input(p: Seq<usize>, n: nat, i: int, j: int)
    requires
        is_perm(p, n),
        0 <= i < n,
        0 <= j < n,
    ensures
        man_prefers(p.reverse(), p[i], p[j]) <==> i < j,
{
    let rev = p.reverse();
    assert(forall|a: int| 0 <= a < n ==> #[trigger] rev[a] == p[n - 1 - a]);
    if i < j {
        assert(rev[n - 1 - i] == p[i] && rev[n - 1 - j] == p[j]);
        assert(man_prefers(rev, p[i], p[j]));
    }
    if man_prefers(rev, p[i], p[j]) {
        let (a, b) = choose|a: int, b: int|
            #![trigger rev[a], rev[b]]
            0 <= b < a < rev.len() && rev[a] == p[i] && rev[b] == p[j];
        assert(p[n - 1 - a] == p[i]);
        assert(p[n - 1 - b] == p[j]);
        assert(n - 1 - a == i && n - 1 - b == j);
    }
}

/// `r` (one `(proposer, receiver)` pair per receiver) has no blocking pair
/// with respect to the preference data `(full, rank)`: whenever a matched
/// proposer prefers some other receiver to his own partner, that receiver
/// ranks her own partner strictly better than him.
pub open spec fn stable_matching(
    full: Seq<Seq<usize>>,
    rank: Seq<Seq<usize>>,
    r: Seq<(usize, usize)>,
) -> bool {
    forall|a: int, b: int|
        #![trigger r[a], r[b]]
        0 <= a < r.len() && 0 <= b < r.len() && man_prefers(full[r[a].0 as int], r[b].1, r[a].1)
            ==> rank[r[b].1 as int][r[b].0 as int] < rank[r[b].1 as int][r[a].0 as int]
}

/// The pair query agrees with the full solve: a `(proposer, receiver)`
/// pair for which [`GaleShapley::has_stable_mariage_with`] answers `true`
/// (receiver `w`'s final engagement is to `m`) is exactly one that stands
/// in the matching [`GaleShapley::find_stable_marriage`] returns.
pub proof fn lemma_query_agrees(s: MatchState, r: Seq<(usize, usize)>, m: usize, w: int)
    requires
        s.wf(),
        0 <= w < s.n(),
        r.len() == s.n(),
        forall|j: int|
            0 <= j < r.len() ==> (#[trigger] r[j]).1 == j && Some(r[j].0) == solve(s).eng[j],
    ensures
        (solve(s).eng[w] == Some(m)) <==> r.contains((m, w as usize)),
{
    lemma_solve_props(s);
    lemma_quiescent_total(solve(s));
    if solve(s).eng[w] == Some(m) {
        assert(r[w] == (m, w as usize));
        assert(r.contains((m, w as usize)));
    }
    if r.contains((m, w as usize)) {
        let j = choose|j: int| 0 <= j < r.len() && (#[trigger] r[j]) == (m, w as usize);
        assert(r[j].1 == j);
    }
}

/// Proposer `m` appears in the matching `r`.
pub open spec fn appears_as_proposer(r: Seq<(usize, usize)>, m: usize) -> bool {
    exists|w: int| 0 <= w < r.len() && (#[trigger] r[w]).0 == m
}

/// The matching read off a quiescent state has no blocking pair.
pub proof fn lemma_result_stable(s: MatchState, r: Seq<(usize, usize)>)
    requires
        s.wf(),
        s.quiescent(),
        r.len() == s.n(),
        forall|w: int| 0 <= w < s.n() ==> (#[trigger] r[w]) == (s.eng[w]->0, w as usize),
    ensures
        stable_matching(s.full, s.rank, r),
{
    let n = s.n();
    lemma_quiescent_total(s);
    assert forall|a: int, b: int|
        #![trigger r[a], r[b]]
        0 <= a < r.len() && 0 <= b < r.len() && man_prefers(s.full[r[a].0 as int], r[b].1, r[a].1)
        implies s.rank[r[b].1 as int][r[b].0 as int] < s.rank[r[b].1 as int][r[a].0 as int] by {
        let m = r[a].0;
        let m2 = r[b].0;
        assert(r[a].1 == a as usize && r[b].1 == b as usize);
        assert(s.eng[a] == Some(m));
        assert(s.eng[b] == Some(m2));
        let (i, j) = choose|i: int, j: int|
            #![trigger s.full[m as int][i], s.full[m as int][j]]
            0 <= j < i < s.full[m as int].len() && s.full[m as int][i] == b as usize
                && s.full[m as int][j] == a as usize;
        let k = s.stacks[m as int].len() as int;
        assert(s.full[m as int][k] == a as usize);
        assert(is_perm(s.full[m as int], n));
        assert(j == k);
        assert(!s.pending(m as int, b)) by {
            if s.pending(m as int, b) {
                let i2 = choose|i2: int|
                    0 <= i2 < s.stacks[m as int].len() && s.stacks[m as int][i2] == b as usize;
                assert(s.stacks[m as int] == s.full[m as int].take(k));
                assert(s.full[m as int][i2] == b as usize);
                assert(false);
            }
        }
        assert(s.eng[b] != Some(m)) by {
            if s.eng[b] == Some(m) {
                lemma_engaged_unique(s, a, b);
                assert(s.full[m as int][i] == s.full[m as int][j]);
                assert(false);
            }
        }
        assert(s.prefers_partner(b, m as int));
    }
}

/// The rows of a vector of vectors, as a sequence of sequences.
pub open spec fn rows_of(v: Seq<Vec<usize>>) -> Seq<Seq<usize>> {
    Seq::new(v.len(), |i: int| v[i]@)
}

/// An executable deferred-acceptance instance.
///
/// Abstractly it is a [`MatchState`]; the ghost `men_full` field remembers
/// the complete reversed preference rows, which solving consumes.
pub struct GaleShapley {
    free_men: Vec<Man>,
    /// `men_preferences[m]` holds the receivers `m` has not proposed to
    /// yet, least preferred first (popped from the end).
    men_preferences: Vec<Vec<Woman>>,
    /// `women_preferences[w][m]` is the rank of `m` in `w`'s preferences.
    women_preferences: Vec<Vec<usize>>,
    /// `women_engagement[w]` is the proposer `w` is currently engaged to.
    women_engagement: Vec<Option<Man>>,
    men_full: Ghost<Seq<Seq<usize>>>,
}

impl View for GaleShapley {
    type V = MatchState;

    closed spec fn view(&self) -> MatchState {
        MatchState {
            stacks: rows_of(self.men_preferences@),
            full: self.men_full@,
            rank: rows_of(self.women_preferences@),
            eng: self.women_engagement@,
            free: self.free_men@,
        }
    }
}

impl GaleShapley {
    /// Build an instance from a square matrix of proposer preference rows
    /// and one of receiver preference rows, each row a permutation of
    /// `[0, n)` listing partners most preferred first.
    pub fn init(men_preferences: Vec<Vec<Woman>>, women_preferences: Vec<Vec<Man>>) -> (r:
        GaleShapley)
        requires
            men_preferences@.len() == women_preferences@.len(),
            forall|m: int|
                0 <= m < men_preferences@.len() ==> is_perm(
                    (#[trigger] men_preferences@[m])@,
                    men_preferences@.len(),
                ),
            forall|w: int|
                0 <= w < women_preferences@.len() ==> is_perm(
                    (#[trigger] women_preferences@[w])@,
                    women_preferences@.len(),
                ),
        ensures
            r@.wf(),
            r@.n() == men_preferences@.len(),
            r@.stacks == r@.full,
            forall|m: int|
                0 <= m < men_preferences@.len() ==> (#[trigger] r@.full[m])
                    == men_preferences@[m]@.reverse(),
            forall|w: int|
                0 <= w < women_preferences@.len() ==> is_inverse_of(
                    #[trigger] r@.rank[w],
                    women_preferences@[w]@,
                ),
            forall|w: int| 0 <= w < r@.n() ==> (#[trigger] r@.eng[w]) is None,
            r@.free.len() == r@.n(),
            forall|i: int| 0 <= i < r@.free.len() ==> #[trigger] r@.free[i] == r@.free.len() - 1
                - i,
    {
        let n = men_preferences.len();
        let ghost mp0 = men_preferences@;
        let ghost wp0 = women_preferences@;
        let mp = make_men_preferences(men_preferences);
        let wp = make_rank_matrix(women_preferences);
        let mut free: Vec<usize> = Vec::new();
        let mut i: usize = 0;
        while i < n
            invariant
                i <= n,
                free@.len() == i,
                forall|j: int| 0 <= j < i ==> #[trigger] free@[j] == n - 1 - j,
            decreases n - i,
        {
            free.push(n - 1 - i);
            i = i + 1;
        }
        let mut eng: Vec<Option<Man>> = Vec::new();
        let mut k: usize = 0;
        while k < n
            invariant
                k <= n,
                eng@.len() == k,
                forall|j: int| 0 <= j < k ==> (#[trigger] eng@[j]) is None,
            decreases n - k,
        {
            eng.push(None);
            k = k + 1;
        }
        let ghost full = rows_of(mp@);
        let r = GaleShapley {
            free_men: free,
            men_preferences: mp,
            women_preferences: wp,
            women_engagement: eng,
            men_full: Ghost(full),
        };
        proof {
            let s = r@;
            assert(s.n() == n);
            assert forall|m: int| 0 <= m < n implies is_perm(#[trigger] s.full[m], s.n()) by {
                assert(s.full[m] == mp0[m]@.reverse());
                lemma_reverse_perm(mp0[m]@, n as nat);
            }
            assert forall|m: int|
                0 <= m < n implies (#[trigger] s.stacks[m]).len() <= s.n() && s.stacks[m]
                == s.full[m].take(s.stacks[m].len() as int) by {
                assert(s.stacks[m] == s.full[m]);
                assert(s.full[m].len() == n);
                assert(s.full[m].take(n as int) =~= s.full[m]);
            }
            assert forall|x: usize| !(#[trigger] s.engaged(x)) by {
                if s.engaged(x) {
                    let w = choose|w: int|
                        0 <= w < s.eng.len() && (#[trigger] s.eng[w]) == Some(x);
                    assert(s.eng[w] is None);
                    assert(false);
                }
            }
            assert forall|x: usize| x < n implies #[trigger] s.free.contains(x) by {
                assert(s.free[n - 1 - x] == x);
            }
            assert(s.free.no_duplicates()) by {
                assert forall|a: int, b: int|
                    0 <= a < s.free.len() && 0 <= b < s.free.len() && a != b implies s.free[a]
                    != s.free[b] by {
                    assert(s.free[a] == n - 1 - a);
                    assert(s.free[b] == n - 1 - b);
                }
            }
            lemma_count_some_bounds(s.eng);
            assert(count_some(s.eng) == 0);
            assert forall|m: int, w: int|
                0 <= m < s.n() && 0 <= w < s.n() implies #[trigger] s.pending(m, w) by {
                assert(is_perm(s.stacks[m], s.n()));
                assert(s.stacks[m].contains(w as usize));
            }
            assert(s.wf());
        }
        r
    }

    /// Build an instance of size `n` with uniformly random preference
    /// matrices on both sides: each row is an independently sampled random
    /// permutation of `[0, n)`.  The bound on `n` keeps the sampler off a
    /// path that cannot take a full-length sample; an instance of the next
    /// admissible size could not hold its `n`-by-`n` matrices anyway.
    pub fn init_random(n: usize) -> (r: GaleShapley)
        requires
            n <= u32::MAX as usize,
        ensures
            r@.wf(),
            r@.n() == n,
            r@.stacks == r@.full,
            forall|m: int| 0 <= m < n ==> (#[trigger] r@.stacks[m]).len() == n,
            forall|w: int| 0 <= w < n ==> (#[trigger] r@.eng[w]) is None,
    {
        let mp = crate::random::rand_pref_matrix(n);
        let wp = crate::random::rand_pref_matrix(n);
        let r = GaleShapley::init(mp, wp);
        proof {
            assert forall|m: int| 0 <= m < n implies (#[trigger] r@.stacks[m]).len() == n by {
                assert(is_perm(r@.full[m], r@.n()));
            }
        }
        r
    }

    /// Drive the engine to quiescence and return the matching: one
    /// `(proposer, receiver)` pair per receiver, in receiver order.  The
    /// result is total (each side appears exactly once), has no blocking
    /// pair with respect to the instance's preferences, and is exactly the
    /// matching of [`solve`] of the starting state, so it is a function of
    /// the input alone.
    #[verifier::loop_isolation(false)]
    pub fn find_stable_marriage(&mut self) -> (r: Vec<(Man, Woman)>)
        requires
            old(self)@.wf(),
        ensures
            final(self)@ == solve(old(self)@),
            r@.len() == old(self)@.n(),
            forall|w: int|
                0 <= w < r@.len() ==> (#[trigger] r@[w]).1 == w && Some(r@[w].0) == solve(
                    old(self)@,
                ).eng[w],
            forall|w1: int, w2: int|
                #![trigger r@[w1], r@[w2]]
                0 <= w1 < r@.len() && 0 <= w2 < r@.len() && w1 != w2 ==> r@[w1].0 != r@[w2].0,
            forall|m: Man| m < old(self)@.n() ==> #[trigger] appears_as_proposer(r@, m),
            stable_matching(old(self)@.full, old(self)@.rank, r@),
    {
        let ghost s0 = self@;
        while self.has_free_man()
            invariant
                self@.wf(),
                self@.full == s0.full,
                self@.rank == s0.rank,
                self@.n() == s0.n(),
                solve(self@) == solve(s0),
            decreases sum_stack_len(self@.stacks),
        {
            proof {
                lemma_sum_stack_nonneg(self@.stacks);
            }
            let _round = self.next_engagement_round();
            proof {
                lemma_sum_stack_nonneg(self@.stacks);
            }
        }
        proof {
            assert(solve(self@) == self@);
            lemma_quiescent_total(self@);
        }
        let n = self.size();
        let mut r: Vec<(Man, Woman)> = Vec::new();
        let mut w: usize = 0;
        while w < n
            invariant
                n == self@.eng.len(),
                n == self@.stacks.len(),
                self@ == solve(s0),
                forall|j: int| 0 <= j < n ==> (#[trigger] self@.eng[j]) is Some,
                w <= n,
                r@.len() == w,
                forall|j: int| 0 <= j < w ==> (#[trigger] r@[j]) == (self@.eng[j]->0, j as usize),
            decreases n - w,
        {
            let e = self.current_woman_engagement(w);
            let m = e.unwrap();
            r.push((m, w));
            w = w + 1;
        }
        proof {
            lemma_quiescent_total(self@);
            assert forall|w1: int, w2: int|
                #![trigger r@[w1], r@[w2]]
                0 <= w1 < r@.len() && 0 <= w2 < r@.len() && w1 != w2 implies r@[w1].0
                != r@[w2].0 by {
                assert(self@.eng[w1]->0 != self@.eng[w2]->0);
            }
            assert forall|m: Man| m < s0.n() implies #[trigger] appears_as_proposer(r@, m) by {
                assert(self@.engaged(m));
                let w2 = choose|w2: int|
                    0 <= w2 < self@.eng.len() && (#[trigger] self@.eng[w2]) == Some(m);
                assert(r@[w2].0 == m);
            }
            lemma_result_stable(self@, r@);
        }
        r
    }

    /// Whether `man` and `woman` are matched in the matching that
    /// [`Self::find_stable_marriage`] would return.  Decided with an early
    /// exit: once the pair has been engaged and comes apart, it can never
    /// re-form, because a receiver's partner only ever improves and a
    /// proposer never proposes to the same receiver twice.
    #[verifier::loop_isolation(false)]
    pub fn has_stable_mariage_with(&mut self, man: Man, woman: Woman) -> (r: bool)
        requires
            old(self)@.wf(),
            man < old(self)@.n(),
            woman < old(self)@.n(),
        ensures
            final(self)@.wf(),
            final(self)@.full == old(self)@.full,
            final(self)@.rank == old(self)@.rank,
            final(self)@.n() == old(self)@.n(),
            solve(final(self)@) == solve(old(self)@),
            r == (solve(old(self)@).eng[woman as int] == Some(man)),
    {
        let ghost s0 = self@;
        let mut was_engaged = match self.current_woman_engagement(woman) {
            Some(m) => m == man,
            None => false,
        };
        while self.has_free_man()
            invariant
                self@.wf(),
                self@.full == s0.full,
                self@.rank == s0.rank,
                self@.n() == s0.n(),
                solve(self@) == solve(s0),
                was_engaged == (self@.eng[woman as int] == Some(man)),
            decreases sum_stack_len(self@.stacks),
        {
            proof {
                lemma_sum_stack_nonneg(self@.stacks);
            }
            let ghost pre = self@;
            let _round = self.next_engagement_round();
            proof {
                lemma_sum_stack_nonneg(self@.stacks);
            }
            let now = match self.current_woman_engagement(woman) {
                Some(m) => m == man,
                None => false,
            };
            if now {
                was_engaged = true;
            } else if was_engaged {
                // the pair came apart after having been engaged
                proof {
                    lemma_step_wf(pre);
                    assert(self@ == pre.step());
                    assert(pre.eng[woman as int] == Some(man));
                    assert(self@.eng[woman as int] is Some);
                    let m3 = self@.eng[woman as int]->0;
                    assert(self@.rank[woman as int][m3 as int] <= self@.rank[woman as int][man as int]);
                    assert(m3 != man);
                    assert(m3 < self@.n());
                    assert(is_perm(self@.rank[woman as int], self@.n()));
                    assert(self@.rank[woman as int][m3 as int] < self@.rank[woman as int][man as int]);
                    lemma_solve_props(self@);
                    assert(solve(self@).eng[woman as int] is Some);
                    if solve(self@).eng[woman as int] == Some(man) {
                        assert(self@.rank[woman as int][man as int] <= self@.rank[woman as int][m3 as int]);
                        assert(false);
                    }
                }
                return false;
            }
        }
        proof {
            assert(solve(self@) == self@);
        }
        was_engaged
    }

    /// Reconstitute the matrix such that entry `[m][w]` is the rank of `w`
    /// in `m`'s original preference order (0 = most preferred).  Only
    /// available while no proposal has been made yet: solving drains the
    /// preference stacks this is computed from.
    pub fn men_rank_matrix(&self) -> (r: Vec<Vec<usize>>)
        requires
            self@.wf(),
            forall|m: int|
                0 <= m < self@.n() ==> (#[trigger] self@.stacks[m]).len() == self@.n(),
        ensures
            r@.len() == self@.n(),
            forall|m: int|
                0 <= m < self@.n() ==> (#[trigger] r@[m])@.len() == self@.n(),
            forall|m: int, i: int|
                #![trigger r@[m]@[self@.full[m][i] as int]]
                0 <= m < self@.n() && 0 <= i < self@.n() ==> r@[m]@[self@.full[m][i] as int]
                    == self@.n() - 1 - i,
    {
        let n = self.size();
        proof {
            assert forall|m: int| 0 <= m < n implies (#[trigger] self@.stacks[m])
                == self@.full[m] by {
                assert(self@.stacks[m] == self@.full[m].take(self@.stacks[m].len() as int));
                assert(self@.full[m].take(n as int) =~= self@.full[m]);
            }
        }
        let mut r: Vec<Vec<usize>> = Vec::new();
        let mut m: usize = 0;
        while m < n
            invariant
                self@.wf(),
                n == self@.stacks.len(),
                forall|j: int| 0 <= j < n ==> (#[trigger] self@.stacks[j]) == self@.full[j],
                m <= n,
                r@.len() == m,
                forall|j: int| 0 <= j < m ==> (#[trigger] r@[j])@.len() == n,
                forall|j: int, i: int|
                    #![trigger r@[j]@[self@.full[j][i] as int]]
                    0 <= j < m && 0 <= i < n ==> r@[j]@[self@.full[j][i] as int] == n - 1 - i,
            decreases n - m,
        {
            let row = &self.men_preferences[m];
            proof {
                assert(row@ == self@.stacks[m as int]);
                assert(is_perm(self@.full[m as int], self@.n()));
            }
            let mut rank: Vec<usize> = vec![0; n];
            let mut i: usize = 0;
            while i < n
                invariant
                    self@.wf(),
                    n == self@.stacks.len(),
                    m < n,
                    row@ == self@.full[m as int],
                    is_perm(self@.full[m as int], n as nat),
                    i <= n,
                    rank@.len() == n,
                    forall|j: int|
                        0 <= j < i ==> #[trigger] rank@[row@[j] as int] == n - 1 - j,
                decreases n - i,
            {
                let w = row[i];
                let ghost prev = rank@;
                rank[w] = n - 1 - i;
                assert forall|j: int| 0 <= j < i + 1 implies #[trigger] rank@[row@[j] as int]
                    == n - 1 - j by {
                    if j < i {
                        assert(row@[j] != row@[i as int]);
                        assert(prev[row@[j] as int] == n - 1 - j);
                    }
                }
                i = i + 1;
            }
            r.push(rank);
            m = m + 1;
        }
        r
    }

    /// The receiver-side rank tables: entry `[w][m]` is the rank of `m` in
    /// `w`'s preferences (0 = most preferred).
    pub fn women_preferences(&self) -> (r: &Vec<Vec<usize>>)
        ensures
            rows_of(r@) == self@.rank,
    {
        &self.women_preferences
    }

    /// Number of proposers (and of receivers).
    pub fn size(&self) -> (r: usize)
        ensures
            r == self@.stacks.len(),
    {
        self.men_preferences.len()
    }

    /// Whether some proposer is still free.
    fn has_free_man(&self) -> (r: bool)
        ensures
            r == (self@.free.len() > 0),
    {
        self.free_men.len() > 0
    }

    /// The most recently freed proposer, if any proposer is free.
    fn next_free_man(&self) -> (r: Option<Man>)
        ensures
            r == if self@.free.len() > 0 {
                Some(self@.proposer())
            } else {
                None::<Man>
            },
    {
        if self.free_men.len() == 0 {
            None
        } else {
            Some(self.free_men[self.free_men.len() - 1])
        }
    }

    /// The receiver that `m` currently wants the most.
    pub fn best_woman_for(&self, m: Man) -> (r: Woman)
        requires
            m < self@.stacks.len(),
            self@.stacks[m as int].len() > 0,
        ensures
            r == self@.stacks[m as int].last(),
    {
        let row = &self.men_preferences[m];
        row[row.len() - 1]
    }

    /// Pop the receiver that `m` currently wants the most.
    fn take_best_woman_for(&mut self, m: Man) -> (r: Woman)
        requires
            m < old(self)@.stacks.len(),
            old(self)@.stacks[m as int].len() > 0,
        ensures
            r == old(self)@.stacks[m as int].last(),
            final(self)@.stacks == old(self)@.stacks.update(
                m as int,
                old(self)@.stacks[m as int].drop_last(),
            ),
            final(self)@.full == old(self)@.full,
            final(self)@.rank == old(self)@.rank,
            final(self)@.eng == old(self)@.eng,
            final(self)@.free == old(self)@.free,
    {
        let row = &mut self.men_preferences[m];
        let r = row.pop().unwrap();
        proof {
            assert(self@.stacks =~= old(self)@.stacks.update(
                m as int,
                old(self)@.stacks[m as int].drop_last(),
            ));
        }
        r
    }

    /// The proposer that `w` is currently engaged to.
    pub fn current_woman_engagement(&self, w: Woman) -> (r: Option<Man>)
        requires
            w < self@.eng.len(),
        ensures
            r == self@.eng[w as int],
    {
        self.women_engagement[w]
    }

    /// Whether `w` prefers `m1` over `m2`.
    fn woman_prefers(&self, w: Woman, m1: Man, m2: Man) -> (r: bool)
        requires
            w < self@.rank.len(),
            m1 < self@.rank[w as int].len(),
            m2 < self@.rank[w as int].len(),
        ensures
            r == (self@.rank[w as int][m1 as int] < self@.rank[w as int][m2 as int]),
    {
        let prefs = &self.women_preferences[w];
        prefs[m1] < prefs[m2]
    }

    /// Engage `m` (the proposer on top of the free stack) to `w`.
    fn engage(&mut self, m: Man, w: Woman)
        requires
            w < old(self)@.eng.len(),
            old(self)@.free.len() > 0,
        ensures
            final(self)@.eng == old(self)@.eng.update(w as int, Some(m)),
            final(self)@.free == old(self)@.free.drop_last(),
            final(self)@.stacks == old(self)@.stacks,
            final(self)@.full == old(self)@.full,
            final(self)@.rank == old(self)@.rank,
    {
        self.women_engagement[w] = Some(m);
        let _popped = self.free_men.pop();
        proof {
            assert(self@.free =~= old(self)@.free.drop_last());
        }
    }

    /// Return `m` to the free stack after his receiver displaced him.
    fn free_from_engagement(&mut self, m: Man)
        ensures
            final(self)@.free == old(self)@.free.push(m),
            final(self)@.eng == old(self)@.eng,
            final(self)@.stacks == old(self)@.stacks,
            final(self)@.full == old(self)@.full,
            final(self)@.rank == old(self)@.rank,
    {
        self.free_men.push(m);
    }

    /// Try to engage the next free proposer.  Returns `None` once no
    /// proposer is free (the stable terminal state), otherwise the
    /// `(proposer, receiver)` pair of the round's proposal.  The new state
    /// is exactly [`MatchState::step`] of the old one.
    pub fn next_engagement_round(&mut self) -> (r: Option<(Man, Woman)>)
        requires
            old(self)@.wf(),
        ensures
            final(self)@.wf(),
            final(self)@.full == old(self)@.full,
            final(self)@.rank == old(self)@.rank,
            final(self)@.n() == old(self)@.n(),
            solve(final(self)@) == solve(old(self)@),
            old(self)@.quiescent() ==> r is None && final(self)@ == old(self)@,
            !old(self)@.quiescent() ==> r == Some((old(self)@.proposer(), old(self)@.proposee()))
                && final(self)@ == old(self)@.step()
                && sum_stack_len(final(self)@.stacks) == sum_stack_len(old(self)@.stacks) - 1,
    {
        let m = match self.next_free_man() {
            None => {
                return None;
            },
            Some(m) => m,
        };
        proof {
            lemma_step_wf(self@);
            assert(self@.stacks[m as int] == self@.full[m as int].take(
                self@.stacks[m as int].len() as int,
            ));
            assert(is_perm(self@.full[m as int], self@.n()));
            assert(self@.proposee() == self@.full[m as int][self@.stacks[m as int].len() - 1]);
        }
        let w = self.take_best_woman_for(m);
        proof {
            assert(w < old(self)@.n());
            assert(self@.eng == old(self)@.eng);
            assert(self@.rank == old(self)@.rank);
        }
        if let Some(m2) = self.current_woman_engagement(w) {
            proof {
                assert(old(self)@.eng[w as int] == Some(m2));
                assert(m2 < old(self)@.n());
                assert(is_perm(old(self)@.rank[w as int], old(self)@.n()));
            }
            if self.woman_prefers(w, m, m2) {
                self.engage(m, w);
                self.free_from_engagement(m2);
            }
        } else {
            self.engage(m, w);
        }
        proof {
            assert(self@ =~= old(self)@.step());
            assert(solve(old(self)@) == solve(old(self)@.step()));
        }
        Some((m, w))
    }
}

} // verus!
