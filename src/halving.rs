use vstd::arithmetic::power2::{lemma2_to64, lemma_pow2_unfold, pow2};
use vstd::prelude::*;

verus! {

/// Budget bookkeeping of one sequential-halving search: how many
/// simulations are allowed and spent, how many rounds the budget is split
/// over, and how many candidate actions are still in the running.
#[derive(Clone, Copy, Debug, PartialEq, Eq, Structural)]
pub struct Schedule {
    pub budget: u32,
    pub spent: u32,
    pub rounds: u32,
    pub remaining: usize,
}

/// Smallest `r` with `2^r >= m`.
pub open spec fn ceil_log2(m: nat) -> nat
    decreases m,
{
    if m <= 1 {
        0
    } else {
        1 + ceil_log2(((m + 1) / 2) as nat)
    }
}

/// A number of at most `2^k` takes at most `k` halvings.
proof fn lemma_ceil_log2_bound(m: nat, k: nat)
    requires
        m <= pow2(k),
    ensures
        ceil_log2(m) <= k,
    decreases k,
{
    if m > 1 {
        if k == 0 {
            lemma2_to64();
        } else {
            lemma_pow2_unfold(k);
            lemma_ceil_log2_bound(((m + 1) / 2) as nat, (k - 1) as nat);
        }
    }
}

/// Candidates kept by one halving of `n`: half of them, rounded down, and
/// never fewer than one.
pub open spec fn halved(n: int) -> int {
    if n / 2 >= 1 {
        n / 2
    } else {
        1
    }
}

/// Simulations each remaining candidate gets in one round.
pub open spec fn per_candidate(s: Schedule) -> int {
    let q = s.budget as int / (s.rounds as int * s.remaining as int);
    if q >= 1 {
        q
    } else {
        1
    }
}

/// The schedule after one round: its simulations are spent (up to the
/// budget) and, while more than one candidate is left, half of them go.
pub open spec fn next_round(s: Schedule) -> Schedule {
    let used = s.spent + per_candidate(s) * s.remaining;
    Schedule {
        budget: s.budget,
        spent: if used > s.budget {
            s.budget
        } else {
            used as u32
        },
        rounds: s.rounds,
        remaining: halved(s.remaining as int) as usize,
    }
}

/// The schedule after `k` rounds.
pub open spec fn after_rounds(s: Schedule, k: nat) -> Schedule
    decreases k,
{
    if k == 0 {
        s
    } else {
        next_round(after_rounds(s, (k - 1) as nat))
    }
}

impl Schedule {
    pub open spec fn wf(self) -> bool {
        &&& self.spent <= self.budget
        &&& self.rounds >= 1
        &&& self.remaining >= 1
    }

    /// A schedule for `sampled` candidates and `budget` simulations, split
    /// over `ceil(log2(sampled))` rounds (at least one).
    pub fn new(sampled: usize, budget: u32) -> (r: Self)
        requires
            sampled >= 1,
        ensures
            r.wf(),
            r.budget == budget,
            r.spent == 0,
            r.remaining == sampled,
            r.rounds == if ceil_log2(sampled as nat) >= 1 {
                ceil_log2(sampled as nat)
            } else {
                1
            },
    {
        proof {
            lemma2_to64();
            lemma_ceil_log2_bound(sampled as nat, 64);
        }
        let mut rounds: u32 = 0;
        let mut m: usize = sampled;
        while m > 1
            invariant
                1 <= m <= sampled,
                rounds + ceil_log2(m as nat) == ceil_log2(sampled as nat),
                ceil_log2(sampled as nat) <= 64,
            decreases m,
        {
            m = m / 2 + m % 2;
            rounds = rounds + 1;
        }
        if rounds == 0 {
            rounds = 1;
        }
        Schedule { budget, spent: 0, rounds, remaining: sampled }
    }

    /// The budget is used up.
    pub fn is_done(&self) -> (r: bool)
        ensures
            r == (self.spent >= self.budget),
    {
        self.spent >= self.budget
    }

    /// Simulations that each remaining candidate gets this round:
    /// `budget / (rounds * remaining)`, at least one.
    pub fn visits_per_candidate(&self) -> (r: u32)
        requires
            self.wf(),
        ensures
            r == per_candidate(*self),
    {
        assert(self.remaining <= u64::MAX);
        assert(self.rounds as int * self.remaining as int <= u32::MAX as int * u64::MAX as int) by (nonlinear_arith)
            requires
                self.rounds <= u32::MAX,
                self.remaining <= u64::MAX,
        ;
        let denominator: u128 = self.rounds as u128 * self.remaining as u128;
        assert(denominator >= 1) by (nonlinear_arith)
            requires
                denominator == self.rounds as int * self.remaining as int,
                self.rounds >= 1,
                self.remaining >= 1,
        ;
        let q: u128 = self.budget as u128 / denominator;
        assert(q <= self.budget) by (nonlinear_arith)
            requires
                q == self.budget as int / denominator as int,
                denominator >= 1,
        ;
        if q >= 1 {
            q as u32
        } else {
            1
        }
    }

    /// Closes a round: books its simulations and, while more than one
    /// candidate is left, keeps the better half of `ranked` (best first).
    pub fn finish_round<A>(&mut self, ranked: &mut Vec<A>)
        requires
            old(self).wf(),
            old(ranked)@.len() == old(self).remaining,
        ensures
            *final(self) == next_round(*old(self)),
            final(self).wf(),
            final(ranked)@ == old(ranked)@.take(final(self).remaining as int),
            old(self).remaining == 1 ==> final(self).remaining == 1,
    {
        let per = self.visits_per_candidate();
        assert(self.remaining <= u64::MAX);
        assert(per as int * self.remaining as int <= u32::MAX as int * u64::MAX as int) by (nonlinear_arith)
            requires
                per <= u32::MAX,
                self.remaining <= u64::MAX,
        ;
        let used: u128 = self.spent as u128 + per as u128 * self.remaining as u128;
        self.spent = if used > self.budget as u128 {
            self.budget
        } else {
            used as u32
        };
        if self.remaining / 2 >= 1 {
            self.remaining = self.remaining / 2;
        } else {
            self.remaining = 1;
        }
        ranked.truncate(self.remaining);
    }
}

/// With a single sampled candidate no round ever drops it: every round
/// keeps exactly that one, so the whole budget goes into its subtree.
pub proof fn lemma_single_candidate_kept(s: Schedule, k: nat)
    requires
        s.wf(),
        s.remaining == 1,
    ensures
        after_rounds(s, k).remaining == 1,
        after_rounds(s, k).wf(),
    decreases k,
{
    if k > 0 {
        lemma_single_candidate_kept(s, (k - 1) as nat);
    }
}

} // verus!
