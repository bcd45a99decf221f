//! The mathematical model of a market.
//!
//! [`MarketModel`] is the view of an executable market: plain sequences and
//! integers in place of vectors, strings and vaults.  All public contracts
//! of [`crate::market`] are stated over this model.  The module also defines
//! the summation functions the contracts use — pool sums, per-user stakes,
//! per-user claimable balances — and the lemmas that relate them under
//! `push` and `update`.

use vstd::prelude::*;
use crate::amount::SCALE;

verus! {

/// Which payout rule a market uses at resolution.
#[derive(Clone, Copy, PartialEq, Eq, Structural, Debug)]
pub enum PayoutPolicy {
    /// Each winning stake is rewarded with `stake * odds` of the winning
    /// outcome; losing pools are swept to the house, which funds rewards.
    FixedOdds,
    /// The whole staked pool is split among winners in proportion to their
    /// share of the winning pool.
    Proportional,
}

/// Everything an operation can refuse and why.
#[derive(Clone, Copy, PartialEq, Eq, Structural, Debug)]
pub enum MarketError {
    /// Market creation parameters are invalid.
    InvalidConfig,
    /// The market no longer accepts bets: it was locked.
    MarketLocked,
    /// The market was already resolved and accepts no bets.
    MarketResolved,
    /// Resolution was attempted a second time.
    AlreadyResolved,
    /// A stake is zero, below the minimum or above the maximum bet.
    InvalidBetAmount,
    /// A bettor's cumulative stake on one outcome would pass the maximum.
    BetLimitExceeded,
    /// A named outcome is not one of the market's outcomes.
    UnknownOutcome,
    /// A winning-outcome index is out of range.
    OutcomeOutOfRange,
    /// A withdrawal or payout asks for more than a vault holds.
    InsufficientFunds,
    /// A privileged operation was invoked without the market's admin badge.
    Unauthorized,
    /// A claim found nothing to collect.
    NothingToClaim,
    /// A market identifier is already taken in the directory.
    DuplicateMarketId,
}

/// One ledger record: a bettor and the stake they hold on one outcome.
pub struct BetRec {
    pub user: Seq<char>,
    pub amount: int,
}

/// One claimable record: a bettor and the balance owed to them.
pub struct VaultRec {
    pub user: Seq<char>,
    pub balance: int,
}

/// The model of a market: the state every contract speaks of.
pub struct MarketModel {
    /// Display identifier; also what the admin badge is bound to.
    pub title: Seq<char>,
    /// Outcome labels; the index is an outcome's identity.
    pub outcomes: Seq<Seq<char>>,
    /// Odds per outcome, in subunits (`SCALE` is 1.0); parallel to
    /// `outcomes`.
    pub odds: Seq<int>,
    /// Bounds on a single bettor's cumulative stake per outcome.
    pub min_bet: int,
    pub max_bet: int,
    /// Escrow pool balances, parallel to `outcomes`.
    pub pools: Seq<int>,
    /// House pool: receives swept losing pools and outside deposits, funds
    /// rewards.
    pub house: int,
    /// Admin pool: funded only by explicit transfer out of the house pool.
    pub admin: int,
    /// Bet records per outcome, parallel to `outcomes`.
    pub ledger: Seq<Seq<BetRec>>,
    /// Claimable balances per bettor.
    pub vaults: Seq<VaultRec>,
    /// Running sum of all escrow pools; zero once resolved.
    pub total_staked: int,
    /// No further bets once set.
    pub locked: bool,
    /// Terminal: set by resolution or void, never unset.
    pub resolved: bool,
    /// Payout rule, fixed at creation.
    pub policy: PayoutPolicy,
}

// ----------------------------------------------------------------------
// Sums.

/// Total stake recorded in a run of bet records.
pub open spec fn sum_amounts(s: Seq<BetRec>) -> int
    decreases s.len(),
{
    if s.len() == 0 {
        0
    } else {
        sum_amounts(s.drop_last()) + s.last().amount
    }
}

/// Stake recorded for bettor `u` in a run of bet records.
pub open spec fn user_amount(s: Seq<BetRec>, u: Seq<char>) -> int
    decreases s.len(),
{
    if s.len() == 0 {
        0
    } else {
        user_amount(s.drop_last(), u) + if s.last().user == u {
            s.last().amount
        } else {
            0
        }
    }
}

/// Sum of a sequence of integers.
pub open spec fn sum_ints(s: Seq<int>) -> int
    decreases s.len(),
{
    if s.len() == 0 {
        0
    } else {
        sum_ints(s.drop_last()) + s.last()
    }
}

/// Total stake recorded in a whole ledger.
pub open spec fn ledger_sum(l: Seq<Seq<BetRec>>) -> int
    decreases l.len(),
{
    if l.len() == 0 {
        0
    } else {
        ledger_sum(l.drop_last()) + sum_amounts(l.last())
    }
}

/// Stake recorded for bettor `u` across a whole ledger.
pub open spec fn user_ledger_sum(l: Seq<Seq<BetRec>>, u: Seq<char>) -> int
    decreases l.len(),
{
    if l.len() == 0 {
        0
    } else {
        user_ledger_sum(l.drop_last(), u) + user_amount(l.last(), u)
    }
}

/// Balance owed to bettor `u`: the sum of their claimable records.
pub open spec fn claimable(vs: Seq<VaultRec>, u: Seq<char>) -> int
    decreases vs.len(),
{
    if vs.len() == 0 {
        0
    } else {
        claimable(vs.drop_last(), u) + if vs.last().user == u {
            vs.last().balance
        } else {
            0
        }
    }
}

// ----------------------------------------------------------------------
// Distinctness.

/// No two sequences in `s` are equal.
pub open spec fn distinct_seqs(s: Seq<Seq<char>>) -> bool {
    forall|i: int, j: int| 0 <= i < j < s.len() ==> s[i] != s[j]
}

/// No bettor appears twice in a run of bet records.
pub open spec fn distinct_users(s: Seq<BetRec>) -> bool {
    forall|i: int, j: int| 0 <= i < j < s.len() ==> s[i].user != s[j].user
}

/// No bettor owns two claimable records.
pub open spec fn distinct_vaults(vs: Seq<VaultRec>) -> bool {
    forall|i: int, j: int| 0 <= i < j < vs.len() ==> vs[i].user != vs[j].user
}

/// Bettor `u` holds a record in the run.
pub open spec fn has_user(s: Seq<BetRec>, u: Seq<char>) -> bool {
    exists|i: int| 0 <= i < s.len() && s[i].user == u
}

/// Bettor `u` owns a claimable record.
pub open spec fn has_vault(vs: Seq<VaultRec>, u: Seq<char>) -> bool {
    exists|i: int| 0 <= i < vs.len() && vs[i].user == u
}

/// Label `o` is one of the outcomes.
pub open spec fn has_outcome(outcomes: Seq<Seq<char>>, o: Seq<char>) -> bool {
    exists|i: int| 0 <= i < outcomes.len() && outcomes[i] == o
}

/// The index of label `o` among the outcomes.
pub open spec fn outcome_index(outcomes: Seq<Seq<char>>, o: Seq<char>) -> int {
    choose|i: int| 0 <= i < outcomes.len() && outcomes[i] == o
}

// ----------------------------------------------------------------------
// The market invariant.

impl MarketModel {
    /// Well-formedness: what creation establishes and every operation
    /// preserves.
    pub open spec fn inv(self) -> bool {
        &&& self.outcomes.len() == self.odds.len()
        &&& self.outcomes.len() == self.pools.len()
        &&& self.outcomes.len() == self.ledger.len()
        &&& distinct_seqs(self.outcomes)
        &&& forall|i: int| 0 <= i < self.odds.len() ==> #[trigger] self.odds[i] > SCALE
        &&& self.min_bet >= 5 * SCALE
        &&& self.max_bet > self.min_bet
        &&& forall|i: int| 0 <= i < self.pools.len() ==> #[trigger] self.pools[i] >= 0
        &&& self.house >= 0
        &&& self.admin >= 0
        &&& (!self.resolved ==> forall|i: int|
            0 <= i < self.ledger.len() ==> #[trigger] self.pools[i] == sum_amounts(
                self.ledger[i],
            ))
        &&& self.total_staked == if self.resolved {
            0
        } else {
            sum_ints(self.pools)
        }
        &&& forall|i: int, j: int|
            0 <= i < self.ledger.len() && 0 <= j < self.ledger[i].len() ==> 0
                < (#[trigger] self.ledger[i][j]).amount <= self.max_bet
        &&& forall|i: int| 0 <= i < self.ledger.len() ==> distinct_users(#[trigger] self.ledger[i])
        &&& distinct_vaults(self.vaults)
        &&& forall|k: int| 0 <= k < self.vaults.len() ==> (#[trigger] self.vaults[k]).balance >= 0
        &&& (!self.resolved ==> forall|k: int|
            0 <= k < self.vaults.len() ==> (#[trigger] self.vaults[k]).balance == 0)
    }
}

// ----------------------------------------------------------------------
// The staking transition.

/// The run with `amt` accumulated onto `u`'s record, or a fresh record
/// appended.
pub open spec fn upsert(s: Seq<BetRec>, u: Seq<char>, amt: int) -> Seq<BetRec> {
    if has_user(s, u) {
        let k = choose|k: int| 0 <= k < s.len() && s[k].user == u;
        s.update(k, BetRec { user: u, amount: s[k].amount + amt })
    } else {
        s.push(BetRec { user: u, amount: amt })
    }
}

/// With one record per bettor, upsert updates exactly the bettor's record.
pub proof fn lemma_upsert_at(s: Seq<BetRec>, u: Seq<char>, amt: int, k: int)
    requires
        distinct_users(s),
        0 <= k < s.len(),
        s[k].user == u,
    ensures
        upsert(s, u, amt) == s.update(k, BetRec { user: u, amount: s[k].amount + amt }),
{
    assert(has_user(s, u));
    let k2 = choose|k2: int| 0 <= k2 < s.len() && s[k2].user == u;
    if k2 < k {
        assert(s[k2].user != s[k].user);
    } else if k < k2 {
        assert(s[k].user != s[k2].user);
    }
}

/// An absent bettor's upsert appends a fresh record.
pub proof fn lemma_upsert_absent(s: Seq<BetRec>, u: Seq<char>, amt: int)
    requires
        !has_user(s, u),
    ensures
        upsert(s, u, amt) == s.push(BetRec { user: u, amount: amt }),
{
}

impl MarketModel {
    /// The error `place_bet` returns on this state and input — checked in
    /// this order — or `None` where the bet is accepted.
    pub open spec fn bet_refusal(self, u: Seq<char>, o: Seq<char>, amt: int) -> Option<
        MarketError,
    > {
        if self.resolved {
            Some(MarketError::MarketResolved)
        } else if self.locked {
            Some(MarketError::MarketLocked)
        } else if !(amt > 0 && self.min_bet <= amt && amt <= self.max_bet) {
            Some(MarketError::InvalidBetAmount)
        } else if !has_outcome(self.outcomes, o) {
            Some(MarketError::UnknownOutcome)
        } else if user_amount(self.ledger[outcome_index(self.outcomes, o)], u) + amt
            > self.max_bet {
            Some(MarketError::BetLimitExceeded)
        } else {
            None
        }
    }

    /// The state after an accepted bet: the stake moves into the outcome's
    /// escrow pool, the running total grows, and the ledger record
    /// accumulates.
    pub open spec fn bet_applied(self, u: Seq<char>, o: Seq<char>, amt: int) -> MarketModel {
        let w = outcome_index(self.outcomes, o);
        MarketModel {
            pools: self.pools.update(w, self.pools[w] + amt),
            ledger: self.ledger.update(w, upsert(self.ledger[w], u, amt)),
            total_staked: self.total_staked + amt,
            ..self
        }
    }

    /// This state with the market locked, as after `lock_market`.
    pub open spec fn locked_state(self) -> MarketModel {
        MarketModel { locked: true, ..self }
    }
}

// ----------------------------------------------------------------------
// The resolution transition.

impl MarketModel {
    /// The reward owed for a winning stake, per the market's payout policy:
    /// `stake * odds` under fixed odds, `stake * (total pool / winning
    /// pool)` under the proportional split, both rounded down.
    pub open spec fn reward_of(self, w: int, stake: int) -> int {
        match self.policy {
            PayoutPolicy::FixedOdds => stake * self.odds[w] / (SCALE as int),
            PayoutPolicy::Proportional => {
                let winning = sum_amounts(self.ledger[w]);
                if winning == 0 {
                    0
                } else {
                    stake * self.total_staked / winning
                }
            },
        }
    }

    /// Total rewards owed for the winning records `s` of outcome `w`.
    pub open spec fn rewards_sum(self, w: int, s: Seq<BetRec>) -> int
        decreases s.len(),
    {
        if s.len() == 0 {
            0
        } else {
            self.rewards_sum(w, s.drop_last()) + self.reward_of(w, s.last().amount)
        }
    }

    /// Rewards owed to bettor `u` among the winning records `s`.
    pub open spec fn user_rewards(self, w: int, s: Seq<BetRec>, u: Seq<char>) -> int
        decreases s.len(),
    {
        if s.len() == 0 {
            0
        } else {
            self.user_rewards(w, s.drop_last(), u) + if s.last().user == u {
                self.reward_of(w, s.last().amount)
            } else {
                0
            }
        }
    }

    /// The whole payout a successful `resolve_market` of outcome `w` owes.
    pub open spec fn required_payout(self, w: int) -> int {
        self.rewards_sum(w, self.ledger[w])
    }

    /// What the resolution sweep brings the house: under fixed odds the
    /// losing pools only (the winning pool stays put), under the
    /// proportional split every pool — the whole staked total is
    /// redistributed, so all of it moves to the house first.
    pub open spec fn sweep_gain(self, w: int) -> int {
        if self.policy == PayoutPolicy::Proportional {
            self.total_staked
        } else {
            self.total_staked - self.pools[w]
        }
    }

    /// Machine bound under which the per-stake reward arithmetic of
    /// `resolve_market` cannot overflow.
    pub open spec fn resolve_fits(self, w: int) -> bool {
        &&& (self.policy == PayoutPolicy::FixedOdds ==> self.max_bet * self.odds[w]
            <= u128::MAX)
        &&& (self.policy == PayoutPolicy::Proportional ==> self.max_bet * self.total_staked
            <= u128::MAX)
    }
}

/// The context in which reward arithmetic is well behaved.
pub open spec fn reward_ctx(m: MarketModel, w: int) -> bool {
    &&& 0 <= w < m.odds.len()
    &&& w < m.ledger.len()
    &&& m.odds[w] >= 0
    &&& m.total_staked >= 0
    &&& (m.policy == PayoutPolicy::Proportional ==> sum_amounts(m.ledger[w]) >= 0)
}

/// A reward is nonnegative.
pub proof fn lemma_reward_nonneg(m: MarketModel, w: int, stake: int)
    requires
        stake >= 0,
        reward_ctx(m, w),
    ensures
        m.reward_of(w, stake) >= 0,
{
    match m.policy {
        PayoutPolicy::FixedOdds => {
            assert(stake * m.odds[w] >= 0) by (nonlinear_arith)
                requires
                    stake >= 0,
                    m.odds[w] >= 0,
            ;
            assert(stake * m.odds[w] / (SCALE as int) >= 0) by (nonlinear_arith)
                requires
                    stake * m.odds[w] >= 0,
            ;
        }
        PayoutPolicy::Proportional => {
            assert(stake * m.total_staked >= 0) by (nonlinear_arith)
                requires
                    stake >= 0,
                    m.total_staked >= 0,
            ;
            let d = sum_amounts(m.ledger[w]);
            if d > 0 {
                assert(stake * m.total_staked / d >= 0) by (nonlinear_arith)
                    requires
                        d > 0,
                        stake * m.total_staked >= 0,
                ;
            }
        }
    }
}

/// The proportional payout is covered by the staked total alone: every
/// reward rounds down, so their sum never exceeds the whole pool.  With
/// every pool swept to the house at resolution, a proportional resolution
/// is therefore always funded, whatever the house held before.
pub proof fn lemma_proportional_payout_bounded(m: MarketModel, w: int)
    requires
        m.inv(),
        !m.resolved,
        m.policy == PayoutPolicy::Proportional,
        0 <= w < m.ledger.len(),
    ensures
        0 <= m.required_payout(w),
        m.required_payout(w) <= m.total_staked,
{
    let row = m.ledger[w];
    let wsum = sum_amounts(row);
    assert(forall|j: int| 0 <= j < row.len() ==> (#[trigger] row[j]).amount >= 0);
    lemma_sum_amounts_nonneg(row);
    assert(m.odds[w] > SCALE);
    lemma_sum_ints_nonneg(m.pools);
    assert(reward_ctx(m, w));
    lemma_rewards_sum_nonneg(m, w, row);
    if wsum == 0 {
        lemma_proportional_rewards_zero(m, w, row);
    } else {
        lemma_proportional_rewards_le(m, w, row);
        assert(m.rewards_sum(w, row) * wsum <= wsum * m.total_staked);
        assert(m.rewards_sum(w, row) <= m.total_staked) by (nonlinear_arith)
            requires
                m.rewards_sum(w, row) * wsum <= wsum * m.total_staked,
                wsum > 0,
        ;
    }
}

/// With an empty winning pool no proportional reward is owed.
proof fn lemma_proportional_rewards_zero(m: MarketModel, w: int, s: Seq<BetRec>)
    requires
        m.policy == PayoutPolicy::Proportional,
        0 <= w < m.ledger.len(),
        sum_amounts(m.ledger[w]) == 0,
    ensures
        m.rewards_sum(w, s) == 0,
    decreases s.len(),
{
    if s.len() > 0 {
        lemma_proportional_rewards_zero(m, w, s.drop_last());
    }
}

/// Cleared of its division: proportional rewards of a run, times the
/// winning pool, never exceed the run's stakes times the whole pool.
proof fn lemma_proportional_rewards_le(m: MarketModel, w: int, s: Seq<BetRec>)
    requires
        m.policy == PayoutPolicy::Proportional,
        0 <= w < m.ledger.len(),
        sum_amounts(m.ledger[w]) > 0,
        m.total_staked >= 0,
        forall|j: int| 0 <= j < s.len() ==> (#[trigger] s[j]).amount >= 0,
    ensures
        m.rewards_sum(w, s) * sum_amounts(m.ledger[w]) <= sum_amounts(s) * m.total_staked,
    decreases s.len(),
{
    let wsum = sum_amounts(m.ledger[w]);
    let total = m.total_staked;
    if s.len() == 0 {
        assert(m.rewards_sum(w, s) * wsum == 0) by (nonlinear_arith)
            requires
                m.rewards_sum(w, s) == 0,
        ;
        assert(sum_amounts(s) * total == 0) by (nonlinear_arith)
            requires
                sum_amounts(s) == 0,
        ;
    } else {
        assert(forall|j: int|
            0 <= j < s.len() - 1 ==> #[trigger] s.drop_last()[j] == s[j]);
        lemma_proportional_rewards_le(m, w, s.drop_last());
        let a = s.last().amount;
        let r = m.reward_of(w, a);
        assert(r == a * total / wsum);
        vstd::arithmetic::div_mod::lemma_fundamental_div_mod(a * total, wsum);
        vstd::arithmetic::div_mod::lemma_mod_bound(a * total, wsum);
        assert(r * wsum <= a * total) by (nonlinear_arith)
            requires
                a * total == wsum * (a * total / wsum) + (a * total) % wsum,
                (a * total) % wsum >= 0,
                r == a * total / wsum,
        ;
        assert(m.rewards_sum(w, s) * wsum == m.rewards_sum(w, s.drop_last()) * wsum + r
            * wsum) by (nonlinear_arith)
            requires
                m.rewards_sum(w, s) == m.rewards_sum(w, s.drop_last()) + r,
        ;
        assert(sum_amounts(s) * total == sum_amounts(s.drop_last()) * total + a * total)
            by (nonlinear_arith)
            requires
                sum_amounts(s) == sum_amounts(s.drop_last()) + a,
        ;
    }
}

/// Exact conservation under the proportional policy: where some stake lies
/// on the winning outcome and every winning reward divides evenly, a
/// proportional resolution pays out exactly the whole staked total — no
/// value is created or lost.
pub proof fn lemma_proportional_conservation(m: MarketModel, w: int)
    requires
        m.inv(),
        !m.resolved,
        m.policy == PayoutPolicy::Proportional,
        0 <= w < m.ledger.len(),
        m.ledger[w].len() > 0,
        forall|j: int|
            0 <= j < m.ledger[w].len() ==> ((#[trigger] m.ledger[w][j]).amount
                * m.total_staked) % sum_amounts(m.ledger[w]) == 0,
    ensures
        m.required_payout(w) == m.total_staked,
{
    let row = m.ledger[w];
    let wsum = sum_amounts(row);
    assert(wsum > 0) by {
        assert(forall|j: int|
            0 <= j < row.len() - 1 ==> #[trigger] row.drop_last()[j] == row[j]);
        lemma_sum_amounts_nonneg(row.drop_last());
        assert(row.last().amount > 0);
    }
    lemma_proportional_rewards_mul(m, w, row);
    assert(m.rewards_sum(w, row) * wsum == wsum * m.total_staked);
    assert(m.rewards_sum(w, row) == m.total_staked) by (nonlinear_arith)
        requires
            m.rewards_sum(w, row) * wsum == wsum * m.total_staked,
            wsum > 0,
    ;
}

/// Cleared of its division: under the proportional policy with an even
/// split, the rewards of a run times the winning pool equal the run's
/// stakes times the whole pool.
proof fn lemma_proportional_rewards_mul(m: MarketModel, w: int, s: Seq<BetRec>)
    requires
        m.policy == PayoutPolicy::Proportional,
        0 <= w < m.ledger.len(),
        sum_amounts(m.ledger[w]) > 0,
        forall|j: int|
            0 <= j < s.len() ==> ((#[trigger] s[j]).amount * m.total_staked) % sum_amounts(
                m.ledger[w],
            ) == 0,
    ensures
        m.rewards_sum(w, s) * sum_amounts(m.ledger[w]) == sum_amounts(s) * m.total_staked,
    decreases s.len(),
{
    let wsum = sum_amounts(m.ledger[w]);
    let total = m.total_staked;
    if s.len() == 0 {
        assert(m.rewards_sum(w, s) * wsum == 0) by (nonlinear_arith)
            requires
                m.rewards_sum(w, s) == 0,
        ;
        assert(sum_amounts(s) * total == 0) by (nonlinear_arith)
            requires
                sum_amounts(s) == 0,
        ;
    } else {
        assert(forall|j: int|
            0 <= j < s.len() - 1 ==> #[trigger] s.drop_last()[j] == s[j]);
        lemma_proportional_rewards_mul(m, w, s.drop_last());
        let a = s.last().amount;
        let r = m.reward_of(w, a);
        assert(r == a * total / wsum);
        assert((a * total) % wsum == 0);
        vstd::arithmetic::div_mod::lemma_fundamental_div_mod(a * total, wsum);
        assert(r * wsum == a * total) by (nonlinear_arith)
            requires
                a * total == wsum * (a * total / wsum) + (a * total) % wsum,
                (a * total) % wsum == 0,
                r == a * total / wsum,
        ;
        assert(m.rewards_sum(w, s) * wsum == m.rewards_sum(w, s.drop_last()) * wsum + r
            * wsum) by (nonlinear_arith)
            requires
                m.rewards_sum(w, s) == m.rewards_sum(w, s.drop_last()) + r,
        ;
        assert(sum_amounts(s) * total == sum_amounts(s.drop_last()) * total + a * total)
            by (nonlinear_arith)
            requires
                sum_amounts(s) == sum_amounts(s.drop_last()) + a,
        ;
    }
}

/// Rewards over a prefix, one record at a time.
pub proof fn lemma_rewards_sum_take(m: MarketModel, w: int, s: Seq<BetRec>, j: int)
    requires
        0 <= j < s.len(),
    ensures
        m.rewards_sum(w, s.take(j + 1)) == m.rewards_sum(w, s.take(j)) + m.reward_of(
            w,
            s[j].amount,
        ),
{
    assert(s.take(j + 1).drop_last() =~= s.take(j));
    assert(s.take(j + 1).last() == s[j]);
}

pub proof fn lemma_user_rewards_take(m: MarketModel, w: int, s: Seq<BetRec>, j: int, u: Seq<char>)
    requires
        0 <= j < s.len(),
    ensures
        m.user_rewards(w, s.take(j + 1), u) == m.user_rewards(w, s.take(j), u) + if s[j].user
            == u {
            m.reward_of(w, s[j].amount)
        } else {
            0
        },
{
    assert(s.take(j + 1).drop_last() =~= s.take(j));
    assert(s.take(j + 1).last() == s[j]);
}

/// A prefix of the payout never exceeds the whole payout.
pub proof fn lemma_rewards_sum_take_le(m: MarketModel, w: int, s: Seq<BetRec>, j: int)
    requires
        0 <= j <= s.len(),
        reward_ctx(m, w),
        forall|a: int| 0 <= a < s.len() ==> (#[trigger] s[a]).amount >= 0,
    ensures
        m.rewards_sum(w, s.take(j)) <= m.rewards_sum(w, s),
        m.rewards_sum(w, s.take(j)) >= 0,
    decreases s.len() - j,
{
    if j == s.len() {
        assert(s.take(j) =~= s);
        lemma_rewards_sum_nonneg(m, w, s);
    } else {
        lemma_rewards_sum_take_le(m, w, s, j + 1);
        lemma_rewards_sum_take(m, w, s, j);
        lemma_reward_nonneg(m, w, s[j].amount);
        assert(forall|a: int| 0 <= a < j ==> #[trigger] s.take(j)[a] == s[a]);
        lemma_rewards_sum_nonneg_take(m, w, s, j);
    }
}

pub proof fn lemma_rewards_sum_nonneg(m: MarketModel, w: int, s: Seq<BetRec>)
    requires
        reward_ctx(m, w),
        forall|a: int| 0 <= a < s.len() ==> (#[trigger] s[a]).amount >= 0,
    ensures
        m.rewards_sum(w, s) >= 0,
    decreases s.len(),
{
    if s.len() > 0 {
        assert(forall|a: int|
            0 <= a < s.len() - 1 ==> #[trigger] s.drop_last()[a] == s[a]);
        lemma_rewards_sum_nonneg(m, w, s.drop_last());
        lemma_reward_nonneg(m, w, s.last().amount);
    }
}

proof fn lemma_rewards_sum_nonneg_take(m: MarketModel, w: int, s: Seq<BetRec>, j: int)
    requires
        0 <= j <= s.len(),
        reward_ctx(m, w),
        forall|a: int| 0 <= a < s.len() ==> (#[trigger] s[a]).amount >= 0,
    ensures
        m.rewards_sum(w, s.take(j)) >= 0,
{
    assert(forall|a: int| 0 <= a < j ==> #[trigger] s.take(j)[a] == s[a]);
    lemma_rewards_sum_nonneg(m, w, s.take(j));
}

/// With one record per bettor, the bettor's reward is their record's.
pub proof fn lemma_user_rewards_at(m: MarketModel, w: int, s: Seq<BetRec>, k: int)
    requires
        distinct_users(s),
        0 <= k < s.len(),
    ensures
        m.user_rewards(w, s, s[k].user) == m.reward_of(w, s[k].amount),
    decreases s.len(),
{
    assert(forall|j: int| 0 <= j < s.len() - 1 ==> #[trigger] s.drop_last()[j] == s[j]);
    if k == s.len() - 1 {
        lemma_user_rewards_absent(m, w, s.drop_last(), s[k].user);
    } else {
        lemma_user_rewards_at(m, w, s.drop_last(), k);
        assert(s.last().user != s[k].user);
    }
}

/// A bettor with no winning record is owed no reward.
pub proof fn lemma_user_rewards_absent(m: MarketModel, w: int, s: Seq<BetRec>, u: Seq<char>)
    requires
        forall|j: int| 0 <= j < s.len() ==> (#[trigger] s[j]).user != u,
    ensures
        m.user_rewards(w, s, u) == 0,
    decreases s.len(),
{
    if s.len() > 0 {
        assert(forall|j: int|
            0 <= j < s.len() - 1 ==> #[trigger] s.drop_last()[j] == s[j]);
        lemma_user_rewards_absent(m, w, s.drop_last(), u);
    }
}

// ----------------------------------------------------------------------
// Push and take lemmas.

pub proof fn lemma_sum_amounts_push(s: Seq<BetRec>, e: BetRec)
    ensures
        sum_amounts(s.push(e)) == sum_amounts(s) + e.amount,
{
    assert(s.push(e).drop_last() =~= s);
}

pub proof fn lemma_claimable_push(vs: Seq<VaultRec>, e: VaultRec, u: Seq<char>)
    ensures
        claimable(vs.push(e), u) == claimable(vs, u) + if e.user == u {
            e.balance
        } else {
            0
        },
{
    assert(vs.push(e).drop_last() =~= vs);
}

// ----------------------------------------------------------------------
// Update lemmas.

pub proof fn lemma_sum_amounts_update(s: Seq<BetRec>, k: int, e: BetRec)
    requires
        0 <= k < s.len(),
    ensures
        sum_amounts(s.update(k, e)) == sum_amounts(s) - s[k].amount + e.amount,
    decreases s.len(),
{
    if k == s.len() - 1 {
        assert(s.update(k, e).drop_last() =~= s.drop_last());
        assert(s.update(k, e).last() == e);
    } else {
        lemma_sum_amounts_update(s.drop_last(), k, e);
        assert(s.update(k, e).drop_last() =~= s.drop_last().update(k, e));
        assert(s.update(k, e).last() == s.last());
        assert(s.drop_last()[k] == s[k]);
    }
}

pub proof fn lemma_sum_ints_update(s: Seq<int>, k: int, v: int)
    requires
        0 <= k < s.len(),
    ensures
        sum_ints(s.update(k, v)) == sum_ints(s) - s[k] + v,
    decreases s.len(),
{
    if k == s.len() - 1 {
        assert(s.update(k, v).drop_last() =~= s.drop_last());
        assert(s.update(k, v).last() == v);
    } else {
        lemma_sum_ints_update(s.drop_last(), k, v);
        assert(s.update(k, v).drop_last() =~= s.drop_last().update(k, v));
        assert(s.update(k, v).last() == s.last());
        assert(s.drop_last()[k] == s[k]);
    }
}

pub proof fn lemma_claimable_update(vs: Seq<VaultRec>, k: int, e: VaultRec, u: Seq<char>)
    requires
        0 <= k < vs.len(),
    ensures
        claimable(vs.update(k, e), u) == claimable(vs, u) - (if vs[k].user == u {
            vs[k].balance
        } else {
            0
        }) + if e.user == u {
            e.balance
        } else {
            0
        },
    decreases vs.len(),
{
    if k == vs.len() - 1 {
        assert(vs.update(k, e).drop_last() =~= vs.drop_last());
        assert(vs.update(k, e).last() == e);
    } else {
        lemma_claimable_update(vs.drop_last(), k, e, u);
        assert(vs.update(k, e).drop_last() =~= vs.drop_last().update(k, e));
        assert(vs.update(k, e).last() == vs.last());
        assert(vs.drop_last()[k] == vs[k]);
    }
}

// ----------------------------------------------------------------------
// Bounds.

/// Every stake is nonnegative, so run sums are too.
pub proof fn lemma_sum_amounts_nonneg(s: Seq<BetRec>)
    requires
        forall|j: int| 0 <= j < s.len() ==> (#[trigger] s[j]).amount >= 0,
    ensures
        sum_amounts(s) >= 0,
    decreases s.len(),
{
    if s.len() > 0 {
        assert(forall|j: int|
            0 <= j < s.len() - 1 ==> #[trigger] s.drop_last()[j] == s[j]);
        lemma_sum_amounts_nonneg(s.drop_last());
    }
}

/// A bettor's stake in a run is at most the run's total.
pub proof fn lemma_user_amount_le_sum(s: Seq<BetRec>, u: Seq<char>)
    requires
        forall|j: int| 0 <= j < s.len() ==> (#[trigger] s[j]).amount >= 0,
    ensures
        0 <= user_amount(s, u),
        user_amount(s, u) <= sum_amounts(s),
    decreases s.len(),
{
    if s.len() > 0 {
        assert(forall|j: int|
            0 <= j < s.len() - 1 ==> #[trigger] s.drop_last()[j] == s[j]);
        lemma_user_amount_le_sum(s.drop_last(), u);
    }
}

/// A run prefix sums to at most the whole, stakes being nonnegative.
pub proof fn lemma_sum_amounts_take(s: Seq<BetRec>, j: int)
    requires
        0 <= j < s.len(),
    ensures
        sum_amounts(s.take(j + 1)) == sum_amounts(s.take(j)) + s[j].amount,
{
    assert(s.take(j + 1).drop_last() =~= s.take(j));
    assert(s.take(j + 1).last() == s[j]);
}

pub proof fn lemma_user_amount_take(s: Seq<BetRec>, j: int, u: Seq<char>)
    requires
        0 <= j < s.len(),
    ensures
        user_amount(s.take(j + 1), u) == user_amount(s.take(j), u) + if s[j].user == u {
            s[j].amount
        } else {
            0
        },
{
    assert(s.take(j + 1).drop_last() =~= s.take(j));
    assert(s.take(j + 1).last() == s[j]);
}

/// Every pool is at most the sum of all pools, balances being nonnegative.
pub proof fn lemma_pool_le_sum(s: Seq<int>, k: int)
    requires
        forall|i: int| 0 <= i < s.len() ==> #[trigger] s[i] >= 0,
        0 <= k < s.len(),
    ensures
        s[k] <= sum_ints(s),
        sum_ints(s) >= 0,
    decreases s.len(),
{
    lemma_sum_ints_nonneg(s);
    if k == s.len() - 1 {
        lemma_sum_ints_nonneg(s.drop_last());
        assert(forall|i: int|
            0 <= i < s.len() - 1 ==> #[trigger] s.drop_last()[i] == s[i]);
    } else {
        assert(forall|i: int|
            0 <= i < s.len() - 1 ==> #[trigger] s.drop_last()[i] == s[i]);
        lemma_pool_le_sum(s.drop_last(), k);
    }
}

/// A sequence of zeros sums to zero.
pub proof fn lemma_sum_ints_zero(s: Seq<int>)
    requires
        forall|i: int| 0 <= i < s.len() ==> #[trigger] s[i] == 0,
    ensures
        sum_ints(s) == 0,
    decreases s.len(),
{
    if s.len() > 0 {
        assert(forall|i: int|
            0 <= i < s.len() - 1 ==> #[trigger] s.drop_last()[i] == s[i]);
        lemma_sum_ints_zero(s.drop_last());
    }
}

pub proof fn lemma_sum_ints_nonneg(s: Seq<int>)
    requires
        forall|i: int| 0 <= i < s.len() ==> #[trigger] s[i] >= 0,
    ensures
        sum_ints(s) >= 0,
    decreases s.len(),
{
    if s.len() > 0 {
        assert(forall|i: int|
            0 <= i < s.len() - 1 ==> #[trigger] s.drop_last()[i] == s[i]);
        lemma_sum_ints_nonneg(s.drop_last());
    }
}

/// Pool sums over a prefix, one pool at a time.
pub proof fn lemma_sum_ints_take(s: Seq<int>, j: int)
    requires
        0 <= j < s.len(),
    ensures
        sum_ints(s.take(j + 1)) == sum_ints(s.take(j)) + s[j],
{
    assert(s.take(j + 1).drop_last() =~= s.take(j));
    assert(s.take(j + 1).last() == s[j]);
}

/// A prefix of nonnegative pools sums to at most the whole.
pub proof fn lemma_sum_ints_take_le(s: Seq<int>, j: int)
    requires
        0 <= j <= s.len(),
        forall|i: int| 0 <= i < s.len() ==> #[trigger] s[i] >= 0,
    ensures
        0 <= sum_ints(s.take(j)),
        sum_ints(s.take(j)) <= sum_ints(s),
    decreases s.len() - j,
{
    assert(forall|i: int| 0 <= i < j ==> #[trigger] s.take(j)[i] == s[i]);
    lemma_sum_ints_nonneg(s.take(j));
    if j == s.len() {
        assert(s.take(j) =~= s);
    } else {
        lemma_sum_ints_take_le(s, j + 1);
        lemma_sum_ints_take(s, j);
    }
}

/// A prefix of a nonnegative run sums to at most the whole run.
pub proof fn lemma_sum_amounts_take_le(s: Seq<BetRec>, j: int)
    requires
        0 <= j <= s.len(),
        forall|a: int| 0 <= a < s.len() ==> (#[trigger] s[a]).amount >= 0,
    ensures
        0 <= sum_amounts(s.take(j)),
        sum_amounts(s.take(j)) <= sum_amounts(s),
    decreases s.len() - j,
{
    assert(forall|a: int| 0 <= a < j ==> #[trigger] s.take(j)[a] == s[a]);
    lemma_sum_amounts_nonneg(s.take(j));
    if j == s.len() {
        assert(s.take(j) =~= s);
    } else {
        lemma_sum_amounts_take_le(s, j + 1);
        lemma_sum_amounts_take(s, j);
    }
}

/// Ledger sums over a prefix, one outcome at a time.
pub proof fn lemma_ledger_sum_take(l: Seq<Seq<BetRec>>, i: int)
    requires
        0 <= i < l.len(),
    ensures
        ledger_sum(l.take(i + 1)) == ledger_sum(l.take(i)) + sum_amounts(l[i]),
{
    assert(l.take(i + 1).drop_last() =~= l.take(i));
    assert(l.take(i + 1).last() == l[i]);
}

/// Ledger rows of nonnegative stakes sum to a nonnegative total.
pub proof fn lemma_ledger_sum_nonneg(l: Seq<Seq<BetRec>>)
    requires
        forall|i: int, j: int|
            0 <= i < l.len() && 0 <= j < l[i].len() ==> (#[trigger] l[i][j]).amount >= 0,
    ensures
        ledger_sum(l) >= 0,
    decreases l.len(),
{
    if l.len() > 0 {
        assert(forall|i: int|
            0 <= i < l.len() - 1 ==> #[trigger] l.drop_last()[i] == l[i]);
        lemma_ledger_sum_nonneg(l.drop_last());
        assert(forall|j: int|
            0 <= j < l.last().len() ==> (#[trigger] l.last()[j]).amount >= 0);
        lemma_sum_amounts_nonneg(l.last());
    }
}

/// A prefix of a nonnegative ledger sums to at most the whole ledger.
pub proof fn lemma_ledger_sum_take_le(l: Seq<Seq<BetRec>>, i: int)
    requires
        0 <= i <= l.len(),
        forall|a: int, j: int|
            0 <= a < l.len() && 0 <= j < l[a].len() ==> (#[trigger] l[a][j]).amount >= 0,
    ensures
        0 <= ledger_sum(l.take(i)),
        ledger_sum(l.take(i)) <= ledger_sum(l),
    decreases l.len() - i,
{
    assert(forall|a: int| 0 <= a < i ==> #[trigger] l.take(i)[a] == l[a]);
    assert(forall|a: int, j: int|
        0 <= a < i && 0 <= j < l.take(i)[a].len() ==> (#[trigger] l.take(i)[a][j]).amount
            >= 0);
    lemma_ledger_sum_nonneg(l.take(i));
    if i == l.len() {
        assert(l.take(i) =~= l);
    } else {
        lemma_ledger_sum_take_le(l, i + 1);
        lemma_ledger_sum_take(l, i);
        assert(forall|j: int| 0 <= j < l[i].len() ==> (#[trigger] l[i][j]).amount >= 0);
        lemma_sum_amounts_nonneg(l[i]);
    }
}

pub proof fn lemma_user_ledger_sum_take(l: Seq<Seq<BetRec>>, i: int, u: Seq<char>)
    requires
        0 <= i < l.len(),
    ensures
        user_ledger_sum(l.take(i + 1), u) == user_ledger_sum(l.take(i), u) + user_amount(
            l[i],
            u,
        ),
{
    assert(l.take(i + 1).drop_last() =~= l.take(i));
    assert(l.take(i + 1).last() == l[i]);
}

/// A bettor's stake across a ledger is at most the whole ledger's stake.
pub proof fn lemma_user_ledger_sum_le(l: Seq<Seq<BetRec>>, u: Seq<char>)
    requires
        forall|i: int, j: int|
            0 <= i < l.len() && 0 <= j < l[i].len() ==> (#[trigger] l[i][j]).amount >= 0,
    ensures
        0 <= user_ledger_sum(l, u),
        user_ledger_sum(l, u) <= ledger_sum(l),
    decreases l.len(),
{
    if l.len() > 0 {
        assert(forall|i: int|
            0 <= i < l.len() - 1 ==> #[trigger] l.drop_last()[i] == l[i]);
        lemma_user_ledger_sum_le(l.drop_last(), u);
        assert(forall|j: int|
            0 <= j < l.last().len() ==> (#[trigger] l.last()[j]).amount >= 0);
        lemma_user_amount_le_sum(l.last(), u);
    }
}

/// Where every pool equals its ledger row's sum, the pool total equals the
/// ledger total.
pub proof fn lemma_pools_eq_ledger_sum(p: Seq<int>, l: Seq<Seq<BetRec>>)
    requires
        p.len() == l.len(),
        forall|i: int| 0 <= i < l.len() ==> #[trigger] p[i] == sum_amounts(l[i]),
    ensures
        sum_ints(p) == ledger_sum(l),
    decreases l.len(),
{
    if l.len() > 0 {
        assert(forall|i: int|
            0 <= i < l.len() - 1 ==> #[trigger] p.drop_last()[i] == p[i]);
        assert(forall|i: int|
            0 <= i < l.len() - 1 ==> #[trigger] l.drop_last()[i] == l[i]);
        lemma_pools_eq_ledger_sum(p.drop_last(), l.drop_last());
        assert(p.last() == sum_amounts(l.last()));
    }
}

// ----------------------------------------------------------------------
// Distinct lookups.

/// With one record per bettor, the bettor's sum is that record's stake.
pub proof fn lemma_user_amount_at(s: Seq<BetRec>, k: int)
    requires
        distinct_users(s),
        0 <= k < s.len(),
    ensures
        user_amount(s, s[k].user) == s[k].amount,
    decreases s.len(),
{
    assert(forall|j: int| 0 <= j < s.len() - 1 ==> #[trigger] s.drop_last()[j] == s[j]);
    if k == s.len() - 1 {
        lemma_user_amount_absent(s.drop_last(), s[k].user);
    } else {
        lemma_user_amount_at(s.drop_last(), k);
        assert(s.last().user != s[k].user);
    }
}

/// A bettor with no record sums to zero.
pub proof fn lemma_user_amount_absent(s: Seq<BetRec>, u: Seq<char>)
    requires
        forall|j: int| 0 <= j < s.len() ==> (#[trigger] s[j]).user != u,
    ensures
        user_amount(s, u) == 0,
    decreases s.len(),
{
    if s.len() > 0 {
        assert(forall|j: int|
            0 <= j < s.len() - 1 ==> #[trigger] s.drop_last()[j] == s[j]);
        lemma_user_amount_absent(s.drop_last(), u);
    }
}

/// With one claimable record per bettor, the bettor's claimable balance is
/// that record's balance.
pub proof fn lemma_claimable_at(vs: Seq<VaultRec>, k: int)
    requires
        distinct_vaults(vs),
        0 <= k < vs.len(),
    ensures
        claimable(vs, vs[k].user) == vs[k].balance,
    decreases vs.len(),
{
    assert(forall|j: int| 0 <= j < vs.len() - 1 ==> #[trigger] vs.drop_last()[j] == vs[j]);
    if k == vs.len() - 1 {
        lemma_claimable_absent(vs.drop_last(), vs[k].user);
    } else {
        lemma_claimable_at(vs.drop_last(), k);
        assert(vs.last().user != vs[k].user);
    }
}

/// A bettor with no claimable record is owed nothing.
pub proof fn lemma_claimable_absent(vs: Seq<VaultRec>, u: Seq<char>)
    requires
        forall|j: int| 0 <= j < vs.len() ==> (#[trigger] vs[j]).user != u,
    ensures
        claimable(vs, u) == 0,
    decreases vs.len(),
{
    if vs.len() > 0 {
        assert(forall|j: int|
            0 <= j < vs.len() - 1 ==> #[trigger] vs.drop_last()[j] == vs[j]);
        lemma_claimable_absent(vs.drop_last(), u);
    }
}

/// In an all-zero claimable table every bettor is owed nothing.
pub proof fn lemma_claimable_zero(vs: Seq<VaultRec>, u: Seq<char>)
    requires
        forall|k: int| 0 <= k < vs.len() ==> (#[trigger] vs[k]).balance == 0,
    ensures
        claimable(vs, u) == 0,
    decreases vs.len(),
{
    if vs.len() > 0 {
        assert(forall|k: int|
            0 <= k < vs.len() - 1 ==> #[trigger] vs.drop_last()[k] == vs[k]);
        lemma_claimable_zero(vs.drop_last(), u);
    }
}

} // verus!
