//! The market: escrow, staking, resolution, claims.
//!
//! A [`PredictionMarket`] owns one escrow vault per outcome, a house vault, an
//! admin vault and a claimable vault per bettor, together with the bet
//! ledger.  Its whole behaviour is specified over the [`MarketModel`] view:
//! every method's contract says exactly which error it returns on which
//! state and input, and exactly how the model changes on success.

use vstd::prelude::*;
use vstd::std_specs::vec::vec_index_mut;
use crate::amount::amount_of;
use crate::amount::parse_amount;
use crate::amount::SCALE;
use crate::model::claimable;
use crate::model::distinct_seqs;
use crate::model::distinct_users;
use crate::model::distinct_vaults;
use crate::model::has_outcome;
use crate::model::has_user;
use crate::model::has_vault;
use crate::model::ledger_sum;
use crate::model::outcome_index;
use crate::model::sum_amounts;
use crate::model::sum_ints;
use crate::model::user_amount;
use crate::model::user_ledger_sum;
use crate::model::BetRec;
use crate::model::MarketError;
use crate::model::MarketModel;
use crate::model::PayoutPolicy;
use crate::model::VaultRec;
use crate::parse::fields_of;
use crate::parse::split_csv;
use crate::tokens::Tokens;
use crate::tokens::Vault;

verus! {

broadcast use crate::tokens::lemma_tokens_nonneg, crate::tokens::lemma_vault_nonneg;

/// One ledger entry: a bettor and their cumulative stake on one outcome.
struct Bet {
    bettor: String,
    amount: u128,
}

/// One bettor's claimable vault.
struct UserVault {
    bettor: String,
    vault: Vault,
}

/// The administrator capability of one market.
///
/// Minted once by market creation and required by every privileged
/// operation.  It has no public constructor and cannot be cloned, so holding
/// one proves it came from the market's creator.  It is bound to the
/// market's title; two markets sharing a title share badges — the title is
/// the externally observable market identity.
pub struct AdminBadge {
    market_id: String,
}

impl View for AdminBadge {
    type V = Seq<char>;

    closed spec fn view(&self) -> Seq<char> {
        self.market_id@
    }
}

/// A single prediction market.
pub struct PredictionMarket {
    title: String,
    min_bet: u128,
    max_bet: u128,
    outcome_tokens: Vec<Vault>,
    outcomes: Vec<String>,
    odds: Vec<u128>,
    total_staked: u128,
    bets: Vec<Vec<Bet>>,
    xrd_vault: Vault,
    admin_vault: Vault,
    user_vaults: Vec<UserVault>,
    market_resolved: bool,
    market_locked: bool,
    policy: PayoutPolicy,
}

// ----------------------------------------------------------------------
// The view.

/// Integer view of a sequence of amounts.
pub open spec fn ints_of(s: Seq<u128>) -> Seq<int> {
    s.map_values(|x: u128| x as int)
}

/// Balance view of a sequence of vaults.
closed spec fn pools_model(s: Seq<Vault>) -> Seq<int> {
    s.map_values(|v: Vault| v@)
}

/// Model of one ledger entry.
closed spec fn bet_rec(b: Bet) -> BetRec {
    BetRec { user: b.bettor@, amount: b.amount as int }
}

/// Model of one outcome's ledger.
closed spec fn row_model(s: Seq<Bet>) -> Seq<BetRec> {
    s.map_values(|b: Bet| bet_rec(b))
}

/// Model of the whole ledger.
closed spec fn ledger_model(s: Seq<Vec<Bet>>) -> Seq<Seq<BetRec>> {
    s.map_values(|r: Vec<Bet>| row_model(r@))
}

/// Model of one claimable vault.
closed spec fn vault_rec(v: UserVault) -> VaultRec {
    VaultRec { user: v.bettor@, balance: v.vault@ }
}

/// Model of the claimable table.
closed spec fn vaults_model(s: Seq<UserVault>) -> Seq<VaultRec> {
    s.map_values(|v: UserVault| vault_rec(v))
}

impl View for PredictionMarket {
    type V = MarketModel;

    closed spec fn view(&self) -> MarketModel {
        MarketModel {
            title: self.title@,
            outcomes: self.outcomes.deep_view(),
            odds: ints_of(self.odds@),
            min_bet: self.min_bet as int,
            max_bet: self.max_bet as int,
            pools: pools_model(self.outcome_tokens@),
            house: self.xrd_vault@,
            admin: self.admin_vault@,
            ledger: ledger_model(self.bets@),
            vaults: vaults_model(self.user_vaults@),
            total_staked: self.total_staked as int,
            locked: self.market_locked,
            resolved: self.market_resolved,
            policy: self.policy,
        }
    }
}

// ----------------------------------------------------------------------
// Creation.

/// A parsed odds field: a decimal literal above 1 whose subunit value fits
/// an amount.
pub open spec fn odds_ok(f: Seq<char>) -> bool {
    amount_of(f) matches Some(v) && SCALE < v <= u128::MAX
}

/// The subunit value of a parsed odds field.
pub open spec fn odds_value(f: Seq<char>) -> int {
    match amount_of(f) {
        Some(v) => v,
        None => 0,
    }
}

/// The odds schedule written by a comma-separated odds string.
pub open spec fn odds_values(odds_str: Seq<char>) -> Seq<int> {
    fields_of(odds_str).map_values(|f: Seq<char>| odds_value(f))
}

/// The conditions under which market creation succeeds: distinct outcome
/// labels, one well-formed odds value above 1 per outcome, a minimum bet of
/// at least 5 units, and a maximum bet above the minimum.
pub open spec fn valid_market_config(
    outcomes_str: Seq<char>,
    odds_str: Seq<char>,
    min_bet: int,
    max_bet: int,
) -> bool {
    &&& distinct_seqs(fields_of(outcomes_str))
    &&& fields_of(odds_str).len() == fields_of(outcomes_str).len()
    &&& (forall|i: int|
        0 <= i < fields_of(odds_str).len() ==> odds_ok(#[trigger] fields_of(odds_str)[i]))
    &&& min_bet >= 5 * SCALE
    &&& max_bet > min_bet
}

// ----------------------------------------------------------------------
// Laws.

/// A lock blocks bets: on a well-formed, unresolved market that has been
/// locked — `lock_market` leaves exactly `locked_state` — every bet,
/// whatever its bettor, outcome and stake, is refused `MarketLocked`; and
/// `place_bet`'s contract returns the refused market unchanged, so the
/// running total stays what it was.
pub proof fn lemma_lock_blocks_bets(m: MarketModel, u: Seq<char>, o: Seq<char>, amt: int)
    requires
        m.inv(),
        !m.resolved,
    ensures
        m.locked_state().bet_refusal(u, o, amt) == Some(MarketError::MarketLocked),
        m.locked_state().total_staked == m.total_staked,
{
}

/// Getters round-trip staking: after two accepted bets the running total —
/// what `get_total_staked` and `get_market_details` report — has grown by
/// exactly the two stakes, and the title, outcomes and odds they report are
/// untouched.
pub proof fn lemma_two_bets_details(
    m: MarketModel,
    u1: Seq<char>,
    o1: Seq<char>,
    a1: int,
    u2: Seq<char>,
    o2: Seq<char>,
    a2: int,
)
    requires
        m.inv(),
        m.bet_refusal(u1, o1, a1) is None,
        m.bet_applied(u1, o1, a1).bet_refusal(u2, o2, a2) is None,
    ensures
        m.bet_applied(u1, o1, a1).bet_applied(u2, o2, a2).total_staked == m.total_staked + a1
            + a2,
        m.bet_applied(u1, o1, a1).bet_applied(u2, o2, a2).title == m.title,
        m.bet_applied(u1, o1, a1).bet_applied(u2, o2, a2).outcomes == m.outcomes,
        m.bet_applied(u1, o1, a1).bet_applied(u2, o2, a2).odds == m.odds,
{
}

/// The index of `i` among the outcomes is the unique match.
pub proof fn lemma_outcome_index(outcomes: Seq<Seq<char>>, o: Seq<char>, i: int)
    requires
        distinct_seqs(outcomes),
        0 <= i < outcomes.len(),
        outcomes[i] == o,
    ensures
        has_outcome(outcomes, o),
        outcome_index(outcomes, o) == i,
{
    assert(has_outcome(outcomes, o));
    let j = choose|j: int| 0 <= j < outcomes.len() && outcomes[j] == o;
    if j < i {
        assert(outcomes[j] != outcomes[i]);
    } else if i < j {
        assert(outcomes[i] != outcomes[j]);
    }
}

impl PredictionMarket {
    /// Well-formedness of this market: its model satisfies the invariant.
    pub open spec fn wf(&self) -> bool {
        self@.inv()
    }

    /// Create a market.
    ///
    /// `outcomes_str` and `odds_str` are comma-separated; each field is
    /// trimmed.  Creation succeeds exactly on a valid configuration
    /// ([`valid_market_config`]) and returns the market together with its
    /// freshly minted admin badge; otherwise it fails `InvalidConfig`.
    pub fn instantiate_prediction_market(
        title: String,
        outcomes_str: String,
        odds_str: String,
        min_bet: u128,
        max_bet: u128,
        policy: PayoutPolicy,
    ) -> (r: Result<(PredictionMarket, AdminBadge), MarketError>)
        ensures
            r is Ok <==> valid_market_config(
                outcomes_str@,
                odds_str@,
                min_bet as int,
                max_bet as int,
            ),
            r is Err ==> r == Err::<(PredictionMarket, AdminBadge), MarketError>(
                MarketError::InvalidConfig,
            ),
            r matches Ok(p) ==> ({
                &&& p.0.wf()
                &&& p.1@ == title@
                &&& p.0@.title == title@
                &&& p.0@.outcomes == fields_of(outcomes_str@)
                &&& p.0@.odds == odds_values(odds_str@)
                &&& p.0@.min_bet == min_bet as int
                &&& p.0@.max_bet == max_bet as int
                &&& p.0@.pools.len() == p.0@.outcomes.len()
                &&& (forall|i: int| 0 <= i < p.0@.pools.len() ==> #[trigger] p.0@.pools[i] == 0)
                &&& p.0@.house == 0
                &&& p.0@.admin == 0
                &&& p.0@.ledger.len() == p.0@.outcomes.len()
                &&& (forall|i: int|
                    0 <= i < p.0@.ledger.len() ==> (#[trigger] p.0@.ledger[i]).len() == 0)
                &&& p.0@.vaults.len() == 0
                &&& p.0@.total_staked == 0
                &&& p.0@.locked == false
                &&& p.0@.resolved == false
                &&& p.0@.policy == policy
            }),
    {
        let outcomes = split_csv(outcomes_str.as_str());
        let ghost fo = fields_of(outcomes_str@);
        proof {
            assert(forall|a: int|
                0 <= a < outcomes@.len() ==> #[trigger] outcomes@[a]@ == fo[a]);
        }
        let n = outcomes.len();
        // Outcome labels must be pairwise distinct.
        let mut i: usize = 0;
        while i < n
            invariant
                i <= n,
                n == outcomes@.len(),
                n == fo.len(),
                fo == fields_of(outcomes_str@),
                forall|a: int| 0 <= a < n ==> #[trigger] outcomes@[a]@ == fo[a],
                forall|a: int, b: int| 0 <= a < b < n && a < i ==> fo[a] != fo[b],
            decreases n - i,
        {
            let mut j: usize = i + 1;
            while j < n
                invariant
                    i < j <= n,
                    n == outcomes@.len(),
                    n == fo.len(),
                    fo == fields_of(outcomes_str@),
                    forall|a: int| 0 <= a < n ==> #[trigger] outcomes@[a]@ == fo[a],
                    forall|b: int| i < b < j ==> fo[i as int] != fo[b],
                decreases n - j,
            {
                if outcomes[i] == outcomes[j] {
                    proof {
                        assert(fo[i as int] == outcomes@[i as int]@);
                        assert(fo[j as int] == outcomes@[j as int]@);
                        assert(fo[i as int] == fo[j as int]);
                        assert(!distinct_seqs(fo));
                    }
                    return Err(MarketError::InvalidConfig);
                }
                j = j + 1;
            }
            i = i + 1;
        }
        proof {
            assert(distinct_seqs(fo));
        }
        // One odds value per outcome, each a decimal literal above 1.
        let odds_fields = split_csv(odds_str.as_str());
        let ghost fd = fields_of(odds_str@);
        proof {
            assert(forall|a: int|
                0 <= a < odds_fields@.len() ==> #[trigger] odds_fields@[a]@ == fd[a]);
        }
        if odds_fields.len() != n {
            return Err(MarketError::InvalidConfig);
        }
        let mut odds: Vec<u128> = Vec::new();
        let mut k: usize = 0;
        while k < n
            invariant
                k <= n,
                n == odds_fields@.len(),
                n == fd.len(),
                fd == fields_of(odds_str@),
                odds@.len() == k,
                forall|a: int| 0 <= a < n ==> #[trigger] odds_fields@[a]@ == fd[a],
                forall|a: int| 0 <= a < k ==> odds_ok(#[trigger] fd[a]),
                forall|a: int| 0 <= a < k ==> #[trigger] odds@[a] as int == odds_value(fd[a]),
                forall|a: int| 0 <= a < k ==> #[trigger] odds@[a] > SCALE,
            decreases n - k,
        {
            match parse_amount(odds_fields[k].as_str()) {
                Some(v) => {
                    if v <= SCALE {
                        proof {
                            assert(!odds_ok(fd[k as int]));
                        }
                        return Err(MarketError::InvalidConfig);
                    }
                    odds.push(v);
                }
                None => {
                    proof {
                        assert(!odds_ok(fd[k as int]));
                    }
                    return Err(MarketError::InvalidConfig);
                }
            }
            k = k + 1;
        }
        // Bet bounds.
        if min_bet < 5 * SCALE {
            return Err(MarketError::InvalidConfig);
        }
        if max_bet <= min_bet {
            return Err(MarketError::InvalidConfig);
        }
        // One empty escrow vault and one empty ledger row per outcome.
        let mut pools: Vec<Vault> = Vec::new();
        let mut rows: Vec<Vec<Bet>> = Vec::new();
        let mut t: usize = 0;
        while t < n
            invariant
                t <= n,
                pools@.len() == t,
                rows@.len() == t,
                forall|a: int| 0 <= a < t ==> #[trigger] pools@[a]@ == 0,
                forall|a: int| 0 <= a < t ==> (#[trigger] rows@[a])@.len() == 0,
            decreases n - t,
        {
            pools.push(Vault::new_empty());
            rows.push(Vec::new());
            t = t + 1;
        }
        let badge = AdminBadge { market_id: title.clone() };
        let market = PredictionMarket {
            title,
            min_bet,
            max_bet,
            outcome_tokens: pools,
            outcomes,
            odds,
            total_staked: 0,
            bets: rows,
            xrd_vault: Vault::new_empty(),
            admin_vault: Vault::new_empty(),
            user_vaults: Vec::new(),
            market_resolved: false,
            market_locked: false,
            policy,
        };
        proof {
            let m = market@;
            assert(m.outcomes =~= fo);
            assert(m.odds =~= odds_values(odds_str@));
            assert(forall|a: int| 0 <= a < n ==> #[trigger] m.pools[a] == 0);
            assert(forall|a: int| 0 <= a < n ==> (#[trigger] m.ledger[a]).len() == 0);
            assert(forall|a: int|
                0 <= a < n ==> #[trigger] m.pools[a] == sum_amounts(m.ledger[a]));
            crate::model::lemma_sum_ints_zero(m.pools);
            assert(m.inv());
        }
        Ok((market, badge))
    }

    /// Find the index of an outcome label.
    fn find_outcome(&self, outcome: &String) -> (r: Option<usize>)
        ensures
            match r {
                Some(i) => i < self@.outcomes.len() && self@.outcomes[i as int] == outcome@,
                None => !has_outcome(self@.outcomes, outcome@),
            },
    {
        let n = self.outcomes.len();
        let mut i: usize = 0;
        while i < n
            invariant
                i <= n,
                n == self.outcomes.len(),
                self@.outcomes.len() == n,
                forall|j: int| 0 <= j < i ==> self@.outcomes[j] != outcome@,
                forall|j: int|
                    0 <= j < n ==> #[trigger] self@.outcomes[j] == self.outcomes@[j]@,
            decreases n - i,
        {
            if self.outcomes[i] == *outcome {
                return Some(i);
            }
            i = i + 1;
        }
        None
    }

    /// Find the index of `user`'s record in one outcome's ledger row.
    fn find_bet(row: &Vec<Bet>, user: &String) -> (r: Option<usize>)
        ensures
            match r {
                Some(k) => k < row@.len() && row_model(row@)[k as int].user == user@,
                None => !has_user(row_model(row@), user@),
            },
    {
        let n = row.len();
        let mut i: usize = 0;
        while i < n
            invariant
                i <= n,
                n == row@.len(),
                forall|j: int| 0 <= j < i ==> row_model(row@)[j].user != user@,
            decreases n - i,
        {
            if row[i].bettor == *user {
                proof {
                    assert(row_model(row@)[i as int].user == row@[i as int].bettor@);
                }
                return Some(i);
            }
            proof {
                assert(row_model(row@)[i as int].user == row@[i as int].bettor@);
            }
            i = i + 1;
        }
        None
    }

    /// Place a stake on an outcome.
    ///
    /// On refusal the stake comes back to the caller beside the error, and
    /// the market is unchanged; the contract names the exact error for every
    /// refused state and input, in check order.  On success the stake moves
    /// into the outcome's escrow pool, the running total grows by the stake,
    /// and the bettor's ledger record for that outcome accumulates.
    pub fn place_bet(&mut self, user_hash: String, outcome: String, payment: Tokens) -> (r:
        Result<(), (MarketError, Tokens)>)
        requires
            old(self).wf(),
            old(self)@.bet_refusal(user_hash@, outcome@, payment@) is None ==> old(
                self,
            )@.total_staked + payment@ <= u128::MAX,
        ensures
            final(self).wf(),
            match old(self)@.bet_refusal(user_hash@, outcome@, payment@) {
                Some(e) => (r matches Err(p) && p.0 == e && p.1@ == payment@) && final(self)@
                    == old(self)@,
                None => r is Ok && final(self)@ == old(self)@.bet_applied(
                    user_hash@,
                    outcome@,
                    payment@,
                ),
            },
    {
        let ghost m0 = self@;
        let ghost u = user_hash@;
        if self.market_resolved {
            return Err((MarketError::MarketResolved, payment));
        }
        if self.market_locked {
            return Err((MarketError::MarketLocked, payment));
        }
        let amt = payment.amount();
        if amt == 0 || amt < self.min_bet || amt > self.max_bet {
            return Err((MarketError::InvalidBetAmount, payment));
        }
        let w = match self.find_outcome(&outcome) {
            None => {
                return Err((MarketError::UnknownOutcome, payment));
            }
            Some(w) => w,
        };
        proof {
            lemma_outcome_index(m0.outcomes, outcome@, w as int);
        }
        let ghost old_row = m0.ledger[w as int];
        let ghost new_row = crate::model::upsert(old_row, u, amt as int);
        match Self::find_bet(&self.bets[w], &user_hash) {
            Some(k) => {
                let existing = self.bets[w][k].amount;
                proof {
                    assert(m0.ledger[w as int] == row_model(self.bets@[w as int]@));
                    assert(old_row[k as int].amount == existing as int);
                    crate::model::lemma_user_amount_at(old_row, k as int);
                }
                if amt > self.max_bet - existing {
                    return Err((MarketError::BetLimitExceeded, payment));
                }
                let row = vec_index_mut(&mut self.bets, w);
                let entry = vec_index_mut(row, k);
                entry.amount = entry.amount + amt;
                proof {
                    crate::model::lemma_upsert_at(old_row, u, amt as int, k as int);
                    crate::model::lemma_sum_amounts_update(
                        old_row,
                        k as int,
                        BetRec { user: u, amount: old_row[k as int].amount + amt },
                    );
                    assert(row_model(self.bets@[w as int]@) =~= new_row);
                    assert(ledger_model(self.bets@) =~= m0.ledger.update(w as int, new_row));
                    assert(sum_amounts(new_row) == sum_amounts(old_row) + amt);
                    assert(distinct_users(new_row)) by {
                        assert(forall|a: int|
                            0 <= a < new_row.len() ==> (#[trigger] new_row[a]).user
                                == old_row[a].user);
                    }
                    assert(forall|j: int|
                        0 <= j < new_row.len() ==> 0 < (#[trigger] new_row[j]).amount
                            <= m0.max_bet);
                    assert(user_amount(old_row, u) + amt <= m0.max_bet);
                }
            }
            None => {
                proof {
                    assert(m0.ledger[w as int] == row_model(self.bets@[w as int]@));
                    crate::model::lemma_user_amount_absent(old_row, u);
                    crate::model::lemma_upsert_absent(old_row, u, amt as int);
                }
                let row = vec_index_mut(&mut self.bets, w);
                row.push(Bet { bettor: user_hash, amount: amt });
                proof {
                    crate::model::lemma_sum_amounts_push(
                        old_row,
                        BetRec { user: u, amount: amt as int },
                    );
                    assert(row_model(self.bets@[w as int]@) =~= new_row);
                    assert(ledger_model(self.bets@) =~= m0.ledger.update(w as int, new_row));
                    assert(sum_amounts(new_row) == sum_amounts(old_row) + amt);
                    assert(distinct_users(new_row)) by {
                        assert(forall|a: int|
                            0 <= a < old_row.len() ==> (#[trigger] new_row[a]).user
                                == old_row[a].user);
                        assert(forall|a: int|
                            0 <= a < old_row.len() ==> (#[trigger] new_row[a]).user != u);
                    }
                    assert(forall|j: int|
                        0 <= j < new_row.len() ==> 0 < (#[trigger] new_row[j]).amount
                            <= m0.max_bet);
                    assert(user_amount(old_row, u) + amt <= m0.max_bet);
                }
            }
        }
        // The stake itself moves into the outcome's escrow pool.
        proof {
            crate::model::lemma_pool_le_sum(m0.pools, w as int);
        }
        let pool = vec_index_mut(&mut self.outcome_tokens, w);
        pool.deposit(payment);
        self.total_staked = self.total_staked + amt;
        proof {
            let m1 = self@;
            let target = m0.bet_applied(u, outcome@, amt as int);
            crate::model::lemma_sum_ints_update(m0.pools, w as int, m0.pools[w as int] + amt);
            assert(m1.pools =~= m0.pools.update(w as int, m0.pools[w as int] + amt));
            assert(m1.ledger =~= m0.ledger.update(w as int, new_row));
            assert(m1 == target);
            assert(forall|i: int|
                0 <= i < m1.ledger.len() && i != w ==> #[trigger] m1.ledger[i]
                    == m0.ledger[i]);
            assert(forall|i: int|
                0 <= i < m1.pools.len() ==> #[trigger] m1.pools[i] == sum_amounts(
                    m1.ledger[i],
                ));
            assert(m1.inv());
        }
        Ok(())
    }

    /// Whether `badge` is this market's admin badge.
    fn authorized(&self, badge: &AdminBadge) -> (r: bool)
        ensures
            r == (badge@ == self@.title),
    {
        self.title == badge.market_id
    }

    /// Lock the market: no further bets.  Admin only; idempotent in effect
    /// and does not touch the resolved flag.
    pub fn lock_market(&mut self, badge: &AdminBadge) -> (r: Result<(), MarketError>)
        requires
            old(self).wf(),
        ensures
            final(self).wf(),
            badge@ != old(self)@.title ==> r == Err::<(), MarketError>(MarketError::Unauthorized)
                && final(self)@ == old(self)@,
            badge@ == old(self)@.title ==> r is Ok && final(self)@
                == old(self)@.locked_state(),
    {
        if !self.authorized(badge) {
            return Err(MarketError::Unauthorized);
        }
        self.market_locked = true;
        Ok(())
    }

    /// Deposit outside value into the house vault.
    pub fn deposit_to_xrd_vault(&mut self, deposit: Tokens)
        requires
            old(self).wf(),
            old(self)@.house + deposit@ <= u128::MAX,
        ensures
            final(self).wf(),
            final(self)@ == (MarketModel { house: old(self)@.house + deposit@, ..old(self)@ }),
    {
        let ghost m0 = self@;
        self.xrd_vault.deposit(deposit);
        proof {
            assert(self@ == (MarketModel { house: m0.house + deposit@, ..m0 }));
            assert(self@.inv());
        }
    }

    /// Move `amount` from the house vault to the admin vault.  Admin only;
    /// fails `InsufficientFunds` where the house vault holds less.
    pub fn withdraw_from_vault(&mut self, amount: u128, badge: &AdminBadge) -> (r: Result<
        (),
        MarketError,
    >)
        requires
            old(self).wf(),
            badge@ == old(self)@.title && old(self)@.house >= amount ==> old(self)@.admin
                + amount <= u128::MAX,
        ensures
            final(self).wf(),
            badge@ != old(self)@.title ==> r == Err::<(), MarketError>(MarketError::Unauthorized)
                && final(self)@ == old(self)@,
            badge@ == old(self)@.title && old(self)@.house < amount ==> r == Err::<
                (),
                MarketError,
            >(MarketError::InsufficientFunds) && final(self)@ == old(self)@,
            badge@ == old(self)@.title && old(self)@.house >= amount ==> r is Ok && final(self)@
                == (MarketModel {
                house: old(self)@.house - amount,
                admin: old(self)@.admin + amount,
                ..old(self)@
            }),
    {
        if !self.authorized(badge) {
            return Err(MarketError::Unauthorized);
        }
        if self.xrd_vault.balance() < amount {
            return Err(MarketError::InsufficientFunds);
        }
        let t = self.xrd_vault.withdraw(amount);
        self.admin_vault.deposit(t);
        Ok(())
    }

    /// Drain the admin vault.  Admin only; fails `NothingToClaim` where it
    /// is empty.
    pub fn admin_claim(&mut self, badge: &AdminBadge) -> (r: Result<Tokens, MarketError>)
        requires
            old(self).wf(),
        ensures
            final(self).wf(),
            badge@ != old(self)@.title ==> r == Err::<Tokens, MarketError>(
                MarketError::Unauthorized,
            ) && final(self)@ == old(self)@,
            badge@ == old(self)@.title && old(self)@.admin == 0 ==> r == Err::<
                Tokens,
                MarketError,
            >(MarketError::NothingToClaim) && final(self)@ == old(self)@,
            badge@ == old(self)@.title && old(self)@.admin > 0 ==> (r matches Ok(t) && t@
                == old(self)@.admin) && final(self)@ == (MarketModel {
                admin: 0,
                ..old(self)@
            }),
    {
        if !self.authorized(badge) {
            return Err(MarketError::Unauthorized);
        }
        if self.admin_vault.balance() == 0 {
            return Err(MarketError::NothingToClaim);
        }
        let t = self.admin_vault.take_all();
        Ok(t)
    }

    /// Find the index of `user`'s claimable vault.
    fn find_user_vault(vaults: &Vec<UserVault>, user: &String) -> (r: Option<usize>)
        ensures
            match r {
                Some(k) => k < vaults@.len() && vaults_model(vaults@)[k as int].user == user@,
                None => !has_vault(vaults_model(vaults@), user@),
            },
    {
        let n = vaults.len();
        let ghost vm = vaults_model(vaults@);
        let mut i: usize = 0;
        while i < n
            invariant
                i <= n,
                n == vaults@.len(),
                vm == vaults_model(vaults@),
                vm.len() == n,
                forall|j: int| 0 <= j < i ==> vm[j].user != user@,
                forall|j: int|
                    0 <= j < n ==> (#[trigger] vm[j]).user == vaults@[j].bettor@,
            decreases n - i,
        {
            if vaults[i].bettor == *user {
                return Some(i);
            }
            i = i + 1;
        }
        None
    }

    /// Move a token quantity into `user`'s claimable vault, creating the
    /// vault if the bettor has none.
    fn credit(vaults: &mut Vec<UserVault>, user: &String, t: Tokens)
        requires
            distinct_vaults(vaults_model(old(vaults)@)),
            forall|k: int|
                0 <= k < old(vaults)@.len() ==> (#[trigger] vaults_model(old(vaults)@)[k]).balance
                    >= 0,
            claimable(vaults_model(old(vaults)@), user@) + t@ <= u128::MAX,
        ensures
            distinct_vaults(vaults_model(final(vaults)@)),
            forall|k: int|
                0 <= k < final(vaults)@.len() ==> (#[trigger] vaults_model(
                    final(vaults)@,
                )[k]).balance >= 0,
            forall|v: Seq<char>|
                #[trigger] claimable(vaults_model(final(vaults)@), v) == claimable(
                    vaults_model(old(vaults)@),
                    v,
                ) + if v == user@ {
                    t@
                } else {
                    0
                },
    {
        let ghost vm0 = vaults_model(vaults@);
        match Self::find_user_vault(vaults, user) {
            Some(k) => {
                proof {
                    crate::model::lemma_claimable_at(vm0, k as int);
                }
                let uv = vec_index_mut(vaults, k);
                uv.vault.deposit(t);
                proof {
                    let vm1 = vaults_model(vaults@);
                    let rec = VaultRec { user: vm0[k as int].user, balance: vm0[k as int].balance + t@ };
                    assert(vm1 =~= vm0.update(k as int, rec));
                    assert forall|v: Seq<char>|
                        #[trigger] claimable(vm1, v) == claimable(vm0, v) + (if v == user@ {
                            t@
                        } else {
                            0int
                        }) by {
                        crate::model::lemma_claimable_update(vm0, k as int, rec, v);
                    }
                    assert(distinct_vaults(vm1)) by {
                        assert(forall|a: int|
                            0 <= a < vm1.len() ==> (#[trigger] vm1[a]).user == vm0[a].user);
                    }
                }
            }
            None => {
                proof {
                    assert(forall|j: int|
                        0 <= j < vm0.len() ==> (#[trigger] vm0[j]).user != user@);
                    crate::model::lemma_claimable_absent(vm0, user@);
                }
                let mut fresh = Vault::new_empty();
                fresh.deposit(t);
                vaults.push(UserVault { bettor: user.clone(), vault: fresh });
                proof {
                    let vm1 = vaults_model(vaults@);
                    let rec = VaultRec { user: user@, balance: t@ };
                    assert(vm1 =~= vm0.push(rec));
                    assert forall|v: Seq<char>|
                        #[trigger] claimable(vm1, v) == claimable(vm0, v) + (if v == user@ {
                            t@
                        } else {
                            0int
                        }) by {
                        crate::model::lemma_claimable_push(vm0, rec, v);
                    }
                    assert(distinct_vaults(vm1)) by {
                        assert(forall|a: int|
                            0 <= a < vm0.len() ==> (#[trigger] vm1[a]).user == vm0[a].user);
                        assert(vm1[vm0.len() as int].user == user@);
                    }
                }
            }
        }
    }

    /// Resolve the market on a winning outcome and distribute rewards.
    ///
    /// Admin only.  On success escrow pools are swept into the house vault
    /// — the losing pools under fixed odds, every pool under the
    /// proportional split, whose payout redistributes the whole staked
    /// total — then every winning ledger record is paid its reward out of
    /// the house vault into the bettor's claimable vault, the running
    /// total resets to zero and the market becomes terminal.  The returned
    /// sequence lists each winning bettor with their reward, in ledger
    /// order.
    ///
    /// The operation is atomic: it fails `InsufficientFunds`, before any
    /// value moves, exactly where the house vault — after the sweep —
    /// could not cover the whole payout.  Under the proportional split the
    /// payout rounds down from the swept total, so that failure can only
    /// arise under fixed odds.
    #[verifier::loop_isolation(false)]
    pub fn resolve_market(&mut self, winning_outcome: u32, badge: &AdminBadge) -> (r: Result<
        Vec<(String, u128)>,
        MarketError,
    >)
        requires
            old(self).wf(),
            badge@ == old(self)@.title && !old(self)@.resolved && (winning_outcome as int)
                < old(self)@.outcomes.len() ==> old(self)@.house + old(self)@.total_staked
                <= u128::MAX && old(self)@.resolve_fits(winning_outcome as int),
        ensures
            final(self).wf(),
            badge@ != old(self)@.title ==> r == Err::<Vec<(String, u128)>, MarketError>(
                MarketError::Unauthorized,
            ) && final(self)@ == old(self)@,
            badge@ == old(self)@.title && old(self)@.resolved ==> r == Err::<
                Vec<(String, u128)>,
                MarketError,
            >(MarketError::AlreadyResolved) && final(self)@ == old(self)@,
            badge@ == old(self)@.title && !old(self)@.resolved && winning_outcome as int
                >= old(self)@.outcomes.len() ==> r == Err::<Vec<(String, u128)>, MarketError>(
                MarketError::OutcomeOutOfRange,
            ) && final(self)@ == old(self)@,
            badge@ == old(self)@.title && !old(self)@.resolved && (winning_outcome as int)
                < old(self)@.outcomes.len() && old(self)@.required_payout(winning_outcome as int)
                > old(self)@.house + old(self)@.sweep_gain(winning_outcome as int) ==> r == Err::<
                Vec<(String, u128)>,
                MarketError,
            >(MarketError::InsufficientFunds) && final(self)@ == old(self)@,
            badge@ == old(self)@.title && !old(self)@.resolved && (winning_outcome as int)
                < old(self)@.outcomes.len() && old(self)@.required_payout(winning_outcome as int)
                <= old(self)@.house + old(self)@.sweep_gain(winning_outcome as int) ==> ({
                let m0 = old(self)@;
                let m1 = final(self)@;
                let w = winning_outcome as int;
                let row = m0.ledger[w];
                &&& (r matches Ok(rw) && rw@.len() == row.len() && (forall|j: int|
                    0 <= j < row.len() ==> (#[trigger] rw@[j]).0@ == row[j].user
                        && rw@[j].1 as int == m0.reward_of(w, row[j].amount)))
                &&& m1.pools.len() == m0.pools.len()
                &&& (m0.policy == PayoutPolicy::FixedOdds ==> m1.pools[w] == m0.pools[w])
                &&& (m0.policy == PayoutPolicy::Proportional ==> m1.pools[w] == 0)
                &&& (forall|i: int|
                    0 <= i < m1.pools.len() && i != w ==> #[trigger] m1.pools[i] == 0)
                &&& m1.house == m0.house + m0.sweep_gain(w) - m0.required_payout(w)
                &&& (forall|j: int|
                    0 <= j < row.len() ==> claimable(m1.vaults, (#[trigger] row[j]).user)
                        == m0.reward_of(w, row[j].amount))
                &&& (forall|v: Seq<char>|
                    !has_user(row, v) ==> #[trigger] claimable(m1.vaults, v) == 0)
                &&& m1.total_staked == 0
                &&& m1.resolved
                &&& m1.locked == m0.locked
                &&& m1.ledger == m0.ledger
                &&& m1.admin == m0.admin
                &&& m1.title == m0.title
                &&& m1.outcomes == m0.outcomes
                &&& m1.odds == m0.odds
                &&& m1.min_bet == m0.min_bet
                &&& m1.max_bet == m0.max_bet
                &&& m1.policy == m0.policy
            }),
    {
        let ghost m0 = self@;
        if !self.authorized(badge) {
            return Err(MarketError::Unauthorized);
        }
        if self.market_resolved {
            return Err(MarketError::AlreadyResolved);
        }
        let w = winning_outcome as usize;
        let n = self.outcome_tokens.len();
        if w >= n {
            return Err(MarketError::OutcomeOutOfRange);
        }
        let ghost wi = w as int;
        let ghost row = m0.ledger[wi];
        proof {
            assert(row == row_model(self.bets@[wi]@));
            assert(forall|j: int| 0 <= j < row.len() ==> (#[trigger] row[j]).amount >= 0);
            crate::model::lemma_sum_amounts_nonneg(row);
            assert(crate::model::reward_ctx(m0, wi));
            crate::model::lemma_pool_le_sum(m0.pools, wi);
        }
        // Compute every reward and the whole required payout first.
        let row_len = self.bets[w].len();
        let wtotal = self.outcome_tokens[w].balance();
        let mut rewards: Vec<(String, u128)> = Vec::new();
        let mut required: u128 = 0;
        let mut j: usize = 0;
        while j < row_len
            invariant
                j <= row_len,
                row_len == row.len(),
                rewards@.len() == j,
                forall|a: int|
                    0 <= a < j ==> (#[trigger] rewards@[a]).0@ == row[a].user
                        && rewards@[a].1 as int == m0.reward_of(wi, row[a].amount),
                required as int == m0.rewards_sum(wi, row.take(j as int)),
            decreases row_len - j,
        {
            let stake = self.bets[w][j].amount;
            proof {
                assert(row[j as int] == bet_rec(self.bets@[wi]@[j as int]));
                assert(stake as int == row[j as int].amount);
                assert(0 < stake as int <= m0.max_bet);
                crate::model::lemma_sum_amounts_take(row, j as int);
                crate::model::lemma_sum_amounts_take_le(row, j as int);
                crate::model::lemma_sum_amounts_take_le(row, j as int + 1);
                assert(wtotal as int == sum_amounts(row));
                assert(wtotal as int >= stake as int);
            }
            let reward: u128 = match self.policy {
                PayoutPolicy::FixedOdds => {
                    proof {
                        assert(stake as int * m0.odds[wi] <= m0.max_bet * m0.odds[wi])
                            by (nonlinear_arith)
                            requires
                                0 <= stake as int <= m0.max_bet,
                                m0.odds[wi] >= 0,
                        ;
                        assert(stake as int * m0.odds[wi] >= 0) by (nonlinear_arith)
                            requires
                                stake as int >= 0,
                                m0.odds[wi] >= 0,
                        ;
                    }
                    (stake * self.odds[w]) / SCALE
                }
                PayoutPolicy::Proportional => {
                    proof {
                        assert(stake as int * m0.total_staked <= m0.max_bet * m0.total_staked)
                            by (nonlinear_arith)
                            requires
                                0 <= stake as int <= m0.max_bet,
                                m0.total_staked >= 0,
                        ;
                        assert(stake as int * m0.total_staked >= 0) by (nonlinear_arith)
                            requires
                                stake as int >= 0,
                                m0.total_staked >= 0,
                        ;
                    }
                    (stake * self.total_staked) / wtotal
                }
            };
            proof {
                assert(reward as int == m0.reward_of(wi, row[j as int].amount));
                crate::model::lemma_rewards_sum_take(m0, wi, row, j as int);
            }
            rewards.push((self.bets[w][j].bettor.clone(), reward));
            required = match required.checked_add(reward) {
                Some(x) => x,
                None => {
                    // The whole payout cannot even be represented, so the
                    // house cannot cover it.
                    proof {
                        crate::model::lemma_rewards_sum_take_le(m0, wi, row, j as int + 1);
                        assert(m0.required_payout(wi) > u128::MAX);
                        assert(m0.house + m0.sweep_gain(wi) <= m0.house + m0.total_staked);
                    }
                    return Err(MarketError::InsufficientFunds);
                }
            };
            j = j + 1;
        }
        proof {
            assert(row.take(row_len as int) =~= row);
            assert(required as int == m0.required_payout(wi));
        }
        // Pre-validate the funding before anything moves.  The fixed-odds
        // sweep keeps the winning pool; the proportional sweep takes every
        // pool, since its payout redistributes the whole staked total.
        let sweep_all = match self.policy {
            PayoutPolicy::Proportional => true,
            PayoutPolicy::FixedOdds => false,
        };
        let swept = if sweep_all {
            self.total_staked
        } else {
            self.total_staked - wtotal
        };
        let available = self.xrd_vault.balance() + swept;
        proof {
            assert(swept as int == m0.sweep_gain(wi));
            assert(available as int == m0.house + m0.sweep_gain(wi));
        }
        if required > available {
            return Err(MarketError::InsufficientFunds);
        }
        let ghost pool_w_after: int = if sweep_all {
            0
        } else {
            m0.pools[wi]
        };
        // Sweep the escrow pools into the house vault.
        let mut i: usize = 0;
        while i < n
            invariant
                i <= n,
                self.outcome_tokens@.len() == n,
                forall|a: int|
                    0 <= a < i && (sweep_all || a != wi) ==> #[trigger] pools_model(
                        self.outcome_tokens@,
                    )[a] == 0,
                forall|a: int|
                    (i <= a < n || (!sweep_all && a == wi)) ==> #[trigger] pools_model(
                        self.outcome_tokens@,
                    )[a] == m0.pools[a],
                self.xrd_vault@ == m0.house + sum_ints(m0.pools.take(i as int)) - (
                if !sweep_all && wi < i {
                    m0.pools[wi]
                } else {
                    0int
                }),
                self.bets == old(self).bets,
                self.user_vaults == old(self).user_vaults,
                self.admin_vault == old(self).admin_vault,
                self.title == old(self).title,
                self.outcomes == old(self).outcomes,
                self.odds == old(self).odds,
                self.min_bet == old(self).min_bet,
                self.max_bet == old(self).max_bet,
                self.total_staked == old(self).total_staked,
                self.market_resolved == false,
                self.market_locked == old(self).market_locked,
                self.policy == old(self).policy,
            decreases n - i,
        {
            proof {
                crate::model::lemma_sum_ints_take(m0.pools, i as int);
                crate::model::lemma_sum_ints_take_le(m0.pools, i as int + 1);
                assert(m0.total_staked == sum_ints(m0.pools));
            }
            if sweep_all || i != w {
                let ghost toks0 = self.outcome_tokens@;
                let pool = vec_index_mut(&mut self.outcome_tokens, i);
                let t = pool.take_all();
                proof {
                    assert(pools_model(toks0)[i as int] == toks0[i as int]@);
                    assert(t@ == m0.pools[i as int]);
                    assert(forall|a: int|
                        0 <= a < n && a != i ==> #[trigger] pools_model(
                            self.outcome_tokens@,
                        )[a] == pools_model(toks0)[a]);
                    assert(pools_model(self.outcome_tokens@)[i as int] == 0);
                    assert(self.xrd_vault@ + t@ <= u128::MAX);
                }
                self.xrd_vault.deposit(t);
            }
            i = i + 1;
        }
        proof {
            assert(m0.pools.take(n as int) =~= m0.pools);
            assert(self.xrd_vault@ == m0.house + m0.sweep_gain(wi));
            assert(self.xrd_vault@ == available as int);
        }
        // Pay every winning record out of the house vault.
        proof {
            assert(m0.rewards_sum(wi, row.take(0)) == 0);
            assert forall|v: Seq<char>|
                #[trigger] claimable(vaults_model(self.user_vaults@), v) == m0.user_rewards(
                    wi,
                    row.take(0),
                    v,
                ) by {
                crate::model::lemma_claimable_zero(vaults_model(self.user_vaults@), v);
            }
        }
        let mut j: usize = 0;
        while j < row_len
            invariant
                j <= row_len,
                row_len == row.len(),
                rewards@.len() == row.len(),
                forall|a: int|
                    0 <= a < row.len() ==> (#[trigger] rewards@[a]).0@ == row[a].user
                        && rewards@[a].1 as int == m0.reward_of(wi, row[a].amount),
                self.outcome_tokens@.len() == n,
                forall|a: int|
                    0 <= a < n && a != wi ==> #[trigger] pools_model(self.outcome_tokens@)[a]
                        == 0,
                pools_model(self.outcome_tokens@)[wi] == pool_w_after,
                self.xrd_vault@ == available as int - m0.rewards_sum(wi, row.take(j as int)),
                forall|v: Seq<char>|
                    #[trigger] claimable(vaults_model(self.user_vaults@), v) == m0.user_rewards(
                        wi,
                        row.take(j as int),
                        v,
                    ),
                distinct_vaults(vaults_model(self.user_vaults@)),
                forall|k: int|
                    0 <= k < self.user_vaults@.len() ==> (#[trigger] vaults_model(
                        self.user_vaults@,
                    )[k]).balance >= 0,
                self.bets == old(self).bets,
                self.admin_vault == old(self).admin_vault,
                self.title == old(self).title,
                self.outcomes == old(self).outcomes,
                self.odds == old(self).odds,
                self.min_bet == old(self).min_bet,
                self.max_bet == old(self).max_bet,
                self.total_staked == old(self).total_staked,
                self.market_resolved == false,
                self.market_locked == old(self).market_locked,
                self.policy == old(self).policy,
            decreases row_len - j,
        {
            let amount = rewards[j].1;
            let ghost u = row[j as int].user;
            proof {
                crate::model::lemma_rewards_sum_take(m0, wi, row, j as int);
                crate::model::lemma_rewards_sum_take_le(m0, wi, row, j as int + 1);
                assert(m0.rewards_sum(wi, row.take(j as int)) + amount as int
                    <= required as int);
                assert(forall|a: int|
                    0 <= a < j ==> (#[trigger] row.take(j as int)[a]).user == row[a].user);
                assert(forall|a: int|
                    0 <= a < row.take(j as int).len() ==> (#[trigger] row.take(
                        j as int,
                    )[a]).user != u);
                crate::model::lemma_user_rewards_absent(m0, wi, row.take(j as int), u);
            }
            let t = self.xrd_vault.withdraw(amount);
            Self::credit(&mut self.user_vaults, &rewards[j].0, t);
            proof {
                assert forall|v: Seq<char>|
                    #[trigger] claimable(vaults_model(self.user_vaults@), v) == m0.user_rewards(
                        wi,
                        row.take(j as int + 1),
                        v,
                    ) by {
                    crate::model::lemma_user_rewards_take(m0, wi, row, j as int, v);
                }
            }
            j = j + 1;
        }
        proof {
            assert(row.take(row_len as int) =~= row);
        }
        self.total_staked = 0;
        self.market_resolved = true;
        proof {
            let m1 = self@;
            assert(m1.ledger == m0.ledger);
            assert(m1.pools[wi] == pool_w_after);
            assert(m1.house == m0.house + m0.sweep_gain(wi) - m0.required_payout(wi));
            assert forall|a: int| 0 <= a < row.len() implies claimable(
                m1.vaults,
                (#[trigger] row[a]).user,
            ) == m0.reward_of(wi, row[a].amount) by {
                crate::model::lemma_user_rewards_at(m0, wi, row, a);
            }
            assert forall|v: Seq<char>| !has_user(row, v) implies #[trigger] claimable(
                m1.vaults,
                v,
            ) == 0 by {
                assert(forall|a: int| 0 <= a < row.len() ==> (#[trigger] row[a]).user != v);
                crate::model::lemma_user_rewards_absent(m0, wi, row, v);
            }
            assert(m1.inv());
        }
        Ok(rewards)
    }

    /// Void the market: every bettor recovers exactly their recorded
    /// stakes.  Admin only; fails `AlreadyResolved` on a terminal market.
    ///
    /// On success every escrow pool is swept through the house vault into
    /// the bettors' claimable vaults: each bettor's claimable balance
    /// becomes the sum of their stakes across all outcomes, the house
    /// balance is unchanged, the running total resets to zero and the
    /// market becomes terminal.
    #[verifier::loop_isolation(false)]
    pub fn resolve_market_as_void(&mut self, badge: &AdminBadge) -> (r: Result<(), MarketError>)
        requires
            old(self).wf(),
            badge@ == old(self)@.title && !old(self)@.resolved ==> old(self)@.house + old(
                self,
            )@.total_staked <= u128::MAX,
        ensures
            final(self).wf(),
            badge@ != old(self)@.title ==> r == Err::<(), MarketError>(MarketError::Unauthorized)
                && final(self)@ == old(self)@,
            badge@ == old(self)@.title && old(self)@.resolved ==> r == Err::<(), MarketError>(
                MarketError::AlreadyResolved,
            ) && final(self)@ == old(self)@,
            badge@ == old(self)@.title && !old(self)@.resolved ==> r is Ok && ({
                let m0 = old(self)@;
                let m1 = final(self)@;
                &&& m1.pools.len() == m0.pools.len()
                &&& (forall|i: int| 0 <= i < m1.pools.len() ==> #[trigger] m1.pools[i] == 0)
                &&& m1.house == m0.house
                &&& m1.admin == m0.admin
                &&& (forall|v: Seq<char>|
                    #[trigger] claimable(m1.vaults, v) == user_ledger_sum(m0.ledger, v))
                &&& m1.total_staked == 0
                &&& m1.resolved
                &&& m1.locked == m0.locked
                &&& m1.ledger == m0.ledger
                &&& m1.title == m0.title
                &&& m1.outcomes == m0.outcomes
                &&& m1.odds == m0.odds
                &&& m1.min_bet == m0.min_bet
                &&& m1.max_bet == m0.max_bet
                &&& m1.policy == m0.policy
            }),
    {
        let ghost m0 = self@;
        let ghost l = m0.ledger;
        if !self.authorized(badge) {
            return Err(MarketError::Unauthorized);
        }
        if self.market_resolved {
            return Err(MarketError::AlreadyResolved);
        }
        proof {
            crate::model::lemma_pools_eq_ledger_sum(m0.pools, m0.ledger);
            assert(forall|a: int, j: int|
                0 <= a < l.len() && 0 <= j < l[a].len() ==> (#[trigger] l[a][j]).amount >= 0);
        }
        // Sweep every escrow pool into the house vault.
        let n = self.outcome_tokens.len();
        let mut i: usize = 0;
        while i < n
            invariant
                i <= n,
                self.outcome_tokens@.len() == n,
                forall|j: int|
                    0 <= j < i ==> #[trigger] pools_model(self.outcome_tokens@)[j] == 0,
                forall|j: int|
                    i <= j < n ==> #[trigger] pools_model(self.outcome_tokens@)[j]
                        == m0.pools[j],
                self.xrd_vault@ == m0.house + sum_ints(m0.pools.take(i as int)),
                self.bets == old(self).bets,
                self.user_vaults == old(self).user_vaults,
                self.admin_vault == old(self).admin_vault,
                self.title == old(self).title,
                self.outcomes == old(self).outcomes,
                self.odds == old(self).odds,
                self.min_bet == old(self).min_bet,
                self.max_bet == old(self).max_bet,
                self.total_staked == old(self).total_staked,
                self.market_resolved == false,
                self.market_locked == old(self).market_locked,
                self.policy == old(self).policy,
            decreases n - i,
        {
            proof {
                crate::model::lemma_sum_ints_take(m0.pools, i as int);
                crate::model::lemma_sum_ints_take_le(m0.pools, i as int + 1);
                assert(m0.total_staked == sum_ints(m0.pools));
                assert(m0.house + sum_ints(m0.pools.take(i as int)) + m0.pools[i as int]
                    <= u128::MAX);
            }
            let ghost toks0 = self.outcome_tokens@;
            let pool = vec_index_mut(&mut self.outcome_tokens, i);
            let t = pool.take_all();
            proof {
                assert(pools_model(toks0)[i as int] == toks0[i as int]@);
                assert(t@ == m0.pools[i as int]);
                assert(forall|j: int|
                    0 <= j < n && j != i ==> #[trigger] pools_model(self.outcome_tokens@)[j]
                        == pools_model(toks0)[j]);
                assert(pools_model(self.outcome_tokens@)[i as int] == 0);
            }
            self.xrd_vault.deposit(t);
            i = i + 1;
        }
        proof {
            assert(m0.pools.take(n as int) =~= m0.pools);
            assert(self.xrd_vault@ == m0.house + m0.total_staked);
        }
        // Refund every recorded stake out of the house vault.
        proof {
            assert(ledger_sum(l.take(0)) == 0);
            assert forall|v: Seq<char>|
                #[trigger] claimable(vaults_model(self.user_vaults@), v) == user_ledger_sum(
                    l.take(0),
                    v,
                ) by {
                crate::model::lemma_claimable_zero(vaults_model(self.user_vaults@), v);
            }
        }
        let mut oi: usize = 0;
        while oi < n
            invariant
                oi <= n,
                n == l.len(),
                self.bets == old(self).bets,
                self.bets@.len() == n,
                self.outcome_tokens@.len() == n,
                forall|j: int|
                    0 <= j < n ==> #[trigger] pools_model(self.outcome_tokens@)[j] == 0,
                self.xrd_vault@ == m0.house + m0.total_staked - ledger_sum(l.take(oi as int)),
                forall|v: Seq<char>|
                    #[trigger] claimable(vaults_model(self.user_vaults@), v) == user_ledger_sum(
                        l.take(oi as int),
                        v,
                    ),
                distinct_vaults(vaults_model(self.user_vaults@)),
                forall|k: int|
                    0 <= k < self.user_vaults@.len() ==> (#[trigger] vaults_model(
                        self.user_vaults@,
                    )[k]).balance >= 0,
                self.admin_vault == old(self).admin_vault,
                self.title == old(self).title,
                self.outcomes == old(self).outcomes,
                self.odds == old(self).odds,
                self.min_bet == old(self).min_bet,
                self.max_bet == old(self).max_bet,
                self.total_staked == old(self).total_staked,
                self.market_resolved == false,
                self.market_locked == old(self).market_locked,
                self.policy == old(self).policy,
            decreases n - oi,
        {
            let ghost row = l[oi as int];
            proof {
                assert(row == row_model(self.bets@[oi as int]@));
                assert(forall|j: int|
                    0 <= j < row.len() ==> (#[trigger] row[j]).amount >= 0);
            }
            let row_len = self.bets[oi].len();
            let mut j: usize = 0;
            while j < row_len
                invariant
                    j <= row_len,
                    row_len == row.len(),
                    oi < n,
                    self.bets == old(self).bets,
                    self.outcome_tokens@.len() == n,
                    forall|jj: int|
                        0 <= jj < n ==> #[trigger] pools_model(self.outcome_tokens@)[jj] == 0,
                    self.xrd_vault@ == m0.house + m0.total_staked - ledger_sum(
                        l.take(oi as int),
                    ) - sum_amounts(row.take(j as int)),
                    forall|v: Seq<char>|
                        #[trigger] claimable(vaults_model(self.user_vaults@), v)
                            == user_ledger_sum(l.take(oi as int), v) + user_amount(
                            row.take(j as int),
                            v,
                        ),
                    distinct_vaults(vaults_model(self.user_vaults@)),
                    forall|k: int|
                        0 <= k < self.user_vaults@.len() ==> (#[trigger] vaults_model(
                            self.user_vaults@,
                        )[k]).balance >= 0,
                    self.admin_vault == old(self).admin_vault,
                    self.title == old(self).title,
                    self.outcomes == old(self).outcomes,
                    self.odds == old(self).odds,
                    self.min_bet == old(self).min_bet,
                    self.max_bet == old(self).max_bet,
                    self.total_staked == old(self).total_staked,
                    self.market_resolved == false,
                    self.market_locked == old(self).market_locked,
                    self.policy == old(self).policy,
                decreases row_len - j,
            {
                let amt = self.bets[oi][j].amount;
                let ghost u = row[j as int].user;
                proof {
                    assert(row[j as int] == bet_rec(self.bets@[oi as int]@[j as int]));
                    assert(amt as int == row[j as int].amount);
                    // The house still holds at least this refund.
                    crate::model::lemma_sum_amounts_take(row, j as int);
                    crate::model::lemma_sum_amounts_take_le(row, j as int + 1);
                    crate::model::lemma_ledger_sum_take(l, oi as int);
                    crate::model::lemma_ledger_sum_take_le(l, oi as int + 1);
                    assert(ledger_sum(l.take(oi as int)) + sum_amounts(row.take(j as int)) + amt
                        <= m0.total_staked);
                    // And this bettor's claimable balance stays in range.
                    assert(forall|a: int, b: int|
                        0 <= a < l.take(oi as int).len() && 0 <= b < l.take(oi as int)[a].len()
                            ==> (#[trigger] l.take(oi as int)[a][b]).amount >= 0);
                    crate::model::lemma_user_ledger_sum_le(l.take(oi as int), u);
                    assert(forall|a: int|
                        0 <= a < row.take(j as int).len() ==> (#[trigger] row.take(
                            j as int,
                        )[a]).amount >= 0);
                    crate::model::lemma_user_amount_le_sum(row.take(j as int), u);
                }
                let t = self.xrd_vault.withdraw(amt);
                Self::credit(&mut self.user_vaults, &self.bets[oi][j].bettor, t);
                proof {
                    assert forall|v: Seq<char>|
                        #[trigger] claimable(vaults_model(self.user_vaults@), v)
                            == user_ledger_sum(l.take(oi as int), v) + user_amount(
                            row.take(j as int + 1),
                            v,
                        ) by {
                        crate::model::lemma_user_amount_take(row, j as int, v);
                    }
                }
                j = j + 1;
            }
            proof {
                assert(row.take(row_len as int) =~= row);
                crate::model::lemma_ledger_sum_take(l, oi as int);
                assert forall|v: Seq<char>|
                    #[trigger] claimable(vaults_model(self.user_vaults@), v) == user_ledger_sum(
                        l.take(oi as int + 1),
                        v,
                    ) by {
                    crate::model::lemma_user_ledger_sum_take(l, oi as int, v);
                }
            }
            oi = oi + 1;
        }
        proof {
            assert(l.take(n as int) =~= l);
        }
        self.total_staked = 0;
        self.market_resolved = true;
        proof {
            let m1 = self@;
            assert(m1.ledger == m0.ledger);
            assert(m1.house == m0.house);
            assert(m1.inv());
        }
        Ok(())
    }

    /// Drain the caller's claimable vault.
    ///
    /// Fails `NothingToClaim` exactly where the bettor is owed nothing —
    /// whether they never had a claimable vault or already drained it — and
    /// otherwise returns the whole balance owed.
    pub fn claim_reward(&mut self, user_hash: String) -> (r: Result<Tokens, MarketError>)
        requires
            old(self).wf(),
        ensures
            final(self).wf(),
            claimable(old(self)@.vaults, user_hash@) == 0 ==> r == Err::<Tokens, MarketError>(
                MarketError::NothingToClaim,
            ) && final(self)@ == old(self)@,
            claimable(old(self)@.vaults, user_hash@) > 0 ==> (r matches Ok(t) && t@ == claimable(
                old(self)@.vaults,
                user_hash@,
            )) && final(self)@ == (MarketModel { vaults: final(self)@.vaults, ..old(self)@ })
                && (forall|v: Seq<char>|
                claimable(final(self)@.vaults, v) == if v == user_hash@ {
                    0
                } else {
                    claimable(old(self)@.vaults, v)
                }),
    {
        let ghost m0 = self@;
        let ghost u = user_hash@;
        match Self::find_user_vault(&self.user_vaults, &user_hash) {
            None => {
                proof {
                    assert(forall|j: int|
                        0 <= j < m0.vaults.len() ==> (#[trigger] m0.vaults[j]).user != u);
                    crate::model::lemma_claimable_absent(m0.vaults, u);
                }
                Err(MarketError::NothingToClaim)
            }
            Some(k) => {
                proof {
                    crate::model::lemma_claimable_at(m0.vaults, k as int);
                }
                let bal = self.user_vaults[k].vault.balance();
                if bal == 0 {
                    return Err(MarketError::NothingToClaim);
                }
                let uv = vec_index_mut(&mut self.user_vaults, k);
                let t = uv.vault.take_all();
                proof {
                    let m1 = self@;
                    let rec = VaultRec { user: u, balance: 0 };
                    assert(m1.vaults =~= m0.vaults.update(k as int, rec));
                    assert forall|v: Seq<char>|
                        claimable(m1.vaults, v) == (if v == u {
                            0int
                        } else {
                            claimable(m0.vaults, v)
                        }) by {
                        crate::model::lemma_claimable_update(m0.vaults, k as int, rec, v);
                        if v != u {
                        } else {
                            crate::model::lemma_claimable_at(m0.vaults, k as int);
                        }
                    }
                    assert(distinct_vaults(m1.vaults)) by {
                        assert(forall|a: int|
                            0 <= a < m1.vaults.len() ==> (#[trigger] m1.vaults[a]).user
                                == m0.vaults[a].user);
                    }
                    assert(m1.inv());
                }
                Ok(t)
            }
        }
    }

    /// The market's outcome labels, in order.
    pub fn list_outcomes(&self) -> (r: Vec<String>)
        ensures
            r.deep_view() == self@.outcomes,
    {
        let r = self.outcomes.clone();
        proof {
            assert(r.deep_view() =~= self.outcomes.deep_view());
        }
        r
    }

    /// The running total of all stakes, zero once resolved.
    pub fn get_total_staked(&self) -> (r: u128)
        ensures
            r as int == self@.total_staked,
    {
        self.total_staked
    }

    /// The house vault's balance.
    pub fn get_xrd_vault_balance(&self) -> (r: u128)
        ensures
            r as int == self@.house,
    {
        self.xrd_vault.balance()
    }

    /// Title, outcomes, odds and total staked, in one call.
    pub fn get_market_details(&self) -> (r: (String, Vec<String>, Vec<u128>, u128))
        ensures
            r.0@ == self@.title,
            r.1.deep_view() == self@.outcomes,
            ints_of(r.2@) == self@.odds,
            r.3 as int == self@.total_staked,
    {
        let title = self.title.clone();
        let outcomes = self.outcomes.clone();
        let odds = self.odds.clone();
        proof {
            assert(outcomes.deep_view() =~= self.outcomes.deep_view());
            assert(odds@ =~= self.odds@);
        }
        (title, outcomes, odds, self.total_staked)
    }

    /// The escrow balance of the named outcome; `UnknownOutcome` where the
    /// label is not one of the market's outcomes.
    pub fn get_outcome_balance(&self, outcome: String) -> (r: Result<u128, MarketError>)
        requires
            self.wf(),
        ensures
            has_outcome(self@.outcomes, outcome@) ==> (r matches Ok(b) && b as int
                == self@.pools[outcome_index(self@.outcomes, outcome@)]),
            !has_outcome(self@.outcomes, outcome@) ==> r == Err::<u128, MarketError>(
                MarketError::UnknownOutcome,
            ),
    {
        match self.find_outcome(&outcome) {
            Some(i) => {
                proof {
                    lemma_outcome_index(self@.outcomes, outcome@, i as int);
                }
                Ok(self.outcome_tokens[i].balance())
            }
            None => Err(MarketError::UnknownOutcome),
        }
    }
}

} // verus!

