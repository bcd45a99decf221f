//! The market directory.
//!
//! A [`MarketManager`] owns many markets, keyed by a market identifier.  It
//! is append-only: markets are created through it and never removed, and a
//! taken identifier is refused rather than overwritten.  The directory
//! never reaches into a market's ledger; it only creates, finds and lists.

use vstd::prelude::*;
use crate::amount::SCALE;
use crate::market::odds_values;
use crate::market::valid_market_config;
use crate::market::AdminBadge;
use crate::market::PredictionMarket;
use crate::model::has_outcome;
use crate::model::outcome_index;
use crate::model::distinct_seqs;
use crate::model::MarketError;
use crate::model::MarketModel;
use crate::model::PayoutPolicy;
use crate::parse::fields_of;

verus! {

/// The bet bounds a directory-created market starts with, in subunits.
pub const DEFAULT_MIN_BET: u128 = 5 * SCALE;

pub const DEFAULT_MAX_BET: u128 = 1000 * SCALE;

/// Identifier `id` is taken in the directory.
pub open spec fn has_id(ids: Seq<Seq<char>>, id: Seq<char>) -> bool {
    has_outcome(ids, id)
}

/// The index of identifier `id` in the directory.
pub open spec fn id_index(ids: Seq<Seq<char>>, id: Seq<char>) -> int {
    outcome_index(ids, id)
}

/// A directory of markets, keyed by identifier.
pub struct MarketManager {
    ids: Vec<String>,
    markets: Vec<PredictionMarket>,
}

impl MarketManager {
    /// The identifiers held, in insertion order.
    pub closed spec fn market_ids(&self) -> Seq<Seq<char>> {
        self.ids.deep_view()
    }

    /// The model of the market at directory index `i`.
    pub closed spec fn market_at(&self, i: int) -> MarketModel {
        self.markets@[i]@
    }

    /// Well-formedness: identifiers are distinct, one per market, each
    /// market is well formed and titled by its identifier.
    pub closed spec fn wf(&self) -> bool {
        &&& distinct_seqs(self.ids.deep_view())
        &&& self.ids@.len() == self.markets@.len()
        &&& forall|i: int| 0 <= i < self.markets@.len() ==> (#[trigger] self.markets@[i]).wf()
        &&& forall|i: int|
            0 <= i < self.markets@.len() ==> (#[trigger] self.markets@[i])@.title
                == self.ids.deep_view()[i]
    }

    /// An empty directory.
    pub fn new() -> (r: MarketManager)
        ensures
            r.wf(),
            r.market_ids().len() == 0,
    {
        MarketManager { ids: Vec::new(), markets: Vec::new() }
    }

    /// Find the directory index of an identifier.
    fn find_id(&self, market_id: &String) -> (r: Option<usize>)
        ensures
            match r {
                Some(i) => i < self.market_ids().len() && self.market_ids()[i as int]
                    == market_id@,
                None => !has_id(self.market_ids(), market_id@),
            },
    {
        let n = self.ids.len();
        let mut i: usize = 0;
        while i < n
            invariant
                i <= n,
                n == self.ids@.len(),
                self.market_ids().len() == n,
                forall|j: int| 0 <= j < i ==> self.market_ids()[j] != market_id@,
                forall|j: int|
                    0 <= j < n ==> #[trigger] self.market_ids()[j] == self.ids@[j]@,
            decreases n - i,
        {
            if self.ids[i] == *market_id {
                return Some(i);
            }
            i = i + 1;
        }
        None
    }

    /// Create a market under `market_id` with the directory's default bet
    /// bounds and the fixed-odds payout policy, and hand its admin badge to
    /// the caller.
    ///
    /// Fails `DuplicateMarketId` where the identifier is taken, and
    /// `InvalidConfig` where the outcome or odds strings are invalid.
    pub fn instantiate_prediction_market(
        &mut self,
        market_id: String,
        outcomes_str: String,
        odds_str: String,
    ) -> (r: Result<AdminBadge, MarketError>)
        requires
            old(self).wf(),
        ensures
            final(self).wf(),
            has_id(old(self).market_ids(), market_id@) ==> r == Err::<AdminBadge, MarketError>(
                MarketError::DuplicateMarketId,
            ) && *final(self) == *old(self),
            !has_id(old(self).market_ids(), market_id@) && !valid_market_config(
                outcomes_str@,
                odds_str@,
                DEFAULT_MIN_BET as int,
                DEFAULT_MAX_BET as int,
            ) ==> r == Err::<AdminBadge, MarketError>(MarketError::InvalidConfig) && *final(self)
                == *old(self),
            !has_id(old(self).market_ids(), market_id@) && valid_market_config(
                outcomes_str@,
                odds_str@,
                DEFAULT_MIN_BET as int,
                DEFAULT_MAX_BET as int,
            ) ==> (r matches Ok(badge) && badge@ == market_id@) && ({
                let m = final(self).market_at(old(self).market_ids().len() as int);
                &&& final(self).market_ids() == old(self).market_ids().push(market_id@)
                &&& (forall|j: int|
                    0 <= j < old(self).market_ids().len() ==> final(self).market_at(j) == old(
                        self,
                    ).market_at(j))
                &&& m.title == market_id@
                &&& m.outcomes == fields_of(outcomes_str@)
                &&& m.odds == odds_values(odds_str@)
                &&& m.min_bet == DEFAULT_MIN_BET as int
                &&& m.max_bet == DEFAULT_MAX_BET as int
                &&& m.total_staked == 0
                &&& m.locked == false
                &&& m.resolved == false
                &&& m.policy == PayoutPolicy::FixedOdds
            }),
    {
        if let Some(_) = self.find_id(&market_id) {
            return Err(MarketError::DuplicateMarketId);
        }
        let title = market_id.clone();
        match PredictionMarket::instantiate_prediction_market(
            title,
            outcomes_str,
            odds_str,
            DEFAULT_MIN_BET,
            DEFAULT_MAX_BET,
            PayoutPolicy::FixedOdds,
        ) {
            Ok((market, badge)) => {
                self.ids.push(market_id);
                self.markets.push(market);
                proof {
                    assert(self.market_ids() =~= old(self).market_ids().push(market_id@));
                    assert(forall|j: int|
                        0 <= j < old(self).markets@.len() ==> #[trigger] self.markets@[j]
                            == old(self).markets@[j]);
                    assert(distinct_seqs(self.market_ids())) by {
                        assert(forall|j: int|
                            0 <= j < old(self).market_ids().len()
                                ==> #[trigger] self.market_ids()[j] == old(
                                self,
                            ).market_ids()[j]);
                    }
                }
                Ok(badge)
            }
            Err(e) => Err(e),
        }
    }

    /// Look an identifier up; `None` where it is not taken.
    pub fn get_market(&self, market_id: String) -> (r: Option<&PredictionMarket>)
        requires
            self.wf(),
        ensures
            has_id(self.market_ids(), market_id@) ==> (r matches Some(m) && m.wf() && m@
                == self.market_at(id_index(self.market_ids(), market_id@)) && m@.title
                == market_id@),
            !has_id(self.market_ids(), market_id@) ==> r is None,
    {
        match self.find_id(&market_id) {
            Some(i) => {
                proof {
                    crate::market::lemma_outcome_index(
                        self.market_ids(),
                        market_id@,
                        i as int,
                    );
                }
                Some(&self.markets[i])
            }
            None => None,
        }
    }

    /// Every identifier held, in insertion order.
    pub fn list_all_markets(&self) -> (r: Vec<String>)
        ensures
            r.deep_view() == self.market_ids(),
    {
        let r = self.ids.clone();
        proof {
            assert(r.deep_view() =~= self.ids.deep_view());
        }
        r
    }
}

} // verus!
