//! Markets and bets: lifecycle, pooled liquidity and pricing.
//!
//! A market carries a fixed, ordered set of at least two outcome labels and
//! one liquidity pool per outcome; its status walks one way through
//! `Open -> Closed -> Resolved` (possibly skipping `Closed`).  Each pool
//! always equals the stakes bet on its outcome, which is what makes the
//! pari-mutuel settlement of `resolve` add up.

use vstd::prelude::*;

use crate::errors::LedgerError;

verus! {

/// Lifecycle of a market; `Resolved` is terminal.
#[derive(Clone, Copy, Debug, PartialEq, Eq, Structural)]
pub enum MarketStatus {
    Open,
    Closed,
    Resolved,
}

/// Lifecycle of a bet: locked in escrow until its market resolves.
#[derive(Clone, Copy, Debug, PartialEq, Eq, Structural)]
pub enum BetStatus {
    Locked,
    Won,
    Lost,
}

/// A prediction market.
pub struct Market {
    pub id: String,
    pub title: String,
    pub description: String,
    pub outcomes: Vec<String>,
    pub category: String,
    pub resolution_source: String,
    pub status: MarketStatus,
    pub pools: Vec<i64>,
    pub winning_outcome: Option<usize>,
}

/// A bet: a stake on one outcome of one market.
pub struct Bet {
    pub id: u64,
    pub account: String,
    pub market_id: String,
    pub outcome_index: usize,
    pub amount: i64,
    pub status: BetStatus,
    pub timestamp: i64,
}

/// Per-market statistics: pools, implied prices in parts per million
/// (an outcome's price is its pool divided by the total pool, so prices sum
/// to one whole), total volume and the resolved flag.
pub struct MarketStats {
    pub market_id: String,
    pub pools: Vec<i64>,
    pub prices_ppm: Vec<i64>,
    pub total_volume: i64,
    pub resolved: bool,
}

/// Wire-level argument bundle for creating a market, as the command
/// layer hands it over.
pub struct CreateMarketRequest {
    pub id: String,
    pub title: String,
    pub description: String,
    pub outcomes: Vec<String>,
    pub category: String,
    pub resolution_source: String,
}

/// Wire-level argument bundle for resolving a market.
pub struct ResolveMarketRequest {
    pub market_id: String,
    pub winning_outcome: usize,
}

/// Market and bet store.
pub struct MarketManager {
    pub markets: Vec<Market>,
    pub bets: Vec<Bet>,
    pub next_bet_id: u64,
}

/// One million: the denominator of implied prices.
pub const PRICE_SCALE: i64 = 1_000_000;

// ---------------------------------------------------------------------------
// Spec-level views and sums.
// ---------------------------------------------------------------------------

/// Whether `markets` holds a market with id `id`.
pub open spec fn has_market_in(markets: Seq<Market>, id: Seq<char>) -> bool {
    exists|i: int| 0 <= i < markets.len() && (#[trigger] markets[i].id@) == id
}

/// The market with id `id`; meaningful only when `has_market_in` holds and
/// ids are unique.
pub open spec fn spec_market(markets: Seq<Market>, id: Seq<char>) -> Market {
    markets[choose|i: int| 0 <= i < markets.len() && (#[trigger] markets[i].id@) == id]
}

/// Whether `bets` holds a bet with id `bet_id`.
pub open spec fn has_bet_in(bets: Seq<Bet>, bet_id: int) -> bool {
    exists|i: int| 0 <= i < bets.len() && (#[trigger] bets[i].id) as int == bet_id
}

/// The total stake placed on outcome `outcome` of market `id`, over bets of
/// every status.
pub open spec fn sum_bets_on(bets: Seq<Bet>, id: Seq<char>, outcome: int) -> int
    decreases bets.len(),
{
    if bets.len() == 0 {
        0
    } else {
        sum_bets_on(bets.drop_last(), id, outcome) + if bets.last().market_id@ == id
            && bets.last().outcome_index as int == outcome {
            bets.last().amount as int
        } else {
            0
        }
    }
}

/// The total stake placed on market `id`, over bets of every status.
pub open spec fn sum_amounts_on(bets: Seq<Bet>, id: Seq<char>) -> int
    decreases bets.len(),
{
    if bets.len() == 0 {
        0
    } else {
        sum_amounts_on(bets.drop_last(), id) + if bets.last().market_id@ == id {
            bets.last().amount as int
        } else {
            0
        }
    }
}

/// The total stake of all bets still locked in escrow.
pub open spec fn sum_locked(bets: Seq<Bet>) -> int
    decreases bets.len(),
{
    if bets.len() == 0 {
        0
    } else {
        sum_locked(bets.drop_last()) + if bets.last().status == BetStatus::Locked {
            bets.last().amount as int
        } else {
            0
        }
    }
}

/// The sum of a sequence of pool amounts.
pub open spec fn sum_pools(pools: Seq<i64>) -> int
    decreases pools.len(),
{
    if pools.len() == 0 {
        0
    } else {
        sum_pools(pools.drop_last()) + pools.last()
    }
}

/// The sum of the per-outcome stakes of market `id` over outcomes below
/// `k`.
pub open spec fn sum_bets_outcomes(bets: Seq<Bet>, id: Seq<char>, k: int) -> int
    decreases k,
{
    if k <= 0 {
        0
    } else {
        sum_bets_outcomes(bets, id, k - 1) + sum_bets_on(bets, id, k - 1)
    }
}

/// Content equality of two markets: every observable field agrees.
pub open spec fn market_like(a: Market, b: Market) -> bool {
    &&& a.id@ == b.id@
    &&& a.title@ == b.title@
    &&& a.description@ == b.description@
    &&& a.outcomes@.map_values(|s: String| s@) == b.outcomes@.map_values(|s: String| s@)
    &&& a.category@ == b.category@
    &&& a.resolution_source@ == b.resolution_source@
    &&& a.status == b.status
    &&& a.pools@ == b.pools@
    &&& a.winning_outcome == b.winning_outcome
}

/// Content equality of two bets: every observable field agrees.
pub open spec fn bet_like(a: Bet, b: Bet) -> bool {
    &&& a.id == b.id
    &&& a.account@ == b.account@
    &&& a.market_id@ == b.market_id@
    &&& a.outcome_index == b.outcome_index
    &&& a.amount == b.amount
    &&& a.status == b.status
    &&& a.timestamp == b.timestamp
}

/// Well-formedness of one market on its own: at least two outcomes, one
/// pool per outcome, no negative pool, and a winning outcome exactly when
/// resolved, in range.
pub open spec fn market_wf(m: Market) -> bool {
    &&& m.outcomes@.len() >= 2
    &&& m.pools@.len() == m.outcomes@.len()
    &&& forall|o: int| 0 <= o < m.pools@.len() ==> (#[trigger] m.pools@[o]) >= 0
    &&& (m.status == MarketStatus::Resolved <==> m.winning_outcome is Some)
    &&& m.winning_outcome matches Some(w) ==> (w as int) < m.outcomes@.len()
}

impl MarketManager {
    /// The markets, in creation order.
    pub open spec fn spec_markets(&self) -> Seq<Market> {
        self.markets@
    }

    /// The bets, in placement order.
    pub open spec fn spec_bets(&self) -> Seq<Bet> {
        self.bets@
    }

    /// Well-formedness: market ids are unique and every market is sound;
    /// every bet carries a positive stake, its id is its position in the
    /// placement order (`next_bet_id` is the bet count), it names an
    /// existing market and an outcome in range; every pool equals the stake
    /// bet on its outcome, pool totals stay under the supply cap; and a bet
    /// is locked exactly while its market is unresolved.
    pub open spec fn wf(&self) -> bool {
        &&& forall|i: int, j: int|
            0 <= i < j < self.markets@.len() ==> (#[trigger] self.markets@[i].id@)
                != (#[trigger] self.markets@[j].id@)
        &&& forall|i: int| 0 <= i < self.markets@.len() ==> market_wf(#[trigger] self.markets@[i])
        &&& forall|i: int, o: int|
            0 <= i < self.markets@.len() && 0 <= o < self.markets@[i].pools@.len() ==> (
            #[trigger] self.markets@[i].pools@[o]) == sum_bets_on(
                self.bets@,
                self.markets@[i].id@,
                o,
            )
        &&& forall|i: int|
            0 <= i < self.markets@.len() ==> sum_pools((#[trigger] self.markets@[i]).pools@)
                <= crate::ledger::MAX_SUPPLY
        &&& forall|b: int| 0 <= b < self.bets@.len() ==> (#[trigger] self.bets@[b].amount) > 0
        &&& self.next_bet_id as int == self.bets@.len()
        &&& forall|b: int| 0 <= b < self.bets@.len() ==> (#[trigger] self.bets@[b].id) as int == b
        &&& forall|b: int|
            0 <= b < self.bets@.len() ==> has_market_in(
                self.markets@,
                (#[trigger] self.bets@[b]).market_id@,
            )
        &&& forall|b: int, m: int|
            0 <= b < self.bets@.len() && 0 <= m < self.markets@.len()
                && (#[trigger] self.bets@[b].market_id@) == (#[trigger] self.markets@[m].id@) ==> (
            self.bets@[b].outcome_index as int) < self.markets@[m].outcomes@.len()
        &&& forall|b: int, m: int|
            0 <= b < self.bets@.len() && 0 <= m < self.markets@.len()
                && (#[trigger] self.bets@[b].market_id@) == (#[trigger] self.markets@[m].id@) ==> (
            self.bets@[b].status == BetStatus::Locked <==> self.markets@[m].status
                != MarketStatus::Resolved)
    }
}

// ---------------------------------------------------------------------------
// Lemmas about stake sums.
// ---------------------------------------------------------------------------

/// A market nobody has bet on has zero stake.
pub proof fn lemma_sum_bets_on_absent(bets: Seq<Bet>, id: Seq<char>, outcome: int)
    requires
        forall|b: int| 0 <= b < bets.len() ==> (#[trigger] bets[b].market_id@) != id,
    ensures
        sum_bets_on(bets, id, outcome) == 0,
        sum_amounts_on(bets, id) == 0,
    decreases bets.len(),
{
    if bets.len() > 0 {
        assert(forall|k: int|
            0 <= k < bets.drop_last().len() ==> bets.drop_last()[k] == bets[k]);
        lemma_sum_bets_on_absent(bets.drop_last(), id, outcome);
        assert(bets.last().market_id@ != id);
    }
}

/// Appending a bet adds its stake to exactly the sums it belongs to.
pub proof fn lemma_sums_push(bets: Seq<Bet>, b: Bet, id: Seq<char>, outcome: int)
    ensures
        sum_bets_on(bets.push(b), id, outcome) == sum_bets_on(bets, id, outcome) + if b.market_id@
            == id && b.outcome_index as int == outcome {
            b.amount as int
        } else {
            0
        },
        sum_amounts_on(bets.push(b), id) == sum_amounts_on(bets, id) + if b.market_id@ == id {
            b.amount as int
        } else {
            0
        },
        sum_locked(bets.push(b)) == sum_locked(bets) + if b.status == BetStatus::Locked {
            b.amount as int
        } else {
            0
        },
{
    assert(bets.push(b).drop_last() =~= bets);
}

/// Changing only the status of the bet at `i` leaves every per-market and
/// per-outcome stake sum unchanged, and moves the locked total by the
/// bet's amount exactly when it leaves the `Locked` state.
pub proof fn lemma_sums_status_update(bets: Seq<Bet>, i: int, b2: Bet, id: Seq<char>, outcome: int)
    requires
        0 <= i < bets.len(),
        b2.market_id@ == bets[i].market_id@,
        b2.outcome_index == bets[i].outcome_index,
        b2.amount == bets[i].amount,
    ensures
        sum_bets_on(bets.update(i, b2), id, outcome) == sum_bets_on(bets, id, outcome),
        sum_amounts_on(bets.update(i, b2), id) == sum_amounts_on(bets, id),
        sum_locked(bets.update(i, b2)) == sum_locked(bets) + (if b2.status == BetStatus::Locked {
            b2.amount as int
        } else {
            0
        }) - (if bets[i].status == BetStatus::Locked {
            bets[i].amount as int
        } else {
            0
        }),
    decreases bets.len(),
{
    let updated = bets.update(i, b2);
    if i == bets.len() - 1 {
        assert(updated.drop_last() =~= bets.drop_last());
    } else {
        assert(updated.drop_last() =~= bets.drop_last().update(i, b2));
        assert(updated.last() == bets.last());
        lemma_sums_status_update(bets.drop_last(), i, b2, id, outcome);
    }
}

/// The locked total is not negative when every stake is positive.
pub proof fn lemma_sum_locked_nonneg(bets: Seq<Bet>)
    requires
        forall|b: int| 0 <= b < bets.len() ==> (#[trigger] bets[b].amount) > 0,
    ensures
        sum_locked(bets) >= 0,
    decreases bets.len(),
{
    if bets.len() > 0 {
        assert(forall|k: int|
            0 <= k < bets.drop_last().len() ==> bets.drop_last()[k] == bets[k]);
        lemma_sum_locked_nonneg(bets.drop_last());
    }
}

/// Per-outcome stakes are not negative, and one bet's stake is bounded by
/// its outcome's pool sum.
pub proof fn lemma_sum_bets_on_nonneg(bets: Seq<Bet>, id: Seq<char>, outcome: int)
    requires
        forall|b: int| 0 <= b < bets.len() ==> (#[trigger] bets[b].amount) > 0,
    ensures
        sum_bets_on(bets, id, outcome) >= 0,
        sum_amounts_on(bets, id) >= 0,
    decreases bets.len(),
{
    if bets.len() > 0 {
        assert(forall|k: int|
            0 <= k < bets.drop_last().len() ==> bets.drop_last()[k] == bets[k]);
        lemma_sum_bets_on_nonneg(bets.drop_last(), id, outcome);
    }
}

/// A per-outcome stake sum never exceeds its market's total stake.
pub proof fn lemma_sum_on_le_amounts(bets: Seq<Bet>, id: Seq<char>, outcome: int)
    requires
        forall|b: int| 0 <= b < bets.len() ==> (#[trigger] bets[b].amount) > 0,
    ensures
        sum_bets_on(bets, id, outcome) <= sum_amounts_on(bets, id),
    decreases bets.len(),
{
    if bets.len() > 0 {
        assert(forall|k: int|
            0 <= k < bets.drop_last().len() ==> bets.drop_last()[k] == bets[k]);
        lemma_sum_on_le_amounts(bets.drop_last(), id, outcome);
    }
}

/// While every bet on a market is still locked, the market's total stake
/// is bounded by the locked total over all bets.
pub proof fn lemma_amounts_le_locked(bets: Seq<Bet>, id: Seq<char>)
    requires
        forall|b: int| 0 <= b < bets.len() ==> (#[trigger] bets[b].amount) > 0,
        forall|b: int|
            0 <= b < bets.len() && (#[trigger] bets[b].market_id@) == id ==> bets[b].status
                == BetStatus::Locked,
    ensures
        sum_amounts_on(bets, id) <= sum_locked(bets),
    decreases bets.len(),
{
    if bets.len() > 0 {
        assert(forall|k: int|
            0 <= k < bets.drop_last().len() ==> bets.drop_last()[k] == bets[k]);
        lemma_amounts_le_locked(bets.drop_last(), id);
    }
}

/// The bets of one market, in placement order.
pub open spec fn market_bets(bets: Seq<Bet>, id: Seq<char>) -> Seq<Bet> {
    bets.filter(|b: Bet| b.market_id@ == id)
}

/// Restricting to the bets of one market changes none of that market's
/// stake sums.
pub proof fn lemma_filter_sums(bets: Seq<Bet>, id: Seq<char>, outcome: int)
    ensures
        sum_bets_on(market_bets(bets, id), id, outcome) == sum_bets_on(bets, id, outcome),
        sum_amounts_on(market_bets(bets, id), id) == sum_amounts_on(bets, id),
    decreases bets.len(),
{
    reveal_with_fuel(Seq::filter, 2);
    if bets.len() > 0 {
        lemma_filter_sums(bets.drop_last(), id, outcome);
        if bets.last().market_id@ == id {
            assert(market_bets(bets, id) == market_bets(bets.drop_last(), id).push(bets.last()));
            assert(market_bets(bets, id).drop_last() =~= market_bets(bets.drop_last(), id));
            assert(market_bets(bets, id).last() == bets.last());
        } else {
            assert(market_bets(bets, id) == market_bets(bets.drop_last(), id));
        }
    } else {
        assert(market_bets(bets, id) =~= bets);
    }
}

/// One bet's stake never exceeds its market's total stake.
pub proof fn lemma_bet_le_amounts(bets: Seq<Bet>, i: int)
    requires
        0 <= i < bets.len(),
        forall|b: int| 0 <= b < bets.len() ==> (#[trigger] bets[b].amount) > 0,
    ensures
        bets[i].amount as int <= sum_amounts_on(bets, bets[i].market_id@),
    decreases bets.len(),
{
    assert(forall|k: int|
        0 <= k < bets.drop_last().len() ==> bets.drop_last()[k] == bets[k]);
    let id = bets[i].market_id@;
    if i == bets.len() - 1 {
        lemma_sum_bets_on_nonneg(bets.drop_last(), id, 0);
    } else {
        lemma_bet_le_amounts(bets.drop_last(), i);
    }
}

/// One bet's stake never exceeds the stake sum of its market and outcome.
pub proof fn lemma_bet_le_sum(bets: Seq<Bet>, i: int)
    requires
        0 <= i < bets.len(),
        forall|b: int| 0 <= b < bets.len() ==> (#[trigger] bets[b].amount) > 0,
    ensures
        bets[i].amount as int <= sum_bets_on(bets, bets[i].market_id@, bets[i].outcome_index as int),
    decreases bets.len(),
{
    assert(forall|k: int|
        0 <= k < bets.drop_last().len() ==> bets.drop_last()[k] == bets[k]);
    let id = bets[i].market_id@;
    let o = bets[i].outcome_index as int;
    if i == bets.len() - 1 {
        lemma_sum_bets_on_nonneg(bets.drop_last(), id, o);
    } else {
        lemma_bet_le_sum(bets.drop_last(), i);
    }
}

/// Summing the per-outcome stakes over all outcomes of a market gives its
/// total stake, provided every bet on the market names an outcome below
/// `k`.
pub proof fn lemma_outcome_partition(bets: Seq<Bet>, id: Seq<char>, k: int)
    requires
        k >= 0,
        forall|b: int|
            0 <= b < bets.len() && (#[trigger] bets[b].market_id@) == id ==> (
            bets[b].outcome_index as int) < k,
    ensures
        sum_bets_outcomes(bets, id, k) == sum_amounts_on(bets, id),
    decreases bets.len(),
{
    if bets.len() == 0 {
        lemma_sum_bets_outcomes_empty(bets, id, k);
    } else {
        assert(forall|j: int|
            0 <= j < bets.drop_last().len() ==> bets.drop_last()[j] == bets[j]);
        lemma_outcome_partition(bets.drop_last(), id, k);
        lemma_sum_bets_outcomes_drop(bets, id, k);
    }
}

/// Over an empty bet sequence every partial outcome sum is zero.
proof fn lemma_sum_bets_outcomes_empty(bets: Seq<Bet>, id: Seq<char>, k: int)
    requires
        bets.len() == 0,
        k >= 0,
    ensures
        sum_bets_outcomes(bets, id, k) == 0,
    decreases k,
{
    if k > 0 {
        lemma_sum_bets_outcomes_empty(bets, id, k - 1);
    }
}

/// Dropping the last bet removes its stake from the summed outcome sums
/// exactly when its market matches and its outcome lies below `k`.
proof fn lemma_sum_bets_outcomes_drop(bets: Seq<Bet>, id: Seq<char>, k: int)
    requires
        bets.len() > 0,
        k >= 0,
    ensures
        sum_bets_outcomes(bets, id, k) == sum_bets_outcomes(bets.drop_last(), id, k) + if bets.last().market_id@
            == id && (bets.last().outcome_index as int) < k {
            bets.last().amount as int
        } else {
            0
        },
    decreases k,
{
    if k > 0 {
        lemma_sum_bets_outcomes_drop(bets, id, k - 1);
    }
}

/// When each pool equals its outcome's stake sum, the pool total equals the
/// market's total stake.
pub proof fn lemma_pools_total(pools: Seq<i64>, bets: Seq<Bet>, id: Seq<char>)
    requires
        forall|o: int| 0 <= o < pools.len() ==> (#[trigger] pools[o]) as int == sum_bets_on(
            bets,
            id,
            o,
        ),
        forall|b: int|
            0 <= b < bets.len() && (#[trigger] bets[b].market_id@) == id ==> (
            bets[b].outcome_index as int) < pools.len(),
    ensures
        sum_pools(pools) == sum_amounts_on(bets, id),
{
    lemma_sum_pools_eq_outcomes(pools, bets, id, pools.len() as int);
    lemma_outcome_partition(bets, id, pools.len() as int);
    assert(pools.take(pools.len() as int) =~= pools);
}

/// The sum of the first `k` pools equals the sum of the first `k` outcome
/// stake sums.
proof fn lemma_sum_pools_eq_outcomes(pools: Seq<i64>, bets: Seq<Bet>, id: Seq<char>, k: int)
    requires
        0 <= k <= pools.len(),
        forall|o: int| 0 <= o < pools.len() ==> (#[trigger] pools[o]) as int == sum_bets_on(
            bets,
            id,
            o,
        ),
    ensures
        sum_pools(pools.take(k)) == sum_bets_outcomes(bets, id, k),
    decreases k,
{
    if k > 0 {
        assert(pools.take(k).drop_last() =~= pools.take(k - 1));
        assert(pools.take(k).last() == pools[k - 1]);
        lemma_sum_pools_eq_outcomes(pools, bets, id, k - 1);
    }
}

/// A pool total over non-negative pools bounds each pool, and is itself
/// non-negative.
pub proof fn lemma_pool_le_sum(pools: Seq<i64>, i: int)
    requires
        0 <= i < pools.len(),
        forall|o: int| 0 <= o < pools.len() ==> (#[trigger] pools[o]) >= 0,
    ensures
        pools[i] <= sum_pools(pools),
        sum_pools(pools) >= 0,
    decreases pools.len(),
{
    assert(forall|k: int|
        0 <= k < pools.drop_last().len() ==> pools.drop_last()[k] == pools[k]);
    if pools.len() == 1 {
        assert(sum_pools(pools.drop_last()) == 0);
    } else if i == pools.len() - 1 {
        lemma_pool_le_sum(pools.drop_last(), 0);
    } else {
        lemma_pool_le_sum(pools.drop_last(), i);
    }
}

/// Replacing one pool changes the pool total by the difference.
pub proof fn lemma_sum_pools_update(pools: Seq<i64>, i: int, v: i64)
    requires
        0 <= i < pools.len(),
    ensures
        sum_pools(pools.update(i, v)) == sum_pools(pools) - pools[i] + v,
    decreases pools.len(),
{
    let updated = pools.update(i, v);
    if i == pools.len() - 1 {
        assert(updated.drop_last() =~= pools.drop_last());
    } else {
        assert(updated.drop_last() =~= pools.drop_last().update(i, v));
        assert(updated.last() == pools.last());
        lemma_sum_pools_update(pools.drop_last(), i, v);
    }
}

// ---------------------------------------------------------------------------
// Clone impls for read-side copies.
// ---------------------------------------------------------------------------

impl Clone for Market {
    fn clone(&self) -> (r: Self)
        ensures
            market_like(r, *self),
    {
        let r = Market {
            id: self.id.clone(),
            title: self.title.clone(),
            description: self.description.clone(),
            outcomes: self.outcomes.clone(),
            category: self.category.clone(),
            resolution_source: self.resolution_source.clone(),
            status: self.status,
            pools: self.pools.clone(),
            winning_outcome: self.winning_outcome,
        };
        proof {
            assert(r.outcomes@ =~= self.outcomes@);
            assert(r.pools@ =~= self.pools@);
            assert(r.outcomes@.map_values(|s: String| s@) =~= self.outcomes@.map_values(
                |s: String| s@,
            ));
        }
        r
    }
}

impl Clone for Bet {
    fn clone(&self) -> (r: Self)
        ensures
            r == *self,
    {
        Bet {
            id: self.id,
            account: self.account.clone(),
            market_id: self.market_id.clone(),
            outcome_index: self.outcome_index,
            amount: self.amount,
            status: self.status,
            timestamp: self.timestamp,
        }
    }
}

// ---------------------------------------------------------------------------
// Operations.
// ---------------------------------------------------------------------------

impl MarketManager {
    /// A fresh manager with no markets and no bets.
    pub fn new() -> (r: MarketManager)
        ensures
            r.wf(),
            r.spec_markets().len() == 0,
            r.spec_bets().len() == 0,
            r.next_bet_id == 0,
    {
        MarketManager { markets: Vec::new(), bets: Vec::new(), next_bet_id: 0 }
    }

    /// The index of the market with id `id`, if any.
    pub(crate) fn find_market(&self, id: &str) -> (r: Option<usize>)
        ensures
            match r {
                Some(i) => i < self.markets@.len() && self.markets@[i as int].id@ == id@,
                None => !has_market_in(self.markets@, id@),
            },
    {
        let n: usize = self.markets.len();
        let mut i: usize = 0;
        while i < n
            invariant
                n == self.markets@.len(),
                i <= n,
                forall|j: int| 0 <= j < i ==> (#[trigger] self.markets@[j].id@) != id@,
            decreases n - i,
        {
            if crate::ledger::str_eq(self.markets[i].id.as_str(), id) {
                return Some(i);
            }
            i = i + 1;
        }
        None
    }

    /// Creates a market with the given metadata and outcome labels, all
    /// pools at zero and status `Open`.  Fails `DuplicateMarketId` when the
    /// id is taken; no effect on failure.
    pub fn create_market(
        &mut self,
        id: String,
        title: String,
        description: String,
        outcomes: Vec<String>,
        category: String,
        resolution_source: String,
    ) -> (r: Result<(), LedgerError>)
        requires
            old(self).wf(),
            outcomes@.len() >= 2,
        ensures
            final(self).wf(),
            has_market_in(old(self).spec_markets(), id@) ==> r == Err::<(), LedgerError>(
                LedgerError::DuplicateMarketId,
            ) && *final(self) == *old(self),
            !has_market_in(old(self).spec_markets(), id@) ==> {
                &&& r == Ok::<(), LedgerError>(())
                &&& final(self).spec_markets().len() == old(self).spec_markets().len() + 1
                &&& final(self).spec_markets().drop_last() == old(self).spec_markets()
                &&& final(self).spec_markets().last().id@ == id@
                &&& final(self).spec_markets().last().title@ == title@
                &&& final(self).spec_markets().last().description@ == description@
                &&& final(self).spec_markets().last().outcomes@ == outcomes@
                &&& final(self).spec_markets().last().status == MarketStatus::Open
                &&& final(self).spec_markets().last().winning_outcome is None
                &&& final(self).spec_markets().last().pools@.len() == outcomes@.len()
                &&& forall|o: int|
                    0 <= o < outcomes@.len() ==> (#[trigger] final(self).spec_markets().last().pools@[o]) == 0
                &&& final(self).spec_bets() == old(self).spec_bets()
                &&& final(self).next_bet_id == old(self).next_bet_id
            },
    {
        if self.find_market(id.as_str()).is_some() {
            return Err(LedgerError::DuplicateMarketId);
        }
        let n: usize = outcomes.len();
        let pools: Vec<i64> = vec![0i64; n];
        let market = Market {
            id,
            title,
            description,
            outcomes,
            category,
            resolution_source,
            status: MarketStatus::Open,
            pools,
            winning_outcome: None,
        };
        proof {
            assert forall|o: int| 0 <= o < market.pools@.len() implies (#[trigger] market.pools@[o])
                as int == sum_bets_on(self.bets@, market.id@, o) by {
            assert forall|b: int|
                0 <= b < self.bets@.len() implies (#[trigger] self.bets@[b].market_id@)
                    != market.id@ by {
                if self.bets@[b].market_id@ == market.id@ {
                    assert(has_market_in(self.markets@, self.bets@[b].market_id@));
                }
            }
                lemma_sum_bets_on_absent(self.bets@, market.id@, o);
            }
            lemma_sum_bets_on_absent(self.bets@, market.id@, 0);
            lemma_pools_total(market.pools@, self.bets@, market.id@);
        }
        self.markets.push(market);
        proof {
            assert(self.markets@.drop_last() =~= old(self).markets@);
            assert forall|b: int| 0 <= b < self.bets@.len() implies has_market_in(
                self.markets@,
                (#[trigger] self.bets@[b]).market_id@,
            ) by {
                assert(has_market_in(old(self).markets@, self.bets@[b].market_id@));
                let w = choose|i: int|
                    0 <= i < old(self).markets@.len() && (#[trigger] old(self).markets@[i].id@)
                        == self.bets@[b].market_id@;
                assert(self.markets@[w].id@ == self.bets@[b].market_id@);
            }
        }
        Ok(())
    }

    /// Closes an open market: it stops accepting bets but is not yet
    /// resolved.  Fails `UnknownMarket` for an unknown id and
    /// `MarketNotOpen` when the market is already closed or resolved; no
    /// effect on failure.
    pub fn close_market(&mut self, id: &str) -> (r: Result<(), LedgerError>)
        requires
            old(self).wf(),
        ensures
            final(self).wf(),
            !has_market_in(old(self).spec_markets(), id@) ==> r == Err::<(), LedgerError>(
                LedgerError::UnknownMarket,
            ) && *final(self) == *old(self),
            has_market_in(old(self).spec_markets(), id@) && spec_market(
                old(self).spec_markets(),
                id@,
            ).status != MarketStatus::Open ==> r == Err::<(), LedgerError>(
                LedgerError::MarketNotOpen,
            ) && *final(self) == *old(self),
            has_market_in(old(self).spec_markets(), id@) && spec_market(
                old(self).spec_markets(),
                id@,
            ).status == MarketStatus::Open ==> {
                &&& r == Ok::<(), LedgerError>(())
                &&& final(self).spec_markets().len() == old(self).spec_markets().len()
                &&& spec_market(final(self).spec_markets(), id@).status == MarketStatus::Closed
                &&& forall|i: int|
                    0 <= i < old(self).spec_markets().len() && (#[trigger] old(self).spec_markets()[i].id@) != id@ ==> final(self).spec_markets()[i] == old(self).spec_markets()[i]
                &&& final(self).spec_bets() == old(self).spec_bets()
                &&& final(self).next_bet_id == old(self).next_bet_id
            },
    {
        let i: usize = match self.find_market(id) {
            Some(i) => i,
            None => {
                return Err(LedgerError::UnknownMarket);
            },
        };
        proof {
            let w = choose|k: int|
                0 <= k < self.markets@.len() && (#[trigger] self.markets@[k].id@) == id@;
            assert(w == i as int) by {
                if w < i as int {
                    assert(self.markets@[w].id@ != self.markets@[i as int].id@);
                } else if (i as int) < w {
                    assert(self.markets@[i as int].id@ != self.markets@[w].id@);
                }
            }
        }
        match self.markets[i].status {
            MarketStatus::Open => {},
            _ => {
                return Err(LedgerError::MarketNotOpen);
            },
        }
        self.markets[i].status = MarketStatus::Closed;
        proof {
            let updated = self.markets@;
            let orig = old(self).markets@;
            assert(updated =~= orig.update(
                i as int,
                Market { status: MarketStatus::Closed, ..orig[i as int] },
            ));
            assert forall|m: int, o: int|
                0 <= m < updated.len() && 0 <= o < updated[m].pools@.len() implies (
            #[trigger] updated[m].pools@[o]) == sum_bets_on(self.bets@, updated[m].id@, o) by {
                assert(updated[m].pools@ == orig[m].pools@);
                assert(updated[m].id@ == orig[m].id@);
                assert(orig[m].pools@[o] == sum_bets_on(self.bets@, orig[m].id@, o));
            }
            assert forall|b: int| 0 <= b < self.bets@.len() implies has_market_in(
                updated,
                (#[trigger] self.bets@[b]).market_id@,
            ) by {
                let w = choose|k: int|
                    0 <= k < orig.len() && (#[trigger] orig[k].id@) == self.bets@[b].market_id@;
                assert(updated[w].id@ == self.bets@[b].market_id@);
            }
            let wfin = choose|k: int|
                0 <= k < updated.len() && (#[trigger] updated[k].id@) == id@;
            assert(wfin == i as int) by {
                if wfin < i as int {
                    assert(updated[wfin].id@ != updated[i as int].id@);
                } else if (i as int) < wfin {
                    assert(updated[i as int].id@ != updated[wfin].id@);
                }
            }
        }
        Ok(())
    }

    /// Copies of all markets whose status is `Open`, in creation order.
    pub fn get_open_markets(&self) -> (r: Vec<Market>)
        ensures
            r@.len() == self.spec_markets().filter(
                |m: Market| m.status == MarketStatus::Open,
            ).len(),
            forall|k: int|
                0 <= k < r@.len() ==> market_like(
                    #[trigger] r@[k],
                    self.spec_markets().filter(|m: Market| m.status == MarketStatus::Open)[k],
                ),
    {
        let p = |m: Market| m.status == MarketStatus::Open;
        let mut r: Vec<Market> = Vec::new();
        let n: usize = self.markets.len();
        let mut i: usize = 0;
        proof {
            assert(self.markets@.take(0).filter(|m: Market| m.status == MarketStatus::Open)
                =~= Seq::<Market>::empty());
        }
        while i < n
            invariant
                n == self.markets@.len(),
                i <= n,
                r@.len() == self.markets@.take(i as int).filter(
                    |m: Market| m.status == MarketStatus::Open,
                ).len(),
                forall|k: int|
                    0 <= k < r@.len() ==> market_like(
                        #[trigger] r@[k],
                        self.markets@.take(i as int).filter(
                            |m: Market| m.status == MarketStatus::Open,
                        )[k],
                    ),
            decreases n - i,
        {
            let is_open: bool = match self.markets[i].status {
                MarketStatus::Open => true,
                _ => false,
            };
            if is_open {
                r.push(self.markets[i].clone());
            }
            proof {
                let pp = |m: Market| m.status == MarketStatus::Open;
                assert(self.markets@.take(i + 1).drop_last() =~= self.markets@.take(i as int));
                assert(self.markets@.take(i + 1).last() == self.markets@[i as int]);
                reveal_with_fuel(Seq::filter, 2);
                assert(self.markets@.take(i + 1).filter(pp) == if pp(self.markets@[i as int]) {
                    self.markets@.take(i as int).filter(pp).push(self.markets@[i as int])
                } else {
                    self.markets@.take(i as int).filter(pp)
                });
            }
            i = i + 1;
        }
        proof {
            assert(self.markets@.take(n as int) =~= self.markets@);
        }
        r
    }

    /// Copies of all markets, whatever their status, in creation order.
    pub fn get_all_markets(&self) -> (r: Vec<Market>)
        ensures
            r@.len() == self.spec_markets().len(),
            forall|k: int|
                0 <= k < r@.len() ==> market_like(#[trigger] r@[k], self.spec_markets()[k]),
    {
        let mut r: Vec<Market> = Vec::new();
        let n: usize = self.markets.len();
        let mut i: usize = 0;
        while i < n
            invariant
                n == self.markets@.len(),
                i <= n,
                r@.len() == i,
                forall|k: int|
                    0 <= k < r@.len() ==> market_like(#[trigger] r@[k], self.markets@[k]),
            decreases n - i,
        {
            r.push(self.markets[i].clone());
            i = i + 1;
        }
        r
    }

    /// Copies of all bets placed by `account`, in placement order.
    pub fn get_account_bets(&self, account: &str) -> (r: Vec<Bet>)
        ensures
            r@ == self.spec_bets().filter(|b: Bet| b.account@ == account@),
    {
        let mut r: Vec<Bet> = Vec::new();
        let n: usize = self.bets.len();
        let mut i: usize = 0;
        proof {
            assert(self.bets@.take(0).filter(|b: Bet| b.account@ == account@) =~= Seq::<
                Bet,
            >::empty());
        }
        while i < n
            invariant
                n == self.bets@.len(),
                i <= n,
                r@ == self.bets@.take(i as int).filter(|b: Bet| b.account@ == account@),
            decreases n - i,
        {
            if crate::ledger::str_eq(self.bets[i].account.as_str(), account) {
                r.push(self.bets[i].clone());
            }
            proof {
                let pp = |b: Bet| b.account@ == account@;
                assert(self.bets@.take(i + 1).drop_last() =~= self.bets@.take(i as int));
                assert(self.bets@.take(i + 1).last() == self.bets@[i as int]);
                reveal_with_fuel(Seq::filter, 2);
                assert(self.bets@.take(i + 1).filter(pp) == if pp(self.bets@[i as int]) {
                    self.bets@.take(i as int).filter(pp).push(self.bets@[i as int])
                } else {
                    self.bets@.take(i as int).filter(pp)
                });
            }
            i = i + 1;
        }
        proof {
            assert(self.bets@.take(n as int) =~= self.bets@);
        }
        r
    }

    /// Per-market statistics: the pools, the implied price of each outcome
    /// in parts per million of the total pool (zero when nothing is pooled),
    /// the total volume and whether the market is resolved.  Fails
    /// `UnknownMarket` for an unknown id.
    pub fn get_market_stats(&self, id: &str) -> (r: Result<MarketStats, LedgerError>)
        requires
            self.wf(),
        ensures
            !has_market_in(self.spec_markets(), id@) ==> r == Err::<MarketStats, LedgerError>(
                LedgerError::UnknownMarket,
            ),
            has_market_in(self.spec_markets(), id@) ==> (r is Ok) && {
                let m = spec_market(self.spec_markets(), id@);
                let s = r->Ok_0;
                &&& s.market_id@ == id@
                &&& s.pools@ == m.pools@
                &&& s.total_volume as int == sum_pools(m.pools@)
                &&& s.resolved == (m.status == MarketStatus::Resolved)
                &&& s.prices_ppm@.len() == m.pools@.len()
                &&& forall|o: int|
                    0 <= o < m.pools@.len() ==> (#[trigger] s.prices_ppm@[o]) as int == if sum_pools(
                        m.pools@,
                    ) > 0 {
                        m.pools@[o] * PRICE_SCALE / sum_pools(m.pools@)
                    } else {
                        0
                    }
            },
    {
        let i: usize = match self.find_market(id) {
            Some(i) => i,
            None => {
                return Err(LedgerError::UnknownMarket);
            },
        };
        proof {
            let w = choose|k: int|
                0 <= k < self.markets@.len() && (#[trigger] self.markets@[k].id@) == id@;
            assert(w == i as int) by {
                if w < i as int {
                    assert(self.markets@[w].id@ != self.markets@[i as int].id@);
                } else if (i as int) < w {
                    assert(self.markets@[i as int].id@ != self.markets@[w].id@);
                }
            }
        }
        let m = &self.markets[i];
        let np: usize = m.pools.len();
        // Total volume: pools are non-negative and each is bounded by the
        // running total, which stays within i64 because every pool sum is a
        // stake sum.
        let mut total: i64 = 0;
        let mut o: usize = 0;
        proof {
            assert(market_wf(self.markets@[i as int]));
            assert(sum_pools(self.markets@[i as int].pools@) <= crate::ledger::MAX_SUPPLY);
            lemma_take_sum_le(m.pools@, 0);
        }
        while o < np
            invariant
                np == m.pools@.len(),
                o <= np,
                m == &self.markets@[i as int],
                i < self.markets@.len(),
                self.wf(),
                total as int == sum_pools(m.pools@.take(o as int)),
                total >= 0,
                total as int <= sum_pools(m.pools@),
            decreases np - o,
        {
            proof {
                assert(market_wf(self.markets@[i as int]));
                assert(m.pools@.take(o + 1).drop_last() =~= m.pools@.take(o as int));
                assert(m.pools@.take(o + 1).last() == m.pools@[o as int]);
                lemma_take_sum_le(m.pools@, o + 1);
                assert(sum_pools(self.markets@[i as int].pools@) <= crate::ledger::MAX_SUPPLY);
            }
            total = total + m.pools[o];
            o = o + 1;
        }
        proof {
            assert(m.pools@.take(np as int) =~= m.pools@);
        }
        let mut prices: Vec<i64> = Vec::new();
        let mut o2: usize = 0;
        while o2 < np
            invariant
                np == m.pools@.len(),
                o2 <= np,
                m == &self.markets@[i as int],
                i < self.markets@.len(),
                self.wf(),
                total as int == sum_pools(m.pools@),
                total >= 0,
                prices@.len() == o2,
                forall|k: int|
                    0 <= k < o2 ==> (#[trigger] prices@[k]) as int == if sum_pools(m.pools@) > 0 {
                        m.pools@[k] * PRICE_SCALE / sum_pools(m.pools@)
                    } else {
                        0
                    },
            decreases np - o2,
        {
            if total > 0 {
                let pool: i64 = m.pools[o2];
                proof {
                    lemma_pool_le_sum(m.pools@, o2 as int);
                    vstd::arithmetic::mul::lemma_mul_inequality(
                        pool as int,
                        total as int,
                        PRICE_SCALE as int,
                    );
                    vstd::arithmetic::div_mod::lemma_div_is_ordered(
                        pool as int * PRICE_SCALE as int,
                        total as int * PRICE_SCALE as int,
                        total as int,
                    );
                    vstd::arithmetic::div_mod::lemma_div_by_multiple(
                        PRICE_SCALE as int,
                        total as int,
                    );
                    vstd::arithmetic::mul::lemma_mul_is_commutative(
                        total as int,
                        PRICE_SCALE as int,
                    );
                    vstd::arithmetic::div_mod::lemma_div_pos_is_pos(
                        pool as int * PRICE_SCALE as int,
                        total as int,
                    );
                    vstd::arithmetic::mul::lemma_mul_nonnegative(pool as int, PRICE_SCALE as int);
                }
                let wide: i128 = (pool as i128) * (PRICE_SCALE as i128);
                let price: i64 = (wide / (total as i128)) as i64;
                prices.push(price);
            } else {
                prices.push(0);
            }
            o2 = o2 + 1;
        }
        Ok(
            MarketStats {
                market_id: id.to_owned(),
                pools: {
                    let p = m.pools.clone();
                    proof {
                        assert(p@ =~= m.pools@);
                    }
                    p
                },
                prices_ppm: prices,
                total_volume: total,
                resolved: match m.status {
                    MarketStatus::Resolved => true,
                    _ => false,
                },
            },
        )
    }
}

/// A prefix sum of non-negative pools is non-negative.
pub proof fn lemma_take_sum_nonneg(pools: Seq<i64>, k: int)
    requires
        0 <= k <= pools.len(),
        forall|o: int| 0 <= o < pools.len() ==> (#[trigger] pools[o]) >= 0,
    ensures
        sum_pools(pools.take(k)) >= 0,
    decreases k,
{
    if k > 0 {
        assert(pools.take(k).drop_last() =~= pools.take(k - 1));
        assert(pools.take(k).last() == pools[k - 1]);
        lemma_take_sum_nonneg(pools, k - 1);
    }
}

/// A prefix sum of non-negative pools is bounded by the full sum.
pub proof fn lemma_take_sum_le(pools: Seq<i64>, k: int)
    requires
        0 <= k <= pools.len(),
        forall|o: int| 0 <= o < pools.len() ==> (#[trigger] pools[o]) >= 0,
    ensures
        sum_pools(pools.take(k)) <= sum_pools(pools),
        sum_pools(pools.take(k)) >= 0,
    decreases pools.len() - k,
{
    lemma_take_sum_nonneg(pools, k);
    if k == pools.len() {
        assert(pools.take(k) =~= pools);
    } else {
        assert(pools.take(k + 1).drop_last() =~= pools.take(k));
        assert(pools.take(k + 1).last() == pools[k]);
        lemma_take_sum_le(pools, k + 1);
    }
}

} // verus!
