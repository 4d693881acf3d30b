//! The settlement engine: ledger, escrow and market manager composed into
//! one state, with the cross-component operations `place_bet` and
//! `resolve`.
//!
//! The engine's well-formedness ties the three components together: every
//! escrowed account is registered, escrowed funds equal the stakes of the
//! locked bets, a bet is locked exactly while its escrow entry is active
//! and matches it field for field, and balances plus escrow never exceed
//! the recorded supply.  Every operation preserves all of it.

use vstd::prelude::*;

use crate::errors::LedgerError;
use crate::escrow::{
    entries_registered, has_entry, spec_entry, sum_escrow, Escrow,
};
use crate::ledger::{sum_balances, Ledger, LedgerStats, Transaction, TxKind, MAX_SUPPLY};
use crate::markets::{
    has_bet_in, has_market_in, market_bets, market_wf, spec_market, sum_amounts_on, sum_bets_on,
    sum_locked, sum_pools, Bet, BetStatus, CreateMarketRequest, Market, MarketManager, MarketStats,
    MarketStatus, ResolveMarketRequest,
};

verus! {

/// The pari-mutuel payout owed to one bet when outcome `winning` wins with
/// pool `wpool` out of a total pool `total`: a winning bet of size `b`
/// receives `b * total / wpool` (the losing pools are split among the
/// winners in proportion to their stakes); when nobody backed the winning
/// outcome every stake is refunded; a losing bet receives nothing.
pub open spec fn payout_of(b: Bet, winning: int, total: int, wpool: int) -> int {
    if wpool == 0 {
        b.amount as int
    } else if b.outcome_index as int == winning {
        b.amount * total / wpool
    } else {
        0
    }
}

/// The payouts of a sequence of bets, summed.
pub open spec fn sum_payouts(bets: Seq<Bet>, winning: int, total: int, wpool: int) -> int
    decreases bets.len(),
{
    if bets.len() == 0 {
        0
    } else {
        sum_payouts(bets.drop_last(), winning, total, wpool) + payout_of(
            bets.last(),
            winning,
            total,
            wpool,
        )
    }
}

/// The payouts owed to one account over a sequence of bets, summed.
pub open spec fn payouts_to(
    bets: Seq<Bet>,
    account: Seq<char>,
    winning: int,
    total: int,
    wpool: int,
) -> int
    decreases bets.len(),
{
    if bets.len() == 0 {
        0
    } else {
        payouts_to(bets.drop_last(), account, winning, total, wpool) + if bets.last().account@
            == account {
            payout_of(bets.last(), winning, total, wpool)
        } else {
            0
        }
    }
}

/// The amounts of a payout list, summed.
pub open spec fn sum_pairs(ps: Seq<(String, i64)>) -> int
    decreases ps.len(),
{
    if ps.len() == 0 {
        0
    } else {
        sum_pairs(ps.drop_last()) + ps.last().1
    }
}

/// Integer division is superadditive over non-negative numerators: the
/// floors of two shares never exceed the floor of their sum.
proof fn lemma_div_superadd(x: int, y: int, d: int)
    requires
        d > 0,
        x >= 0,
        y >= 0,
    ensures
        x / d + y / d <= (x + y) / d,
{
    let q1 = x / d;
    let q2 = y / d;
    vstd::arithmetic::div_mod::lemma_fundamental_div_mod(x, d);
    vstd::arithmetic::div_mod::lemma_fundamental_div_mod(y, d);
    vstd::arithmetic::div_mod::lemma_mod_bound(x, d);
    vstd::arithmetic::div_mod::lemma_mod_bound(y, d);
    assert(x + y >= d * (q1 + q2)) by {
        vstd::arithmetic::mul::lemma_mul_is_distributive_add(d, q1, q2);
    }
    vstd::arithmetic::div_mod::lemma_div_is_ordered(d * (q1 + q2), x + y, d);
    assert(d * (q1 + q2) / d == q1 + q2) by {
        vstd::arithmetic::mul::lemma_mul_is_commutative(d, q1 + q2);
        vstd::arithmetic::div_mod::lemma_div_by_multiple(q1 + q2, d);
    }
}

/// With a non-empty winning pool, the summed payouts of a market's bets
/// are bounded by `(stake on the winner) * total / wpool` — in particular
/// by `total` itself once the stake equals the pool.
proof fn lemma_sum_payouts_le(bets: Seq<Bet>, id: Seq<char>, winning: int, total: int, wpool: int)
    requires
        wpool > 0,
        total >= 0,
        forall|b: int| 0 <= b < bets.len() ==> (#[trigger] bets[b].amount) > 0,
        forall|b: int| 0 <= b < bets.len() ==> (#[trigger] bets[b].market_id@) == id,
    ensures
        0 <= sum_payouts(bets, winning, total, wpool),
        sum_payouts(bets, winning, total, wpool) <= sum_bets_on(bets, id, winning) * total / wpool,
    decreases bets.len(),
{
    if bets.len() == 0 {
        assert(sum_bets_on(bets, id, winning) * total / wpool == 0) by {
            vstd::arithmetic::mul::lemma_mul_by_zero_is_zero(total);
            vstd::arithmetic::div_mod::lemma_div_of0(wpool);
        }
    } else {
        assert(forall|k: int|
            0 <= k < bets.drop_last().len() ==> bets.drop_last()[k] == bets[k]);
        lemma_sum_payouts_le(bets.drop_last(), id, winning, total, wpool);
        let rest = sum_bets_on(bets.drop_last(), id, winning);
        let b = bets.last();
        crate::markets::lemma_sum_bets_on_nonneg(bets.drop_last(), id, winning);
        if b.outcome_index as int == winning {
            assert(sum_bets_on(bets, id, winning) == rest + b.amount);
            vstd::arithmetic::mul::lemma_mul_nonnegative(rest, total);
            vstd::arithmetic::mul::lemma_mul_nonnegative(b.amount as int, total);
            lemma_div_superadd(rest * total, b.amount * total, wpool);
            assert((rest + b.amount) * total == rest * total + b.amount * total) by {
                vstd::arithmetic::mul::lemma_mul_is_distributive_add_other_way(
                    total,
                    rest,
                    b.amount as int,
                );
            }
            vstd::arithmetic::div_mod::lemma_div_pos_is_pos(b.amount * total, wpool);
        } else {
            assert(sum_bets_on(bets, id, winning) == rest);
        }
    }
}

/// With an empty winning pool every stake is refunded: the payouts sum to
/// the market's total stake.
proof fn lemma_sum_payouts_refund(bets: Seq<Bet>, id: Seq<char>, winning: int, total: int)
    requires
        forall|b: int| 0 <= b < bets.len() ==> (#[trigger] bets[b].market_id@) == id,
    ensures
        sum_payouts(bets, winning, total, 0) == sum_amounts_on(bets, id),
    decreases bets.len(),
{
    if bets.len() > 0 {
        assert(forall|k: int|
            0 <= k < bets.drop_last().len() ==> bets.drop_last()[k] == bets[k]);
        lemma_sum_payouts_refund(bets.drop_last(), id, winning, total);
    }
}

/// A payout list that matches a bet sequence pointwise has the same sum as
/// the bets' payouts.
proof fn lemma_pairs_eq(
    ps: Seq<(String, i64)>,
    bets: Seq<Bet>,
    winning: int,
    total: int,
    wpool: int,
)
    requires
        ps.len() == bets.len(),
        forall|k: int|
            0 <= k < ps.len() ==> (#[trigger] ps[k].1) as int == payout_of(
                bets[k],
                winning,
                total,
                wpool,
            ),
    ensures
        sum_pairs(ps) == sum_payouts(bets, winning, total, wpool),
    decreases ps.len(),
{
    if ps.len() > 0 {
        assert(forall|k: int| 0 <= k < ps.drop_last().len() ==> ps.drop_last()[k] == ps[k]);
        assert(forall|k: int|
            0 <= k < bets.drop_last().len() ==> bets.drop_last()[k] == bets[k]);
        lemma_pairs_eq(ps.drop_last(), bets.drop_last(), winning, total, wpool);
    }
}

/// A prefix of a payout list with non-negative amounts sums to at most the
/// whole list.
proof fn lemma_pairs_take_le(ps: Seq<(String, i64)>, k: int)
    requires
        0 <= k <= ps.len(),
        forall|i: int| 0 <= i < ps.len() ==> (#[trigger] ps[i].1) >= 0,
    ensures
        sum_pairs(ps.take(k)) <= sum_pairs(ps),
        sum_pairs(ps.take(k)) >= 0,
    decreases ps.len() - k, k,
{
    assert forall|i: int| 0 <= i < ps.take(k).len() implies (#[trigger] ps.take(k)[i].1)
        >= 0 by {
        assert(ps.take(k)[i] == ps[i]);
    }
    lemma_pairs_nonneg(ps.take(k));
    if k == ps.len() {
        assert(ps.take(k) =~= ps);
    } else {
        assert(ps.take(k + 1).drop_last() =~= ps.take(k));
        assert(ps.take(k + 1).last() == ps[k]);
        lemma_pairs_take_le(ps, k + 1);
    }
}

/// A payout list with non-negative amounts has a non-negative sum.
proof fn lemma_pairs_nonneg(ps: Seq<(String, i64)>)
    requires
        forall|i: int| 0 <= i < ps.len() ==> (#[trigger] ps[i].1) >= 0,
    ensures
        sum_pairs(ps) >= 0,
    decreases ps.len(),
{
    if ps.len() > 0 {
        assert(forall|i: int| 0 <= i < ps.drop_last().len() ==> ps.drop_last()[i] == ps[i]);
        lemma_pairs_nonneg(ps.drop_last());
    }
}

/// Two bet sequences that agree on everything but status have the same
/// stake sums.
proof fn lemma_sums_pointwise(bets1: Seq<Bet>, bets2: Seq<Bet>, id: Seq<char>, outcome: int)
    requires
        bets1.len() == bets2.len(),
        forall|b: int|
            0 <= b < bets1.len() ==> (#[trigger] bets1[b].market_id@) == (
            #[trigger] bets2[b].market_id@) && bets1[b].outcome_index == bets2[b].outcome_index
                && bets1[b].amount == bets2[b].amount,
    ensures
        sum_bets_on(bets1, id, outcome) == sum_bets_on(bets2, id, outcome),
        sum_amounts_on(bets1, id) == sum_amounts_on(bets2, id),
    decreases bets1.len(),
{
    if bets1.len() > 0 {
        assert(forall|k: int|
            0 <= k < bets1.drop_last().len() ==> bets1.drop_last()[k] == bets1[k]);
        assert(forall|k: int|
            0 <= k < bets2.drop_last().len() ==> bets2.drop_last()[k] == bets2[k]);
        let last = bets1.len() - 1;
        assert(bets1[last].market_id@ == bets2[last].market_id@);
        assert(bets1.last() == bets1[last] && bets2.last() == bets2[last]);
        lemma_sums_pointwise(bets1.drop_last(), bets2.drop_last(), id, outcome);
    }
}

/// A filtered sequence is a prefix-stable projection: filtering a prefix
/// yields a prefix of the filtered whole.
proof fn lemma_filter_take_prefix(bets: Seq<Bet>, id: Seq<char>, j: int)
    requires
        0 <= j <= bets.len(),
    ensures
        market_bets(bets.take(j), id).len() <= market_bets(bets, id).len(),
        market_bets(bets.take(j), id) == market_bets(bets, id).take(
            market_bets(bets.take(j), id).len() as int,
        ),
    decreases bets.len() - j,
{
    if j == bets.len() {
        assert(bets.take(j) =~= bets);
        assert(market_bets(bets, id).take(market_bets(bets, id).len() as int) =~= market_bets(
            bets,
            id,
        ));
    } else {
        reveal_with_fuel(Seq::filter, 2);
        assert(bets.take(j + 1).drop_last() =~= bets.take(j));
        assert(bets.take(j + 1).last() == bets[j]);
        assert(market_bets(bets.take(j + 1), id) == if bets[j].market_id@ == id {
            market_bets(bets.take(j), id).push(bets[j])
        } else {
            market_bets(bets.take(j), id)
        });
        lemma_filter_take_prefix(bets, id, j + 1);
        let lj = market_bets(bets.take(j), id).len() as int;
        let lj1 = market_bets(bets.take(j + 1), id).len() as int;
        assert(market_bets(bets.take(j), id) =~= market_bets(bets, id).take(lj)) by {
            assert(market_bets(bets.take(j + 1), id) == market_bets(bets, id).take(lj1));
            if bets[j].market_id@ == id {
                assert(market_bets(bets, id).take(lj1).drop_last() =~= market_bets(bets, id).take(
                    lj,
                ));
            }
        }
    }
}

/// One element of the market filter: it carries that market's id and a
/// positive stake when all stakes are positive.
proof fn lemma_filter_props(bets: Seq<Bet>, id: Seq<char>, k: int)
    requires
        forall|b: int| 0 <= b < bets.len() ==> (#[trigger] bets[b].amount) > 0,
        0 <= k < market_bets(bets, id).len(),
    ensures
        market_bets(bets, id)[k].market_id@ == id,
        market_bets(bets, id)[k].amount > 0,
    decreases bets.len(),
{
    reveal_with_fuel(Seq::filter, 2);
    if bets.len() > 0 {
        assert(forall|j: int|
            0 <= j < bets.drop_last().len() ==> bets.drop_last()[j] == bets[j]);
        if bets.last().market_id@ == id {
            assert(market_bets(bets, id) == market_bets(bets.drop_last(), id).push(bets.last()));
            if k < market_bets(bets, id).len() - 1 {
                lemma_filter_props(bets.drop_last(), id, k);
            }
        } else {
            assert(market_bets(bets, id) == market_bets(bets.drop_last(), id));
            lemma_filter_props(bets.drop_last(), id, k);
        }
    }
}

/// The whole engine state: one value per running node, passed explicitly
/// to every operation.  The hosting layer serializes access to it.
pub struct Engine {
    pub ledger: Ledger,
    pub escrow: Escrow,
    pub market_manager: MarketManager,
}

impl Engine {
    /// Cross-component well-formedness.
    pub open spec fn wf(&self) -> bool {
        &&& self.ledger.wf()
        &&& self.escrow.wf()
        &&& self.market_manager.wf()
        &&& entries_registered(self.escrow.entries@, &self.ledger)
        &&& sum_balances(self.ledger.accounts@) + sum_escrow(self.escrow.entries@)
            <= self.ledger.total_supply
        &&& sum_escrow(self.escrow.entries@) == sum_locked(self.market_manager.bets@)
        &&& forall|b: int|
            0 <= b < self.market_manager.bets@.len() ==> ((#[trigger] self.market_manager.bets@[b].status)
                == BetStatus::Locked <==> has_entry(
                self.escrow.entries@,
                self.market_manager.bets@[b].id as int,
            ))
        &&& forall|b: int|
            0 <= b < self.market_manager.bets@.len() && (#[trigger] self.market_manager.bets@[b].status)
                == BetStatus::Locked ==> {
                let e = spec_entry(self.escrow.entries@, self.market_manager.bets@[b].id as int);
                &&& e.amount == self.market_manager.bets@[b].amount
                &&& e.account@ == self.market_manager.bets@[b].account@
                &&& e.market_id@ == self.market_manager.bets@[b].market_id@
            }
        &&& forall|e: int|
            0 <= e < self.escrow.entries@.len() ==> has_bet_in(
                self.market_manager.bets@,
                (#[trigger] self.escrow.entries@[e].bet_id) as int,
            )
    }

    /// A fresh node: no accounts, no log, no escrow, no markets.
    pub fn new_full_node() -> (r: Engine)
        ensures
            r.wf(),
            r.ledger.spec_accounts().len() == 0,
            r.ledger.spec_log().len() == 0,
            r.ledger.spec_supply() == 0,
            r.escrow.spec_entries().len() == 0,
            r.market_manager.spec_markets().len() == 0,
            r.market_manager.spec_bets().len() == 0,
    {
        Engine {
            ledger: Ledger::new(),
            escrow: Escrow::new(),
            market_manager: MarketManager::new(),
        }
    }

    /// Creates an account at zero balance; see [`Ledger::register`].
    pub fn register(&mut self, name: &str, address: &str) -> (r: Result<(), LedgerError>)
        requires
            old(self).wf(),
        ensures
            final(self).wf(),
            final(self).escrow == old(self).escrow,
            final(self).market_manager == old(self).market_manager,
            old(self).ledger.spec_has_name(name@) || old(self).ledger.spec_has_address(address@)
                ==> r == Err::<(), LedgerError>(LedgerError::DuplicateAccount) && *final(self)
                == *old(self),
            !(old(self).ledger.spec_has_name(name@) || old(self).ledger.spec_has_address(address@))
                ==> {
                &&& r == Ok::<(), LedgerError>(())
                &&& final(self).ledger.spec_has_address(address@)
                &&& final(self).ledger.spec_balance_of(address@) == 0
                &&& forall|a: Seq<char>|
                    final(self).ledger.spec_balance_of(a) == old(self).ledger.spec_balance_of(a)
                        || a == address@
                &&& forall|nm: Seq<char>| #[trigger]
                    final(self).ledger.spec_has_name(nm) == (old(self).ledger.spec_has_name(nm)
                        || nm == name@)
                &&& forall|a: Seq<char>| #[trigger]
                    final(self).ledger.spec_has_address(a) == (old(self).ledger.spec_has_address(
                        a,
                    ) || a == address@)
                &&& final(self).ledger.spec_log() == old(self).ledger.spec_log()
                &&& final(self).ledger.spec_supply() == old(self).ledger.spec_supply()
            },
    {
        let r = self.ledger.register(name, address);
        proof {
            if r is Ok {
                crate::ledger::lemma_sum_balances_push(
                    old(self).ledger.accounts@,
                    self.ledger.accounts@.last(),
                );
                assert forall|e: int|
                    0 <= e < self.escrow.entries@.len() implies self.ledger.spec_has_address(
                    (#[trigger] self.escrow.entries@[e]).account@,
                ) by {
                    let a = self.escrow.entries@[e].account@;
                    assert(old(self).ledger.spec_has_address(a));
                    let w = choose|i: int|
                        0 <= i < old(self).ledger.accounts@.len() && #[trigger] old(self).ledger.accounts@[i].address@ == a;
                    assert(self.ledger.accounts@[w].address@ == a);
                }
            }
        }
        r
    }

    /// The spendable balance of `address`; see [`Ledger::get_balance`].
    pub fn get_balance(&self, address: &str) -> (r: i64)
        requires
            self.wf(),
        ensures
            r as int == self.ledger.spec_balance_of(address@),
            r >= 0,
    {
        self.ledger.get_balance(address)
    }

    /// Moves value between accounts; see [`Ledger::transfer`].  The
    /// balances of the two parties together are unchanged: value moves,
    /// none is created or destroyed.
    pub fn transfer(&mut self, from: &str, to: &str, amount: i64, now: i64) -> (r: Result<
        u64,
        LedgerError,
    >)
        requires
            old(self).wf(),
        ensures
            final(self).wf(),
            final(self).escrow == old(self).escrow,
            final(self).market_manager == old(self).market_manager,
            r is Err ==> *final(self) == *old(self),
            !(old(self).ledger.spec_has_address(from@) && old(self).ledger.spec_has_address(to@))
                ==> r == Err::<u64, LedgerError>(LedgerError::UnknownAccount),
            old(self).ledger.spec_has_address(from@) && old(self).ledger.spec_has_address(to@)
                && amount <= 0 ==> r == Err::<u64, LedgerError>(LedgerError::InvalidAmount),
            old(self).ledger.spec_has_address(from@) && old(self).ledger.spec_has_address(to@)
                && amount > 0 && old(self).ledger.spec_balance_of(from@) < amount ==> r == Err::<
                u64,
                LedgerError,
            >(LedgerError::InsufficientBalance),
            old(self).ledger.spec_has_address(from@) && old(self).ledger.spec_has_address(to@)
                && amount > 0 && old(self).ledger.spec_balance_of(from@) >= amount ==> {
                &&& r == Ok::<u64, LedgerError>(old(self).ledger.spec_log().len() as u64)
                &&& final(self).ledger.spec_balance_of(from@) + final(self).ledger.spec_balance_of(
                    to@,
                ) == old(self).ledger.spec_balance_of(from@) + old(self).ledger.spec_balance_of(
                    to@,
                )
                &&& from@ != to@ ==> final(self).ledger.spec_balance_of(from@) == old(self).ledger.spec_balance_of(from@) - amount && final(self).ledger.spec_balance_of(to@)
                    == old(self).ledger.spec_balance_of(to@) + amount
                &&& forall|a: Seq<char>|
                    a != from@ && a != to@ ==> final(self).ledger.spec_balance_of(a) == old(self).ledger.spec_balance_of(a)
                &&& final(self).ledger.spec_supply() == old(self).ledger.spec_supply()
                &&& final(self).ledger.spec_log().len() == old(self).ledger.spec_log().len() + 1
                &&& final(self).ledger.spec_log().drop_last() == old(self).ledger.spec_log()
                &&& crate::ledger::tx_is(
                    final(self).ledger.spec_log().last(),
                    TxKind::Transfer,
                    from@,
                    to@,
                    amount as int,
                    now as int,
                    old(self).ledger.spec_log().len() as int,
                )
            },
    {
        self.ledger.transfer(from, to, amount, now)
    }

    /// Administrative issuance; see [`Ledger::mint`].
    pub fn mint(&mut self, address: &str, amount: i64, now: i64) -> (r: Result<u64, LedgerError>)
        requires
            old(self).wf(),
            amount > 0 ==> old(self).ledger.spec_supply() + amount <= MAX_SUPPLY,
        ensures
            final(self).wf(),
            final(self).escrow == old(self).escrow,
            final(self).market_manager == old(self).market_manager,
            amount <= 0 ==> r == Err::<u64, LedgerError>(LedgerError::InvalidAmount) && *final(self) == *old(self),
            amount > 0 ==> {
                &&& r == Ok::<u64, LedgerError>(old(self).ledger.spec_log().len() as u64)
                &&& final(self).ledger.spec_has_address(address@)
                &&& forall|a: Seq<char>|
                    old(self).ledger.spec_has_address(a) ==> #[trigger] final(self).ledger.spec_has_address(a)
                &&& final(self).ledger.spec_balance_of(address@) == old(self).ledger.spec_balance_of(address@) + amount
                &&& forall|a: Seq<char>|
                    a != address@ ==> final(self).ledger.spec_balance_of(a) == old(self).ledger.spec_balance_of(a)
                &&& final(self).ledger.spec_supply() == old(self).ledger.spec_supply() + amount
                &&& final(self).ledger.spec_log().len() == old(self).ledger.spec_log().len() + 1
                &&& final(self).ledger.spec_log().drop_last() == old(self).ledger.spec_log()
                &&& crate::ledger::tx_is(
                    final(self).ledger.spec_log().last(),
                    TxKind::Deposit,
                    Seq::<char>::empty(),
                    address@,
                    amount as int,
                    now as int,
                    old(self).ledger.spec_log().len() as int,
                )
            },
    {
        let r = self.ledger.mint(address, amount, now);
        proof {
            if amount > 0 {
                assert forall|e: int|
                    0 <= e < self.escrow.entries@.len() implies self.ledger.spec_has_address(
                    (#[trigger] self.escrow.entries@[e]).account@,
                ) by {
                    let a = self.escrow.entries@[e].account@;
                    assert(old(self).ledger.spec_has_address(a));
                    let w = choose|i: int|
                        0 <= i < old(self).ledger.accounts@.len() && #[trigger] old(self).ledger.accounts@[i].address@ == a;
                    assert(self.ledger.accounts@[w].address@ == a);
                }
            }
        }
        r
    }

    /// Sets a balance outright; see [`Ledger::admin_set_balance`].
    pub fn admin_set_balance(&mut self, address: &str, new_balance: i64, now: i64) -> (r: Result<
        u64,
        LedgerError,
    >)
        requires
            old(self).wf(),
            new_balance >= 0,
            old(self).ledger.spec_has_address(address@) ==> old(self).ledger.spec_supply()
                + new_balance - old(self).ledger.spec_balance_of(address@) <= MAX_SUPPLY,
        ensures
            final(self).wf(),
            final(self).escrow == old(self).escrow,
            final(self).market_manager == old(self).market_manager,
            !old(self).ledger.spec_has_address(address@) ==> r == Err::<u64, LedgerError>(
                LedgerError::UnknownAccount,
            ) && *final(self) == *old(self),
            old(self).ledger.spec_has_address(address@) ==> {
                &&& r == Ok::<u64, LedgerError>(old(self).ledger.spec_log().len() as u64)
                &&& final(self).ledger.spec_balance_of(address@) == new_balance
                &&& forall|a: Seq<char>|
                    a != address@ ==> final(self).ledger.spec_balance_of(a) == old(self).ledger.spec_balance_of(a)
                &&& final(self).ledger.spec_supply() == old(self).ledger.spec_supply()
                    + new_balance - old(self).ledger.spec_balance_of(address@)
                &&& final(self).ledger.spec_log().len() == old(self).ledger.spec_log().len() + 1
                &&& final(self).ledger.spec_log().drop_last() == old(self).ledger.spec_log()
                &&& crate::ledger::tx_is(
                    final(self).ledger.spec_log().last(),
                    TxKind::AdminSet,
                    Seq::<char>::empty(),
                    address@,
                    new_balance - old(self).ledger.spec_balance_of(address@),
                    now as int,
                    old(self).ledger.spec_log().len() as int,
                )
            },
    {
        self.ledger.admin_set_balance(address, new_balance, now)
    }

    /// Creates a market; see [`MarketManager::create_market`].
    pub fn create_market(
        &mut self,
        id: String,
        title: String,
        description: String,
        outcomes: Vec<String>,
        category: String,
        resolution_source: String,
    ) -> (r: Result<(), LedgerError>)
        requires
            old(self).wf(),
            outcomes@.len() >= 2,
        ensures
            final(self).wf(),
            final(self).ledger == old(self).ledger,
            final(self).escrow == old(self).escrow,
            has_market_in(old(self).market_manager.spec_markets(), id@) ==> r == Err::<
                (),
                LedgerError,
            >(LedgerError::DuplicateMarketId) && *final(self) == *old(self),
            !has_market_in(old(self).market_manager.spec_markets(), id@) ==> {
                &&& r == Ok::<(), LedgerError>(())
                &&& final(self).market_manager.spec_markets().len() == old(self).market_manager.spec_markets().len() + 1
                &&& final(self).market_manager.spec_markets().drop_last() == old(self).market_manager.spec_markets()
                &&& final(self).market_manager.spec_markets().last().id@ == id@
                &&& final(self).market_manager.spec_markets().last().status == MarketStatus::Open
                &&& final(self).market_manager.spec_markets().last().pools@.len()
                    == outcomes@.len()
                &&& forall|o: int|
                    0 <= o < outcomes@.len() ==> (#[trigger] final(self).market_manager.spec_markets().last().pools@[o]) == 0
                &&& final(self).market_manager.spec_bets() == old(self).market_manager.spec_bets()
            },
    {
        self.market_manager.create_market(
            id,
            title,
            description,
            outcomes,
            category,
            resolution_source,
        )
    }

    /// Closes an open market; see [`MarketManager::close_market`].
    pub fn close_market(&mut self, id: &str) -> (r: Result<(), LedgerError>)
        requires
            old(self).wf(),
        ensures
            final(self).wf(),
            final(self).ledger == old(self).ledger,
            final(self).escrow == old(self).escrow,
            !has_market_in(old(self).market_manager.spec_markets(), id@) ==> r == Err::<
                (),
                LedgerError,
            >(LedgerError::UnknownMarket) && *final(self) == *old(self),
            has_market_in(old(self).market_manager.spec_markets(), id@) && spec_market(
                old(self).market_manager.spec_markets(),
                id@,
            ).status != MarketStatus::Open ==> r == Err::<(), LedgerError>(
                LedgerError::MarketNotOpen,
            ) && *final(self) == *old(self),
            has_market_in(old(self).market_manager.spec_markets(), id@) && spec_market(
                old(self).market_manager.spec_markets(),
                id@,
            ).status == MarketStatus::Open ==> {
                &&& r == Ok::<(), LedgerError>(())
                &&& spec_market(final(self).market_manager.spec_markets(), id@).status
                    == MarketStatus::Closed
                &&& final(self).market_manager.spec_bets() == old(self).market_manager.spec_bets()
            },
    {
        self.market_manager.close_market(id)
    }

    /// Places a stake of `amount` by `account` on outcome `outcome_index`
    /// of market `market_id`: the funds move from the spendable balance
    /// into escrow, a locked bet is recorded, and the stake joins the
    /// outcome's pool.  Checked in order: fails `UnknownMarket`,
    /// `MarketNotOpen` when the market is closed or resolved,
    /// `InvalidOutcomeIndex`, `InvalidAmount` when the amount is not
    /// positive, `InsufficientBalance`; no effect on failure.
    pub fn place_bet(
        &mut self,
        account: &str,
        market_id: &str,
        outcome_index: usize,
        amount: i64,
        now: i64,
    ) -> (r: Result<Bet, LedgerError>)
        requires
            old(self).wf(),
        ensures
            final(self).wf(),
            r is Err ==> *final(self) == *old(self),
            !has_market_in(old(self).market_manager.spec_markets(), market_id@) ==> (r == Err::<Bet, LedgerError>(LedgerError::UnknownMarket)),
            has_market_in(old(self).market_manager.spec_markets(), market_id@) && spec_market(
                old(self).market_manager.spec_markets(),
                market_id@,
            ).status != MarketStatus::Open ==> r == Err::<Bet, LedgerError>(
                LedgerError::MarketNotOpen,
            ),
            ({
                let m = spec_market(old(self).market_manager.spec_markets(), market_id@);
                has_market_in(old(self).market_manager.spec_markets(), market_id@) && m.status
                    == MarketStatus::Open && outcome_index as int >= m.outcomes@.len() ==> r
                    == Err::<Bet, LedgerError>(LedgerError::InvalidOutcomeIndex)
            }),
            ({
                let m = spec_market(old(self).market_manager.spec_markets(), market_id@);
                has_market_in(old(self).market_manager.spec_markets(), market_id@) && m.status
                    == MarketStatus::Open && (outcome_index as int) < m.outcomes@.len() && amount
                    <= 0 ==> r == Err::<Bet, LedgerError>(LedgerError::InvalidAmount)
            }),
            ({
                let m = spec_market(old(self).market_manager.spec_markets(), market_id@);
                has_market_in(old(self).market_manager.spec_markets(), market_id@) && m.status
                    == MarketStatus::Open && (outcome_index as int) < m.outcomes@.len() && amount
                    > 0 && old(self).ledger.spec_balance_of(account@) < amount ==> r
                    == Err::<Bet, LedgerError>(LedgerError::InsufficientBalance)
            }),
            ({
                let m = spec_market(old(self).market_manager.spec_markets(), market_id@);
                has_market_in(old(self).market_manager.spec_markets(), market_id@) && m.status
                    == MarketStatus::Open && (outcome_index as int) < m.outcomes@.len() && amount
                    > 0 && old(self).ledger.spec_balance_of(account@) >= amount ==> {
                    &&& r is Ok
                    &&& (r->Ok_0).id == old(self).market_manager.next_bet_id
                    &&& (r->Ok_0).account@ == account@
                    &&& (r->Ok_0).market_id@ == market_id@
                    &&& (r->Ok_0).outcome_index == outcome_index
                    &&& (r->Ok_0).amount == amount
                    &&& (r->Ok_0).status == BetStatus::Locked
                    &&& final(self).ledger.spec_balance_of(account@) == old(self).ledger.spec_balance_of(account@) - amount
                    &&& forall|a: Seq<char>|
                        a != account@ ==> final(self).ledger.spec_balance_of(a) == old(self).ledger.spec_balance_of(a)
                    &&& final(self).ledger.spec_supply() == old(self).ledger.spec_supply()
                    &&& final(self).market_manager.spec_bets().len() == old(self).market_manager.spec_bets().len() + 1
                    &&& final(self).market_manager.spec_bets().drop_last() == old(self).market_manager.spec_bets()
                    &&& crate::markets::bet_like(
                        final(self).market_manager.spec_bets().last(),
                        r->Ok_0,
                    )
                    &&& final(self).market_manager.spec_markets().len() == old(self).market_manager.spec_markets().len()
                    &&& forall|j: int|
                        0 <= j < old(self).market_manager.spec_markets().len() && (#[trigger] old(self).market_manager.spec_markets()[j].id@) != market_id@ ==> final(self).market_manager.spec_markets()[j] == old(self).market_manager.spec_markets()[j]
                    &&& spec_market(final(self).market_manager.spec_markets(), market_id@).pools@
                        == m.pools@.update(
                        outcome_index as int,
                        (m.pools@[outcome_index as int] + amount) as i64,
                    )
                    &&& spec_market(final(self).market_manager.spec_markets(), market_id@).status
                        == MarketStatus::Open
                    &&& final(self).escrow.spec_entries().len() == old(self).escrow.spec_entries().len() + 1
                    &&& sum_escrow(final(self).escrow.spec_entries()) == sum_escrow(
                        old(self).escrow.spec_entries(),
                    ) + amount
                    &&& final(self).ledger.spec_log().len() == old(self).ledger.spec_log().len()
                        + 1
                    &&& final(self).ledger.spec_log().drop_last() == old(self).ledger.spec_log()
                    &&& crate::ledger::tx_is(
                        final(self).ledger.spec_log().last(),
                        TxKind::BetLock,
                        account@,
                        market_id@,
                        amount as int,
                        now as int,
                        old(self).ledger.spec_log().len() as int,
                    )
                }
            }),
    {
        let mi: usize = match self.market_manager.find_market(market_id) {
            Some(i) => i,
            None => {
                return Err(LedgerError::UnknownMarket);
            },
        };
        proof {
            let w = choose|k: int|
                0 <= k < self.market_manager.markets@.len()
                    && (#[trigger] self.market_manager.markets@[k].id@) == market_id@;
            assert(w == mi as int) by {
                if w < mi as int {
                    assert(self.market_manager.markets@[w].id@
                        != self.market_manager.markets@[mi as int].id@);
                } else if (mi as int) < w {
                    assert(self.market_manager.markets@[mi as int].id@
                        != self.market_manager.markets@[w].id@);
                }
            }
        }
        match self.market_manager.markets[mi].status {
            MarketStatus::Open => {},
            _ => {
                return Err(LedgerError::MarketNotOpen);
            },
        }
        if outcome_index >= self.market_manager.markets[mi].outcomes.len() {
            return Err(LedgerError::InvalidOutcomeIndex);
        }
        if amount <= 0 {
            return Err(LedgerError::InvalidAmount);
        }
        let bet_id: u64 = self.market_manager.next_bet_id;
        proof {
            // The fresh bet id collides with no active escrow entry.
            if has_entry(self.escrow.entries@, bet_id as int) {
                let we = choose|k: int|
                    0 <= k < self.escrow.entries@.len()
                        && (#[trigger] self.escrow.entries@[k].bet_id) as int == bet_id as int;
                assert(has_bet_in(
                    self.market_manager.bets@,
                    self.escrow.entries@[we].bet_id as int,
                ));
                let wb = choose|k: int|
                    0 <= k < self.market_manager.bets@.len()
                        && (#[trigger] self.market_manager.bets@[k].id) as int == bet_id as int;
                assert(self.market_manager.bets@[wb].id as int == wb);
                assert(false);
            }
        }
        let locked = self.escrow.lock(
            &mut self.ledger,
            account,
            amount,
            market_id,
            bet_id,
            now,
        );
        match locked {
            Err(e) => {
                return Err(e);
            },
            Ok(()) => {},
        }
        let ghost old_bets = old(self).market_manager.bets@;
        let ghost old_markets = old(self).market_manager.markets@;
        let ghost old_entries = old(self).escrow.entries@;
        proof {
            // Pool-growth headroom: the outcome's pool plus the new stake
            // stays under the supply cap.
            assert(market_wf(old_markets[mi as int]));
            assert forall|b: int|
                0 <= b < old_bets.len() && (#[trigger] old_bets[b].market_id@) == market_id@
                    implies old_bets[b].status == BetStatus::Locked by {
                assert(old_bets[b].market_id@ == old_markets[mi as int].id@);
            }
            crate::markets::lemma_sum_on_le_amounts(old_bets, market_id@, outcome_index as int);
            crate::markets::lemma_amounts_le_locked(old_bets, market_id@);
            crate::ledger::lemma_balance_of_le_sum(old(self).ledger.accounts@, account@);
            crate::ledger::lemma_sum_balances_nonneg(self.ledger.accounts@);
            crate::escrow::lemma_sum_escrow_nonneg(old_entries);
        }
        let pool: i64 = self.market_manager.markets[mi].pools[outcome_index];
        self.market_manager.markets[mi].pools[outcome_index] = pool + amount;
        let bet = Bet {
            id: bet_id,
            account: account.to_owned(),
            market_id: market_id.to_owned(),
            outcome_index,
            amount,
            status: BetStatus::Locked,
            timestamp: now,
        };
        self.market_manager.bets.push(bet);
        let nb: usize = self.market_manager.bets.len();
        self.market_manager.next_bet_id = nb as u64;
        proof {
            let new_bets = self.market_manager.bets@;
            let new_markets = self.market_manager.markets@;
            let new_entries = self.escrow.entries@;
            let newb = new_bets.last();
            if !old(self).ledger.spec_has_address(account@) {
                crate::ledger::lemma_balance_in_absent(old(self).ledger.accounts@, account@);
            }
            assert forall|e: int|
                0 <= e < new_entries.len() implies self.ledger.spec_has_address(
                (#[trigger] new_entries[e]).account@,
            ) by {
                if e < old_entries.len() {
                    assert(new_entries[e] == old_entries[e]);
                    assert(old(self).ledger.spec_has_address(old_entries[e].account@));
                    assert(self.ledger.spec_has_address(old_entries[e].account@));
                } else {
                    assert(new_entries[e].account@ == account@);
                    assert(self.ledger.spec_has_address(account@));
                }
            }
            assert(new_bets.drop_last() =~= old_bets);
            assert(new_bets =~= old_bets.push(newb));
            assert(new_markets =~= old_markets.update(
                mi as int,
                Market {
                    pools: new_markets[mi as int].pools,
                    ..old_markets[mi as int]
                },
            ));
            assert(new_markets[mi as int].pools@ =~= old_markets[mi as int].pools@.update(
                outcome_index as int,
                (pool + amount) as i64,
            ));
            assert(new_entries =~= old_entries.push(new_entries.last()));
            crate::escrow::lemma_push_entry(old_entries, new_entries.last());
            // Every pool still equals its outcome's stake sum.
            assert forall|j: int, o: int|
                0 <= j < new_markets.len() && 0 <= o < new_markets[j].pools@.len() implies (
            #[trigger] new_markets[j].pools@[o]) == sum_bets_on(new_bets, new_markets[j].id@, o) by {
                crate::markets::lemma_sums_push(old_bets, newb, new_markets[j].id@, o);
                if j != mi as int {
                    assert(old_markets[j].id@ != old_markets[mi as int].id@);
                    assert(new_markets[j] == old_markets[j]);
                    assert(old_markets[j].pools@[o] == sum_bets_on(old_bets, old_markets[j].id@, o));
                } else {
                    assert(old_markets[j].pools@[o] == sum_bets_on(old_bets, old_markets[j].id@, o));
                }
            }
            // Pool totals stay under the supply cap.
            crate::markets::lemma_sum_pools_update(
                old_markets[mi as int].pools@,
                outcome_index as int,
                (pool + amount) as i64,
            );
            crate::markets::lemma_pools_total(
                old_markets[mi as int].pools@,
                old_bets,
                market_id@,
            );
            assert forall|j: int| 0 <= j < new_markets.len() implies sum_pools(
                (#[trigger] new_markets[j]).pools@,
            ) <= MAX_SUPPLY by {
                if j != mi as int {
                    assert(new_markets[j] == old_markets[j]);
                    assert(sum_pools(old_markets[j].pools@) <= MAX_SUPPLY);
                } else {
                    assert(sum_pools(old_markets[mi as int].pools@) <= sum_locked(old_bets));
                }
            }
            // Every bet still names an existing market, in range, with the
            // right lock status.
            assert forall|b: int| 0 <= b < new_bets.len() implies has_market_in(
                new_markets,
                (#[trigger] new_bets[b]).market_id@,
            ) by {
                if b < old_bets.len() {
                    assert(has_market_in(old_markets, old_bets[b].market_id@));
                    let w = choose|k: int|
                        0 <= k < old_markets.len() && (#[trigger] old_markets[k].id@)
                            == old_bets[b].market_id@;
                    assert(new_markets[w].id@ == old_bets[b].market_id@);
                } else {
                    assert(new_markets[mi as int].id@ == newb.market_id@);
                }
            }
            // Escrow coupling: the new entry matches the new bet; all old
            // couplings survive.
            crate::markets::lemma_sums_push(old_bets, newb, market_id@, 0);
            assert forall|b: int|
                0 <= b < new_bets.len() implies ((#[trigger] new_bets[b].status)
                == BetStatus::Locked <==> has_entry(new_entries, new_bets[b].id as int)) by {
                if b < old_bets.len() {
                    assert(new_bets[b] == old_bets[b]);
                    assert(old_bets[b].id as int == b);
                    assert(has_entry(new_entries, b) == has_entry(old_entries, b));
                } else {
                    assert(has_entry(new_entries, bet_id as int));
                }
            }
            assert forall|b: int|
                0 <= b < new_bets.len() && (#[trigger] new_bets[b].status) == BetStatus::Locked
                    implies {
                let e = spec_entry(new_entries, new_bets[b].id as int);
                &&& e.amount == new_bets[b].amount
                &&& e.account@ == new_bets[b].account@
                &&& e.market_id@ == new_bets[b].market_id@
            } by {
                if b < old_bets.len() {
                    assert(new_bets[b] == old_bets[b]);
                    assert(old_bets[b].id as int == b);
                    assert(has_entry(old_entries, b));
                    assert(spec_entry(new_entries, b) == spec_entry(old_entries, b));
                } else {
                    assert(spec_entry(new_entries, bet_id as int) == new_entries.last());
                }
            }
            assert forall|e: int| 0 <= e < new_entries.len() implies has_bet_in(
                new_bets,
                (#[trigger] new_entries[e].bet_id) as int,
            ) by {
                if e < old_entries.len() {
                    assert(has_bet_in(old_bets, old_entries[e].bet_id as int));
                    let w = choose|k: int|
                        0 <= k < old_bets.len() && (#[trigger] old_bets[k].id) as int
                            == old_entries[e].bet_id as int;
                    assert(new_bets[w].id as int == old_entries[e].bet_id as int);
                } else {
                    assert(new_bets[old_bets.len() as int].id as int == bet_id as int);
                }
            }
            // The resulting market lookup.
            let wfin = choose|k: int|
                0 <= k < new_markets.len() && (#[trigger] new_markets[k].id@) == market_id@;
            assert(new_markets[mi as int].id@ == market_id@);
            assert(wfin == mi as int) by {
                if wfin < mi as int {
                    assert(new_markets[wfin].id@ != new_markets[mi as int].id@);
                } else if (mi as int) < wfin {
                    assert(new_markets[mi as int].id@ != new_markets[wfin].id@);
                }
            }
        }
        let result = Bet {
            id: bet_id,
            account: account.to_owned(),
            market_id: market_id.to_owned(),
            outcome_index,
            amount,
            status: BetStatus::Locked,
            timestamp: now,
        };
        Ok(result)
    }

    /// Resolves a market to `winning_outcome` and settles every locked bet
    /// on it exactly once, in placement order: with total pool `P` and
    /// winning pool `W`, a winning bet of size `b` is paid `b * P / W`;
    /// when `W` is zero every stake is refunded; losing stakes are
    /// forfeited.  The summed payouts never exceed the total pool (they
    /// fall short only by division rounding, and equal it exactly in the
    /// refund case).  The whole settlement is staged before any payout is
    /// committed, resolution is terminal, and the list of
    /// `(account, payout)` pairs is returned in processing order.  Checked
    /// in order: fails `UnknownMarket`, `InvalidOutcomeIndex`,
    /// `MarketAlreadyResolved`; no effect on failure.
    pub fn resolve(&mut self, market_id: &str, winning_outcome: usize, now: i64) -> (r: Result<
        Vec<(String, i64)>,
        LedgerError,
    >)
        requires
            old(self).wf(),
        ensures
            final(self).wf(),
            r is Err ==> *final(self) == *old(self),
            !has_market_in(old(self).market_manager.spec_markets(), market_id@) ==> (r == Err::<
                Vec<(String, i64)>,
                LedgerError,
            >(LedgerError::UnknownMarket)),
            ({
                let m = spec_market(old(self).market_manager.spec_markets(), market_id@);
                has_market_in(old(self).market_manager.spec_markets(), market_id@)
                    && winning_outcome as int >= m.outcomes@.len() ==> (r == Err::<
                    Vec<(String, i64)>,
                    LedgerError,
                >(LedgerError::InvalidOutcomeIndex))
            }),
            ({
                let m = spec_market(old(self).market_manager.spec_markets(), market_id@);
                has_market_in(old(self).market_manager.spec_markets(), market_id@) && (
                winning_outcome as int) < m.outcomes@.len() && m.status == MarketStatus::Resolved
                    ==> (r == Err::<Vec<(String, i64)>, LedgerError>(
                    LedgerError::MarketAlreadyResolved,
                ))
            }),
            ({
                let m = spec_market(old(self).market_manager.spec_markets(), market_id@);
                let mbets = crate::markets::market_bets(
                    old(self).market_manager.spec_bets(),
                    market_id@,
                );
                let total = sum_pools(m.pools@);
                let wpool = m.pools@[winning_outcome as int] as int;
                has_market_in(old(self).market_manager.spec_markets(), market_id@) && (
                winning_outcome as int) < m.outcomes@.len() && m.status != MarketStatus::Resolved
                    ==> {
                    &&& r is Ok
                    &&& (r->Ok_0)@.len() == mbets.len()
                    &&& forall|k: int|
                        0 <= k < mbets.len() ==> ((#[trigger] (r->Ok_0)@[k]).0@
                            == mbets[k].account@ && (r->Ok_0)@[k].1 as int == payout_of(
                            mbets[k],
                            winning_outcome as int,
                            total,
                            wpool,
                        ))
                    &&& sum_pairs((r->Ok_0)@) <= total
                    &&& wpool == 0 ==> sum_pairs((r->Ok_0)@) == total
                    &&& spec_market(final(self).market_manager.spec_markets(), market_id@).status
                        == MarketStatus::Resolved
                    &&& spec_market(
                        final(self).market_manager.spec_markets(),
                        market_id@,
                    ).winning_outcome == Some(winning_outcome)
                    &&& spec_market(final(self).market_manager.spec_markets(), market_id@).pools@
                        == m.pools@
                    &&& final(self).market_manager.spec_markets().len() == old(self).market_manager.spec_markets().len()
                    &&& forall|j: int|
                        0 <= j < old(self).market_manager.spec_markets().len() && (#[trigger] old(self).market_manager.spec_markets()[j].id@) != market_id@ ==> final(self).market_manager.spec_markets()[j] == old(self).market_manager.spec_markets()[j]
                    &&& final(self).market_manager.spec_bets().len() == old(self).market_manager.spec_bets().len()
                    &&& forall|b: int|
                        0 <= b < old(self).market_manager.spec_bets().len() && (#[trigger] old(self).market_manager.spec_bets()[b].market_id@) != market_id@ ==> final(self).market_manager.spec_bets()[b] == old(self).market_manager.spec_bets()[b]
                    &&& forall|b: int|
                        0 <= b < old(self).market_manager.spec_bets().len() && (#[trigger] old(self).market_manager.spec_bets()[b].market_id@) == market_id@ ==> final(self).market_manager.spec_bets()[b] == (Bet {
                            status: if payout_of(
                                old(self).market_manager.spec_bets()[b],
                                winning_outcome as int,
                                total,
                                wpool,
                            ) > 0 {
                                BetStatus::Won
                            } else {
                                BetStatus::Lost
                            },
                            ..old(self).market_manager.spec_bets()[b]
                        })
                    &&& forall|a: Seq<char>| #[trigger]
                        final(self).ledger.spec_balance_of(a) == old(self).ledger.spec_balance_of(a) + payouts_to(
                            mbets,
                            a,
                            winning_outcome as int,
                            total,
                            wpool,
                        )
                    &&& final(self).ledger.spec_supply() == old(self).ledger.spec_supply()
                    &&& final(self).ledger.spec_log().len() == old(self).ledger.spec_log().len()
                        + mbets.len()
                    &&& final(self).ledger.spec_log().take(
                        old(self).ledger.spec_log().len() as int,
                    ) == old(self).ledger.spec_log()
                    &&& forall|k: int|
                        0 <= k < mbets.len() ==> crate::ledger::tx_is(
                            #[trigger] final(self).ledger.spec_log()[old(self).ledger.spec_log().len() + k],
                            TxKind::BetSettle,
                            market_id@,
                            mbets[k].account@,
                            payout_of(mbets[k], winning_outcome as int, total, wpool),
                            now as int,
                            old(self).ledger.spec_log().len() + k,
                        )
                    &&& final(self).escrow.spec_entries().len() == old(self).escrow.spec_entries().len() - mbets.len()
                    &&& sum_escrow(final(self).escrow.spec_entries()) == sum_escrow(
                        old(self).escrow.spec_entries(),
                    ) - total
                    &&& forall|b: int|
                        0 <= b < old(self).market_manager.spec_bets().len() && (#[trigger] old(self).market_manager.spec_bets()[b].market_id@) == market_id@ ==> !has_entry(
                            final(self).escrow.spec_entries(),
                            b,
                        )
                }
            }),
    {
        let mi: usize = match self.market_manager.find_market(market_id) {
            Some(i) => i,
            None => {
                return Err(LedgerError::UnknownMarket);
            },
        };
        proof {
            let w = choose|k: int|
                0 <= k < self.market_manager.markets@.len()
                    && (#[trigger] self.market_manager.markets@[k].id@) == market_id@;
            assert(w == mi as int) by {
                if w < mi as int {
                    assert(self.market_manager.markets@[w].id@
                        != self.market_manager.markets@[mi as int].id@);
                } else if (mi as int) < w {
                    assert(self.market_manager.markets@[mi as int].id@
                        != self.market_manager.markets@[w].id@);
                }
            }
            assert(market_wf(self.market_manager.markets@[mi as int]));
        }
        if winning_outcome >= self.market_manager.markets[mi].outcomes.len() {
            return Err(LedgerError::InvalidOutcomeIndex);
        }
        match self.market_manager.markets[mi].status {
            MarketStatus::Resolved => {
                return Err(LedgerError::MarketAlreadyResolved);
            },
            _ => {},
        }
        let ghost old_bets = old(self).market_manager.bets@;
        let ghost old_markets = old(self).market_manager.markets@;
        let ghost old_entries = old(self).escrow.entries@;
        let ghost old_log = old(self).ledger.transactions@;
        let ghost mbets = crate::markets::market_bets(old_bets, market_id@);
        let ghost w_v = winning_outcome as int;
        // Total pool.
        let np: usize = self.market_manager.markets[mi].pools.len();
        let mut total: i64 = 0;
        let mut o: usize = 0;
        proof {
            assert(sum_pools(old_markets[mi as int].pools@) <= MAX_SUPPLY);
            crate::markets::lemma_take_sum_le(old_markets[mi as int].pools@, 0);
        }
        while o < np
            invariant
                old_markets == old(self).market_manager.markets@,
                old_bets == old(self).market_manager.bets@,
                old_entries == old(self).escrow.entries@,
                old_log == old(self).ledger.transactions@,
                w_v == winning_outcome as int,
                *self == *old(self),
                mi < self.market_manager.markets@.len(),
                self.market_manager.markets@ == old_markets,
                np == old_markets[mi as int].pools@.len(),
                o <= np,
                market_wf(old_markets[mi as int]),
                sum_pools(old_markets[mi as int].pools@) <= MAX_SUPPLY,
                total as int == sum_pools(old_markets[mi as int].pools@.take(o as int)),
                total >= 0,
                total as int <= sum_pools(old_markets[mi as int].pools@),
            decreases np - o,
        {
            proof {
                let pools = old_markets[mi as int].pools@;
                assert(pools.take(o + 1).drop_last() =~= pools.take(o as int));
                assert(pools.take(o + 1).last() == pools[o as int]);
                crate::markets::lemma_take_sum_le(pools, o + 1);
            }
            total = total + self.market_manager.markets[mi].pools[o];
            o = o + 1;
        }
        proof {
            assert(old_markets[mi as int].pools@.take(np as int) =~= old_markets[
                mi as int
            ].pools@);
        }
        let wpool: i64 = self.market_manager.markets[mi].pools[winning_outcome];
        let ghost total_v = total as int;
        let ghost wpool_v = wpool as int;
        // Pre-settlement facts: the market's stake equals its pool total,
        // its bets are all locked, and the winning pool is the stake on
        // the winning outcome.
        proof {
            assert forall|b: int|
                0 <= b < old_bets.len() && (#[trigger] old_bets[b].market_id@) == market_id@ implies
                old_bets[b].status == BetStatus::Locked && (old_bets[b].outcome_index as int)
                    < np by {
                assert(old_bets[b].market_id@ == old_markets[mi as int].id@);
            }
            crate::markets::lemma_pools_total(old_markets[mi as int].pools@, old_bets, market_id@);
            assert(total_v == sum_amounts_on(old_bets, market_id@));
            assert(wpool_v == sum_bets_on(old_bets, market_id@, w_v));
            crate::markets::lemma_amounts_le_locked(old_bets, market_id@);
            crate::ledger::lemma_sum_balances_nonneg(self.ledger.accounts@);
            assert(sum_balances(self.ledger.accounts@) + total_v <= self.ledger.total_supply);
            crate::markets::lemma_sum_on_le_amounts(old_bets, market_id@, w_v);
            crate::markets::lemma_sum_bets_on_nonneg(old_bets, market_id@, w_v);
            assert(0 <= wpool_v <= total_v);
        }
        // Stage: compute every payout before committing any.
        let n: usize = self.market_manager.bets.len();
        let mut payouts: Vec<(String, i64)> = Vec::new();
        let mut j: usize = 0;
        proof {
            assert(crate::markets::market_bets(old_bets.take(0), market_id@) =~= Seq::<
                Bet,
            >::empty());
        }
        while j < n
            invariant
                w_v == winning_outcome as int,
                total_v == total as int,
                wpool_v == wpool as int,
                old_bets == old(self).market_manager.bets@,
                old_markets == old(self).market_manager.markets@,
                old_entries == old(self).escrow.entries@,
                old_log == old(self).ledger.transactions@,
                *self == *old(self),
                mi < self.market_manager.markets@.len(),
                n == old_bets.len(),
                j <= n,
                self.market_manager.bets@ == old_bets,
                payouts@.len() == crate::markets::market_bets(old_bets.take(j as int), market_id@).len(),
                forall|k: int|
                    0 <= k < payouts@.len() ==> ((#[trigger] payouts@[k]).0@ == crate::markets::market_bets(old_bets.take(
                        j as int,
                    ), market_id@)[k].account@ && payouts@[k].1 as int
                        == payout_of(
                        crate::markets::market_bets(old_bets.take(j as int), market_id@)[k],
                        w_v,
                        total_v,
                        wpool_v,
                    ) && payouts@[k].1 >= 0 && payouts@[k].1 as int <= total_v),
                total_v == sum_amounts_on(old_bets, market_id@),
                wpool_v == sum_bets_on(old_bets, market_id@, w_v),
                total_v <= MAX_SUPPLY,
                0 <= wpool_v <= total_v,
                forall|b: int| 0 <= b < old_bets.len() ==> (#[trigger] old_bets[b].amount) > 0,
            decreases n - j,
        {
            let ghost taken = crate::markets::market_bets(old_bets.take(j as int), market_id@);
            let on_market: bool = crate::ledger::str_eq(
                self.market_manager.bets[j].market_id.as_str(),
                market_id,
            );
            proof {
                assert(self.market_manager.bets@[j as int] == old_bets[j as int]);
                assert(on_market == (old_bets[j as int].market_id@ == market_id@));
            }
            if on_market {
                let b_amt: i64 = self.market_manager.bets[j].amount;
                let pay: i64 = if wpool == 0 {
                    b_amt
                } else if self.market_manager.bets[j].outcome_index == winning_outcome {
                    proof {
                        assert(self.market_manager.bets@[j as int] == old_bets[j as int]);
                        assert(old_bets[j as int].market_id@ == market_id@);
                        assert(old_bets[j as int].outcome_index == winning_outcome);
                        assert(b_amt == old_bets[j as int].amount);
                        crate::markets::lemma_bet_le_sum(old_bets, j as int);
                        assert(b_amt as int <= wpool_v);
                        assert(0 <= b_amt as int <= MAX_SUPPLY as int);
                        assert(0 <= total_v <= MAX_SUPPLY as int);
                        vstd::arithmetic::mul::lemma_mul_upper_bound(
                            b_amt as int,
                            MAX_SUPPLY as int,
                            total_v,
                            MAX_SUPPLY as int,
                        );
                        vstd::arithmetic::mul::lemma_mul_nonnegative(b_amt as int, total_v);
                        vstd::arithmetic::mul::lemma_mul_inequality(
                            b_amt as int,
                            wpool_v,
                            total_v,
                        );
                        vstd::arithmetic::div_mod::lemma_div_is_ordered(
                            b_amt as int * total_v,
                            wpool_v * total_v,
                            wpool_v,
                        );
                        assert(wpool_v * total_v / wpool_v == total_v) by {
                            vstd::arithmetic::mul::lemma_mul_is_commutative(wpool_v, total_v);
                            vstd::arithmetic::div_mod::lemma_div_by_multiple(total_v, wpool_v);
                        }
                        vstd::arithmetic::div_mod::lemma_div_pos_is_pos(
                            b_amt as int * total_v,
                            wpool_v,
                        );
                    }
                    let wide: i128 = (b_amt as i128) * (total as i128);
                    proof {
                        assert(wide == b_amt as int * total_v);
                    }
                    let q: i128 = wide / (wpool as i128);
                    proof {
                        assert(q == b_amt as int * total_v / wpool_v);
                        assert(0 <= q <= total_v);
                    }
                    q as i64
                } else {
                    0
                };
                proof {
                    assert(self.market_manager.bets@[j as int] == old_bets[j as int]);
                    assert(old_bets[j as int].market_id@ == market_id@);
                    if wpool_v == 0 {
                        crate::markets::lemma_bet_le_amounts(old_bets, j as int);
                    }
                    assert(pay as int == payout_of(old_bets[j as int], w_v, total_v, wpool_v));
                    assert(0 <= pay as int <= total_v);
                }
                payouts.push((self.market_manager.bets[j].account.clone(), pay));
            }
            proof {
                assert(old_bets.take(j + 1).drop_last() =~= old_bets.take(j as int));
                assert(old_bets.take(j + 1).last() == old_bets[j as int]);
                reveal_with_fuel(Seq::filter, 2);
                assert(crate::markets::market_bets(old_bets.take(j + 1), market_id@)
                    == if old_bets[j as int].market_id@ == market_id@ {
                    taken.push(old_bets[j as int])
                } else {
                    taken
                });
            }
            j = j + 1;
        }
        proof {
            assert(old_bets.take(n as int) =~= old_bets);
            assert(payouts@.len() == mbets.len());
            // The staged payouts never exceed the total pool.
            assert forall|k: int| 0 <= k < mbets.len() implies (#[trigger] mbets[k].market_id@)
                == market_id@ && mbets[k].amount > 0 by {
                lemma_filter_props(old_bets, market_id@, k);
            }
            crate::markets::lemma_filter_sums(old_bets, market_id@, w_v);
            lemma_pairs_eq(payouts@, mbets, w_v, total_v, wpool_v);
            if wpool_v > 0 {
                lemma_sum_payouts_le(mbets, market_id@, w_v, total_v, wpool_v);
                assert(sum_bets_on(mbets, market_id@, w_v) == wpool_v);
                assert(wpool_v * total_v / wpool_v == total_v) by {
                    vstd::arithmetic::mul::lemma_mul_is_commutative(wpool_v, total_v);
                    vstd::arithmetic::div_mod::lemma_div_by_multiple(total_v, wpool_v);
                }
            } else {
                lemma_sum_payouts_refund(mbets, market_id@, w_v, total_v);
                assert(sum_amounts_on(mbets, market_id@) == total_v);
            }
            assert(sum_pairs(payouts@) <= total_v);
        }
        // Commit: settle every bet of the market exactly once, in order.
        let ghost sum_bal0 = sum_balances(old(self).ledger.accounts@);
        let mut j2: usize = 0;
        let mut k: usize = 0;
        proof {
            assert(mbets.take(0) =~= Seq::<Bet>::empty());
            assert(payouts@.take(0) =~= Seq::<(String, i64)>::empty());
            assert(crate::markets::market_bets(old_bets.take(0), market_id@) =~= Seq::<
                Bet,
            >::empty());
            assert(self.ledger.transactions@.take(old_log.len() as int) =~= old_log);
            assert(forall|a: Seq<char>| #[trigger]
                self.ledger.spec_balance_of(a) == old(self).ledger.spec_balance_of(a)
                    + payouts_to(mbets.take(0), a, w_v, total_v, wpool_v));
        }
        while j2 < n
            invariant
                w_v == winning_outcome as int,
                total_v == total as int,
                wpool_v == wpool as int,
                old_bets == old(self).market_manager.bets@,
                old_markets == old(self).market_manager.markets@,
                old_entries == old(self).escrow.entries@,
                old_log == old(self).ledger.transactions@,
                self.ledger.wf(),
                self.escrow.wf(),
                mi < old_markets.len(),
                n == old_bets.len(),
                j2 <= n,
                k <= mbets.len(),
                self.market_manager.markets@ == old_markets,
                self.market_manager.next_bet_id == old(self).market_manager.next_bet_id,
                old_markets[mi as int].id@ == market_id@,
                old_markets[mi as int].status != MarketStatus::Resolved,
                market_wf(old_markets[mi as int]),
                // Staged payouts.
                mbets == crate::markets::market_bets(old_bets, market_id@),
                payouts@.len() == mbets.len(),
                forall|kk: int|
                    0 <= kk < payouts@.len() ==> ((#[trigger] payouts@[kk]).0@
                        == mbets[kk].account@ && payouts@[kk].1 as int == payout_of(
                        mbets[kk],
                        w_v,
                        total_v,
                        wpool_v,
                    ) && payouts@[kk].1 >= 0 && payouts@[kk].1 as int <= total_v),
                sum_pairs(payouts@) <= total_v,
                total_v == sum_amounts_on(old_bets, market_id@),
                0 <= wpool_v <= total_v,
                total_v <= MAX_SUPPLY,
                sum_bal0 + total_v <= self.ledger.total_supply,
                k as int == crate::markets::market_bets(old_bets.take(j2 as int), market_id@).len(),
                // Old facts.
                forall|b: int| 0 <= b < old_bets.len() ==> (#[trigger] old_bets[b].amount) > 0,
                forall|b: int| 0 <= b < old_bets.len() ==> (#[trigger] old_bets[b].id) as int == b,
                forall|b: int|
                    0 <= b < old_bets.len() && (#[trigger] old_bets[b].market_id@) == market_id@
                        ==> old_bets[b].status == BetStatus::Locked,
                forall|b: int|
                    0 <= b < old_bets.len() ==> ((#[trigger] old_bets[b].status)
                        == BetStatus::Locked <==> has_entry(old_entries, b)),
                forall|b: int|
                    0 <= b < old_bets.len() && (#[trigger] old_bets[b].status)
                        == BetStatus::Locked ==> (spec_entry(old_entries, b).amount
                        == old_bets[b].amount && spec_entry(old_entries, b).account@
                        == old_bets[b].account@ && spec_entry(old_entries, b).market_id@
                        == old_bets[b].market_id@),
                forall|p: int, q: int|
                    0 <= p < q < old_entries.len() ==> (#[trigger] old_entries[p].bet_id)
                        != (#[trigger] old_entries[q].bet_id),
                // Bets: processed market bets are settled, the rest are
                // untouched.
                self.market_manager.bets@.len() == old_bets.len(),
                forall|b: int|
                    j2 <= b < old_bets.len() ==> (#[trigger] self.market_manager.bets@[b])
                        == old_bets[b],
                forall|b: int|
                    0 <= b < j2 && (#[trigger] old_bets[b].market_id@) != market_id@
                        ==> self.market_manager.bets@[b] == old_bets[b],
                forall|b: int|
                    0 <= b < j2 && (#[trigger] old_bets[b].market_id@) == market_id@
                        ==> self.market_manager.bets@[b] == (Bet {
                        status: if payout_of(old_bets[b], w_v, total_v, wpool_v) > 0 {
                            BetStatus::Won
                        } else {
                            BetStatus::Lost
                        },
                        ..old_bets[b]
                    }),
                // Escrow: processed entries removed, the rest untouched.
                self.escrow.entries@.len() == old_entries.len() - k,
                forall|b: int| #[trigger]
                    has_entry(self.escrow.entries@, b) == (has_entry(old_entries, b) && !(0 <= b
                        < j2 && old_bets[b].market_id@ == market_id@)),
                forall|b: int|
                    has_entry(self.escrow.entries@, b) ==> #[trigger] spec_entry(
                        self.escrow.entries@,
                        b,
                    ) == spec_entry(old_entries, b),
                entries_registered(self.escrow.entries@, &self.ledger),
                sum_escrow(self.escrow.entries@) == sum_escrow(old_entries) - sum_amounts_on(
                    old_bets.take(j2 as int),
                    market_id@,
                ),
                sum_escrow(self.escrow.entries@) == sum_locked(self.market_manager.bets@),
                // Ledger.
                self.ledger.total_supply == old(self).ledger.total_supply,
                self.ledger.accounts@.len() == old(self).ledger.accounts@.len(),
                forall|i: int|
                    0 <= i < old(self).ledger.accounts@.len() ==> (#[trigger] self.ledger.accounts@[i]).address
                        == old(self).ledger.accounts@[i].address && self.ledger.accounts@[i].name
                        == old(self).ledger.accounts@[i].name,
                forall|a: Seq<char>| #[trigger]
                    self.ledger.spec_has_address(a) == old(self).ledger.spec_has_address(a),
                forall|a: Seq<char>| #[trigger]
                    self.ledger.spec_balance_of(a) == old(self).ledger.spec_balance_of(a)
                        + payouts_to(mbets.take(k as int), a, w_v, total_v, wpool_v),
                sum_balances(self.ledger.accounts@) == sum_bal0 + sum_pairs(
                    payouts@.take(k as int),
                ),
                // Log.
                self.ledger.transactions@.len() == old_log.len() + k,
                self.ledger.transactions@.take(old_log.len() as int) == old_log,
                forall|kk: int|
                    0 <= kk < k ==> crate::ledger::tx_is(
                        #[trigger] self.ledger.transactions@[old_log.len() + kk],
                        TxKind::BetSettle,
                        market_id@,
                        mbets[kk].account@,
                        payout_of(mbets[kk], w_v, total_v, wpool_v),
                        now as int,
                        old_log.len() + kk,
                    ),
            decreases n - j2,
        {
            let ghost taken = crate::markets::market_bets(old_bets.take(j2 as int), market_id@);
            let on_market: bool = crate::ledger::str_eq(
                self.market_manager.bets[j2].market_id.as_str(),
                market_id,
            );
            proof {
                assert(self.market_manager.bets@[j2 as int] == old_bets[j2 as int]);
            }
            if on_market {
                let bid: u64 = self.market_manager.bets[j2].id;
                let ghost pre_entries = self.escrow.entries@;
                let ghost pre_ledger = *(&self.ledger);
                proof {
                    // This bet is the k-th staged market bet.
                    lemma_filter_take_prefix(old_bets, market_id@, j2 as int);
                    assert(old_bets.take(j2 + 1).drop_last() =~= old_bets.take(j2 as int));
                    assert(old_bets.take(j2 + 1).last() == old_bets[j2 as int]);
                    reveal_with_fuel(Seq::filter, 2);
                    assert(crate::markets::market_bets(old_bets.take(j2 + 1), market_id@)
                        == taken.push(old_bets[j2 as int]));
                    lemma_filter_take_prefix(old_bets, market_id@, j2 + 1);
                    assert(crate::markets::market_bets(old_bets.take(j2 + 1), market_id@)
                        == mbets.take(k + 1));
                    assert(mbets.take(k + 1).last() == old_bets[j2 as int]);
                    assert(mbets.take(k + 1)[k as int] == mbets[k as int]);
                    assert(mbets[k as int] == old_bets[j2 as int]);
                    // The escrow entry is still active and matches.
                    assert(bid as int == j2 as int);
                    assert(old_bets[j2 as int].status == BetStatus::Locked);
                    assert(has_entry(old_entries, j2 as int));
                    assert(has_entry(self.escrow.entries@, j2 as int));
                    assert(spec_entry(self.escrow.entries@, j2 as int) == spec_entry(
                        old_entries,
                        j2 as int,
                    ));
                    // Credit headroom.
                    lemma_pairs_take_le(payouts@, k + 1);
                    assert(payouts@.take(k + 1).drop_last() =~= payouts@.take(k as int));
                    assert(payouts@.take(k + 1).last() == payouts@[k as int]);
                    assert(sum_balances(self.ledger.accounts@) + payouts@[k as int].1
                        <= self.ledger.total_supply);
                }
                let pay: i64 = payouts[k].1;
                self.escrow.settle_entry(&mut self.ledger, bid, pay, now);
                let ghost mid_bets = self.market_manager.bets@;
                if pay > 0 {
                    self.market_manager.bets[j2].status = BetStatus::Won;
                } else {
                    self.market_manager.bets[j2].status = BetStatus::Lost;
                }
                k = k + 1;
                proof {
                    let e = spec_entry(old_entries, j2 as int);
                    let newb = self.market_manager.bets@[j2 as int];
                    assert(self.market_manager.bets@ =~= mid_bets.update(j2 as int, newb));
                    crate::markets::lemma_sums_status_update(
                        mid_bets,
                        j2 as int,
                        newb,
                        market_id@,
                        0,
                    );
                    // Escrow total vs locked total.
                    assert(sum_locked(self.market_manager.bets@) == sum_locked(mid_bets)
                        - old_bets[j2 as int].amount);
                    assert(old_bets.take(j2 + 1).drop_last() =~= old_bets.take(j2 as int));
                    assert(old_bets.take(j2 + 1).last() == old_bets[j2 as int]);
                    assert(sum_amounts_on(old_bets.take(j2 + 1), market_id@) == sum_amounts_on(
                        old_bets.take(j2 as int),
                        market_id@,
                    ) + old_bets[j2 as int].amount);
                    // Per-account balance bookkeeping.
                    assert(mbets.take(k as int).drop_last() =~= mbets.take(k - 1));
                    assert(mbets.take(k as int).last() == mbets[k - 1]);
                    assert forall|a: Seq<char>| #[trigger]
                        self.ledger.spec_balance_of(a) == old(self).ledger.spec_balance_of(a)
                            + payouts_to(mbets.take(k as int), a, w_v, total_v, wpool_v) by {
                        assert(pre_ledger.spec_balance_of(a) == old(self).ledger.spec_balance_of(
                            a,
                        ) + payouts_to(mbets.take(k - 1), a, w_v, total_v, wpool_v));
                        if a == e.account@ {
                            assert(self.ledger.spec_balance_of(a) == pre_ledger.spec_balance_of(a)
                                + pay);
                        } else {
                            assert(self.ledger.spec_balance_of(a) == pre_ledger.spec_balance_of(
                                a,
                            ));
                        }
                    }
                    assert(payouts@.take(k as int).drop_last() =~= payouts@.take(k - 1));
                    assert(payouts@.take(k as int).last() == payouts@[k - 1]);
                    // Log bookkeeping.
                    assert(self.ledger.transactions@.take(old_log.len() as int)
                        =~= pre_ledger.transactions@.take(old_log.len() as int));
                    assert forall|kk: int| 0 <= kk < k implies crate::ledger::tx_is(
                        #[trigger] self.ledger.transactions@[old_log.len() + kk],
                        TxKind::BetSettle,
                        market_id@,
                        mbets[kk].account@,
                        payout_of(mbets[kk], w_v, total_v, wpool_v),
                        now as int,
                        old_log.len() + kk,
                    ) by {
                        if kk < k - 1 {
                            assert(self.ledger.transactions@[old_log.len() + kk]
                                == pre_ledger.transactions@[old_log.len() + kk]);
                        } else {
                            assert(self.ledger.transactions@.last()
                                == self.ledger.transactions@[old_log.len() + k - 1]);
                        }
                    }
                }
            } else {
                proof {
                    assert(old_bets.take(j2 + 1).drop_last() =~= old_bets.take(j2 as int));
                    assert(old_bets.take(j2 + 1).last() == old_bets[j2 as int]);
                    reveal_with_fuel(Seq::filter, 2);
                    assert(crate::markets::market_bets(old_bets.take(j2 + 1), market_id@)
                        == taken);
                    assert(sum_amounts_on(old_bets.take(j2 + 1), market_id@) == sum_amounts_on(
                        old_bets.take(j2 as int),
                        market_id@,
                    ));
                }
            }
            j2 = j2 + 1;
        }
        // Finalize: the market becomes resolved with its winning outcome.
        proof {
            assert(old_bets.take(n as int) =~= old_bets);
            assert(mbets.take(k as int) =~= mbets);
            assert(payouts@.take(k as int) =~= payouts@);
        }
        self.market_manager.markets[mi].status = MarketStatus::Resolved;
        self.market_manager.markets[mi].winning_outcome = Some(winning_outcome);
        proof {
            let new_markets = self.market_manager.markets@;
            let new_bets = self.market_manager.bets@;
            let new_entries = self.escrow.entries@;
            assert(new_markets =~= old_markets.update(
                mi as int,
                Market {
                    status: MarketStatus::Resolved,
                    winning_outcome: Some(winning_outcome),
                    ..old_markets[mi as int]
                },
            ));
            assert forall|b: int| 0 <= b < new_bets.len() implies (#[trigger] new_bets[b].market_id@)
                == old_bets[b].market_id@ && new_bets[b].outcome_index
                == old_bets[b].outcome_index && new_bets[b].amount == old_bets[b].amount
                && new_bets[b].id == old_bets[b].id by {
                if old_bets[b].market_id@ == market_id@ {
                } else {
                }
            }
            // Market-id uniqueness, market soundness and pool sums survive.
            assert forall|jj: int, oo: int|
                0 <= jj < new_markets.len() && 0 <= oo < new_markets[jj].pools@.len() implies (
            #[trigger] new_markets[jj].pools@[oo]) == sum_bets_on(
                new_bets,
                new_markets[jj].id@,
                oo,
            ) by {
                assert(new_markets[jj].pools@ == old_markets[jj].pools@);
                assert(new_markets[jj].id@ == old_markets[jj].id@);
                assert(old_markets[jj].pools@[oo] == sum_bets_on(old_bets, old_markets[jj].id@, oo));
                lemma_sums_pointwise(old_bets, new_bets, old_markets[jj].id@, oo);
            }
            assert forall|jj: int| 0 <= jj < new_markets.len() implies sum_pools(
                (#[trigger] new_markets[jj]).pools@,
            ) <= MAX_SUPPLY by {
                assert(new_markets[jj].pools@ == old_markets[jj].pools@);
            }
            assert forall|b: int| 0 <= b < new_bets.len() implies has_market_in(
                new_markets,
                (#[trigger] new_bets[b]).market_id@,
            ) by {
                assert(has_market_in(old_markets, old_bets[b].market_id@));
                let w = choose|kk: int|
                    0 <= kk < old_markets.len() && (#[trigger] old_markets[kk].id@)
                        == old_bets[b].market_id@;
                assert(new_markets[w].id@ == old_bets[b].market_id@);
            }
            // Lock-status coupling with market status.
            assert forall|b: int, m: int|
                0 <= b < new_bets.len() && 0 <= m < new_markets.len()
                    && (#[trigger] new_bets[b].market_id@) == (#[trigger] new_markets[m].id@)
                    implies (new_bets[b].status == BetStatus::Locked <==> new_markets[m].status
                    != MarketStatus::Resolved) by {
                if m == mi as int {
                    assert(old_bets[b].market_id@ == market_id@);
                    assert(payout_of(old_bets[b], w_v, total_v, wpool_v) > 0 ==> new_bets[b].status
                        == BetStatus::Won);
                } else {
                    assert(old_markets[m].id@ != market_id@);
                    assert(old_bets[b].market_id@ != market_id@);
                    assert(new_bets[b] == old_bets[b]);
                    assert(new_markets[m] == old_markets[m]);
                }
            }
            // Escrow coupling.
            assert forall|b: int|
                0 <= b < new_bets.len() implies ((#[trigger] new_bets[b].status)
                == BetStatus::Locked <==> has_entry(new_entries, new_bets[b].id as int)) by {
                assert(new_bets[b].id as int == b);
                if old_bets[b].market_id@ == market_id@ {
                    assert(!has_entry(new_entries, b));
                } else {
                    assert(new_bets[b] == old_bets[b]);
                    assert(has_entry(new_entries, b) == has_entry(old_entries, b));
                }
            }
            assert forall|b: int|
                0 <= b < new_bets.len() && (#[trigger] new_bets[b].status) == BetStatus::Locked
                    implies (spec_entry(new_entries, new_bets[b].id as int).amount
                    == new_bets[b].amount && spec_entry(new_entries, new_bets[b].id as int).account@
                    == new_bets[b].account@ && spec_entry(
                    new_entries,
                    new_bets[b].id as int,
                ).market_id@ == new_bets[b].market_id@) by {
                assert(new_bets[b].id as int == b);
                assert(old_bets[b].market_id@ != market_id@);
                assert(new_bets[b] == old_bets[b]);
                assert(has_entry(new_entries, b));
                assert(spec_entry(new_entries, b) == spec_entry(old_entries, b));
            }
            assert forall|e: int| 0 <= e < new_entries.len() implies has_bet_in(
                new_bets,
                (#[trigger] new_entries[e].bet_id) as int,
            ) by {
                assert(has_entry(new_entries, new_entries[e].bet_id as int));
                assert(has_entry(old_entries, new_entries[e].bet_id as int));
                let w = choose|kk: int|
                    0 <= kk < old_entries.len() && (#[trigger] old_entries[kk].bet_id) as int
                        == new_entries[e].bet_id as int;
                assert(has_bet_in(old_bets, old_entries[w].bet_id as int));
                let wb = choose|kk: int|
                    0 <= kk < old_bets.len() && (#[trigger] old_bets[kk].id) as int
                        == new_entries[e].bet_id as int;
                assert(new_bets[wb].id as int == new_entries[e].bet_id as int);
            }
            // The old market is found under its id, and the staged totals
            // are exactly its pool figures.
            let wold = choose|kk: int|
                0 <= kk < old_markets.len() && (#[trigger] old_markets[kk].id@) == market_id@;
            assert(wold == mi as int) by {
                if wold < mi as int {
                    assert(old_markets[wold].id@ != old_markets[mi as int].id@);
                } else if (mi as int) < wold {
                    assert(old_markets[mi as int].id@ != old_markets[wold].id@);
                }
            }
            assert(spec_market(old_markets, market_id@) == old_markets[mi as int]);
            assert forall|b: int|
                0 <= b < old_bets.len() && (#[trigger] old_bets[b].market_id@) == market_id@ implies (
            old_bets[b].outcome_index as int) < old_markets[mi as int].pools@.len() by {
                assert(old_bets[b].market_id@ == old_markets[mi as int].id@);
                assert(market_wf(old_markets[mi as int]));
            }
            crate::markets::lemma_pools_total(old_markets[mi as int].pools@, old_bets, market_id@);
            assert(total_v == sum_pools(old_markets[mi as int].pools@));
            assert(wpool_v == old_markets[mi as int].pools@[w_v] as int);
            // The resolved market is found under its id.
            let wfin = choose|kk: int|
                0 <= kk < new_markets.len() && (#[trigger] new_markets[kk].id@) == market_id@;
            assert(new_markets[mi as int].id@ == market_id@);
            assert(wfin == mi as int) by {
                if wfin < mi as int {
                    assert(new_markets[wfin].id@ != new_markets[mi as int].id@);
                } else if (mi as int) < wfin {
                    assert(new_markets[mi as int].id@ != new_markets[wfin].id@);
                }
            }
            // Escrow sum accounting.
            assert(sum_escrow(new_entries) == sum_escrow(old_entries) - total_v);
            // The log prefix is the old log.
            assert(self.ledger.transactions@.take(old_log.len() as int) == old_log);
        }
        Ok(payouts)
    }

    /// A copy of the whole transaction log; see
    /// [`Ledger::get_all_transactions`].
    pub fn get_all_transactions(&self) -> (r: Vec<Transaction>)
        ensures
            r@ == self.ledger.spec_log(),
    {
        self.ledger.get_all_transactions()
    }

    /// The transactions involving one account; see
    /// [`Ledger::get_account_transactions`].
    pub fn get_account_transactions(&self, address: &str) -> (r: Vec<Transaction>)
        ensures
            r@ == self.ledger.spec_log().filter(
                |t: Transaction| t.from@ == address@ || t.to@ == address@,
            ),
    {
        self.ledger.get_account_transactions(address)
    }

    /// Aggregate ledger statistics; see [`Ledger::get_stats`].
    pub fn get_stats(&self) -> (r: LedgerStats)
        ensures
            r.total_supply as int == self.ledger.spec_supply(),
            r.transaction_count == self.ledger.spec_log().len(),
            r.account_count == self.ledger.spec_accounts().len(),
    {
        self.ledger.get_stats()
    }

    /// All recipes, newest first; see [`Ledger::get_recipes_sorted`].
    pub fn get_recipes_sorted(&self) -> (r: Vec<crate::recipes::Recipe>)
        requires
            self.wf(),
        ensures
            crate::recipes::recipes_sorted(r@),
            r@.len() == self.ledger.spec_log().len(),
            crate::recipes::views_of(r@).to_multiset() == crate::recipes::recipes_of_log(
                self.ledger.spec_log(),
            ).to_multiset(),
    {
        self.ledger.get_recipes_sorted()
    }

    /// The recipes involving one account, newest first; see
    /// [`Ledger::get_account_recipes_sorted`].
    pub fn get_account_recipes_sorted(&self, address: &str) -> (r: Vec<crate::recipes::Recipe>)
        requires
            self.wf(),
        ensures
            crate::recipes::recipes_sorted(r@),
            crate::recipes::views_of(r@).to_multiset() == crate::recipes::recipes_of_log(
                crate::recipes::involving(self.ledger.spec_log(), address@),
            ).to_multiset(),
    {
        self.ledger.get_account_recipes_sorted(address)
    }

    /// The recipes of one display type, newest first; see
    /// [`Ledger::get_recipes_by_type`].
    pub fn get_recipes_by_type(&self, recipe_type: &str) -> (r: Vec<crate::recipes::Recipe>)
        requires
            self.wf(),
        ensures
            crate::recipes::recipes_sorted(r@),
            crate::recipes::views_of(r@).to_multiset() == crate::recipes::with_type(
                crate::recipes::recipes_of_log(self.ledger.spec_log()),
                recipe_type@,
            ).to_multiset(),
    {
        self.ledger.get_recipes_by_type(recipe_type)
    }

    /// Copies of the open markets; see [`MarketManager::get_open_markets`].
    pub fn get_open_markets(&self) -> (r: Vec<Market>)
        ensures
            r@.len() == self.market_manager.spec_markets().filter(
                |m: Market| m.status == MarketStatus::Open,
            ).len(),
    {
        self.market_manager.get_open_markets()
    }

    /// Copies of all markets; see [`MarketManager::get_all_markets`].
    pub fn get_all_markets(&self) -> (r: Vec<Market>)
        ensures
            r@.len() == self.market_manager.spec_markets().len(),
            forall|k: int|
                0 <= k < r@.len() ==> crate::markets::market_like(
                    #[trigger] r@[k],
                    self.market_manager.spec_markets()[k],
                ),
    {
        self.market_manager.get_all_markets()
    }

    /// The bets of one account; see [`MarketManager::get_account_bets`].
    pub fn get_account_bets(&self, account: &str) -> (r: Vec<Bet>)
        ensures
            r@ == self.market_manager.spec_bets().filter(|b: Bet| b.account@ == account@),
    {
        self.market_manager.get_account_bets(account)
    }


    /// Creates a market from a wire-level request; the engine effect is
    /// that of [`Engine::create_market`] on the request's fields.
    pub fn create_market_from(&mut self, req: CreateMarketRequest) -> (r: Result<(), LedgerError>)
        requires
            old(self).wf(),
            req.outcomes@.len() >= 2,
        ensures
            final(self).wf(),
            final(self).ledger == old(self).ledger,
            final(self).escrow == old(self).escrow,
            has_market_in(old(self).market_manager.spec_markets(), req.id@) ==> r == Err::<
                (),
                LedgerError,
            >(LedgerError::DuplicateMarketId) && *final(self) == *old(self),
            !has_market_in(old(self).market_manager.spec_markets(), req.id@) ==> {
                &&& r == Ok::<(), LedgerError>(())
                &&& final(self).market_manager.spec_markets().len() == old(self).market_manager.spec_markets().len() + 1
                &&& final(self).market_manager.spec_markets().drop_last() == old(self).market_manager.spec_markets()
                &&& final(self).market_manager.spec_markets().last().id@ == req.id@
                &&& final(self).market_manager.spec_markets().last().status == MarketStatus::Open
                &&& final(self).market_manager.spec_markets().last().pools@.len()
                    == req.outcomes@.len()
                &&& forall|o: int|
                    0 <= o < req.outcomes@.len() ==> (#[trigger] final(self).market_manager.spec_markets().last().pools@[o]) == 0
                &&& final(self).market_manager.spec_bets() == old(self).market_manager.spec_bets()
            },
    {
        let CreateMarketRequest { id, title, description, outcomes, category, resolution_source } =
            req;
        self.create_market(id, title, description, outcomes, category, resolution_source)
    }

    /// Resolves a market from a wire-level request; the engine effect is
    /// that of [`Engine::resolve`] on the request's fields.
    pub fn resolve_market(&mut self, req: ResolveMarketRequest, now: i64) -> (r: Result<
        Vec<(String, i64)>,
        LedgerError,
    >)
        requires
            old(self).wf(),
        ensures
            final(self).wf(),
            r is Err ==> *final(self) == *old(self),
            !has_market_in(old(self).market_manager.spec_markets(), req.market_id@) ==> (r == Err::<
                Vec<(String, i64)>,
                LedgerError,
            >(LedgerError::UnknownMarket)),
            ({
                let m = spec_market(old(self).market_manager.spec_markets(), req.market_id@);
                has_market_in(old(self).market_manager.spec_markets(), req.market_id@)
                    && req.winning_outcome as int >= m.outcomes@.len() ==> (r == Err::<
                    Vec<(String, i64)>,
                    LedgerError,
                >(LedgerError::InvalidOutcomeIndex))
            }),
            ({
                let m = spec_market(old(self).market_manager.spec_markets(), req.market_id@);
                has_market_in(old(self).market_manager.spec_markets(), req.market_id@) && (
                req.winning_outcome as int) < m.outcomes@.len() && m.status == MarketStatus::Resolved
                    ==> (r == Err::<Vec<(String, i64)>, LedgerError>(
                    LedgerError::MarketAlreadyResolved,
                ))
            }),
            ({
                let m = spec_market(old(self).market_manager.spec_markets(), req.market_id@);
                let mbets = crate::markets::market_bets(
                    old(self).market_manager.spec_bets(),
                    req.market_id@,
                );
                let total = sum_pools(m.pools@);
                let wpool = m.pools@[req.winning_outcome as int] as int;
                has_market_in(old(self).market_manager.spec_markets(), req.market_id@) && (
                req.winning_outcome as int) < m.outcomes@.len() && m.status != MarketStatus::Resolved
                    ==> {
                    &&& r is Ok
                    &&& (r->Ok_0)@.len() == mbets.len()
                    &&& forall|k: int|
                        0 <= k < mbets.len() ==> ((#[trigger] (r->Ok_0)@[k]).0@
                            == mbets[k].account@ && (r->Ok_0)@[k].1 as int == payout_of(
                            mbets[k],
                            req.winning_outcome as int,
                            total,
                            wpool,
                        ))
                    &&& sum_pairs((r->Ok_0)@) <= total
                    &&& wpool == 0 ==> sum_pairs((r->Ok_0)@) == total
                    &&& spec_market(final(self).market_manager.spec_markets(), req.market_id@).status
                        == MarketStatus::Resolved
                    &&& spec_market(
                        final(self).market_manager.spec_markets(),
                        req.market_id@,
                    ).winning_outcome == Some(req.winning_outcome)
                    &&& spec_market(final(self).market_manager.spec_markets(), req.market_id@).pools@
                        == m.pools@
                    &&& final(self).market_manager.spec_markets().len() == old(self).market_manager.spec_markets().len()
                    &&& forall|j: int|
                        0 <= j < old(self).market_manager.spec_markets().len() && (#[trigger] old(self).market_manager.spec_markets()[j].id@) != req.market_id@ ==> final(self).market_manager.spec_markets()[j] == old(self).market_manager.spec_markets()[j]
                    &&& final(self).market_manager.spec_bets().len() == old(self).market_manager.spec_bets().len()
                    &&& forall|b: int|
                        0 <= b < old(self).market_manager.spec_bets().len() && (#[trigger] old(self).market_manager.spec_bets()[b].market_id@) != req.market_id@ ==> final(self).market_manager.spec_bets()[b] == old(self).market_manager.spec_bets()[b]
                    &&& forall|b: int|
                        0 <= b < old(self).market_manager.spec_bets().len() && (#[trigger] old(self).market_manager.spec_bets()[b].market_id@) == req.market_id@ ==> final(self).market_manager.spec_bets()[b] == (Bet {
                            status: if payout_of(
                                old(self).market_manager.spec_bets()[b],
                                req.winning_outcome as int,
                                total,
                                wpool,
                            ) > 0 {
                                BetStatus::Won
                            } else {
                                BetStatus::Lost
                            },
                            ..old(self).market_manager.spec_bets()[b]
                        })
                    &&& forall|a: Seq<char>| #[trigger]
                        final(self).ledger.spec_balance_of(a) == old(self).ledger.spec_balance_of(a) + payouts_to(
                            mbets,
                            a,
                            req.winning_outcome as int,
                            total,
                            wpool,
                        )
                    &&& final(self).ledger.spec_supply() == old(self).ledger.spec_supply()
                    &&& final(self).ledger.spec_log().len() == old(self).ledger.spec_log().len()
                        + mbets.len()
                    &&& final(self).ledger.spec_log().take(
                        old(self).ledger.spec_log().len() as int,
                    ) == old(self).ledger.spec_log()
                    &&& forall|k: int|
                        0 <= k < mbets.len() ==> crate::ledger::tx_is(
                            #[trigger] final(self).ledger.spec_log()[old(self).ledger.spec_log().len() + k],
                            TxKind::BetSettle,
                            req.market_id@,
                            mbets[k].account@,
                            payout_of(mbets[k], req.winning_outcome as int, total, wpool),
                            now as int,
                            old(self).ledger.spec_log().len() + k,
                        )
                    &&& final(self).escrow.spec_entries().len() == old(self).escrow.spec_entries().len() - mbets.len()
                    &&& sum_escrow(final(self).escrow.spec_entries()) == sum_escrow(
                        old(self).escrow.spec_entries(),
                    ) - total
                    &&& forall|b: int|
                        0 <= b < old(self).market_manager.spec_bets().len() && (#[trigger] old(self).market_manager.spec_bets()[b].market_id@) == req.market_id@ ==> !has_entry(
                            final(self).escrow.spec_entries(),
                            b,
                        )
                }
            }),
    {
        self.resolve(req.market_id.as_str(), req.winning_outcome, now)
    }

    /// Per-market statistics; see [`MarketManager::get_market_stats`].
    pub fn get_market_stats(&self, id: &str) -> (r: Result<MarketStats, LedgerError>)
        requires
            self.wf(),
        ensures
            !has_market_in(self.market_manager.spec_markets(), id@) ==> r == Err::<
                MarketStats,
                LedgerError,
            >(LedgerError::UnknownMarket),
            has_market_in(self.market_manager.spec_markets(), id@) ==> (r is Ok) && {
                let m = spec_market(self.market_manager.spec_markets(), id@);
                let s = r->Ok_0;
                &&& s.pools@ == m.pools@
                &&& s.total_volume as int == sum_pools(m.pools@)
                &&& s.resolved == (m.status == MarketStatus::Resolved)
            },
    {
        self.market_manager.get_market_stats(id)
    }
}

} // verus!
