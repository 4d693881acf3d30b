//! Escrow: funds locked against individual bets.
//!
//! Locking a bet debits the bettor's spendable balance and records an entry
//! keyed by the bet id; settlement removes the entry exactly once, crediting
//! the payout for a win and nothing for a loss.  Every movement is logged in
//! the ledger.

use vstd::prelude::*;

use crate::errors::LedgerError;
use crate::ledger::{sum_balances, Ledger, TxKind};

verus! {

/// Funds earmarked for one pending bet, excluded from the spendable
/// balance until settlement.
pub struct EscrowEntry {
    pub bet_id: u64,
    pub account: String,
    pub amount: i64,
    pub market_id: String,
}

/// The set of active escrow entries, at most one per bet id.
pub struct Escrow {
    pub entries: Vec<EscrowEntry>,
}

/// The total amount currently held in escrow.
pub open spec fn sum_escrow(entries: Seq<EscrowEntry>) -> int
    decreases entries.len(),
{
    if entries.len() == 0 {
        0
    } else {
        sum_escrow(entries.drop_last()) + entries.last().amount
    }
}

/// Whether an entry for `bet_id` is active.
pub open spec fn has_entry(entries: Seq<EscrowEntry>, bet_id: int) -> bool {
    exists|i: int| 0 <= i < entries.len() && (#[trigger] entries[i].bet_id) as int == bet_id
}

/// The active entry for `bet_id`; meaningful only when `has_entry` holds
/// and bet ids are unique.
pub open spec fn spec_entry(entries: Seq<EscrowEntry>, bet_id: int) -> EscrowEntry {
    entries[choose|i: int|
        0 <= i < entries.len() && (#[trigger] entries[i].bet_id) as int == bet_id]
}

/// Whether every escrowed account is registered in `l`.
pub open spec fn entries_registered(entries: Seq<EscrowEntry>, l: &Ledger) -> bool {
    forall|i: int|
        0 <= i < entries.len() ==> l.spec_has_address((#[trigger] entries[i]).account@)
}

impl Escrow {
    /// The active entries, oldest lock first.
    pub open spec fn spec_entries(&self) -> Seq<EscrowEntry> {
        self.entries@
    }

    /// Well-formedness: bet ids are unique and no escrowed amount is zero
    /// or negative.
    pub open spec fn wf(&self) -> bool {
        &&& forall|i: int, j: int|
            0 <= i < j < self.entries@.len() ==> (#[trigger] self.entries@[i].bet_id)
                != (#[trigger] self.entries@[j].bet_id)
        &&& forall|i: int| 0 <= i < self.entries@.len() ==> (#[trigger] self.entries@[i].amount) > 0
    }
}

// ---------------------------------------------------------------------------
// Lemmas about escrow sums and lookups.
// ---------------------------------------------------------------------------

/// Appending an entry adds its amount to the escrow total.
pub proof fn lemma_sum_escrow_push(entries: Seq<EscrowEntry>, e: EscrowEntry)
    ensures
        sum_escrow(entries.push(e)) == sum_escrow(entries) + e.amount,
{
    assert(entries.push(e).drop_last() =~= entries);
}

/// The escrow total is not negative when every amount is positive.
pub proof fn lemma_sum_escrow_nonneg(entries: Seq<EscrowEntry>)
    requires
        forall|i: int| 0 <= i < entries.len() ==> (#[trigger] entries[i].amount) > 0,
    ensures
        sum_escrow(entries) >= 0,
    decreases entries.len(),
{
    if entries.len() > 0 {
        assert(forall|k: int|
            0 <= k < entries.drop_last().len() ==> entries.drop_last()[k] == entries[k]);
        lemma_sum_escrow_nonneg(entries.drop_last());
    }
}

/// Removing one entry takes exactly its amount out of the escrow total.
pub proof fn lemma_sum_escrow_remove(entries: Seq<EscrowEntry>, i: int)
    requires
        0 <= i < entries.len(),
    ensures
        sum_escrow(entries.remove(i)) == sum_escrow(entries) - entries[i].amount,
    decreases entries.len(),
{
    let removed = entries.remove(i);
    if i == entries.len() - 1 {
        assert(removed =~= entries.drop_last());
    } else {
        assert(removed.drop_last() =~= entries.drop_last().remove(i));
        assert(removed.last() == entries.last());
        lemma_sum_escrow_remove(entries.drop_last(), i);
    }
}

/// After removing the entry at `i`, its bet id is gone and every other bet
/// id keeps its entry.
pub proof fn lemma_remove_entry(entries: Seq<EscrowEntry>, i: int)
    requires
        0 <= i < entries.len(),
        forall|p: int, q: int|
            0 <= p < q < entries.len() ==> (#[trigger] entries[p].bet_id)
                != (#[trigger] entries[q].bet_id),
    ensures
        !has_entry(entries.remove(i), entries[i].bet_id as int),
        forall|b: int|
            b != entries[i].bet_id as int ==> #[trigger] has_entry(entries.remove(i), b)
                == has_entry(entries, b),
        forall|b: int|
            b != entries[i].bet_id as int && has_entry(entries, b) ==> #[trigger] spec_entry(
                entries.remove(i),
                b,
            ) == spec_entry(entries, b),
        forall|p: int, q: int|
            0 <= p < q < entries.remove(i).len() ==> (#[trigger] entries.remove(i)[p].bet_id)
                != (#[trigger] entries.remove(i)[q].bet_id),
        forall|j: int|
            0 <= j < entries.remove(i).len() ==> exists|k: int|
                0 <= k < entries.len() && #[trigger] entries.remove(i)[j] == entries[k],
{
    let removed = entries.remove(i);
    assert(forall|j: int|
        0 <= j < removed.len() ==> removed[j] == if j < i {
            entries[j]
        } else {
            entries[j + 1]
        });
    assert forall|j: int| 0 <= j < removed.len() implies exists|k: int|
        0 <= k < entries.len() && #[trigger] removed[j] == entries[k] by {
        if j < i {
            assert(removed[j] == entries[j]);
        } else {
            assert(removed[j] == entries[j + 1]);
        }
    }
    if has_entry(removed, entries[i].bet_id as int) {
        let w = choose|k: int|
            0 <= k < removed.len() && (#[trigger] removed[k].bet_id) as int == entries[i].bet_id as int;
        if w < i {
            assert(entries[w].bet_id == entries[i].bet_id);
        } else {
            assert(entries[w + 1].bet_id == entries[i].bet_id);
        }
        assert(false);
    }
    assert forall|b: int| b != entries[i].bet_id as int implies #[trigger] has_entry(removed, b)
        == has_entry(entries, b) by {
        if has_entry(entries, b) {
            let w = choose|k: int|
                0 <= k < entries.len() && (#[trigger] entries[k].bet_id) as int == b;
            if w < i {
                assert(removed[w].bet_id as int == b);
            } else {
                assert(removed[w - 1].bet_id as int == b);
            }
        }
        if has_entry(removed, b) {
            let w = choose|k: int|
                0 <= k < removed.len() && (#[trigger] removed[k].bet_id) as int == b;
            if w < i {
                assert(entries[w].bet_id as int == b);
            } else {
                assert(entries[w + 1].bet_id as int == b);
            }
        }
    }
    assert forall|b: int|
        b != entries[i].bet_id as int && has_entry(entries, b) implies #[trigger] spec_entry(
        removed,
        b,
    ) == spec_entry(entries, b) by {
        assert(has_entry(removed, b));
        let w1 = choose|k: int|
            0 <= k < entries.len() && (#[trigger] entries[k].bet_id) as int == b;
        assert(0 <= w1 < entries.len() && entries[w1].bet_id as int == b);
        let w2 = choose|k: int|
            0 <= k < removed.len() && (#[trigger] removed[k].bet_id) as int == b;
        assert(0 <= w2 < removed.len() && removed[w2].bet_id as int == b);
        assert(spec_entry(entries, b) == entries[w1]);
        assert(spec_entry(removed, b) == removed[w2]);
        if w2 < i {
            assert(removed[w2] == entries[w2]);
            assert(entries[w2] == entries[w1]) by {
                if w1 < w2 {
                    assert(entries[w1].bet_id != entries[w2].bet_id);
                } else if w2 < w1 {
                    assert(entries[w2].bet_id != entries[w1].bet_id);
                }
            }
        } else {
            assert(removed[w2] == entries[w2 + 1]);
            assert(entries[w2 + 1] == entries[w1]) by {
                if w1 < w2 + 1 {
                    assert(entries[w1].bet_id != entries[w2 + 1].bet_id);
                } else if w2 + 1 < w1 {
                    assert(entries[w2 + 1].bet_id != entries[w1].bet_id);
                }
            }
        }
    }
}

/// Appending an entry with a fresh bet id keeps every existing lookup and
/// makes the new id active.
pub proof fn lemma_push_entry(entries: Seq<EscrowEntry>, e: EscrowEntry)
    requires
        !has_entry(entries, e.bet_id as int),
        forall|p: int, q: int|
            0 <= p < q < entries.len() ==> (#[trigger] entries[p].bet_id)
                != (#[trigger] entries[q].bet_id),
    ensures
        has_entry(entries.push(e), e.bet_id as int),
        spec_entry(entries.push(e), e.bet_id as int) == e,
        forall|b: int|
            b != e.bet_id as int ==> #[trigger] has_entry(entries.push(e), b) == has_entry(
                entries,
                b,
            ),
        forall|b: int|
            b != e.bet_id as int && has_entry(entries, b) ==> #[trigger] spec_entry(
                entries.push(e),
                b,
            ) == spec_entry(entries, b),
{
    let pushed = entries.push(e);
    assert(pushed[entries.len() as int] == e);
    assert forall|b: int| b != e.bet_id as int implies #[trigger] has_entry(pushed, b)
        == has_entry(entries, b) by {
        if has_entry(entries, b) {
            let w = choose|k: int|
                0 <= k < entries.len() && (#[trigger] entries[k].bet_id) as int == b;
            assert(pushed[w].bet_id as int == b);
        }
        if has_entry(pushed, b) {
            let w = choose|k: int|
                0 <= k < pushed.len() && (#[trigger] pushed[k].bet_id) as int == b;
            assert(w < entries.len());
            assert(entries[w].bet_id as int == b);
        }
    }
    assert forall|b: int|
        b != e.bet_id as int && has_entry(entries, b) implies #[trigger] spec_entry(pushed, b)
        == spec_entry(entries, b) by {
        assert(has_entry(pushed, b));
        let w1 = choose|k: int|
            0 <= k < entries.len() && (#[trigger] entries[k].bet_id) as int == b;
        let w2 = choose|k: int|
            0 <= k < pushed.len() && (#[trigger] pushed[k].bet_id) as int == b;
        assert(0 <= w1 < entries.len() && entries[w1].bet_id as int == b);
        assert(0 <= w2 < pushed.len() && pushed[w2].bet_id as int == b);
        assert(w2 < entries.len());
        assert(spec_entry(entries, b) == entries[w1]);
        assert(spec_entry(pushed, b) == pushed[w2]);
        assert(pushed[w2] == entries[w2]);
        assert(w1 == w2) by {
            if w1 < w2 {
                assert(entries[w1].bet_id != entries[w2].bet_id);
            } else if w2 < w1 {
                assert(entries[w2].bet_id != entries[w1].bet_id);
            }
        }
    }
    let wn = choose|k: int|
        0 <= k < pushed.len() && (#[trigger] pushed[k].bet_id) as int == e.bet_id as int;
    assert(pushed[entries.len() as int].bet_id as int == e.bet_id as int);
    assert(wn == entries.len() as int) by {
        if wn < entries.len() {
            assert(entries[wn].bet_id as int == e.bet_id as int);
        }
    }
}

// ---------------------------------------------------------------------------
// Operations.
// ---------------------------------------------------------------------------

impl Escrow {
    /// A fresh escrow with no active entries.
    pub fn new() -> (r: Escrow)
        ensures
            r.wf(),
            r.spec_entries().len() == 0,
    {
        Escrow { entries: Vec::new() }
    }

    /// The index of the active entry for `bet_id`, if any.
    fn find_entry(&self, bet_id: u64) -> (r: Option<usize>)
        ensures
            match r {
                Some(i) => i < self.entries@.len() && self.entries@[i as int].bet_id == bet_id,
                None => !has_entry(self.entries@, bet_id as int),
            },
    {
        let n: usize = self.entries.len();
        let mut i: usize = 0;
        while i < n
            invariant
                n == self.entries@.len(),
                i <= n,
                forall|j: int| 0 <= j < i ==> (#[trigger] self.entries@[j].bet_id) != bet_id,
            decreases n - i,
        {
            if self.entries[i].bet_id == bet_id {
                return Some(i);
            }
            i = i + 1;
        }
        None
    }

    /// Locks `amount` of `account`'s spendable balance against bet
    /// `bet_id` on `market_id` and logs a bet-lock transaction.  Checked in
    /// order: fails `InvalidAmount` when the amount is not positive,
    /// `DuplicateBet` when the bet id is already escrowed,
    /// `InsufficientBalance` when the spendable balance cannot cover the
    /// amount; no effect on failure.
    pub fn lock(
        &mut self,
        ledger: &mut Ledger,
        account: &str,
        amount: i64,
        market_id: &str,
        bet_id: u64,
        now: i64,
    ) -> (r: Result<(), LedgerError>)
        requires
            old(self).wf(),
            old(ledger).wf(),
        ensures
            final(self).wf(),
            final(ledger).wf(),
            amount <= 0 ==> r == Err::<(), LedgerError>(LedgerError::InvalidAmount) && *final(self)
                == *old(self) && *final(ledger) == *old(ledger),
            amount > 0 && has_entry(old(self).spec_entries(), bet_id as int) ==> r == Err::<
                (),
                LedgerError,
            >(LedgerError::DuplicateBet) && *final(self) == *old(self) && *final(ledger) == *old(ledger),
            amount > 0 && !has_entry(old(self).spec_entries(), bet_id as int) && old(ledger).spec_balance_of(account@) < amount ==> r == Err::<(), LedgerError>(
                LedgerError::InsufficientBalance,
            ) && *final(self) == *old(self) && *final(ledger) == *old(ledger),
            amount > 0 && !has_entry(old(self).spec_entries(), bet_id as int) && old(ledger).spec_balance_of(account@) >= amount ==> {
                &&& r == Ok::<(), LedgerError>(())
                &&& final(self).spec_entries().len() == old(self).spec_entries().len() + 1
                &&& final(self).spec_entries().drop_last() == old(self).spec_entries()
                &&& final(self).spec_entries().last().bet_id == bet_id
                &&& final(self).spec_entries().last().account@ == account@
                &&& final(self).spec_entries().last().amount == amount
                &&& final(self).spec_entries().last().market_id@ == market_id@
                &&& sum_escrow(final(self).spec_entries()) == sum_escrow(old(self).spec_entries())
                    + amount
                &&& has_entry(final(self).spec_entries(), bet_id as int)
                &&& final(ledger).spec_balance_of(account@) == old(ledger).spec_balance_of(
                    account@,
                ) - amount
                &&& forall|a: Seq<char>|
                    a != account@ ==> final(ledger).spec_balance_of(a) == old(ledger).spec_balance_of(a)
                &&& sum_balances(final(ledger).spec_accounts()) == sum_balances(
                    old(ledger).spec_accounts(),
                ) - amount
                &&& final(ledger).spec_accounts().len() == old(ledger).spec_accounts().len()
                &&& forall|i: int|
                    0 <= i < old(ledger).spec_accounts().len() ==> (#[trigger] final(ledger).spec_accounts()[i]).address == old(ledger).spec_accounts()[i].address
                        && final(ledger).spec_accounts()[i].name == old(ledger).spec_accounts()[i].name
                &&& forall|a: Seq<char>| #[trigger]
                    final(ledger).spec_has_address(a) == old(ledger).spec_has_address(a)
                &&& final(ledger).spec_supply() == old(ledger).spec_supply()
                &&& final(ledger).spec_log().len() == old(ledger).spec_log().len() + 1
                &&& final(ledger).spec_log().drop_last() == old(ledger).spec_log()
                &&& crate::ledger::tx_is(
                    final(ledger).spec_log().last(),
                    TxKind::BetLock,
                    account@,
                    market_id@,
                    amount as int,
                    now as int,
                    old(ledger).spec_log().len() as int,
                )
            },
    {
        if amount <= 0 {
            return Err(LedgerError::InvalidAmount);
        }
        if self.find_entry(bet_id).is_some() {
            return Err(LedgerError::DuplicateBet);
        }
        let balance: i64 = ledger.get_balance(account);
        if balance < amount {
            return Err(LedgerError::InsufficientBalance);
        }
        proof {
            if !old(ledger).spec_has_address(account@) {
                crate::ledger::lemma_balance_in_absent(old(ledger).spec_accounts(), account@);
            }
        }
        ledger.debit(account, amount);
        let entry = EscrowEntry {
            bet_id,
            account: account.to_owned(),
            amount,
            market_id: market_id.to_owned(),
        };
        proof {
            lemma_sum_escrow_push(self.entries@, entry);
        }
        self.entries.push(entry);
        proof {
            assert(self.entries@.drop_last() =~= old(self).entries@);
            assert(self.entries@[self.entries@.len() - 1].bet_id == bet_id);
        }
        let _tx: u64 = ledger.append_tx(
            TxKind::BetLock,
            account.to_owned(),
            market_id.to_owned(),
            amount,
            now,
        );
        Ok(())
    }

    /// Removes the entry for `bet_id`, credits `payout` to its account
    /// when the payout is positive, and logs a bet-settle transaction whose
    /// amount is the payout (0 marks a forfeited stake).
    pub(crate) fn settle_entry(&mut self, ledger: &mut Ledger, bet_id: u64, payout: i64, now: i64)
        requires
            old(self).wf(),
            old(ledger).wf(),
            entries_registered(old(self).spec_entries(), old(ledger)),
            payout >= 0,
            has_entry(old(self).spec_entries(), bet_id as int),
            payout > 0 ==> sum_balances(old(ledger).spec_accounts()) + payout <= old(ledger).spec_supply(),
        ensures
            final(self).wf(),
            final(ledger).wf(),
            ({
                let e = spec_entry(old(self).spec_entries(), bet_id as int);
                &&& final(self).spec_entries().len() == old(self).spec_entries().len() - 1
                &&& !has_entry(final(self).spec_entries(), bet_id as int)
                &&& forall|b: int|
                    b != bet_id as int ==> #[trigger] has_entry(final(self).spec_entries(), b)
                        == has_entry(old(self).spec_entries(), b)
                &&& forall|b: int|
                    b != bet_id as int && has_entry(old(self).spec_entries(), b)
                        ==> #[trigger] spec_entry(final(self).spec_entries(), b) == spec_entry(
                        old(self).spec_entries(),
                        b,
                    )
                &&& entries_registered(final(self).spec_entries(), old(ledger))
                &&& sum_escrow(final(self).spec_entries()) == sum_escrow(
                    old(self).spec_entries(),
                ) - e.amount
                &&& final(ledger).spec_balance_of(e.account@) == old(ledger).spec_balance_of(
                    e.account@,
                ) + payout
                &&& forall|a: Seq<char>|
                    a != e.account@ ==> final(ledger).spec_balance_of(a) == old(ledger).spec_balance_of(a)
                &&& sum_balances(final(ledger).spec_accounts()) == sum_balances(
                    old(ledger).spec_accounts(),
                ) + payout
                &&& final(ledger).spec_accounts().len() == old(ledger).spec_accounts().len()
                &&& forall|i: int|
                    0 <= i < old(ledger).spec_accounts().len() ==> (#[trigger] final(ledger).spec_accounts()[i]).address == old(ledger).spec_accounts()[i].address
                        && final(ledger).spec_accounts()[i].name == old(ledger).spec_accounts()[i].name
                &&& forall|a: Seq<char>| #[trigger]
                    final(ledger).spec_has_address(a) == old(ledger).spec_has_address(a)
                &&& final(ledger).spec_supply() == old(ledger).spec_supply()
                &&& final(ledger).spec_log().len() == old(ledger).spec_log().len() + 1
                &&& final(ledger).spec_log().drop_last() == old(ledger).spec_log()
                &&& crate::ledger::tx_is(
                    final(ledger).spec_log().last(),
                    TxKind::BetSettle,
                    e.market_id@,
                    e.account@,
                    payout as int,
                    now as int,
                    old(ledger).spec_log().len() as int,
                )
            }),
    {
        let i: usize = match self.find_entry(bet_id) {
            Some(i) => i,
            None => {
                proof {
                    assert(false);
                }
                0
            },
        };
        proof {
            let w = choose|k: int|
                0 <= k < self.entries@.len() && (#[trigger] self.entries@[k].bet_id) as int
                    == bet_id as int;
            assert(w == i as int) by {
                if w != i as int {
                    assert(self.entries@[w].bet_id != self.entries@[i as int].bet_id);
                }
            }
            lemma_sum_escrow_remove(self.entries@, i as int);
            lemma_remove_entry(self.entries@, i as int);
        }
        let entry = self.entries.remove(i);
        if payout > 0 {
            ledger.credit(entry.account.as_str(), payout);
        }
        let _tx: u64 = ledger.append_tx(
            TxKind::BetSettle,
            entry.market_id,
            entry.account,
            payout,
            now,
        );
    }

    /// Settles bet `bet_id` as won: removes its escrow entry and credits
    /// `payout_amount` — which may exceed the original lock, funded by the
    /// losing pool — to the bettor.  Fails `InvalidAmount` for a
    /// non-positive payout and `EscrowNotFound` when no entry is active (in
    /// particular on a second release); no effect on failure.
    pub fn release_win(
        &mut self,
        ledger: &mut Ledger,
        bet_id: u64,
        payout_amount: i64,
        now: i64,
    ) -> (r: Result<(), LedgerError>)
        requires
            old(self).wf(),
            old(ledger).wf(),
            entries_registered(old(self).spec_entries(), old(ledger)),
            payout_amount > 0 ==> sum_balances(old(ledger).spec_accounts()) + payout_amount <= old(ledger).spec_supply(),
        ensures
            final(self).wf(),
            final(ledger).wf(),
            payout_amount <= 0 ==> r == Err::<(), LedgerError>(LedgerError::InvalidAmount)
                && *final(self) == *old(self) && *final(ledger) == *old(ledger),
            payout_amount > 0 && !has_entry(old(self).spec_entries(), bet_id as int) ==> r
                == Err::<(), LedgerError>(LedgerError::EscrowNotFound) && *final(self) == *old(self) && *final(ledger) == *old(ledger),
            payout_amount > 0 && has_entry(old(self).spec_entries(), bet_id as int) ==> {
                &&& r == Ok::<(), LedgerError>(())
                &&& !has_entry(final(self).spec_entries(), bet_id as int)
                &&& final(ledger).spec_balance_of(
                    spec_entry(old(self).spec_entries(), bet_id as int).account@,
                ) == old(ledger).spec_balance_of(
                    spec_entry(old(self).spec_entries(), bet_id as int).account@,
                ) + payout_amount
                &&& sum_escrow(final(self).spec_entries()) == sum_escrow(old(self).spec_entries())
                    - spec_entry(old(self).spec_entries(), bet_id as int).amount
            },
    {
        if payout_amount <= 0 {
            return Err(LedgerError::InvalidAmount);
        }
        if self.find_entry(bet_id).is_none() {
            return Err(LedgerError::EscrowNotFound);
        }
        self.settle_entry(ledger, bet_id, payout_amount, now);
        Ok(())
    }

    /// Settles bet `bet_id` as lost: removes its escrow entry and credits
    /// nothing — the stake is forfeited to the pool.  Fails
    /// `EscrowNotFound` when no entry is active (in particular on a second
    /// release); no effect on failure.
    pub fn release_loss(&mut self, ledger: &mut Ledger, bet_id: u64, now: i64) -> (r: Result<
        (),
        LedgerError,
    >)
        requires
            old(self).wf(),
            old(ledger).wf(),
            entries_registered(old(self).spec_entries(), old(ledger)),
        ensures
            final(self).wf(),
            final(ledger).wf(),
            !has_entry(old(self).spec_entries(), bet_id as int) ==> r == Err::<(), LedgerError>(
                LedgerError::EscrowNotFound,
            ) && *final(self) == *old(self) && *final(ledger) == *old(ledger),
            has_entry(old(self).spec_entries(), bet_id as int) ==> {
                &&& r == Ok::<(), LedgerError>(())
                &&& !has_entry(final(self).spec_entries(), bet_id as int)
                &&& forall|a: Seq<char>| #[trigger]
                    final(ledger).spec_balance_of(a) == old(ledger).spec_balance_of(a)
                &&& sum_escrow(final(self).spec_entries()) == sum_escrow(old(self).spec_entries())
                    - spec_entry(old(self).spec_entries(), bet_id as int).amount
            },
    {
        if self.find_entry(bet_id).is_none() {
            return Err(LedgerError::EscrowNotFound);
        }
        self.settle_entry(ledger, bet_id, 0, now);
        Ok(())
    }
}

} // verus!
