//! Accounts, balances and the append-only transaction log.
//!
//! The `Ledger` is the foundation of the engine: it owns every account's
//! spendable balance and the immutable log that records each movement of
//! value.  Transfers conserve value; only `mint` and `admin_set_balance`
//! change the total supply, and each such change is recorded in the log.

use vstd::prelude::*;

use crate::errors::LedgerError;

verus! {

/// Hard cap on the total supply, leaving headroom so that no intermediate
/// computation of the settlement algorithm can overflow a signed 64-bit
/// value.
pub const MAX_SUPPLY: i64 = 0x1000_0000_0000_0000;

/// The kind of a transaction log entry.
#[derive(Clone, Copy, Debug, PartialEq, Eq, Structural)]
pub enum TxKind {
    Transfer,
    Deposit,
    Withdrawal,
    BetLock,
    BetSettle,
    AdminSet,
}

/// One immutable entry of the append-only log.  The log is the sole source
/// of truth for audits: a transaction is never modified after it is
/// appended, and its `id` equals its position in the log.
pub struct Transaction {
    pub id: u64,
    pub kind: TxKind,
    pub from: String,
    pub to: String,
    pub amount: i64,
    pub timestamp: i64,
}

/// An account: a unique display name, a unique address, and the spendable
/// balance (escrowed funds are excluded).  Accounts are never deleted.
pub struct Account {
    pub name: String,
    pub address: String,
    pub balance: i64,
}

/// Aggregate statistics over the ledger.
#[derive(Clone, Copy, Debug, PartialEq, Eq, Structural)]
pub struct LedgerStats {
    pub total_supply: i64,
    pub transaction_count: usize,
    pub account_count: usize,
}

/// Account store plus append-only transaction log.
pub struct Ledger {
    pub accounts: Vec<Account>,
    pub transactions: Vec<Transaction>,
    pub total_supply: i64,
}

/// The spendable balance recorded for `addr` in `accounts`: the balance of
/// the first account with that address, or 0 when no account has it.
pub open spec fn balance_in(accounts: Seq<Account>, addr: Seq<char>) -> int
    decreases accounts.len(),
{
    if accounts.len() == 0 {
        0
    } else if accounts[0].address@ == addr {
        accounts[0].balance as int
    } else {
        balance_in(accounts.drop_first(), addr)
    }
}

/// Whether some account in `accounts` has address `addr`.
pub open spec fn has_addr_in(accounts: Seq<Account>, addr: Seq<char>) -> bool {
    exists|i: int| 0 <= i < accounts.len() && #[trigger] accounts[i].address@ == addr
}

/// Whether some account in `accounts` has display name `name`.
pub open spec fn has_name_in(accounts: Seq<Account>, name: Seq<char>) -> bool {
    exists|i: int| 0 <= i < accounts.len() && #[trigger] accounts[i].name@ == name
}

/// The sum of all spendable balances.
pub open spec fn sum_balances(accounts: Seq<Account>) -> int
    decreases accounts.len(),
{
    if accounts.len() == 0 {
        0
    } else {
        sum_balances(accounts.drop_last()) + accounts.last().balance
    }
}

/// How much a single log entry contributes to the total supply: mints add
/// their amount, administrative balance changes add their signed delta, and
/// every other kind conserves value.
pub open spec fn supply_delta(t: Transaction) -> int {
    match t.kind {
        TxKind::Deposit => t.amount as int,
        TxKind::AdminSet => t.amount as int,
        _ => 0,
    }
}

/// The total supply implied by a log: the sum of all mint and
/// administrative deltas, in order.
pub open spec fn supply_of_log(log: Seq<Transaction>) -> int
    decreases log.len(),
{
    if log.len() == 0 {
        0
    } else {
        supply_of_log(log.drop_last()) + supply_delta(log.last())
    }
}

/// Whether transaction `t` records exactly the given kind, parties, amount,
/// timestamp and id.
pub open spec fn tx_is(
    t: Transaction,
    kind: TxKind,
    from: Seq<char>,
    to: Seq<char>,
    amount: int,
    timestamp: int,
    id: int,
) -> bool {
    &&& t.kind == kind
    &&& t.from@ == from
    &&& t.to@ == to
    &&& t.amount as int == amount
    &&& t.timestamp as int == timestamp
    &&& t.id as int == id
}

impl Ledger {
    /// The accounts, in registration order.
    pub open spec fn spec_accounts(&self) -> Seq<Account> {
        self.accounts@
    }

    /// The transaction log, oldest first.
    pub open spec fn spec_log(&self) -> Seq<Transaction> {
        self.transactions@
    }

    /// The recorded total supply.
    pub open spec fn spec_supply(&self) -> int {
        self.total_supply as int
    }

    /// The spendable balance of `addr` (0 when unknown).
    pub open spec fn spec_balance_of(&self, addr: Seq<char>) -> int {
        balance_in(self.accounts@, addr)
    }

    /// Whether `addr` is a registered address.
    pub open spec fn spec_has_address(&self, addr: Seq<char>) -> bool {
        has_addr_in(self.accounts@, addr)
    }

    /// Whether `name` is a registered display name.
    pub open spec fn spec_has_name(&self, name: Seq<char>) -> bool {
        has_name_in(self.accounts@, name)
    }

    /// Well-formedness: addresses are unique, balances are never negative,
    /// the sum of balances never exceeds the recorded supply, the supply is
    /// capped and fully accounted for by the log, and transaction ids equal
    /// log positions.
    pub open spec fn wf(&self) -> bool {
        &&& forall|i: int, j: int|
            0 <= i < j < self.accounts@.len() ==> (#[trigger] self.accounts@[i].address@)
                != (#[trigger] self.accounts@[j].address@)
        &&& forall|i: int|
            0 <= i < self.accounts@.len() ==> (#[trigger] self.accounts@[i].balance) >= 0
        &&& sum_balances(self.accounts@) <= self.total_supply
        &&& self.total_supply <= MAX_SUPPLY
        &&& self.total_supply as int == supply_of_log(self.transactions@)
        &&& forall|i: int|
            0 <= i < self.transactions@.len() ==> (#[trigger] self.transactions@[i].id) as int
                == i
        &&& forall|i: int|
            0 <= i < self.transactions@.len() ==> (#[trigger] self.transactions@[i].amount)
                >= -MAX_SUPPLY
    }
}

// ---------------------------------------------------------------------------
// Lemmas about balances and sums.
// ---------------------------------------------------------------------------

/// Every balance is bounded by the sum of balances when none is negative.
pub proof fn lemma_balance_le_sum(accounts: Seq<Account>, i: int)
    requires
        0 <= i < accounts.len(),
        forall|k: int| 0 <= k < accounts.len() ==> (#[trigger] accounts[k].balance) >= 0,
    ensures
        accounts[i].balance <= sum_balances(accounts),
        sum_balances(accounts) >= 0,
    decreases accounts.len(),
{
    assert(forall|k: int|
        0 <= k < accounts.drop_last().len() ==> accounts.drop_last()[k] == accounts[k]);
    if accounts.len() == 1 {
        assert(sum_balances(accounts.drop_last()) == 0);
    } else if i == accounts.len() - 1 {
        lemma_balance_le_sum(accounts.drop_last(), 0);
    } else {
        lemma_balance_le_sum(accounts.drop_last(), i);
        assert(accounts.last().balance >= 0);
    }
}

/// The sum of balances is never negative when no balance is.
pub proof fn lemma_sum_balances_nonneg(accounts: Seq<Account>)
    requires
        forall|k: int| 0 <= k < accounts.len() ==> (#[trigger] accounts[k].balance) >= 0,
    ensures
        sum_balances(accounts) >= 0,
    decreases accounts.len(),
{
    if accounts.len() > 0 {
        lemma_sum_balances_nonneg(accounts.drop_last());
    }
}

/// Two distinct balances together are bounded by the sum when none is
/// negative.
pub proof fn lemma_pair_le_sum(accounts: Seq<Account>, i: int, j: int)
    requires
        0 <= i < accounts.len(),
        0 <= j < accounts.len(),
        i != j,
        forall|k: int| 0 <= k < accounts.len() ==> (#[trigger] accounts[k].balance) >= 0,
    ensures
        accounts[i].balance + accounts[j].balance <= sum_balances(accounts),
    decreases accounts.len(),
{
    let last = accounts.len() - 1;
    if i == last {
        lemma_balance_le_sum(accounts.drop_last(), j);
    } else if j == last {
        lemma_balance_le_sum(accounts.drop_last(), i);
    } else {
        lemma_pair_le_sum(accounts.drop_last(), i, j);
        assert(accounts.last().balance >= 0);
    }
}

/// Replacing one account changes the sum by exactly the balance difference.
pub proof fn lemma_sum_balances_update(accounts: Seq<Account>, i: int, a: Account)
    requires
        0 <= i < accounts.len(),
    ensures
        sum_balances(accounts.update(i, a)) == sum_balances(accounts) - accounts[i].balance
            + a.balance,
    decreases accounts.len(),
{
    let updated = accounts.update(i, a);
    if i == accounts.len() - 1 {
        assert(updated.drop_last() =~= accounts.drop_last());
    } else {
        assert(updated.drop_last() =~= accounts.drop_last().update(i, a));
        lemma_sum_balances_update(accounts.drop_last(), i, a);
    }
}

/// Appending an account adds its balance to the sum.
pub proof fn lemma_sum_balances_push(accounts: Seq<Account>, a: Account)
    ensures
        sum_balances(accounts.push(a)) == sum_balances(accounts) + a.balance,
{
    assert(accounts.push(a).drop_last() =~= accounts);
}

/// The recorded balance of an address is the balance of its first match.
pub proof fn lemma_balance_in_at(accounts: Seq<Account>, addr: Seq<char>, i: int)
    requires
        0 <= i < accounts.len(),
        accounts[i].address@ == addr,
        forall|j: int| 0 <= j < i ==> (#[trigger] accounts[j].address@) != addr,
    ensures
        balance_in(accounts, addr) == accounts[i].balance,
    decreases i,
{
    if i > 0 {
        lemma_balance_in_at(accounts.drop_first(), addr, i - 1);
    }
}

/// An address that no account carries has balance 0.
pub proof fn lemma_balance_in_absent(accounts: Seq<Account>, addr: Seq<char>)
    requires
        !has_addr_in(accounts, addr),
    ensures
        balance_in(accounts, addr) == 0,
    decreases accounts.len(),
{
    if accounts.len() > 0 {
        assert(accounts[0].address@ != addr);
        assert(forall|i: int|
            0 <= i < accounts.drop_first().len() ==> (#[trigger] accounts.drop_first()[i]) =~= accounts[i + 1]);
        lemma_balance_in_absent(accounts.drop_first(), addr);
    }
}

/// With unique addresses, replacing account `i` by one with the same
/// address rewrites exactly that address's balance.
pub proof fn lemma_balance_in_update(accounts: Seq<Account>, i: int, a: Account, addr: Seq<char>)
    requires
        0 <= i < accounts.len(),
        a.address@ == accounts[i].address@,
        forall|p: int, q: int|
            0 <= p < q < accounts.len() ==> (#[trigger] accounts[p].address@)
                != (#[trigger] accounts[q].address@),
    ensures
        balance_in(accounts.update(i, a), addr) == if addr == accounts[i].address@ {
            a.balance as int
        } else {
            balance_in(accounts, addr)
        },
    decreases accounts.len(),
{
    let updated = accounts.update(i, a);
    if i == 0 {
        if addr == accounts[0].address@ {
        } else {
            assert(updated.drop_first() =~= accounts.drop_first());
        }
    } else {
        assert(updated.drop_first() =~= accounts.drop_first().update(i - 1, a));
        assert(forall|p: int, q: int|
            0 <= p < q < accounts.drop_first().len() ==> (#[trigger] accounts.drop_first()[p].address@)
                != (#[trigger] accounts.drop_first()[q].address@)) by {
            assert(forall|p: int|
                0 <= p < accounts.drop_first().len() ==> (#[trigger] accounts.drop_first()[p])
                    =~= accounts[p + 1]);
        }
        lemma_balance_in_update(accounts.drop_first(), i - 1, a, addr);
    }
}

/// Appending an account leaves existing balances alone and gives the new
/// address its balance when it was previously unknown.
pub proof fn lemma_balance_in_push(accounts: Seq<Account>, a: Account, addr: Seq<char>)
    ensures
        balance_in(accounts.push(a), addr) == if has_addr_in(accounts, addr) {
            balance_in(accounts, addr)
        } else if a.address@ == addr {
            a.balance as int
        } else {
            0
        },
    decreases accounts.len(),
{
    if accounts.len() == 0 {
        assert(accounts.push(a)[0] == a);
        if a.address@ != addr {
            assert(!has_addr_in(accounts.push(a).drop_first(), addr));
            lemma_balance_in_absent(accounts.push(a).drop_first(), addr);
        }
    } else {
        assert(accounts.push(a).drop_first() =~= accounts.drop_first().push(a));
        lemma_balance_in_push(accounts.drop_first(), a, addr);
        if accounts[0].address@ != addr {
            assert(has_addr_in(accounts, addr) <==> has_addr_in(accounts.drop_first(), addr)) by {
                if has_addr_in(accounts, addr) {
                    let w = choose|i: int|
                        0 <= i < accounts.len() && #[trigger] accounts[i].address@ == addr;
                    assert(accounts.drop_first()[w - 1].address@ == addr);
                }
                if has_addr_in(accounts.drop_first(), addr) {
                    let w = choose|i: int|
                        0 <= i < accounts.drop_first().len()
                            && #[trigger] accounts.drop_first()[i].address@ == addr;
                    assert(accounts[w + 1].address@ == addr);
                }
            }
        }
    }
}

/// The sum of balances splits off the first account.
pub proof fn lemma_sum_balances_drop_first(accounts: Seq<Account>)
    requires
        accounts.len() > 0,
    ensures
        sum_balances(accounts) == accounts[0].balance + sum_balances(accounts.drop_first()),
    decreases accounts.len(),
{
    if accounts.len() == 1 {
        assert(accounts.drop_first() =~= Seq::<Account>::empty());
        assert(sum_balances(accounts.drop_first()) == 0);
        assert(accounts.drop_last() =~= Seq::<Account>::empty());
        assert(sum_balances(accounts) == sum_balances(accounts.drop_last())
            + accounts.last().balance);
        assert(accounts.last() == accounts[0]);
    } else {
        lemma_sum_balances_drop_first(accounts.drop_last());
        assert(accounts.drop_last()[0] == accounts[0]);
        assert(accounts.drop_first().drop_last() =~= accounts.drop_last().drop_first());
        assert(accounts.drop_first().last() == accounts.last());
        assert(accounts.drop_first().len() == accounts.len() - 1);
        assert(sum_balances(accounts.drop_first()) == sum_balances(
            accounts.drop_first().drop_last(),
        ) + accounts.drop_first().last().balance);
        assert(sum_balances(accounts) == sum_balances(accounts.drop_last())
            + accounts.last().balance);
        assert(sum_balances(accounts.drop_last()) == accounts[0].balance + sum_balances(
            accounts.drop_last().drop_first(),
        ));
    }
}

/// The balance looked up for any address is bounded by the sum of all
/// balances when none is negative.
pub proof fn lemma_balance_of_le_sum(accounts: Seq<Account>, addr: Seq<char>)
    requires
        forall|k: int| 0 <= k < accounts.len() ==> (#[trigger] accounts[k].balance) >= 0,
    ensures
        0 <= balance_in(accounts, addr),
        balance_in(accounts, addr) <= sum_balances(accounts),
    decreases accounts.len(),
{
    if accounts.len() == 0 {
    } else {
        lemma_sum_balances_drop_first(accounts);
        assert(forall|k: int|
            0 <= k < accounts.drop_first().len() ==> accounts.drop_first()[k] == accounts[k + 1]);
        lemma_balance_of_le_sum(accounts.drop_first(), addr);
        lemma_sum_balances_nonneg(accounts.drop_first());
    }
}

/// Two account stores whose addresses agree pointwise register the same
/// addresses.
pub proof fn lemma_has_addr_pointwise(s1: Seq<Account>, s2: Seq<Account>)
    requires
        s1.len() == s2.len(),
        forall|i: int|
            0 <= i < s1.len() ==> (#[trigger] s1[i].address@) == (#[trigger] s2[i].address@),
    ensures
        forall|a: Seq<char>| #[trigger] has_addr_in(s1, a) == has_addr_in(s2, a),
{
    assert forall|a: Seq<char>| #[trigger] has_addr_in(s1, a) == has_addr_in(s2, a) by {
        if has_addr_in(s1, a) {
            let w = choose|i: int| 0 <= i < s1.len() && #[trigger] s1[i].address@ == a;
            assert(s2[w].address@ == a);
        }
        if has_addr_in(s2, a) {
            let w = choose|i: int| 0 <= i < s2.len() && #[trigger] s2[i].address@ == a;
            assert(s1[w].address@ == a);
        }
    }
}

/// Appending a log entry adds its supply delta.
pub proof fn lemma_supply_of_log_push(log: Seq<Transaction>, t: Transaction)
    ensures
        supply_of_log(log.push(t)) == supply_of_log(log) + supply_delta(t),
{
    assert(log.push(t).drop_last() =~= log);
}

// ---------------------------------------------------------------------------
// Executable helpers.
// ---------------------------------------------------------------------------

impl Clone for Account {
    fn clone(&self) -> (r: Self)
        ensures
            r == *self,
    {
        Account { name: self.name.clone(), address: self.address.clone(), balance: self.balance }
    }
}

impl Clone for Transaction {
    fn clone(&self) -> (r: Self)
        ensures
            r == *self,
    {
        Transaction {
            id: self.id,
            kind: self.kind,
            from: self.from.clone(),
            to: self.to.clone(),
            amount: self.amount,
            timestamp: self.timestamp,
        }
    }
}

/// Equality of two strings, specified over their character sequences.
pub fn str_eq(a: &str, b: &str) -> (r: bool)
    ensures
        r == (a@ == b@),
{
    let aa: String = a.to_owned();
    let bb: String = b.to_owned();
    aa.eq(&bb)
}

impl Ledger {
    /// A fresh ledger: no accounts, an empty log, zero supply.
    pub fn new() -> (r: Ledger)
        ensures
            r.wf(),
            r.spec_accounts().len() == 0,
            r.spec_log().len() == 0,
            r.spec_supply() == 0,
    {
        Ledger { accounts: Vec::new(), transactions: Vec::new(), total_supply: 0 }
    }

    /// The index of the account with address `addr`, if any.
    fn find_account(&self, addr: &str) -> (r: Option<usize>)
        ensures
            match r {
                Some(i) => i < self.accounts@.len() && self.accounts@[i as int].address@ == addr@
                    && forall|j: int| 0 <= j < i ==> (#[trigger] self.accounts@[j].address@) != addr@,
                None => !self.spec_has_address(addr@),
            },
    {
        let n: usize = self.accounts.len();
        let mut i: usize = 0;
        while i < n
            invariant
                n == self.accounts@.len(),
                i <= n,
                forall|j: int| 0 <= j < i ==> (#[trigger] self.accounts@[j].address@) != addr@,
            decreases n - i,
        {
            if str_eq(self.accounts[i].address.as_str(), addr) {
                return Some(i);
            }
            i = i + 1;
        }
        None
    }

    /// Whether any account carries display name `name`.
    fn name_taken(&self, name: &str) -> (r: bool)
        ensures
            r == self.spec_has_name(name@),
    {
        let n: usize = self.accounts.len();
        let mut i: usize = 0;
        while i < n
            invariant
                n == self.accounts@.len(),
                i <= n,
                forall|j: int| 0 <= j < i ==> (#[trigger] self.accounts@[j].name@) != name@,
            decreases n - i,
        {
            if str_eq(self.accounts[i].name.as_str(), name) {
                return true;
            }
            i = i + 1;
        }
        false
    }

    /// The spendable balance of `address`; 0 for an unknown address.  Read
    /// paths never fail.
    pub fn get_balance(&self, address: &str) -> (r: i64)
        requires
            self.wf(),
        ensures
            r as int == self.spec_balance_of(address@),
            r >= 0,
    {
        match self.find_account(address) {
            Some(i) => {
                proof {
                    lemma_balance_in_at(self.accounts@, address@, i as int);
                }
                self.accounts[i].balance
            },
            None => {
                proof {
                    lemma_balance_in_absent(self.accounts@, address@);
                }
                0
            },
        }
    }

    /// Creates an account at zero balance.  Fails `DuplicateAccount` when
    /// the name or the address is already registered; no effect on failure.
    pub fn register(&mut self, name: &str, address: &str) -> (r: Result<(), LedgerError>)
        requires
            old(self).wf(),
        ensures
            final(self).wf(),
            old(self).spec_has_name(name@) || old(self).spec_has_address(address@) ==> r
                == Err::<(), LedgerError>(LedgerError::DuplicateAccount) && *final(self) == *old(self),
            !(old(self).spec_has_name(name@) || old(self).spec_has_address(address@)) ==> {
                &&& r == Ok::<(), LedgerError>(())
                &&& final(self).spec_accounts().len() == old(self).spec_accounts().len() + 1
                &&& final(self).spec_accounts().last().name@ == name@
                &&& final(self).spec_accounts().last().address@ == address@
                &&& final(self).spec_accounts().last().balance == 0
                &&& final(self).spec_accounts().drop_last() == old(self).spec_accounts()
                &&& final(self).spec_log() == old(self).spec_log()
                &&& final(self).spec_supply() == old(self).spec_supply()
                &&& final(self).spec_balance_of(address@) == 0
                &&& forall|a: Seq<char>|
                    final(self).spec_balance_of(a) == old(self).spec_balance_of(a) || a == address@
                &&& forall|nm: Seq<char>| #[trigger]
                    final(self).spec_has_name(nm) == (old(self).spec_has_name(nm) || nm == name@)
                &&& forall|a: Seq<char>| #[trigger]
                    final(self).spec_has_address(a) == (old(self).spec_has_address(a) || a
                        == address@)
            },
    {
        if self.name_taken(name) {
            return Err(LedgerError::DuplicateAccount);
        }
        if self.find_account(address).is_some() {
            return Err(LedgerError::DuplicateAccount);
        }
        let account = Account { name: name.to_owned(), address: address.to_owned(), balance: 0 };
        proof {
            lemma_sum_balances_push(self.accounts@, account);
            assert forall|a: Seq<char>|
                balance_in(self.accounts@.push(account), a) == balance_in(self.accounts@, a)
                    || a == address@ by {
                lemma_balance_in_push(self.accounts@, account, a);
                if !has_addr_in(self.accounts@, a) && account.address@ != a {
                    lemma_balance_in_absent(self.accounts@, a);
                }
            }
            lemma_balance_in_push(self.accounts@, account, address@);
        }
        self.accounts.push(account);
        proof {
            assert(self.accounts@.drop_last() =~= old(self).accounts@);
            let n = self.accounts@.len() - 1;
            assert forall|nm: Seq<char>| #[trigger]
                self.spec_has_name(nm) == (old(self).spec_has_name(nm) || nm == name@) by {
                if has_name_in(old(self).accounts@, nm) {
                    let w = choose|i: int|
                        0 <= i < old(self).accounts@.len() && #[trigger] old(
                            self,
                        ).accounts@[i].name@ == nm;
                    assert(self.accounts@[w].name@ == nm);
                }
                if nm == name@ {
                    assert(self.accounts@[n].name@ == nm);
                }
                if has_name_in(self.accounts@, nm) {
                    let w = choose|i: int|
                        0 <= i < self.accounts@.len() && #[trigger] self.accounts@[i].name@ == nm;
                    if w < n {
                        assert(old(self).accounts@[w].name@ == nm);
                    }
                }
            }
            assert forall|a: Seq<char>| #[trigger]
                self.spec_has_address(a) == (old(self).spec_has_address(a) || a == address@) by {
                if has_addr_in(old(self).accounts@, a) {
                    let w = choose|i: int|
                        0 <= i < old(self).accounts@.len() && #[trigger] old(
                            self,
                        ).accounts@[i].address@ == a;
                    assert(self.accounts@[w].address@ == a);
                }
                if a == address@ {
                    assert(self.accounts@[n].address@ == a);
                }
                if has_addr_in(self.accounts@, a) {
                    let w = choose|i: int|
                        0 <= i < self.accounts@.len() && #[trigger] self.accounts@[i].address@
                            == a;
                    if w < n {
                        assert(old(self).accounts@[w].address@ == a);
                    }
                }
            }
        }
        Ok(())
    }

    /// Appends a value-conserving transaction (no supply delta) and returns
    /// its id.
    pub(crate) fn append_tx(
        &mut self,
        kind: TxKind,
        from: String,
        to: String,
        amount: i64,
        now: i64,
    ) -> (id: u64)
        requires
            old(self).wf(),
            kind != TxKind::Deposit,
            kind != TxKind::AdminSet,
            amount >= -MAX_SUPPLY,
        ensures
            final(self).wf(),
            final(self).accounts == old(self).accounts,
            forall|a: Seq<char>| #[trigger]
                final(self).spec_has_address(a) == old(self).spec_has_address(a),
            forall|a: Seq<char>| #[trigger]
                final(self).spec_balance_of(a) == old(self).spec_balance_of(a),
            final(self).spec_supply() == old(self).spec_supply(),
            id as int == old(self).spec_log().len(),
            final(self).spec_log().len() == old(self).spec_log().len() + 1,
            final(self).spec_log().drop_last() == old(self).spec_log(),
            tx_is(
                final(self).spec_log().last(),
                kind,
                from@,
                to@,
                amount as int,
                now as int,
                old(self).spec_log().len() as int,
            ),
    {
        let id: u64 = self.transactions.len() as u64;
        let t = Transaction { id, kind, from, to, amount, timestamp: now };
        proof {
            lemma_supply_of_log_push(self.transactions@, t);
        }
        self.transactions.push(t);
        proof {
            assert(self.transactions@.drop_last() =~= old(self).transactions@);
        }
        id
    }

    /// Adds `amount` to the balance of a registered address.
    pub(crate) fn credit(&mut self, address: &str, amount: i64)
        requires
            old(self).wf(),
            old(self).spec_has_address(address@),
            amount >= 0,
            sum_balances(old(self).spec_accounts()) + amount <= old(self).spec_supply(),
        ensures
            final(self).wf(),
            final(self).spec_balance_of(address@) == old(self).spec_balance_of(address@) + amount,
            forall|a: Seq<char>|
                a != address@ ==> final(self).spec_balance_of(a) == old(self).spec_balance_of(a),
            sum_balances(final(self).spec_accounts()) == sum_balances(old(self).spec_accounts())
                + amount,
            final(self).spec_accounts().len() == old(self).spec_accounts().len(),
            forall|i: int|
                0 <= i < old(self).spec_accounts().len() ==> (#[trigger] final(self).spec_accounts()[i]).address == old(self).spec_accounts()[i].address && final(self).spec_accounts()[i].name == old(self).spec_accounts()[i].name,
            forall|a: Seq<char>| #[trigger]
                final(self).spec_has_address(a) == old(self).spec_has_address(a),
            final(self).transactions == old(self).transactions,
            final(self).spec_supply() == old(self).spec_supply(),
    {
        match self.find_account(address) {
            Some(i) => {
                proof {
                    lemma_balance_in_at(self.accounts@, address@, i as int);
                    lemma_balance_le_sum(self.accounts@, i as int);
                    lemma_sum_balances_update(
                        self.accounts@,
                        i as int,
                        Account {
                            balance: (self.accounts@[i as int].balance + amount) as i64,
                            ..self.accounts@[i as int]
                        },
                    );
                }
                let b: i64 = self.accounts[i].balance;
                self.accounts[i].balance = b + amount;
                proof {
                    let updated = self.accounts@;
                    assert(updated =~= old(self).accounts@.update(
                        i as int,
                        Account { balance: (b + amount) as i64, ..old(self).accounts@[i as int] },
                    ));
                    assert forall|a: Seq<char>|
                        a != address@ implies balance_in(updated, a) == balance_in(
                        old(self).accounts@,
                        a,
                    ) by {
                        lemma_balance_in_update(
                            old(self).accounts@,
                            i as int,
                            updated[i as int],
                            a,
                        );
                    }
                    lemma_balance_in_update(
                        old(self).accounts@,
                        i as int,
                        updated[i as int],
                        address@,
                    );
                    lemma_has_addr_pointwise(old(self).accounts@, updated);
                }
            },
            None => {
                proof {
                    assert(false);
                }
            },
        }
    }

    /// Removes `amount` from the balance of a registered address with
    /// sufficient funds.
    pub(crate) fn debit(&mut self, address: &str, amount: i64)
        requires
            old(self).wf(),
            old(self).spec_has_address(address@),
            amount >= 0,
            old(self).spec_balance_of(address@) >= amount,
        ensures
            final(self).wf(),
            final(self).spec_balance_of(address@) == old(self).spec_balance_of(address@) - amount,
            forall|a: Seq<char>|
                a != address@ ==> final(self).spec_balance_of(a) == old(self).spec_balance_of(a),
            sum_balances(final(self).spec_accounts()) == sum_balances(old(self).spec_accounts())
                - amount,
            final(self).spec_accounts().len() == old(self).spec_accounts().len(),
            forall|i: int|
                0 <= i < old(self).spec_accounts().len() ==> (#[trigger] final(self).spec_accounts()[i]).address == old(self).spec_accounts()[i].address && final(self).spec_accounts()[i].name == old(self).spec_accounts()[i].name,
            forall|a: Seq<char>| #[trigger]
                final(self).spec_has_address(a) == old(self).spec_has_address(a),
            final(self).transactions == old(self).transactions,
            final(self).spec_supply() == old(self).spec_supply(),
    {
        match self.find_account(address) {
            Some(i) => {
                proof {
                    lemma_balance_in_at(self.accounts@, address@, i as int);
                    lemma_sum_balances_update(
                        self.accounts@,
                        i as int,
                        Account {
                            balance: (self.accounts@[i as int].balance - amount) as i64,
                            ..self.accounts@[i as int]
                        },
                    );
                    lemma_sum_balances_nonneg(self.accounts@);
                }
                let b: i64 = self.accounts[i].balance;
                self.accounts[i].balance = b - amount;
                proof {
                    let updated = self.accounts@;
                    assert(updated =~= old(self).accounts@.update(
                        i as int,
                        Account { balance: (b - amount) as i64, ..old(self).accounts@[i as int] },
                    ));
                    assert forall|a: Seq<char>|
                        a != address@ implies balance_in(updated, a) == balance_in(
                        old(self).accounts@,
                        a,
                    ) by {
                        lemma_balance_in_update(
                            old(self).accounts@,
                            i as int,
                            updated[i as int],
                            a,
                        );
                    }
                    lemma_balance_in_update(
                        old(self).accounts@,
                        i as int,
                        updated[i as int],
                        address@,
                    );
                    lemma_has_addr_pointwise(old(self).accounts@, updated);
                }
            },
            None => {
                proof {
                    assert(false);
                }
            },
        }
    }

    /// Moves `amount` from `from` to `to` and logs it.  Fails
    /// `UnknownAccount` when either party is missing, `InvalidAmount` when
    /// the amount is not positive, `InsufficientBalance` when `from` cannot
    /// cover it — checked in that order, with no effect on failure.
    pub fn transfer(&mut self, from: &str, to: &str, amount: i64, now: i64) -> (r: Result<
        u64,
        LedgerError,
    >)
        requires
            old(self).wf(),
        ensures
            final(self).wf(),
            !(old(self).spec_has_address(from@) && old(self).spec_has_address(to@)) ==> r
                == Err::<u64, LedgerError>(LedgerError::UnknownAccount) && *final(self) == *old(self),
            old(self).spec_has_address(from@) && old(self).spec_has_address(to@) && amount <= 0
                ==> r == Err::<u64, LedgerError>(LedgerError::InvalidAmount) && *final(self)
                == *old(self),
            old(self).spec_has_address(from@) && old(self).spec_has_address(to@) && amount > 0
                && old(self).spec_balance_of(from@) < amount ==> r == Err::<u64, LedgerError>(
                LedgerError::InsufficientBalance,
            ) && *final(self) == *old(self),
            old(self).spec_has_address(from@) && old(self).spec_has_address(to@) && amount > 0
                && old(self).spec_balance_of(from@) >= amount ==> {
                &&& r == Ok::<u64, LedgerError>(old(self).spec_log().len() as u64)
                &&& from@ != to@ ==> final(self).spec_balance_of(from@) == old(self).spec_balance_of(from@) - amount && final(self).spec_balance_of(to@) == old(self).spec_balance_of(to@) + amount
                &&& from@ == to@ ==> final(self).spec_balance_of(from@) == old(self).spec_balance_of(from@)
                &&& final(self).spec_balance_of(from@) + final(self).spec_balance_of(to@) == old(self).spec_balance_of(from@) + old(self).spec_balance_of(to@)
                &&& forall|a: Seq<char>|
                    a != from@ && a != to@ ==> final(self).spec_balance_of(a) == old(self).spec_balance_of(a)
                &&& sum_balances(final(self).spec_accounts()) == sum_balances(
                    old(self).spec_accounts(),
                )
                &&& final(self).spec_accounts().len() == old(self).spec_accounts().len()
                &&& forall|i: int|
                    0 <= i < old(self).spec_accounts().len() ==> (#[trigger] final(self).spec_accounts()[i]).address == old(self).spec_accounts()[i].address
                        && final(self).spec_accounts()[i].name == old(self).spec_accounts()[i].name
                &&& forall|a: Seq<char>| #[trigger]
                    final(self).spec_has_address(a) == old(self).spec_has_address(a)
                &&& final(self).spec_supply() == old(self).spec_supply()
                &&& final(self).spec_log().len() == old(self).spec_log().len() + 1
                &&& final(self).spec_log().drop_last() == old(self).spec_log()
                &&& tx_is(
                    final(self).spec_log().last(),
                    TxKind::Transfer,
                    from@,
                    to@,
                    amount as int,
                    now as int,
                    old(self).spec_log().len() as int,
                )
            },
    {
        let fi: usize = match self.find_account(from) {
            Some(i) => i,
            None => {
                return Err(LedgerError::UnknownAccount);
            },
        };
        let ti: usize = match self.find_account(to) {
            Some(i) => i,
            None => {
                return Err(LedgerError::UnknownAccount);
            },
        };
        if amount <= 0 {
            return Err(LedgerError::InvalidAmount);
        }
        let fb: i64 = self.accounts[fi].balance;
        proof {
            lemma_balance_in_at(self.accounts@, from@, fi as int);
            lemma_balance_in_at(self.accounts@, to@, ti as int);
        }
        if fb < amount {
            return Err(LedgerError::InsufficientBalance);
        }
        if fi != ti {
            proof {
                lemma_pair_le_sum(self.accounts@, fi as int, ti as int);
            }
            let tb: i64 = self.accounts[ti].balance;
            self.accounts[fi].balance = fb - amount;
            self.accounts[ti].balance = tb + amount;
            proof {
                let mid = old(self).accounts@.update(
                    fi as int,
                    Account { balance: (fb - amount) as i64, ..old(self).accounts@[fi as int] },
                );
                let fin = self.accounts@;
                assert(fin =~= mid.update(
                    ti as int,
                    Account { balance: (tb + amount) as i64, ..old(self).accounts@[ti as int] },
                ));
                lemma_sum_balances_update(old(self).accounts@, fi as int, mid[fi as int]);
                lemma_sum_balances_update(mid, ti as int, fin[ti as int]);
                assert forall|a: Seq<char>| #![auto]
                    balance_in(fin, a) == if a == from@ {
                        old(self).spec_balance_of(from@) - amount
                    } else if a == to@ {
                        old(self).spec_balance_of(to@) + amount
                    } else {
                        balance_in(old(self).accounts@, a)
                    } by {
                    lemma_balance_in_update(old(self).accounts@, fi as int, mid[fi as int], a);
                    lemma_balance_in_update(mid, ti as int, fin[ti as int], a);
                }
                lemma_has_addr_pointwise(old(self).accounts@, fin);
            }
        }
        let id: u64 = self.append_tx(
            TxKind::Transfer,
            from.to_owned(),
            to.to_owned(),
            amount,
            now,
        );
        Ok(id)
    }

    /// Administrative issuance: credits `address` with `amount` fresh
    /// tokens and logs a deposit.  An unknown address is first registered
    /// under its own address as display name.  Rejects `InvalidAmount` when
    /// the amount is not positive; no effect on failure.
    pub fn mint(&mut self, address: &str, amount: i64, now: i64) -> (r: Result<u64, LedgerError>)
        requires
            old(self).wf(),
            amount > 0 ==> old(self).spec_supply() + amount <= MAX_SUPPLY,
        ensures
            final(self).wf(),
            amount <= 0 ==> r == Err::<u64, LedgerError>(LedgerError::InvalidAmount) && *final(self) == *old(self),
            amount > 0 ==> {
                &&& r == Ok::<u64, LedgerError>(old(self).spec_log().len() as u64)
                &&& final(self).spec_balance_of(address@) == old(self).spec_balance_of(address@)
                    + amount
                &&& forall|a: Seq<char>|
                    a != address@ ==> final(self).spec_balance_of(a) == old(self).spec_balance_of(
                        a,
                    )
                &&& final(self).spec_has_address(address@)
                &&& forall|a: Seq<char>|
                    old(self).spec_has_address(a) ==> #[trigger] final(self).spec_has_address(a)
                &&& final(self).spec_supply() == old(self).spec_supply() + amount
                &&& sum_balances(final(self).spec_accounts()) == sum_balances(
                    old(self).spec_accounts(),
                ) + amount
                &&& final(self).spec_accounts().len() >= old(self).spec_accounts().len()
                &&& forall|i: int|
                    0 <= i < old(self).spec_accounts().len() ==> (#[trigger] final(self).spec_accounts()[i]).address == old(self).spec_accounts()[i].address
                        && final(self).spec_accounts()[i].name == old(self).spec_accounts()[i].name
                &&& final(self).spec_log().len() == old(self).spec_log().len() + 1
                &&& final(self).spec_log().drop_last() == old(self).spec_log()
                &&& tx_is(
                    final(self).spec_log().last(),
                    TxKind::Deposit,
                    Seq::<char>::empty(),
                    address@,
                    amount as int,
                    now as int,
                    old(self).spec_log().len() as int,
                )
            },
    {
        if amount <= 0 {
            return Err(LedgerError::InvalidAmount);
        }
        if self.find_account(address).is_none() {
            let account = Account {
                name: address.to_owned(),
                address: address.to_owned(),
                balance: 0,
            };
            proof {
                lemma_sum_balances_push(self.accounts@, account);
                assert forall|a: Seq<char>|
                    balance_in(self.accounts@.push(account), a) == balance_in(
                        self.accounts@,
                        a,
                    ) by {
                    lemma_balance_in_push(self.accounts@, account, a);
                    if !has_addr_in(self.accounts@, a) {
                        lemma_balance_in_absent(self.accounts@, a);
                    }
                }
            }
            self.accounts.push(account);
            proof {
                assert(self.accounts@.drop_last() =~= old(self).accounts@);
                assert(self.accounts@[self.accounts@.len() - 1].address@ == address@);
            }
        }
        let id: u64 = self.transactions.len() as u64;
        let t = Transaction {
            id,
            kind: TxKind::Deposit,
            from: String::new(),
            to: address.to_owned(),
            amount,
            timestamp: now,
        };
        proof {
            lemma_supply_of_log_push(self.transactions@, t);
            lemma_sum_balances_nonneg(self.accounts@);
        }
        self.transactions.push(t);
        self.total_supply = self.total_supply + amount;
        self.credit(address, amount);
        proof {
            assert(self.transactions@.drop_last() =~= old(self).transactions@);
        }
        Ok(id)
    }

    /// Sets the balance of a registered address outright, logging an
    /// `admin_set` transaction whose amount is the signed delta from the old
    /// balance; returns the transaction id.  Fails `UnknownAccount` for an
    /// unregistered address, with no effect.
    pub fn admin_set_balance(&mut self, address: &str, new_balance: i64, now: i64) -> (r: Result<
        u64,
        LedgerError,
    >)
        requires
            old(self).wf(),
            new_balance >= 0,
            old(self).spec_has_address(address@) ==> old(self).spec_supply() + new_balance - old(self).spec_balance_of(address@) <= MAX_SUPPLY,
        ensures
            final(self).wf(),
            !old(self).spec_has_address(address@) ==> r == Err::<u64, LedgerError>(
                LedgerError::UnknownAccount,
            ) && *final(self) == *old(self),
            old(self).spec_has_address(address@) ==> {
                &&& r == Ok::<u64, LedgerError>(old(self).spec_log().len() as u64)
                &&& final(self).spec_balance_of(address@) == new_balance
                &&& forall|a: Seq<char>|
                    a != address@ ==> final(self).spec_balance_of(a) == old(self).spec_balance_of(
                        a,
                    )
                &&& final(self).spec_supply() == old(self).spec_supply() + new_balance - old(self).spec_balance_of(address@)
                &&& sum_balances(final(self).spec_accounts()) == sum_balances(
                    old(self).spec_accounts(),
                ) + new_balance - old(self).spec_balance_of(address@)
                &&& final(self).spec_accounts().len() == old(self).spec_accounts().len()
                &&& forall|i: int|
                    0 <= i < old(self).spec_accounts().len() ==> (#[trigger] final(self).spec_accounts()[i]).address == old(self).spec_accounts()[i].address
                        && final(self).spec_accounts()[i].name == old(self).spec_accounts()[i].name
                &&& forall|a: Seq<char>| #[trigger]
                    final(self).spec_has_address(a) == old(self).spec_has_address(a)
                &&& final(self).spec_log().len() == old(self).spec_log().len() + 1
                &&& final(self).spec_log().drop_last() == old(self).spec_log()
                &&& tx_is(
                    final(self).spec_log().last(),
                    TxKind::AdminSet,
                    Seq::<char>::empty(),
                    address@,
                    new_balance - old(self).spec_balance_of(address@),
                    now as int,
                    old(self).spec_log().len() as int,
                )
            },
    {
        let i: usize = match self.find_account(address) {
            Some(i) => i,
            None => {
                return Err(LedgerError::UnknownAccount);
            },
        };
        let old_balance: i64 = self.accounts[i].balance;
        proof {
            lemma_balance_in_at(self.accounts@, address@, i as int);
            lemma_balance_le_sum(self.accounts@, i as int);
            lemma_sum_balances_update(
                self.accounts@,
                i as int,
                Account { balance: new_balance, ..self.accounts@[i as int] },
            );
        }
        self.accounts[i].balance = new_balance;
        proof {
            let updated = self.accounts@;
            assert(updated =~= old(self).accounts@.update(
                i as int,
                Account { balance: new_balance, ..old(self).accounts@[i as int] },
            ));
            assert forall|a: Seq<char>| #![auto]
                balance_in(updated, a) == if a == address@ {
                    new_balance as int
                } else {
                    balance_in(old(self).accounts@, a)
                } by {
                lemma_balance_in_update(old(self).accounts@, i as int, updated[i as int], a);
            }
            lemma_has_addr_pointwise(old(self).accounts@, updated);
        }
        let delta: i64 = new_balance - old_balance;
        let id: u64 = self.transactions.len() as u64;
        let t = Transaction {
            id,
            kind: TxKind::AdminSet,
            from: String::new(),
            to: address.to_owned(),
            amount: delta,
            timestamp: now,
        };
        proof {
            lemma_supply_of_log_push(self.transactions@, t);
        }
        self.transactions.push(t);
        self.total_supply = self.total_supply + delta;
        proof {
            assert(self.transactions@.drop_last() =~= old(self).transactions@);
        }
        Ok(id)
    }

    /// A copy of the whole transaction log, in insertion order.
    pub fn get_all_transactions(&self) -> (r: Vec<Transaction>)
        ensures
            r@ == self.spec_log(),
    {
        let r = self.transactions.clone();
        proof {
            assert(r@ =~= self.transactions@);
        }
        r
    }

    /// The transactions that involve `address` as sender or receiver, in
    /// insertion order.
    pub fn get_account_transactions(&self, address: &str) -> (r: Vec<Transaction>)
        ensures
            r@ == self.spec_log().filter(
                |t: Transaction| t.from@ == address@ || t.to@ == address@,
            ),
    {
        let mut r: Vec<Transaction> = Vec::new();
        let n: usize = self.transactions.len();
        let mut i: usize = 0;
        proof {
            assert(self.transactions@.take(0).filter(
                |t: Transaction| t.from@ == address@ || t.to@ == address@,
            ) =~= Seq::<Transaction>::empty());
        }
        while i < n
            invariant
                n == self.transactions@.len(),
                i <= n,
                r@ == self.transactions@.take(i as int).filter(
                    |t: Transaction| t.from@ == address@ || t.to@ == address@,
                ),
            decreases n - i,
        {
            let t = &self.transactions[i];
            let involved: bool = {
                let f = str_eq(t.from.as_str(), address);
                let g = str_eq(t.to.as_str(), address);
                f || g
            };
            if involved {
                r.push(t.clone());
            }
            proof {
                let p = |t: Transaction| t.from@ == address@ || t.to@ == address@;
                assert(self.transactions@.take(i + 1).drop_last() =~= self.transactions@.take(
                    i as int,
                ));
                assert(self.transactions@.take(i + 1).last() == self.transactions@[i as int]);
                reveal_with_fuel(Seq::filter, 2);
                assert(self.transactions@.take(i + 1).filter(p) == if p(
                    self.transactions@[i as int],
                ) {
                    self.transactions@.take(i as int).filter(p).push(
                        self.transactions@[i as int],
                    )
                } else {
                    self.transactions@.take(i as int).filter(p)
                });
            }
            i = i + 1;
        }
        proof {
            assert(self.transactions@.take(n as int) =~= self.transactions@);
        }
        r
    }

    /// A copy of all accounts, in registration order.
    pub fn get_accounts(&self) -> (r: Vec<Account>)
        ensures
            r@ == self.spec_accounts(),
    {
        let r = self.accounts.clone();
        proof {
            assert(r@ =~= self.accounts@);
        }
        r
    }

    /// Aggregate statistics: recorded total supply, number of log entries,
    /// number of accounts.
    pub fn get_stats(&self) -> (r: LedgerStats)
        ensures
            r.total_supply as int == self.spec_supply(),
            r.transaction_count == self.spec_log().len(),
            r.account_count == self.spec_accounts().len(),
    {
        LedgerStats {
            total_supply: self.total_supply,
            transaction_count: self.transactions.len(),
            account_count: self.accounts.len(),
        }
    }
}

} // verus!
