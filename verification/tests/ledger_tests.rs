use blackbook_ledger::{Engine, LedgerError, TxKind};

fn engine_with_accounts() -> Engine {
    let mut e = Engine::new_full_node();
    e.register("alice", "addr_a").unwrap();
    e.register("bob", "addr_b").unwrap();
    e.mint("addr_a", 1_000, 1).unwrap();
    e.mint("addr_b", 500, 2).unwrap();
    e
}

#[test]
fn register_and_zero_balance() {
    let mut e = Engine::new_full_node();
    assert_eq!(e.register("alice", "addr_a"), Ok(()));
    assert_eq!(e.get_balance("addr_a"), 0);
    assert_eq!(e.get_balance("nobody"), 0);
}

#[test]
fn register_duplicate_name_fails() {
    let mut e = Engine::new_full_node();
    e.register("alice", "addr_a").unwrap();
    assert_eq!(e.register("alice", "addr_x"), Err(LedgerError::DuplicateAccount));
    assert_eq!(e.register("carol", "addr_a"), Err(LedgerError::DuplicateAccount));
}

#[test]
fn transfer_moves_value_and_conserves_sum() {
    let mut e = engine_with_accounts();
    let before = e.get_balance("addr_a") + e.get_balance("addr_b");
    let tx = e.transfer("addr_a", "addr_b", 250, 10).unwrap();
    assert_eq!(e.get_balance("addr_a"), 750);
    assert_eq!(e.get_balance("addr_b"), 750);
    assert_eq!(e.get_balance("addr_a") + e.get_balance("addr_b"), before);
    let log = e.get_all_transactions();
    let t = &log[tx as usize];
    assert_eq!(t.kind, TxKind::Transfer);
    assert_eq!(t.from, "addr_a");
    assert_eq!(t.to, "addr_b");
    assert_eq!(t.amount, 250);
    assert_eq!(t.timestamp, 10);
}

#[test]
fn failed_transfer_changes_nothing() {
    let mut e = engine_with_accounts();
    let log_len = e.get_all_transactions().len();
    let a = e.get_balance("addr_a");
    let b = e.get_balance("addr_b");

    assert_eq!(e.transfer("addr_a", "addr_b", 1_000_000, 11), Err(LedgerError::InsufficientBalance));
    assert_eq!(e.transfer("addr_a", "nobody", 10, 12), Err(LedgerError::UnknownAccount));
    assert_eq!(e.transfer("nobody", "addr_b", 10, 13), Err(LedgerError::UnknownAccount));
    assert_eq!(e.transfer("addr_a", "addr_b", 0, 14), Err(LedgerError::InvalidAmount));
    assert_eq!(e.transfer("addr_a", "addr_b", -5, 15), Err(LedgerError::InvalidAmount));

    assert_eq!(e.get_balance("addr_a"), a);
    assert_eq!(e.get_balance("addr_b"), b);
    assert_eq!(e.get_all_transactions().len(), log_len);
}

#[test]
fn self_transfer_keeps_balance() {
    let mut e = engine_with_accounts();
    e.transfer("addr_a", "addr_a", 100, 20).unwrap();
    assert_eq!(e.get_balance("addr_a"), 1_000);
}

#[test]
fn mint_credits_and_creates_accounts() {
    let mut e = Engine::new_full_node();
    assert_eq!(e.mint("addr_z", 50, 5), Ok(0));
    assert_eq!(e.get_balance("addr_z"), 50);
    assert_eq!(e.mint("addr_z", 0, 6), Err(LedgerError::InvalidAmount));
    assert_eq!(e.mint("addr_z", -3, 7), Err(LedgerError::InvalidAmount));
    assert_eq!(e.get_balance("addr_z"), 50);
    let log = e.get_all_transactions();
    assert_eq!(log.len(), 1);
    assert_eq!(log[0].kind, TxKind::Deposit);
    assert_eq!(log[0].to, "addr_z");
    assert_eq!(log[0].amount, 50);
}

#[test]
fn mint_then_admin_set_balance() {
    // mint(Z, 50) leaves a balance of 50; admin_set_balance(Z, 10) then
    // leaves 10 and appends an admin_set transaction with the signed
    // delta -40.
    let mut e = Engine::new_full_node();
    e.mint("addr_z", 50, 5).unwrap();
    assert_eq!(e.get_balance("addr_z"), 50);
    let tx = e.admin_set_balance("addr_z", 10, 6).unwrap();
    assert_eq!(e.get_balance("addr_z"), 10);
    let log = e.get_all_transactions();
    let t = &log[tx as usize];
    assert_eq!(t.kind, TxKind::AdminSet);
    assert_eq!(t.to, "addr_z");
    assert_eq!(t.amount, -40);
}

#[test]
fn admin_set_balance_unknown_account_fails() {
    let mut e = Engine::new_full_node();
    assert_eq!(e.admin_set_balance("nobody", 10, 1), Err(LedgerError::UnknownAccount));
}

#[test]
fn stats_track_supply_and_counts() {
    let mut e = engine_with_accounts();
    let s = e.get_stats();
    assert_eq!(s.total_supply, 1_500);
    assert_eq!(s.transaction_count, 2);
    assert_eq!(s.account_count, 2);
    e.admin_set_balance("addr_a", 1_200, 9).unwrap();
    let s2 = e.get_stats();
    assert_eq!(s2.total_supply, 1_700);
    assert_eq!(s2.transaction_count, 3);
}

#[test]
fn account_transactions_are_filtered_in_order() {
    let mut e = engine_with_accounts();
    e.transfer("addr_a", "addr_b", 10, 30).unwrap();
    e.transfer("addr_b", "addr_a", 5, 31).unwrap();
    let txs = e.get_account_transactions("addr_a");
    assert_eq!(txs.len(), 3); // mint to a, a->b, b->a
    assert!(txs[0].amount == 1_000);
    assert_eq!(txs[1].amount, 10);
    assert_eq!(txs[2].amount, 5);
    let none = e.get_account_transactions("nobody");
    assert!(none.is_empty());
}

#[test]
fn error_messages_are_stable() {
    assert_eq!(LedgerError::UnknownAccount.message(), "unknown account");
    assert_eq!(LedgerError::LedgerUnavailable.message(), "ledger unavailable");
}

#[test]
fn accounts_are_listed_in_registration_order() {
    let e = engine_with_accounts();
    let accounts = e.ledger.get_accounts();
    assert_eq!(accounts.len(), 2);
    assert_eq!(accounts[0].name, "alice");
    assert_eq!(accounts[0].address, "addr_a");
    assert_eq!(accounts[0].balance, 1_000);
    assert_eq!(accounts[1].name, "bob");
}
