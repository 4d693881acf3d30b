use blackbook_ledger::{Engine, LedgerError, TxKind};

fn engine_with_funds() -> Engine {
    let mut e = Engine::new_full_node();
    e.register("alice", "addr_a").unwrap();
    e.mint("addr_a", 1_000, 1).unwrap();
    e
}

#[test]
fn lock_debits_and_records_entry() {
    let mut e = engine_with_funds();
    e.escrow.lock(&mut e.ledger, "addr_a", 200, "m1", 7, 10).unwrap();
    assert_eq!(e.get_balance("addr_a"), 800);
    assert_eq!(e.escrow.entries.len(), 1);
    assert_eq!(e.escrow.entries[0].bet_id, 7);
    assert_eq!(e.escrow.entries[0].account, "addr_a");
    assert_eq!(e.escrow.entries[0].amount, 200);
    assert_eq!(e.escrow.entries[0].market_id, "m1");
    let log = e.get_all_transactions();
    assert_eq!(log.last().unwrap().kind, TxKind::BetLock);
}

#[test]
fn relocking_the_same_bet_id_fails() {
    let mut e = engine_with_funds();
    e.escrow.lock(&mut e.ledger, "addr_a", 200, "m1", 7, 10).unwrap();
    let r = e.escrow.lock(&mut e.ledger, "addr_a", 100, "m1", 7, 11);
    assert_eq!(r, Err(LedgerError::DuplicateBet));
    assert_eq!(e.get_balance("addr_a"), 800);
    assert_eq!(e.escrow.entries.len(), 1);
}

#[test]
fn lock_failures_have_no_effect() {
    let mut e = engine_with_funds();
    assert_eq!(
        e.escrow.lock(&mut e.ledger, "addr_a", 0, "m1", 1, 10),
        Err(LedgerError::InvalidAmount)
    );
    assert_eq!(
        e.escrow.lock(&mut e.ledger, "addr_a", 2_000, "m1", 1, 11),
        Err(LedgerError::InsufficientBalance)
    );
    assert_eq!(e.get_balance("addr_a"), 1_000);
    assert!(e.escrow.entries.is_empty());
}

#[test]
fn release_win_credits_payout_once() {
    let mut e = engine_with_funds();
    e.escrow.lock(&mut e.ledger, "addr_a", 200, "m1", 7, 10).unwrap();
    e.escrow.release_win(&mut e.ledger, 7, 350, 11).unwrap();
    assert_eq!(e.get_balance("addr_a"), 1_150);
    assert!(e.escrow.entries.is_empty());
    let r = e.escrow.release_win(&mut e.ledger, 7, 350, 12);
    assert_eq!(r, Err(LedgerError::EscrowNotFound));
    assert_eq!(e.get_balance("addr_a"), 1_150);
}

#[test]
fn release_loss_forfeits_the_stake() {
    let mut e = engine_with_funds();
    e.escrow.lock(&mut e.ledger, "addr_a", 200, "m1", 7, 10).unwrap();
    e.escrow.release_loss(&mut e.ledger, 7, 11).unwrap();
    assert_eq!(e.get_balance("addr_a"), 800);
    assert!(e.escrow.entries.is_empty());
    assert_eq!(
        e.escrow.release_loss(&mut e.ledger, 7, 12),
        Err(LedgerError::EscrowNotFound)
    );
    let log = e.get_all_transactions();
    assert_eq!(log.last().unwrap().kind, TxKind::BetSettle);
    assert_eq!(log.last().unwrap().amount, 0);
}

#[test]
fn release_win_rejects_non_positive_payouts() {
    let mut e = engine_with_funds();
    e.escrow.lock(&mut e.ledger, "addr_a", 200, "m1", 7, 10).unwrap();
    assert_eq!(
        e.escrow.release_win(&mut e.ledger, 7, 0, 11),
        Err(LedgerError::InvalidAmount)
    );
    assert_eq!(e.escrow.entries.len(), 1);
}
