use blackbook_ledger::{
    BetStatus, CreateMarketRequest, Engine, LedgerError, MarketStatus, ResolveMarketRequest,
    TxKind, PRICE_SCALE,
};

fn outcomes(labels: &[&str]) -> Vec<String> {
    labels.iter().map(|s| s.to_string()).collect()
}

fn engine_with_market() -> Engine {
    let mut e = Engine::new_full_node();
    e.register("xavier", "addr_x").unwrap();
    e.register("yvonne", "addr_y").unwrap();
    e.mint("addr_x", 1_000, 1).unwrap();
    e.mint("addr_y", 1_000, 2).unwrap();
    e.create_market(
        "m1".to_string(),
        "Sample market".to_string(),
        "A sample two-way market".to_string(),
        outcomes(&["YES", "NO"]),
        "general".to_string(),
        "manual".to_string(),
    )
    .unwrap();
    e
}

#[test]
fn create_market_starts_open_with_zero_pools() {
    let e = engine_with_market();
    let markets = e.get_all_markets();
    assert_eq!(markets.len(), 1);
    assert_eq!(markets[0].id, "m1");
    assert_eq!(markets[0].status, MarketStatus::Open);
    assert_eq!(markets[0].pools, vec![0, 0]);
    assert_eq!(markets[0].winning_outcome, None);
    assert_eq!(e.get_open_markets().len(), 1);
}

#[test]
fn create_market_duplicate_id_fails() {
    let mut e = engine_with_market();
    let r = e.create_market(
        "m1".to_string(),
        "Again".to_string(),
        "Duplicate id".to_string(),
        outcomes(&["A", "B"]),
        "general".to_string(),
        "manual".to_string(),
    );
    assert_eq!(r, Err(LedgerError::DuplicateMarketId));
    assert_eq!(e.get_all_markets().len(), 1);
}

#[test]
fn place_bet_debits_stake_and_fills_pool() {
    let mut e = engine_with_market();
    let bet = e.place_bet("addr_x", "m1", 0, 100, 10).unwrap();
    assert_eq!(bet.account, "addr_x");
    assert_eq!(bet.market_id, "m1");
    assert_eq!(bet.outcome_index, 0);
    assert_eq!(bet.amount, 100);
    assert_eq!(bet.status, BetStatus::Locked);
    assert_eq!(e.get_balance("addr_x"), 900);
    let stats = e.get_market_stats("m1").unwrap();
    assert_eq!(stats.pools, vec![100, 0]);
    assert_eq!(stats.total_volume, 100);
    assert!(!stats.resolved);
    let log = e.get_all_transactions();
    let last = log.last().unwrap();
    assert_eq!(last.kind, TxKind::BetLock);
    assert_eq!(last.from, "addr_x");
    assert_eq!(last.to, "m1");
    assert_eq!(last.amount, 100);
}

#[test]
fn place_bet_failures_leave_pools_unchanged() {
    let mut e = engine_with_market();
    e.place_bet("addr_x", "m1", 0, 100, 10).unwrap();
    let balance = e.get_balance("addr_x");
    let pools = e.get_market_stats("m1").unwrap().pools;

    assert_eq!(e.place_bet("addr_x", "nope", 0, 10, 11).err(), Some(LedgerError::UnknownMarket));
    assert_eq!(e.place_bet("addr_x", "m1", 2, 10, 12).err(), Some(LedgerError::InvalidOutcomeIndex));
    assert_eq!(e.place_bet("addr_x", "m1", 0, 0, 13).err(), Some(LedgerError::InvalidAmount));
    assert_eq!(e.place_bet("addr_x", "m1", 0, -7, 14).err(), Some(LedgerError::InvalidAmount));
    assert_eq!(e.place_bet("addr_x", "m1", 0, 100_000, 15).err(), Some(LedgerError::InsufficientBalance));

    assert_eq!(e.get_balance("addr_x"), balance);
    assert_eq!(e.get_market_stats("m1").unwrap().pools, pools);
}

#[test]
fn close_market_stops_betting() {
    let mut e = engine_with_market();
    e.close_market("m1").unwrap();
    assert_eq!(e.get_open_markets().len(), 0);
    assert_eq!(e.place_bet("addr_x", "m1", 0, 10, 20).err(), Some(LedgerError::MarketNotOpen));
    assert_eq!(e.close_market("m1"), Err(LedgerError::MarketNotOpen));
    assert_eq!(e.close_market("nope"), Err(LedgerError::UnknownMarket));
}

#[test]
fn resolve_pays_winners_from_the_whole_pool() {
    // Market with outcomes ["YES", "NO"]; X stakes 100 on YES, Y stakes
    // 300 on NO.  Resolving to YES gives winning pool 100 and total pool
    // 400, so X receives 400, Y receives 0, and the payouts sum to the
    // total pool.
    let mut e = engine_with_market();
    e.place_bet("addr_x", "m1", 0, 100, 10).unwrap();
    e.place_bet("addr_y", "m1", 1, 300, 11).unwrap();
    let payouts = e.resolve("m1", 0, 12).unwrap();
    assert_eq!(payouts.len(), 2);
    assert_eq!(payouts[0], ("addr_x".to_string(), 400));
    assert_eq!(payouts[1], ("addr_y".to_string(), 0));
    let total: i64 = payouts.iter().map(|p| p.1).sum();
    assert_eq!(total, 400);

    assert_eq!(e.get_balance("addr_x"), 900 + 400);
    assert_eq!(e.get_balance("addr_y"), 700);

    let markets = e.get_all_markets();
    assert_eq!(markets[0].status, MarketStatus::Resolved);
    assert_eq!(markets[0].winning_outcome, Some(0));

    let bets = e.get_account_bets("addr_x");
    assert_eq!(bets[0].status, BetStatus::Won);
    let bets_y = e.get_account_bets("addr_y");
    assert_eq!(bets_y[0].status, BetStatus::Lost);

    // Both escrow entries were released exactly once.
    assert!(e.escrow.entries.is_empty());
    let log = e.get_all_transactions();
    let settles: Vec<_> = log.iter().filter(|t| t.kind == TxKind::BetSettle).collect();
    assert_eq!(settles.len(), 2);
    assert_eq!(settles[0].to, "addr_x");
    assert_eq!(settles[0].amount, 400);
    assert_eq!(settles[1].to, "addr_y");
    assert_eq!(settles[1].amount, 0);
}

#[test]
fn resolve_splits_proportionally() {
    let mut e = engine_with_market();
    e.register("zoe", "addr_z").unwrap();
    e.mint("addr_z", 1_000, 3).unwrap();
    e.place_bet("addr_x", "m1", 0, 100, 10).unwrap();
    e.place_bet("addr_z", "m1", 0, 300, 11).unwrap();
    e.place_bet("addr_y", "m1", 1, 200, 12).unwrap();
    // total 600, winning pool 400: X gets 100*600/400 = 150,
    // Z gets 300*600/400 = 450.
    let payouts = e.resolve("m1", 0, 13).unwrap();
    assert_eq!(payouts[0], ("addr_x".to_string(), 150));
    assert_eq!(payouts[1], ("addr_z".to_string(), 450));
    assert_eq!(payouts[2], ("addr_y".to_string(), 0));
    let total: i64 = payouts.iter().map(|p| p.1).sum();
    assert_eq!(total, 600);
}

#[test]
fn resolve_with_empty_winning_pool_refunds_stakes() {
    let mut e = engine_with_market();
    e.place_bet("addr_x", "m1", 1, 100, 10).unwrap();
    e.place_bet("addr_y", "m1", 1, 300, 11).unwrap();
    // Nobody backed YES: resolving to YES refunds every stake.
    let payouts = e.resolve("m1", 0, 12).unwrap();
    assert_eq!(payouts[0], ("addr_x".to_string(), 100));
    assert_eq!(payouts[1], ("addr_y".to_string(), 300));
    assert_eq!(e.get_balance("addr_x"), 1_000);
    assert_eq!(e.get_balance("addr_y"), 1_000);
}

#[test]
fn resolve_twice_fails_and_changes_nothing() {
    let mut e = engine_with_market();
    e.place_bet("addr_x", "m1", 0, 100, 10).unwrap();
    e.place_bet("addr_y", "m1", 1, 300, 11).unwrap();
    e.resolve("m1", 0, 12).unwrap();
    let balance_x = e.get_balance("addr_x");
    let pools = e.get_market_stats("m1").unwrap().pools;
    let log_len = e.get_all_transactions().len();

    assert_eq!(e.resolve("m1", 0, 13), Err(LedgerError::MarketAlreadyResolved));
    assert_eq!(e.resolve("m1", 1, 14), Err(LedgerError::MarketAlreadyResolved));

    assert_eq!(e.get_balance("addr_x"), balance_x);
    assert_eq!(e.get_market_stats("m1").unwrap().pools, pools);
    assert_eq!(e.get_all_transactions().len(), log_len);
}

#[test]
fn resolve_validates_market_and_outcome_first() {
    let mut e = engine_with_market();
    assert_eq!(e.resolve("nope", 0, 10), Err(LedgerError::UnknownMarket));
    assert_eq!(e.resolve("m1", 2, 11), Err(LedgerError::InvalidOutcomeIndex));
}

#[test]
fn closed_market_can_still_resolve() {
    let mut e = engine_with_market();
    e.place_bet("addr_x", "m1", 0, 100, 10).unwrap();
    e.close_market("m1").unwrap();
    let payouts = e.resolve("m1", 0, 12).unwrap();
    assert_eq!(payouts[0], ("addr_x".to_string(), 100));
}

#[test]
fn market_stats_prices_follow_pools() {
    let mut e = engine_with_market();
    assert_eq!(e.get_market_stats("nope").err(), Some(LedgerError::UnknownMarket));
    let empty = e.get_market_stats("m1").unwrap();
    assert_eq!(empty.prices_ppm, vec![0, 0]);
    e.place_bet("addr_x", "m1", 0, 100, 10).unwrap();
    e.place_bet("addr_y", "m1", 1, 300, 11).unwrap();
    let stats = e.get_market_stats("m1").unwrap();
    assert_eq!(stats.market_id, "m1");
    assert_eq!(stats.pools, vec![100, 300]);
    assert_eq!(stats.total_volume, 400);
    assert_eq!(stats.prices_ppm, vec![250_000, 750_000]);
    assert_eq!(stats.prices_ppm.iter().sum::<i64>(), PRICE_SCALE);
}

#[test]
fn account_bets_are_reported() {
    let mut e = engine_with_market();
    e.place_bet("addr_x", "m1", 0, 100, 10).unwrap();
    e.place_bet("addr_x", "m1", 1, 50, 11).unwrap();
    let bets = e.get_account_bets("addr_x");
    assert_eq!(bets.len(), 2);
    assert_eq!(bets[0].outcome_index, 0);
    assert_eq!(bets[1].outcome_index, 1);
    assert!(e.get_account_bets("addr_y").is_empty());
}

#[test]
fn wire_level_requests_drive_the_engine() {
    let mut e = Engine::new_full_node();
    e.mint("addr_x", 500, 1).unwrap();
    e.create_market_from(CreateMarketRequest {
        id: "m9".to_string(),
        title: "Wire market".to_string(),
        description: "Created from a request bundle".to_string(),
        outcomes: outcomes(&["YES", "NO"]),
        category: "general".to_string(),
        resolution_source: "manual".to_string(),
    })
    .unwrap();
    e.place_bet("addr_x", "m9", 0, 200, 2).unwrap();
    let payouts = e
        .resolve_market(
            ResolveMarketRequest { market_id: "m9".to_string(), winning_outcome: 0 },
            3,
        )
        .unwrap();
    assert_eq!(payouts, vec![("addr_x".to_string(), 200)]);
    assert_eq!(e.get_balance("addr_x"), 500);
}
