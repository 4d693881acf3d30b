use blackbook_ledger::numfmt::i64_to_string;
use blackbook_ledger::Engine;

#[test]
fn decimal_rendering_is_exact() {
    assert_eq!(i64_to_string(0), "0");
    assert_eq!(i64_to_string(7), "7");
    assert_eq!(i64_to_string(10), "10");
    assert_eq!(i64_to_string(1_234_567_890), "1234567890");
    assert_eq!(i64_to_string(-40), "-40");
    assert_eq!(i64_to_string(-1), "-1");
}

#[test]
fn recipes_describe_transactions() {
    let mut e = Engine::new_full_node();
    e.register("alice", "addr_a").unwrap();
    e.register("bob", "addr_b").unwrap();
    e.mint("addr_a", 100, 1).unwrap();
    e.transfer("addr_a", "addr_b", 25, 2).unwrap();
    let recipes = e.ledger.get_recipes_sorted();
    assert_eq!(recipes.len(), 2);
    // Newest first: the transfer sorts before the mint.
    assert_eq!(recipes[0].recipe_type, "transfer");
    assert_eq!(recipes[0].account, "addr_a");
    assert_eq!(recipes[0].address, "addr_a");
    assert_eq!(recipes[0].amount, 25);
    assert_eq!(recipes[0].description, "Transfer 25 BB from addr_a to addr_b");
    assert_eq!(recipes[0].related_id, None);
    assert_eq!(recipes[1].recipe_type, "deposit");
    assert_eq!(recipes[1].account, "addr_a");
    assert_eq!(recipes[1].description, "Deposit 100 BB to addr_a");
    assert_eq!(
        recipes[0].metadata,
        vec![
            ("kind".to_string(), "transfer".to_string()),
            ("from".to_string(), "addr_a".to_string()),
            ("to".to_string(), "addr_b".to_string()),
        ]
    );
}

#[test]
fn recipes_sort_ties_by_transaction_id() {
    let mut e = Engine::new_full_node();
    e.mint("addr_a", 10, 5).unwrap();
    e.mint("addr_b", 20, 5).unwrap();
    e.mint("addr_c", 30, 4).unwrap();
    let recipes = e.ledger.get_recipes_sorted();
    // Equal timestamps: the later transaction id comes first.
    assert_eq!(recipes[0].account, "addr_b");
    assert_eq!(recipes[1].account, "addr_a");
    assert_eq!(recipes[2].account, "addr_c");
}

#[test]
fn account_recipes_are_restricted_to_the_account() {
    let mut e = Engine::new_full_node();
    e.register("alice", "addr_a").unwrap();
    e.register("bob", "addr_b").unwrap();
    e.register("carol", "addr_c").unwrap();
    e.mint("addr_a", 100, 1).unwrap();
    e.mint("addr_c", 100, 2).unwrap();
    e.transfer("addr_a", "addr_b", 10, 3).unwrap();
    let for_a = e.ledger.get_account_recipes_sorted("addr_a");
    assert_eq!(for_a.len(), 2);
    assert_eq!(for_a[0].recipe_type, "transfer");
    assert_eq!(for_a[1].recipe_type, "deposit");
    assert!(e.ledger.get_account_recipes_sorted("nobody").is_empty());
}

#[test]
fn recipes_by_type_filter_on_the_display_type() {
    let mut e = Engine::new_full_node();
    e.register("alice", "addr_a").unwrap();
    e.register("bob", "addr_b").unwrap();
    e.mint("addr_a", 100, 1).unwrap();
    e.transfer("addr_a", "addr_b", 10, 2).unwrap();
    e.transfer("addr_a", "addr_b", 5, 3).unwrap();
    let transfers = e.ledger.get_recipes_by_type("transfer");
    assert_eq!(transfers.len(), 2);
    assert_eq!(transfers[0].amount, 5);
    assert_eq!(transfers[1].amount, 10);
    assert_eq!(e.ledger.get_recipes_by_type("deposit").len(), 1);
    assert!(e.ledger.get_recipes_by_type("unheard_of").is_empty());
}

#[test]
fn bet_recipes_carry_the_market() {
    let mut e = Engine::new_full_node();
    e.register("xavier", "addr_x").unwrap();
    e.register("yvonne", "addr_y").unwrap();
    e.mint("addr_x", 500, 1).unwrap();
    e.mint("addr_y", 500, 2).unwrap();
    e.create_market(
        "m1".to_string(),
        "Sample".to_string(),
        "Two-way".to_string(),
        vec!["YES".to_string(), "NO".to_string()],
        "general".to_string(),
        "manual".to_string(),
    )
    .unwrap();
    e.place_bet("addr_x", "m1", 0, 100, 3).unwrap();
    e.place_bet("addr_y", "m1", 1, 300, 4).unwrap();
    e.resolve("m1", 0, 5).unwrap();

    let placed = e.ledger.get_recipes_by_type("bet_placed");
    assert_eq!(placed.len(), 2);
    assert_eq!(placed[1].description, "Bet 100 BB on market m1");
    assert_eq!(placed[1].related_id, Some("m1".to_string()));

    let won = e.ledger.get_recipes_by_type("bet_won");
    assert_eq!(won.len(), 1);
    assert_eq!(won[0].account, "addr_x");
    assert_eq!(won[0].description, "Bet won 400 BB on market m1");

    let lost = e.ledger.get_recipes_by_type("bet_lost");
    assert_eq!(lost.len(), 1);
    assert_eq!(lost[0].account, "addr_y");
    assert_eq!(lost[0].description, "Bet lost on market m1");
}

#[test]
fn admin_set_recipe_shows_the_delta() {
    let mut e = Engine::new_full_node();
    e.mint("addr_z", 50, 1).unwrap();
    e.admin_set_balance("addr_z", 10, 2).unwrap();
    let admin = e.ledger.get_recipes_by_type("admin_set");
    assert_eq!(admin.len(), 1);
    assert_eq!(admin[0].amount, -40);
    assert_eq!(admin[0].description, "Admin set -40 BB for addr_z");
}
