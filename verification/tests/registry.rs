use openbook::order::Side;
use openbook::registry::Markets;

#[test]
fn test_new_registry_has_no_markets() {
    let markets = Markets::new();
    assert_eq!(markets.len(), 0);
    assert!(markets.get("SOL/USDC").is_none());
}

#[test]
fn test_create_market_once() {
    let mut markets = Markets::new();
    markets.create_market("SOL/USDC");
    markets.deposit("SOL/USDC", "Alice", 1, 2);
    markets.create_market("SOL/USDC");
    markets.create_market("BTC/USDT");
    assert_eq!(markets.len(), 2);
    assert_eq!(markets.market_at(0).0, "SOL/USDC");
    assert_eq!(markets.market_at(1).0, "BTC/USDT");
    assert_eq!(markets.get("SOL/USDC").unwrap().balance_of("Alice").quote, 2);
}

#[test]
fn test_unknown_market_is_not_found() {
    let mut markets = Markets::new();
    markets.create_market("SOL/USDC");
    markets.deposit("ETH/USDC", "Alice", 100, 100);
    assert_eq!(markets.place_order("ETH/USDC", "Alice", Side::Ask, 1, 0, 1, 30, None), None);
    assert!(!markets.cancel_order("ETH/USDC", "Alice", 0, 1));
    markets.batch_match("ETH/USDC", Side::Bid, 1, 1, 30);
    markets.batch_cancel("ETH/USDC", "Alice", &[0], 1);
    assert!(markets.consume_events("ETH/USDC", "crank", 10).is_empty());
    assert!(markets.admits_deposit("ETH/USDC", "Alice", u64::MAX, u64::MAX));
    assert_eq!(markets.len(), 1);
    assert_eq!(markets.get("SOL/USDC").unwrap().balances().len(), 0);
}

#[test]
fn test_markets_share_nothing() {
    let mut markets = Markets::new();
    markets.create_market("SOL/USDC");
    markets.create_market("BTC/USDT");
    markets.deposit("SOL/USDC", "Alice", 100, 2000);
    markets.deposit("SOL/USDC", "Bob", 50, 1000);
    markets.deposit("BTC/USDT", "Carol", 10, 100_000);
    markets.deposit("BTC/USDT", "Dave", 5, 80_000);

    let alice_bid = markets.place_order("SOL/USDC", "Alice", Side::Bid, 10, 10, 1, 30, None);
    let bob_ask = markets.place_order("SOL/USDC", "Bob", Side::Ask, 10, 5, 2, 30, None);
    let carol_bid = markets.place_order("BTC/USDT", "Carol", Side::Bid, 20_000, 2, 3, 30, None);
    let dave_ask = markets.place_order("BTC/USDT", "Dave", Side::Ask, 19_500, 3, 4, 30, None);
    assert_eq!(alice_bid, Some(0));
    assert_eq!(bob_ask, Some(1));
    assert_eq!(carol_bid, Some(0));
    assert_eq!(dave_ask, Some(1));

    assert!(markets.cancel_order("SOL/USDC", "Alice", 0, 5));

    let sol = markets.get("SOL/USDC").unwrap();
    assert_eq!(sol.bids().len(), 0);
    assert_eq!(sol.balance_of("Alice").base, 105);
    assert_eq!(sol.balance_of("Alice").quote, 2050);
    assert_eq!(sol.balance_of("Bob").quote, 1050);
    assert_eq!(sol.fee_receiver().collected_fee, 0);
    assert_eq!(sol.event_queue().events().len(), 2);
    assert_eq!(sol.balance_of("Carol").base, 0);

    let btc = markets.get("BTC/USDT").unwrap();
    assert_eq!(btc.bids().len(), 0);
    assert_eq!(btc.asks().len(), 1);
    assert_eq!(btc.asks()[0].quantity, 1);
    // 40000 * 30 / 10000 = 120
    assert_eq!(btc.fee_receiver().collected_fee, 120);
    assert_eq!(btc.balance_of("Dave").quote, 80_000 + 40_000 - 120);
    assert_eq!(btc.balance_of("Dave").base, 5 - 3 + 1);
    assert_eq!(btc.balance_of("Carol").base, 12);
    assert_eq!(btc.event_queue().events().len(), 1);
    assert_eq!(btc.event_queue().events()[0].market, "BTC/USDT");
}

#[test]
fn test_registry_batches_and_events() {
    let mut markets = Markets::new();
    markets.create_market("SOL/USDC");
    markets.deposit("SOL/USDC", "Alice", 100, 2000);
    markets.place_order("SOL/USDC", "Alice", Side::Ask, 10, 1, 1, 0, Some(3));
    markets.place_order("SOL/USDC", "Alice", Side::Ask, 11, 1, 2, 0, None);
    assert!(markets.admits_batch_match("SOL/USDC", Side::Ask, 5, 3, 0));
    markets.batch_match("SOL/USDC", Side::Ask, 5, 3, 0);
    assert_eq!(markets.get("SOL/USDC").unwrap().asks().len(), 2);
    assert!(markets.admits_batch_cancel("SOL/USDC", "Alice", &[1, 2], 4));
    markets.batch_cancel("SOL/USDC", "Alice", &[1, 2], 4);
    assert_eq!(markets.get("SOL/USDC").unwrap().asks().len(), 0);

    let first = markets.consume_events("SOL/USDC", "crank1", 2);
    assert_eq!(first.len(), 2);
    let rest = markets.consume_events("SOL/USDC", "crank1", 10);
    assert_eq!(rest.len(), 1);
    let other = markets.consume_events("SOL/USDC", "crank2", 10);
    assert_eq!(other.len(), 3);
    assert!(markets.admits_place_order("SOL/USDC", "Alice", Side::Bid, 1, 1, 5, 0, None));
    assert!(markets.admits_cancel_order("SOL/USDC", "Alice", 0, 5));
}
