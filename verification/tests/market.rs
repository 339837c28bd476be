use openbook::events::{Event, EventType};
use openbook::market::MarketState;
use openbook::order::Side;

const MARKET: &str = "SOL/USDC";

fn funded() -> MarketState {
    let mut market = MarketState::new();
    market.deposit("Alice", 100, 20_000);
    market.deposit("Bob", 50, 10_000);
    market
}

fn events_of(market: &MarketState) -> Vec<Event> {
    market.event_queue().events().iter().cloned().collect()
}

#[test]
fn test_new_market_is_empty() {
    let market = MarketState::new();
    assert!(market.bids().is_empty());
    assert!(market.asks().is_empty());
    assert_eq!(market.next_order_id(), 0);
    assert_eq!(market.fee_receiver().collected_fee, 0);
    assert_eq!(market.event_queue().events().len(), 0);
    assert_eq!(market.balances().len(), 0);
}

#[test]
fn test_deposit_adds_to_both_assets() {
    let mut market = MarketState::new();
    market.deposit("Alice", 100, 2000);
    market.deposit("Alice", 1, 2);
    let balance = market.balance_of("Alice");
    assert_eq!(balance.base, 101);
    assert_eq!(balance.quote, 2002);
    assert_eq!(market.balance_of("Nobody").base, 0);
    assert_eq!(market.balance_of("Nobody").quote, 0);
    assert_eq!(market.balances().len(), 1);
}

#[test]
fn test_deposit_beyond_64_bits_is_not_admitted() {
    let mut market = MarketState::new();
    market.deposit("Alice", u64::MAX, 0);
    assert!(!market.admits_deposit("Alice", 1, 0));
    assert!(market.admits_deposit("Alice", 0, u64::MAX));
    assert!(market.admits_deposit("Bob", 1, 0));
}

#[test]
fn test_resting_bid_gets_its_lock_back() {
    let mut market = funded();
    let id = market.place_order(MARKET, "Alice", Side::Bid, 10, 10, 1, 30, None);
    assert_eq!(id, Some(0));
    assert_eq!(market.bids().len(), 1);
    assert_eq!(market.bids()[0].id, 0);
    assert_eq!(market.bids()[0].owner, "Alice");
    assert_eq!(market.bids()[0].price, 10);
    assert_eq!(market.bids()[0].quantity, 10);
    assert_eq!(market.bids()[0].expire_ts, None);
    assert_eq!(market.balance_of("Alice").quote, 20_000);
    assert_eq!(market.next_order_id(), 1);
    assert!(events_of(&market).is_empty());
}

#[test]
fn test_partial_fill_of_resting_bid() {
    let mut market = funded();
    market.place_order(MARKET, "Alice", Side::Bid, 10, 5, 1, 0, None);
    let id = market.place_order(MARKET, "Bob", Side::Ask, 10, 3, 2, 0, None);
    assert_eq!(id, Some(1));

    assert_eq!(market.bids().len(), 1);
    assert_eq!(market.bids()[0].quantity, 2);
    assert_eq!(market.asks().len(), 0);

    let events = events_of(&market);
    assert_eq!(events.len(), 1);
    assert!(matches!(events[0].event_type, EventType::Fill));
    assert_eq!(events[0].quantity, 3);
    assert_eq!(events[0].price, Some(10));
    assert_eq!(events[0].maker.as_deref(), Some("Alice"));
    assert_eq!(events[0].taker.as_deref(), Some("Bob"));
    assert_eq!(events[0].order_id, 1);
    assert_eq!(events[0].timestamp, 2);
    assert_eq!(events[0].market, MARKET);
    assert_eq!(events[0].fee, 0);

    assert_eq!(market.balance_of("Alice").base, 103);
    assert_eq!(market.balance_of("Bob").base, 47);
    assert_eq!(market.balance_of("Bob").quote, 10_030);
}

#[test]
fn test_bid_consumes_several_asks() {
    let mut market = funded();
    market.deposit("Carol", 50, 0);
    market.place_order(MARKET, "Bob", Side::Ask, 100, 5, 1, 0, None);
    market.place_order(MARKET, "Carol", Side::Ask, 101, 5, 2, 0, None);
    let id = market.place_order(MARKET, "Alice", Side::Bid, 1_000, 10, 3, 0, None);
    assert_eq!(id, Some(2));

    assert_eq!(market.bids().len(), 0);
    assert_eq!(market.asks().len(), 0);
    let events = events_of(&market);
    assert_eq!(events.len(), 2);
    assert_eq!(events[0].price, Some(100));
    assert_eq!(events[0].maker.as_deref(), Some("Bob"));
    assert_eq!(events[0].quantity, 5);
    assert_eq!(events[1].price, Some(101));
    assert_eq!(events[1].maker.as_deref(), Some("Carol"));
    assert_eq!(events[1].quantity, 5);
    assert_eq!(market.balance_of("Alice").base, 110);
    // The whole limit price was locked; the trades were made at the resting prices.
    assert_eq!(market.balance_of("Alice").quote, 20_000 - 10_000);
    assert_eq!(market.balance_of("Bob").quote, 10_000 + 500);
    assert_eq!(market.balance_of("Carol").quote, 505);
}

#[test]
fn test_fee_is_taken_from_the_sellers_proceeds() {
    let mut market = funded();
    market.place_order(MARKET, "Bob", Side::Ask, 1_000, 7, 1, 30, None);
    market.place_order(MARKET, "Alice", Side::Bid, 1_000, 7, 2, 30, None);
    // 7000 * 30 / 10000 = 21
    assert_eq!(market.fee_receiver().collected_fee, 21);
    assert_eq!(market.balance_of("Bob").quote, 10_000 + 7_000 - 21);
    assert_eq!(market.balance_of("Alice").quote, 20_000 - 7_000);
    assert_eq!(market.balance_of("Alice").base, 107);
    // The resting ask got its lock back when it came to rest.
    assert_eq!(market.balance_of("Bob").base, 50);
    assert_eq!(events_of(&market)[0].fee, 21);
}

#[test]
fn test_fee_is_rounded_down() {
    let mut market = funded();
    market.place_order(MARKET, "Bob", Side::Ask, 33, 3, 1, 125, None);
    market.place_order(MARKET, "Alice", Side::Bid, 33, 3, 2, 125, None);
    // 99 * 125 / 10000 = 1.2375
    assert_eq!(market.fee_receiver().collected_fee, 1);
    assert_eq!(market.balance_of("Bob").quote, 10_000 + 98);
}

#[test]
fn test_incoming_ask_pays_the_fee() {
    let mut market = funded();
    market.place_order(MARKET, "Alice", Side::Bid, 1_000, 4, 1, 100, None);
    market.place_order(MARKET, "Bob", Side::Ask, 900, 4, 2, 100, None);
    // Traded at the resting price: 4000, fee 40.
    assert_eq!(market.fee_receiver().collected_fee, 40);
    assert_eq!(market.balance_of("Bob").quote, 10_000 + 4_000 - 40);
    assert_eq!(market.balance_of("Bob").base, 46);
    assert_eq!(market.balance_of("Alice").base, 104);
    let events = events_of(&market);
    assert_eq!(events[0].price, Some(1_000));
    assert_eq!(events[0].maker.as_deref(), Some("Alice"));
    assert_eq!(events[0].taker.as_deref(), Some("Bob"));
}

#[test]
fn test_whole_fee_rate_leaves_the_seller_nothing() {
    let mut market = funded();
    market.place_order(MARKET, "Bob", Side::Ask, 10, 1, 1, 10_000, None);
    market.place_order(MARKET, "Alice", Side::Bid, 10, 1, 2, 10_000, None);
    assert_eq!(market.fee_receiver().collected_fee, 10);
    assert_eq!(market.balance_of("Bob").quote, 10_000);
}

#[test]
fn test_insufficient_quote_is_turned_down() {
    let mut market = funded();
    let id = market.place_order(MARKET, "Bob", Side::Bid, 10_001, 1, 1, 30, None);
    assert_eq!(id, None);
    assert_eq!(market.bids().len(), 0);
    assert_eq!(market.balance_of("Bob").quote, 10_000);
    assert_eq!(market.next_order_id(), 0);
    assert!(events_of(&market).is_empty());
}

#[test]
fn test_insufficient_base_is_turned_down() {
    let mut market = funded();
    let id = market.place_order(MARKET, "Bob", Side::Ask, 1, 51, 1, 30, None);
    assert_eq!(id, None);
    assert_eq!(market.asks().len(), 0);
    assert_eq!(market.balance_of("Bob").base, 50);
    assert_eq!(market.next_order_id(), 0);
}

#[test]
fn test_unknown_owner_is_turned_down_and_gets_no_account() {
    let mut market = funded();
    let id = market.place_order(MARKET, "Mallory", Side::Ask, 1, 1, 1, 30, None);
    assert_eq!(id, None);
    assert_eq!(market.balances().len(), 2);
}

#[test]
fn test_notional_beyond_64_bits_is_turned_down() {
    let mut market = funded();
    assert!(market.admits_place_order(MARKET, "Alice", Side::Bid, u64::MAX, 10, 1, 30, None));
    let id = market.place_order(MARKET, "Alice", Side::Bid, u64::MAX, 10, 1, 30, None);
    assert_eq!(id, None);
    assert_eq!(market.balance_of("Alice").quote, 20_000);
    assert_eq!(market.bids().len(), 0);
}

#[test]
fn test_zero_quantity_creates_no_order() {
    let mut market = funded();
    market.place_order(MARKET, "Alice", Side::Bid, 10, 5, 1, 30, None);
    let id = market.place_order(MARKET, "Bob", Side::Ask, 10, 0, 2, 30, None);
    assert_eq!(id, Some(1));
    assert_eq!(market.asks().len(), 0);
    assert_eq!(market.bids().len(), 1);
    assert_eq!(market.bids()[0].quantity, 5);
    assert_eq!(market.balance_of("Bob").base, 50);
    assert_eq!(market.balance_of("Bob").quote, 10_000);
    assert!(events_of(&market).is_empty());
    assert_eq!(market.next_order_id(), 2);

    let id = market.place_order(MARKET, "Stranger", Side::Bid, 10, 0, 3, 30, None);
    assert_eq!(id, Some(2));
    assert_eq!(market.balances().len(), 2);
    assert_eq!(market.bids().len(), 1);
}

#[test]
fn test_bids_rest_by_price_then_time() {
    let mut market = funded();
    market.place_order(MARKET, "Alice", Side::Bid, 10, 1, 1, 0, None);
    market.place_order(MARKET, "Bob", Side::Bid, 11, 1, 2, 0, None);
    market.place_order(MARKET, "Alice", Side::Bid, 11, 1, 3, 0, None);
    market.place_order(MARKET, "Bob", Side::Bid, 10, 1, 4, 0, None);
    let ids: Vec<u64> = market.bids().iter().map(|o| o.id).collect();
    assert_eq!(ids, vec![1, 2, 0, 3]);
}

#[test]
fn test_asks_rest_by_price_then_time() {
    let mut market = funded();
    market.place_order(MARKET, "Alice", Side::Ask, 11, 1, 1, 0, None);
    market.place_order(MARKET, "Bob", Side::Ask, 10, 1, 2, 0, None);
    market.place_order(MARKET, "Alice", Side::Ask, 10, 1, 3, 0, None);
    market.place_order(MARKET, "Bob", Side::Ask, 12, 1, 4, 0, None);
    let ids: Vec<u64> = market.asks().iter().map(|o| o.id).collect();
    assert_eq!(ids, vec![1, 2, 0, 3]);
}

#[test]
fn test_earlier_order_at_the_same_price_trades_first() {
    let mut market = funded();
    market.place_order(MARKET, "Alice", Side::Bid, 10, 2, 1, 0, None);
    market.place_order(MARKET, "Bob", Side::Bid, 10, 2, 2, 0, None);
    market.deposit("Carol", 10, 0);
    market.place_order(MARKET, "Carol", Side::Ask, 10, 3, 3, 0, None);
    let events = events_of(&market);
    assert_eq!(events.len(), 2);
    assert_eq!(events[0].maker.as_deref(), Some("Alice"));
    assert_eq!(events[0].quantity, 2);
    assert_eq!(events[1].maker.as_deref(), Some("Bob"));
    assert_eq!(events[1].quantity, 1);
    assert_eq!(market.bids().len(), 1);
    assert_eq!(market.bids()[0].owner, "Bob");
    assert_eq!(market.bids()[0].quantity, 1);
}

#[test]
fn test_order_stops_at_its_limit() {
    let mut market = funded();
    market.place_order(MARKET, "Bob", Side::Ask, 10, 2, 1, 0, None);
    market.place_order(MARKET, "Bob", Side::Ask, 12, 2, 2, 0, None);
    market.place_order(MARKET, "Alice", Side::Bid, 11, 5, 3, 0, None);
    assert_eq!(market.asks().len(), 1);
    assert_eq!(market.asks()[0].price, 12);
    assert_eq!(market.bids().len(), 1);
    assert_eq!(market.bids()[0].quantity, 3);
    assert_eq!(events_of(&market).len(), 1);
}

#[test]
fn test_expired_order_leaves_before_the_next_submission_trades() {
    let t0 = 1_000_000_000;
    let mut market = funded();
    market.place_order(MARKET, "Alice", Side::Bid, 10, 10, t0, 30, Some(t0 + 5));
    assert_eq!(market.bids().len(), 1);
    assert_eq!(market.balance_of("Alice").quote, 20_000);

    // A crossing ask arrives after the bid has run out: it finds nothing to trade with.
    let id = market.place_order(MARKET, "Bob", Side::Ask, 10, 5, t0 + 6, 30, None);
    assert_eq!(id, Some(1));
    assert_eq!(market.bids().len(), 0);
    assert_eq!(market.asks().len(), 1);
    assert_eq!(market.balance_of("Alice").quote, 20_000 + 100);

    let events = events_of(&market);
    assert_eq!(events.len(), 1);
    assert!(matches!(events[0].event_type, EventType::Expire));
    assert_eq!(events[0].order_id, 0);
    assert_eq!(events[0].maker, None);
    assert_eq!(events[0].taker.as_deref(), Some("Alice"));
    assert_eq!(events[0].price, Some(10));
    assert_eq!(events[0].quantity, 10);
    assert_eq!(events[0].fee, 0);
    assert_eq!(events[0].timestamp, t0 + 6);
}

#[test]
fn test_order_is_valid_until_its_time() {
    let mut market = funded();
    market.place_order(MARKET, "Alice", Side::Bid, 10, 1, 10, 0, Some(15));
    market.clean_expired_orders(14, MARKET);
    assert_eq!(market.bids().len(), 1);
    market.clean_expired_orders(15, MARKET);
    assert_eq!(market.bids().len(), 0);
    // A second sweep at the same time finds nothing.
    market.clean_expired_orders(15, MARKET);
    assert_eq!(events_of(&market).len(), 1);
}

#[test]
fn test_sweep_takes_bids_before_asks() {
    let mut market = funded();
    market.place_order(MARKET, "Bob", Side::Ask, 20, 3, 1, 0, Some(5));
    market.place_order(MARKET, "Alice", Side::Bid, 10, 2, 2, 0, Some(5));
    market.place_order(MARKET, "Alice", Side::Bid, 9, 2, 3, 0, None);
    market.clean_expired_orders(5, MARKET);
    let events = events_of(&market);
    assert_eq!(events.len(), 2);
    assert_eq!(events[0].order_id, 1);
    assert_eq!(events[1].order_id, 0);
    assert_eq!(market.bids().len(), 1);
    assert_eq!(market.asks().len(), 0);
    assert_eq!(market.balance_of("Bob").base, 53);
    assert_eq!(market.balance_of("Alice").quote, 20_020);
}

#[test]
fn test_cancel_twice() {
    let mut market = funded();
    let id = market.place_order(MARKET, "Alice", Side::Bid, 10, 10, 1, 30, None).unwrap();
    assert!(market.cancel_order(MARKET, "Alice", id, 2));
    assert!(!market.cancel_order(MARKET, "Alice", id, 3));
    assert_eq!(market.bids().len(), 0);
    let events = events_of(&market);
    assert_eq!(events.len(), 1);
    assert!(matches!(events[0].event_type, EventType::Cancel));
    assert_eq!(events[0].order_id, id);
    assert_eq!(events[0].taker.as_deref(), Some("Alice"));
    assert_eq!(events[0].maker, None);
    assert_eq!(events[0].quantity, 10);
    assert_eq!(events[0].timestamp, 2);
    assert_eq!(market.balance_of("Alice").quote, 20_100);
}

#[test]
fn test_cancel_of_another_users_order_does_nothing() {
    let mut market = funded();
    let id = market.place_order(MARKET, "Alice", Side::Ask, 10, 10, 1, 30, None).unwrap();
    assert!(!market.cancel_order(MARKET, "Bob", id, 2));
    assert!(!market.cancel_order(MARKET, "Alice", id + 1, 2));
    assert_eq!(market.asks().len(), 1);
    assert!(events_of(&market).is_empty());
    assert!(market.cancel_order(MARKET, "Alice", id, 2));
    assert_eq!(market.balance_of("Alice").base, 110);
}

#[test]
fn test_cancel_does_not_sweep() {
    let mut market = funded();
    market.place_order(MARKET, "Alice", Side::Bid, 10, 1, 1, 0, Some(2));
    assert!(!market.cancel_order(MARKET, "Bob", 7, 100));
    assert_eq!(market.bids().len(), 1);
}

#[test]
fn test_batch_cancel_skips_what_does_not_match() {
    let mut market = funded();
    let a = market.place_order(MARKET, "Alice", Side::Bid, 10, 1, 1, 0, None).unwrap();
    let b = market.place_order(MARKET, "Bob", Side::Bid, 9, 1, 2, 0, None).unwrap();
    let c = market.place_order(MARKET, "Alice", Side::Ask, 20, 1, 3, 0, None).unwrap();
    let d = market.place_order(MARKET, "Alice", Side::Ask, 21, 1, 4, 0, None).unwrap();
    market.batch_cancel(MARKET, "Alice", &[a, b, c, 99], 5);
    assert_eq!(market.bids().len(), 1);
    assert_eq!(market.bids()[0].id, b);
    assert_eq!(market.asks().len(), 1);
    assert_eq!(market.asks()[0].id, d);
    let events = events_of(&market);
    assert_eq!(events.len(), 2);
    assert!(matches!(events[0].event_type, EventType::Cancel));
    assert_eq!(events[0].order_id, a);
    assert_eq!(events[1].order_id, c);
    assert_eq!(events[1].timestamp, 5);

    market.batch_cancel(MARKET, "Alice", &[], 6);
    market.batch_cancel(MARKET, "Nobody", &[b, d], 6);
    assert_eq!(events_of(&market).len(), 2);
}

#[test]
fn test_batch_match_submits_the_first_orders_anew() {
    let mut market = funded();
    market.place_order(MARKET, "Alice", Side::Bid, 10, 1, 1, 0, Some(50));
    market.place_order(MARKET, "Bob", Side::Bid, 9, 2, 2, 0, None);
    market.place_order(MARKET, "Bob", Side::Bid, 8, 3, 3, 0, None);
    market.batch_match(MARKET, Side::Bid, 2, 4, 0);
    let bids: Vec<(u64, u64, u64)> =
        market.bids().iter().map(|o| (o.id, o.price, o.quantity)).collect();
    assert_eq!(bids, vec![(0, 10, 1), (3, 10, 1), (1, 9, 2), (4, 9, 2), (2, 8, 3)]);
    assert_eq!(market.bids()[1].owner, "Alice");
    assert_eq!(market.bids()[1].expire_ts, Some(50));
    assert_eq!(market.next_order_id(), 5);

    // More than there are: all of them, once each.
    market.batch_match(MARKET, Side::Ask, 10, 5, 0);
    assert_eq!(market.asks().len(), 0);
    assert_eq!(market.next_order_id(), 5);
}

#[test]
fn test_batch_match_sweeps_first() {
    let mut market = funded();
    market.place_order(MARKET, "Alice", Side::Bid, 10, 1, 1, 0, Some(3));
    market.place_order(MARKET, "Bob", Side::Bid, 9, 2, 2, 0, None);
    market.batch_match(MARKET, Side::Bid, 1, 3, 0);
    let ids: Vec<u64> = market.bids().iter().map(|o| o.id).collect();
    assert_eq!(ids, vec![1, 2]);
    assert_eq!(events_of(&market).len(), 1);
}

#[test]
fn test_cancel_conserves_both_assets() {
    let mut market = funded();
    market.place_order(MARKET, "Bob", Side::Ask, 20, 4, 1, 0, None);
    market.place_order(MARKET, "Alice", Side::Bid, 10, 3, 2, 0, None);
    let base = |m: &MarketState| -> u64 {
        m.balance_of("Alice").base
            + m.balance_of("Bob").base
            + m.asks().iter().map(|o| o.quantity).sum::<u64>()
    };
    let quote = |m: &MarketState| -> u64 {
        m.balance_of("Alice").quote
            + m.balance_of("Bob").quote
            + m.bids().iter().map(|o| o.price * o.quantity).sum::<u64>()
            + m.fee_receiver().collected_fee
    };
    let (base_before, quote_before) = (base(&market), quote(&market));
    assert!(market.cancel_order(MARKET, "Bob", 0, 3));
    assert!(market.cancel_order(MARKET, "Alice", 1, 3));
    assert_eq!(base(&market), base_before);
    assert_eq!(quote(&market), quote_before);
}

#[test]
fn test_resting_ask_adds_to_the_base_it_stands_for() {
    let mut market = funded();
    market.place_order(MARKET, "Bob", Side::Ask, 20, 4, 1, 0, None);
    // The lock came back when the ask came to rest, and the ask stands for 4 more.
    assert_eq!(market.balance_of("Bob").base, 50);
    assert_eq!(market.asks()[0].quantity, 4);
}

#[test]
fn test_full_fill_at_the_limit_conserves_quote() {
    let mut market = funded();
    market.place_order(MARKET, "Bob", Side::Ask, 100, 4, 1, 30, None);
    market.cancel_order(MARKET, "Nobody", 0, 1);
    let before = market.balance_of("Alice").quote
        + market.balance_of("Bob").quote
        + market.fee_receiver().collected_fee;
    market.place_order(MARKET, "Alice", Side::Bid, 100, 4, 2, 30, None);
    let after = market.balance_of("Alice").quote
        + market.balance_of("Bob").quote
        + market.fee_receiver().collected_fee;
    assert_eq!(after, before);
    assert_eq!(market.fee_receiver().collected_fee, 1);
}

#[test]
fn test_market_consume_events() {
    let mut market = funded();
    market.place_order(MARKET, "Alice", Side::Bid, 10, 3, 1, 0, None);
    market.place_order(MARKET, "Bob", Side::Ask, 10, 1, 2, 0, None);
    market.place_order(MARKET, "Bob", Side::Ask, 10, 1, 3, 0, None);
    let first = market.consume_events("crank", 1);
    assert_eq!(first.len(), 1);
    assert_eq!(first[0].timestamp, 2);
    let second = market.consume_events("crank", 5);
    assert_eq!(second.len(), 1);
    assert_eq!(second[0].timestamp, 3);
    assert!(market.consume_events("crank", 5).is_empty());
}

#[test]
fn test_admission_checks_leave_the_market_alone() {
    let market = {
        let mut market = funded();
        market.place_order(MARKET, "Alice", Side::Bid, 10, 3, 1, 0, Some(5));
        market
    };
    assert!(market.admits_place_order(MARKET, "Bob", Side::Ask, 10, 1, 9, 30, None));
    assert!(market.admits_clean_expired_orders(9, MARKET));
    assert!(market.admits_cancel_order(MARKET, "Alice", 0, 9));
    assert!(market.admits_batch_cancel(MARKET, "Alice", &[0], 9));
    assert!(market.admits_batch_match(MARKET, Side::Bid, 1, 2, 30));
    assert_eq!(market.bids().len(), 1);
    assert_eq!(market.event_queue().events().len(), 0);
}

#[test]
fn test_refund_beyond_64_bits_is_not_admitted() {
    let mut market = MarketState::new();
    market.deposit("Alice", 0, u64::MAX);
    market.place_order(MARKET, "Alice", Side::Bid, 1, 1, 1, 0, None);
    market.deposit("Bob", 0, 0);
    // Alice holds all that 64 bits can hold; getting the lock back a second time
    // would not fit.
    assert_eq!(market.balance_of("Alice").quote, u64::MAX);
    assert!(!market.admits_cancel_order(MARKET, "Alice", 0, 2));
    assert!(market.admits_cancel_order(MARKET, "Bob", 0, 2));
    assert!(!market.admits_batch_cancel(MARKET, "Alice", &[0], 2));
    assert_eq!(market.bids().len(), 1);
}

#[test]
fn test_demo_walkthrough() {
    let fee_bps = 30;
    let mut now = 1_000_000_000u64;
    let mut market = MarketState::new();
    market.deposit("Alice", 100, 2000);
    market.deposit("Bob", 50, 1000);

    let alice_bid =
        market.place_order(MARKET, "Alice", Side::Bid, 10, 10, now, fee_bps, Some(now + 5));
    assert_eq!(alice_bid, Some(0));
    now += 1;
    let bob_ask =
        market.place_order(MARKET, "Bob", Side::Ask, 10, 5, now, fee_bps, Some(now + 10));
    assert_eq!(bob_ask, Some(1));
    assert_eq!(market.bids()[0].quantity, 5);
    assert_eq!(market.balance_of("Bob").base, 45);
    assert_eq!(market.balance_of("Bob").quote, 1050);
    assert_eq!(market.balance_of("Alice").base, 105);

    now += 6;
    let again =
        market.place_order(MARKET, "Alice", Side::Bid, 10, 10, now, fee_bps, Some(now + 10));
    assert_eq!(again, Some(2));
    assert_eq!(market.bids().len(), 1);
    assert_eq!(market.balance_of("Alice").quote, 2050);
    now += 1;

    market.batch_match(MARKET, Side::Bid, 2, now, fee_bps);
    assert_eq!(market.bids().len(), 2);
    assert_eq!(market.bids()[0].id, 2);
    assert_eq!(market.bids()[1].id, 3);

    let bob_orders: Vec<u64> =
        market.asks().iter().filter(|o| o.owner == "Bob").map(|o| o.id).collect();
    market.batch_cancel(MARKET, "Bob", &bob_orders, now);

    assert_eq!(market.balance_of("Alice").base, 105);
    assert_eq!(market.balance_of("Alice").quote, 2050);
    assert_eq!(market.balance_of("Bob").base, 45);
    assert_eq!(market.balance_of("Bob").quote, 1050);
    assert_eq!(market.fee_receiver().collected_fee, 0);
    let events = events_of(&market);
    assert_eq!(events.len(), 2);
    assert!(matches!(events[0].event_type, EventType::Fill));
    assert!(matches!(events[1].event_type, EventType::Expire));

    assert_eq!(market.consume_events("crank1", 10).len(), 2);
    assert_eq!(market.consume_events("crank1", 10).len(), 0);
    assert_eq!(market.consume_events("crank2", 3).len(), 2);
}

#[test]
fn test_fee_above_the_whole_is_admitted_while_what_is_paid_covers_it() {
    let mut market = funded();
    // Nothing trades: the rate does not matter.
    assert!(market.admits_place_order(MARKET, "Bob", Side::Ask, 1, 1, 1, 15_000, None));
    market.place_order(MARKET, "Bob", Side::Ask, 1, 1, 1, 15_000, None);
    // 1 * 15000 / 10000 = 1, which the price paid covers.
    assert!(market.admits_place_order(MARKET, "Alice", Side::Bid, 1, 1, 2, 15_000, None));
    market.place_order(MARKET, "Alice", Side::Bid, 1, 1, 2, 15_000, None);
    assert_eq!(market.fee_receiver().collected_fee, 1);
    assert_eq!(market.balance_of("Bob").quote, 10_000);
    assert_eq!(market.balance_of("Alice").quote, 19_999);
}

#[test]
fn test_fee_above_what_is_paid_is_not_admitted() {
    let mut market = funded();
    market.place_order(MARKET, "Bob", Side::Ask, 2, 1, 1, 0, None);
    // 2 * 15000 / 10000 = 3, more than the 2 that are paid.
    assert!(!market.admits_place_order(MARKET, "Alice", Side::Bid, 2, 1, 2, 15_000, None));
    assert!(market.admits_place_order(MARKET, "Alice", Side::Bid, 2, 1, 2, 14_999, None));
    assert!(market.admits_place_order(MARKET, "Alice", Side::Bid, 1, 1, 2, 15_000, None));
    assert!(market.admits_place_order(MARKET, "Alice", Side::Bid, 2, 0, 2, 15_000, None));
    assert!(market.admits_place_order(MARKET, "Nobody", Side::Bid, 2, 1, 2, 15_000, None));
    assert!(market.admits_batch_match(MARKET, Side::Ask, 1, 2, u64::MAX));
    assert_eq!(market.asks().len(), 1);
    assert_eq!(market.fee_receiver().collected_fee, 0);
}
