use openbook::book::OrderBook;
use openbook::order::{Order, Side};

fn order(owner: &str, side: Side, price: u64, quantity: u64) -> Order {
    Order { id: 0, owner: owner.to_string(), side, price, quantity, expire_ts: None }
}

#[test]
fn test_complete_trading_scenario() {
    let mut book = OrderBook::new();

    book.place_order(order("Alice", Side::Bid, 100, 10));
    book.place_order(order("Bob", Side::Ask, 105, 5));
    book.place_order(order("Charlie", Side::Bid, 102, 8));

    assert_eq!(book.get_bids_count(), 2);
    assert_eq!(book.get_asks_count(), 1);

    let bids = book.get_bids();
    let asks = book.get_asks();
    assert_eq!(bids[0].price, 102);
    assert_eq!(bids[1].price, 100);
    assert_eq!(asks[0].price, 105);

    book.place_order(order("David", Side::Ask, 101, 15));

    assert_eq!(book.get_bids_count(), 1);
    let bids = book.get_bids();
    assert_eq!(bids[0].owner, "Alice");
    assert_eq!(bids[0].quantity, 10);

    assert_eq!(book.get_asks_count(), 2);
}

#[test]
fn test_edge_cases() {
    let mut book = OrderBook::new();

    book.place_order(order("A", Side::Bid, 100, 5));
    book.place_order(order("B", Side::Bid, 100, 3));

    assert_eq!(book.get_bids_count(), 2);
    let bids = book.get_bids();
    assert_eq!(bids[0].owner, "A");
    assert_eq!(bids[1].owner, "B");

    book.place_order(order("C", Side::Ask, 100, 0));

    assert_eq!(book.get_asks_count(), 0);
}

#[test]
fn test_market_order_simulation() {
    let mut book = OrderBook::new();

    book.place_order(order("Seller1", Side::Ask, 100, 5));
    book.place_order(order("Seller2", Side::Ask, 101, 5));
    book.place_order(order("Market_Buyer", Side::Bid, u64::MAX, 10));

    assert_eq!(book.get_bids_count(), 0);
    assert_eq!(book.get_asks_count(), 0);
}
