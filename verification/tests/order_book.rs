use openbook::book::OrderBook;
use openbook::order::{Order, Side};

fn order(owner: &str, side: Side, price: u64, quantity: u64) -> Order {
    Order { id: 0, owner: owner.to_string(), side, price, quantity, expire_ts: None }
}

#[test]
fn test_order_book_creation() {
    let book = OrderBook::new();
    assert!(book.get_bids().is_empty());
    assert!(book.get_asks().is_empty());
}

#[test]
fn test_place_bid_order() {
    let mut book = OrderBook::new();
    let order = order("A", Side::Bid, 10, 5);

    book.place_order(order);
    assert_eq!(book.get_bids().len(), 1);
    assert_eq!(book.get_asks().len(), 0);
    assert_eq!(book.get_bids()[0].owner, "A");
    assert_eq!(book.get_bids()[0].price, 10);
    assert_eq!(book.get_bids()[0].quantity, 5);
}

#[test]
fn test_place_ask_order() {
    let mut book = OrderBook::new();
    let order = order("B", Side::Ask, 11, 3);

    book.place_order(order);
    assert_eq!(book.get_bids().len(), 0);
    assert_eq!(book.get_asks().len(), 1);
    assert_eq!(book.get_asks()[0].owner, "B");
    assert_eq!(book.get_asks()[0].price, 11);
    assert_eq!(book.get_asks()[0].quantity, 3);
}

#[test]
fn test_matching_bid_ask() {
    let mut book = OrderBook::new();

    book.place_order(order("A", Side::Bid, 10, 5));
    book.place_order(order("B", Side::Ask, 10, 3));

    assert_eq!(book.get_bids().len(), 1);
    assert_eq!(book.get_bids()[0].quantity, 2);
    assert_eq!(book.get_asks().len(), 0);
}

#[test]
fn test_price_priority() {
    let mut book = OrderBook::new();

    book.place_order(order("A", Side::Bid, 10, 5));
    book.place_order(order("B", Side::Bid, 11, 3));

    assert_eq!(book.get_bids()[0].price, 11);
    assert_eq!(book.get_bids()[1].price, 10);
}

#[test]
fn test_partial_fill() {
    let mut book = OrderBook::new();

    book.place_order(order("A", Side::Bid, 10, 5));
    book.place_order(order("B", Side::Ask, 10, 8));

    assert_eq!(book.get_bids().len(), 0);
    assert_eq!(book.get_asks().len(), 1);
    assert_eq!(book.get_asks()[0].quantity, 3);
}

#[test]
fn test_fill_reports_each_trade() {
    let mut book = OrderBook::new();
    book.place_order(order("Seller1", Side::Ask, 100, 5));
    book.place_order(order("Seller2", Side::Ask, 101, 5));
    let (fills, remaining) = book.fill(Side::Bid, u64::MAX, 12);
    assert_eq!(remaining, 2);
    assert_eq!(fills.len(), 2);
    assert_eq!(fills[0].maker, "Seller1");
    assert_eq!(fills[0].price, 100);
    assert_eq!(fills[0].quantity, 5);
    assert_eq!(fills[1].maker, "Seller2");
    assert_eq!(fills[1].price, 101);
    assert_eq!(fills[1].quantity, 5);
    assert_eq!(book.get_asks_count(), 0);
}

#[test]
fn test_fill_leaves_the_last_order_partly_open() {
    let mut book = OrderBook::new();
    book.place_order(order("A", Side::Bid, 10, 5));
    book.place_order(order("B", Side::Bid, 9, 5));
    let (fills, remaining) = book.fill(Side::Ask, 9, 7);
    assert_eq!(remaining, 0);
    assert_eq!(fills.len(), 2);
    assert_eq!(fills[1].quantity, 2);
    assert_eq!(book.get_bids_count(), 1);
    assert_eq!(book.get_bids()[0].owner, "B");
    assert_eq!(book.get_bids()[0].quantity, 3);
}

#[test]
fn test_book_cancel_twice() {
    let mut book = OrderBook::new();
    book.place_order(Order {
        id: 7,
        owner: "A".to_string(),
        side: Side::Ask,
        price: 10,
        quantity: 5,
        expire_ts: None,
    });
    assert!(!book.cancel_order("B", 7));
    assert!(!book.cancel_order("A", 8));
    assert!(book.cancel_order("A", 7));
    assert!(!book.cancel_order("A", 7));
    assert_eq!(book.get_asks_count(), 0);
}

#[test]
fn test_book_accessors_by_side() {
    let mut book = OrderBook::new();
    book.place_order(order("A", Side::Bid, 10, 5));
    book.place_order(order("B", Side::Ask, 11, 5));
    assert_eq!(book.count(Side::Bid), 1);
    assert_eq!(book.order_at(Side::Ask, 0).owner, "B");
    assert_eq!(Side::Bid.opposite(), Side::Ask);
    let copy = book.clone();
    let taken = book.remove_at(Side::Bid, 0);
    assert_eq!(taken.owner, "A");
    assert_eq!(book.count(Side::Bid), 0);
    assert_eq!(copy.count(Side::Bid), 1);
}
