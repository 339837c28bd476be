use openbook::events::{Event, EventQueue, EventType};

fn event(order_id: u64) -> Event {
    Event {
        event_type: EventType::Cancel,
        market: "SOL/USDC".to_string(),
        maker: None,
        taker: Some("Alice".to_string()),
        price: Some(10),
        quantity: 1,
        fee: 0,
        order_id,
        timestamp: 100 + order_id,
    }
}

fn ids(events: &[Event]) -> Vec<u64> {
    events.iter().map(|e| e.order_id).collect()
}

fn log_of(n: u64) -> EventQueue {
    let mut queue = EventQueue::new();
    for i in 0..n {
        queue.push(event(i));
    }
    queue
}

#[test]
fn test_push_assigns_the_next_sequence_number() {
    let mut queue = EventQueue::new();
    assert_eq!(queue.next_seq(), 0);
    queue.push(event(7));
    assert_eq!(queue.next_seq(), 1);
    queue.push(event(8));
    assert_eq!(queue.next_seq(), 2);
    assert_eq!(queue.events().len(), 2);
    assert_eq!(queue.events()[0].order_id, 7);
    assert_eq!(queue.events()[1].order_id, 8);
}

#[test]
fn test_consume_hands_over_in_order_and_once() {
    let mut queue = log_of(5);
    assert_eq!(ids(&queue.consume_events("a", 2)), vec![0, 1]);
    assert_eq!(ids(&queue.consume_events("a", 2)), vec![2, 3]);
    assert_eq!(ids(&queue.consume_events("a", 2)), vec![4]);
    assert_eq!(ids(&queue.consume_events("a", 2)), Vec::<u64>::new());
    queue.push(event(5));
    assert_eq!(ids(&queue.consume_events("a", 2)), vec![5]);
}

#[test]
fn test_consumers_are_independent() {
    let mut queue = log_of(5);
    let mut seen_a = Vec::new();
    let mut seen_b = Vec::new();
    seen_a.extend(ids(&queue.consume_events("a", 3)));
    seen_b.extend(ids(&queue.consume_events("b", 1)));
    seen_a.extend(ids(&queue.consume_events("a", 3)));
    seen_b.extend(ids(&queue.consume_events("b", 10)));
    seen_a.extend(ids(&queue.consume_events("a", 3)));
    seen_b.extend(ids(&queue.consume_events("b", 10)));
    assert_eq!(seen_a, vec![0, 1, 2, 3, 4]);
    assert_eq!(seen_b, vec![0, 1, 2, 3, 4]);
}

#[test]
fn test_consume_nothing() {
    let mut queue = log_of(3);
    assert!(queue.consume_events("a", 0).is_empty());
    assert_eq!(ids(&queue.consume_events("a", 10)), vec![0, 1, 2]);
    let mut empty = EventQueue::new();
    assert!(empty.consume_events("a", 10).is_empty());
}

#[test]
fn test_consume_copies_the_events() {
    let mut queue = log_of(1);
    let batch = queue.consume_events("a", 1);
    assert!(matches!(batch[0].event_type, EventType::Cancel));
    assert_eq!(batch[0].market, "SOL/USDC");
    assert_eq!(batch[0].maker, None);
    assert_eq!(batch[0].taker.as_deref(), Some("Alice"));
    assert_eq!(batch[0].price, Some(10));
    assert_eq!(batch[0].quantity, 1);
    assert_eq!(batch[0].fee, 0);
    assert_eq!(batch[0].timestamp, 100);
    assert_eq!(queue.events().len(), 1);
}

#[test]
fn test_copy_of_a_log_reads_on_its_own() {
    let mut queue = log_of(2);
    queue.consume_events("a", 1);
    let mut copy = queue.clone();
    assert_eq!(ids(&copy.consume_events("a", 5)), vec![1]);
    assert_eq!(ids(&queue.consume_events("a", 5)), vec![1]);
}
