use crate::order::stamp;
use crate::table::{distinct, lemma_lookup_found, lookup, Table};
use std::collections::VecDeque;
use vstd::prelude::*;

verus! {

/// What an event records.
#[derive(Clone, Copy, Debug, PartialEq, Eq, Structural)]
pub enum EventType {
    /// An incoming order traded against a resting one.
    Fill,
    /// A user cancelled an order.
    Cancel,
    /// An order left the book because its time had run out.
    Expire,
}

/// One entry of a market's event log.
#[derive(Debug)]
pub struct Event {
    /// What happened.
    pub event_type: EventType,
    /// The market it happened in.
    pub market: String,
    /// The owner of the resting order of a trade.
    pub maker: Option<String>,
    /// The owner of the incoming order of a trade, or of the order that left the book.
    pub taker: Option<String>,
    /// The price of the trade, or the limit price of the order that left the book.
    pub price: Option<u64>,
    /// The quantity traded, or the quantity still open when the order left the book.
    pub quantity: u64,
    /// The fee charged, in the quote asset.
    pub fee: u64,
    /// The incoming order of a trade, or the order that left the book.
    pub order_id: u64,
    /// When it happened.
    pub timestamp: u64,
}

/// An event as a mathematical value.
pub struct EventView {
    pub event_type: EventType,
    pub market: Seq<char>,
    pub maker: Option<Seq<char>>,
    pub taker: Option<Seq<char>>,
    pub price: Option<nat>,
    pub quantity: nat,
    pub fee: nat,
    pub order_id: nat,
    pub timestamp: nat,
}

/// A name that may be absent, as a mathematical value.
pub open spec fn name_view(name: Option<String>) -> Option<Seq<char>> {
    match name {
        Some(s) => Some(s@),
        None => None,
    }
}

impl View for Event {
    type V = EventView;

    open spec fn view(&self) -> EventView {
        EventView {
            event_type: self.event_type,
            market: self.market@,
            maker: name_view(self.maker),
            taker: name_view(self.taker),
            price: stamp(self.price),
            quantity: self.quantity as nat,
            fee: self.fee as nat,
            order_id: self.order_id as nat,
            timestamp: self.timestamp as nat,
        }
    }
}

/// A copy of a name that may be absent.
fn copy_name(name: &Option<String>) -> (r: Option<String>)
    ensures
        r == *name,
{
    match name {
        Some(s) => Some(s.clone()),
        None => None,
    }
}

impl Clone for Event {
    fn clone(&self) -> (r: Self)
        ensures
            r == *self,
    {
        Event {
            event_type: self.event_type,
            market: self.market.clone(),
            maker: copy_name(&self.maker),
            taker: copy_name(&self.taker),
            price: self.price,
            quantity: self.quantity,
            fee: self.fee,
            order_id: self.order_id,
            timestamp: self.timestamp,
        }
    }
}

/// The views of a sequence of events.
pub open spec fn event_views(events: Seq<Event>) -> Seq<EventView> {
    events.map_values(|e: Event| e@)
}

/// An event log with its readers, as mathematical values.
pub struct LogView {
    /// Every event appended so far, oldest first.
    pub events: Seq<EventView>,
    /// The consumers that have read from the log, in the order of their first read.
    pub consumers: Seq<Seq<char>>,
    /// For each consumer, how many events it has been handed.
    pub positions: Seq<nat>,
}

impl LogView {
    /// The log without events or consumers.
    pub open spec fn empty() -> LogView {
        LogView { events: Seq::empty(), consumers: Seq::empty(), positions: Seq::empty() }
    }

    /// Every consumer has one position, which does not pass the end of the log.
    pub open spec fn wf(self) -> bool {
        &&& self.consumers.len() == self.positions.len()
        &&& distinct(self.consumers)
        &&& forall|i: int| 0 <= i < self.positions.len() ==> self.positions[i] <= self.events.len()
    }

    /// The sequence number that the next event gets.
    pub open spec fn next_seq(self) -> nat {
        self.events.len()
    }

    /// The log with `event` at its end.
    pub open spec fn append(self, event: EventView) -> LogView {
        LogView { events: self.events.push(event), ..self }
    }

    /// How many events `consumer` has been handed.
    pub open spec fn position(self, consumer: Seq<char>) -> nat {
        match lookup(self.consumers, consumer) {
            Some(i) => self.positions[i],
            None => 0,
        }
    }

    /// How many events a read of at most `max` hands to `consumer`.
    pub open spec fn batch_len(self, consumer: Seq<char>, max: nat) -> nat {
        let unread = (self.events.len() - self.position(consumer)) as nat;
        if max <= unread {
            max
        } else {
            unread
        }
    }

    /// The events that a read of at most `max` hands to `consumer`: the oldest ones
    /// that it has not been handed yet.
    pub open spec fn batch(self, consumer: Seq<char>, max: nat) -> Seq<EventView> {
        let from = self.position(consumer) as int;
        self.events.subrange(from, from + self.batch_len(consumer, max))
    }

    /// The log with the position of `consumer` set to `position`. A consumer that is
    /// not known yet is added.
    pub open spec fn with_position(self, consumer: Seq<char>, position: nat) -> LogView {
        match lookup(self.consumers, consumer) {
            Some(i) => LogView { positions: self.positions.update(i, position), ..self },
            None => LogView {
                consumers: self.consumers.push(consumer),
                positions: self.positions.push(position),
                ..self
            },
        }
    }

    /// The log after `consumer` read at most `max` events.
    pub open spec fn consume(self, consumer: Seq<char>, max: nat) -> LogView {
        self.with_position(consumer, self.position(consumer) + self.batch_len(consumer, max))
    }
}

/// Setting a consumer's position changes that position and no other.
pub proof fn lemma_with_position(log: LogView, consumer: Seq<char>, position: nat)
    requires
        log.wf(),
        position <= log.events.len(),
    ensures
        log.with_position(consumer, position).wf(),
        log.with_position(consumer, position).position(consumer) == position,
        log.with_position(consumer, position).events == log.events,
        forall|other: Seq<char>|
            other != consumer ==> log.with_position(consumer, position).position(other)
                == log.position(other),
{
    let c = log.with_position(consumer, position);
    match lookup(log.consumers, consumer) {
        Some(i) => {
            assert forall|other: Seq<char>| other != consumer implies c.position(other)
                == log.position(other) by {
                match lookup(log.consumers, other) {
                    Some(j) => {
                        assert(j != i);
                    },
                    None => {},
                }
            }
        },
        None => {
            let n = log.consumers.len() as int;
            assert forall|a: int, b: int| 0 <= a < b < c.consumers.len() implies c.consumers[a]
                != c.consumers[b] by {
                if b == n {
                    if log.consumers[a] == consumer {
                        assert(lookup(log.consumers, consumer) is Some);
                    }
                }
            }
            assert(c.consumers[n] == consumer);
            lemma_lookup_found(c.consumers, consumer, n);
            assert forall|other: Seq<char>| other != consumer implies c.position(other)
                == log.position(other) by {
                if exists|j: int| 0 <= j < log.consumers.len() && log.consumers[j] == other {
                    let j = choose|j: int| 0 <= j < log.consumers.len() && log.consumers[j] == other;
                    assert(c.consumers[j] == other);
                    lemma_lookup_found(c.consumers, other, j);
                    lemma_lookup_found(log.consumers, other, j);
                } else {
                    if exists|j: int| 0 <= j < c.consumers.len() && c.consumers[j] == other {
                        let j = choose|j: int| 0 <= j < c.consumers.len() && c.consumers[j] == other;
                        assert(j < n);
                        assert(log.consumers[j] == other);
                    }
                }
            }
        },
    }
}

/// The append-only event log of a market. Each consumer reads it at its own pace.
#[derive(Debug)]
pub struct EventQueue {
    events: VecDeque<Event>,
    consumer_positions: Table<u64>,
}

impl View for EventQueue {
    type V = LogView;

    closed spec fn view(&self) -> LogView {
        LogView {
            events: event_views(self.events@),
            consumers: self.consumer_positions.names(),
            positions: self.consumer_positions.values().map_values(|p: u64| p as nat),
        }
    }
}

impl EventQueue {
    /// Every consumer has one position, which does not pass the end of the log.
    pub open spec fn wf(&self) -> bool {
        self@.wf()
    }

    /// A log without events or consumers.
    pub fn new() -> (queue: Self)
        ensures
            queue.wf(),
            queue@ == LogView::empty(),
    {
        let queue = EventQueue { events: VecDeque::new(), consumer_positions: Table::new() };
        assert(queue@.events =~= Seq::empty());
        assert(queue@.positions =~= Seq::empty());
        queue
    }

    /// The sequence number that the next event gets: the number of events so far.
    pub fn next_seq(&self) -> (n: u64)
        ensures
            n == self@.next_seq(),
    {
        self.events.len() as u64
    }

    /// Every event appended so far, oldest first.
    pub fn events(&self) -> (events: &VecDeque<Event>)
        ensures
            event_views(events@) == self@.events,
    {
        &self.events
    }

    /// Appends `event` to the log.
    pub fn push(&mut self, event: Event)
        requires
            old(self).wf(),
        ensures
            final(self).wf(),
            final(self)@ == old(self)@.append(event@),
    {
        self.events.push_back(event);
        assert(self@.events =~= old(self)@.events.push(event@));
    }

    /// Hands `consumer` the oldest events that it has not been handed yet, at most
    /// `max_events` of them, and moves its position behind them.
    pub fn consume_events(&mut self, consumer: &str, max_events: usize) -> (batch: Vec<Event>)
        requires
            old(self).wf(),
        ensures
            final(self).wf(),
            final(self)@ == old(self)@.consume(consumer@, max_events as nat),
            event_views(batch@) == old(self)@.batch(consumer@, max_events as nat),
    {
        let ghost before = self@;
        let name = consumer.to_owned();
        let slot = match self.consumer_positions.find(&name) {
            Some(i) => i,
            None => {
                let n = self.consumer_positions.len();
                self.consumer_positions.push(name, 0);
                proof {
                    lemma_with_position(before, consumer@, 0);
                    assert(self@.positions =~= before.with_position(consumer@, 0).positions);
                    lemma_lookup_found(self@.consumers, consumer@, n as int);
                }
                n
            },
        };
        let ghost registered = self@;
        let start = *self.consumer_positions.get(slot);
        assert(start == before.position(consumer@));
        let total = self.events.len();
        let mut position: usize = start as usize;
        let mut batch: Vec<Event> = Vec::new();
        while position < total && batch.len() < max_events
            invariant
                total == self.events.len(),
                self@ == registered,
                start <= position <= total,
                batch.len() == position - start,
                batch.len() <= max_events,
                total == registered.events.len(),
                event_views(batch@) == registered.events.subrange(start as int, position as int),
            decreases total - position,
        {
            let ghost done = event_views(batch@);
            batch.push(self.events[position].clone());
            position += 1;
            assert(event_views(batch@) =~= registered.events.subrange(
                start as int,
                position as int,
            )) by {
                assert(event_views(batch@) =~= done.push(registered.events[position - 1]));
            }
        }
        let cursor = self.consumer_positions.get_mut(slot);
        *cursor = position as u64;
        proof {
            lemma_with_position(before, consumer@, position as nat);
            assert(position - start == before.batch_len(consumer@, max_events as nat));
            assert(self@.positions =~= before.consume(consumer@, max_events as nat).positions);
        }
        batch
    }
}

impl Default for EventQueue {
    fn default() -> (queue: Self)
        ensures
            queue.wf(),
            queue@ == LogView::empty(),
    {
        EventQueue::new()
    }
}

impl Clone for EventQueue {
    fn clone(&self) -> (copy: Self)
        ensures
            copy@ == self@,
    {
        let mut events: VecDeque<Event> = VecDeque::new();
        let mut i: usize = 0;
        while i < self.events.len()
            invariant
                i <= self.events.len(),
                events@ =~= self.events@.take(i as int),
            decreases self.events.len() - i,
        {
            events.push_back(self.events[i].clone());
            i += 1;
        }
        assert(events@ =~= self.events@);
        EventQueue { events, consumer_positions: self.consumer_positions.clone() }
    }
}

} // verus!
