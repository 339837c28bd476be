use vstd::prelude::*;

verus! {

/// The side of the book an order stands on.
#[derive(Clone, Copy, Debug, PartialEq, Eq, Structural)]
pub enum Side {
    /// An order to buy the base asset.
    Bid,
    /// An order to sell the base asset.
    Ask,
}

impl Side {
    /// The side whose resting orders an incoming order of this side trades against.
    pub open spec fn spec_opposite(self) -> Side {
        match self {
            Side::Bid => Side::Ask,
            Side::Ask => Side::Bid,
        }
    }

    /// The side whose resting orders an incoming order of this side trades against.
    #[verifier::when_used_as_spec(spec_opposite)]
    pub fn opposite(self) -> (r: Side)
        ensures
            r == self.spec_opposite(),
    {
        match self {
            Side::Bid => Side::Ask,
            Side::Ask => Side::Bid,
        }
    }
}

/// A limit order.
#[derive(Debug)]
pub struct Order {
    /// Identifier, unique within a market.
    pub id: u64,
    /// Who placed the order.
    pub owner: String,
    /// Whether the order buys or sells.
    pub side: Side,
    /// Limit price, in quote units per base unit.
    pub price: u64,
    /// Quantity still open, in base units.
    pub quantity: u64,
    /// Time from which the order is no longer valid, if any.
    pub expire_ts: Option<u64>,
}

/// An order as a mathematical value.
pub struct OrderView {
    pub id: nat,
    pub owner: Seq<char>,
    pub side: Side,
    pub price: nat,
    pub quantity: nat,
    pub expire_ts: Option<nat>,
}

/// A time stamp that may be absent, as a mathematical value.
pub open spec fn stamp(t: Option<u64>) -> Option<nat> {
    match t {
        Some(ts) => Some(ts as nat),
        None => None,
    }
}

impl View for Order {
    type V = OrderView;

    open spec fn view(&self) -> OrderView {
        OrderView {
            id: self.id as nat,
            owner: self.owner@,
            side: self.side,
            price: self.price as nat,
            quantity: self.quantity as nat,
            expire_ts: stamp(self.expire_ts),
        }
    }
}

impl Clone for Order {
    fn clone(&self) -> (r: Self)
        ensures
            r == *self,
    {
        Order {
            id: self.id,
            owner: self.owner.clone(),
            side: self.side,
            price: self.price,
            quantity: self.quantity,
            expire_ts: self.expire_ts,
        }
    }
}

impl OrderView {
    /// The same order with another open quantity.
    pub open spec fn with_quantity(self, quantity: nat) -> OrderView {
        OrderView { quantity, ..self }
    }

    /// Whether the order is no longer valid at time `now`.
    pub open spec fn expired(self, now: nat) -> bool {
        self.expire_ts matches Some(ts) && ts <= now
    }
}

impl Order {
    /// Whether the order is no longer valid at time `now`.
    pub fn is_expired(&self, now: u64) -> (b: bool)
        ensures
            b == self@.expired(now as nat),
    {
        match self.expire_ts {
            Some(ts) => ts <= now,
            None => false,
        }
    }
}

/// The views of a sequence of orders.
pub open spec fn order_views(orders: Seq<Order>) -> Seq<OrderView> {
    orders.map_values(|o: Order| o@)
}

/// A copy of `orders`.
pub fn copy_orders(orders: &Vec<Order>) -> (copy: Vec<Order>)
    ensures
        copy@ == orders@,
{
    let mut copy: Vec<Order> = Vec::new();
    let mut i: usize = 0;
    while i < orders.len()
        invariant
            i <= orders.len(),
            copy@ =~= orders@.take(i as int),
        decreases orders.len() - i,
    {
        copy.push(orders[i].clone());
        i += 1;
    }
    assert(copy@ =~= orders@);
    copy
}

} // verus!
