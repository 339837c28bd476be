use crate::invariants::{
    lemma_matching_wf, lemma_remainder_can_rest, lemma_rest_wf, lemma_without_wf,
};
use crate::order::{copy_orders, order_views, Order, OrderView, Side};
use vstd::prelude::*;

verus! {

/// Whether an incoming order of side `taker` with limit `limit` may trade at `maker_price`.
pub open spec fn crosses(taker: Side, limit: nat, maker_price: nat) -> bool {
    match taker {
        Side::Bid => maker_price <= limit,
        Side::Ask => maker_price >= limit,
    }
}

/// Whether an order resting on `side` at price `resting` keeps its place ahead of one
/// that arrives at price `arriving`: a better price wins, and at the same price the
/// earlier order does.
pub open spec fn stays_ahead(side: Side, resting: nat, arriving: nat) -> bool {
    match side {
        Side::Bid => resting >= arriving,
        Side::Ask => resting <= arriving,
    }
}

/// Whether `orders` stand in priority order for `side`: bids by falling price, asks by
/// rising price.
pub open spec fn sorted(orders: Seq<OrderView>, side: Side) -> bool {
    forall|i: int, j: int|
        0 <= i < j < orders.len() ==> stays_ahead(side, orders[i].price, orders[j].price)
}

/// Whether `orders` can be one side of a book: in priority order, each with an open
/// quantity and marked with `side`.
pub open spec fn side_wf(orders: Seq<OrderView>, side: Side) -> bool {
    &&& sorted(orders, side)
    &&& forall|i: int| 0 <= i < orders.len() ==> (#[trigger] orders[i]).quantity > 0
    &&& forall|i: int| 0 <= i < orders.len() ==> (#[trigger] orders[i]).side == side
}

/// One trade between an incoming order and a resting one.
#[derive(Debug)]
pub struct Fill {
    /// Owner of the resting order.
    pub maker: String,
    /// Price of the trade: the resting order's.
    pub price: u64,
    /// Quantity traded.
    pub quantity: u64,
}

/// A trade as a mathematical value.
pub struct FillView {
    pub maker: Seq<char>,
    pub price: nat,
    pub quantity: nat,
}

impl View for Fill {
    type V = FillView;

    open spec fn view(&self) -> FillView {
        FillView { maker: self.maker@, price: self.price as nat, quantity: self.quantity as nat }
    }
}

/// The views of a sequence of fills.
pub open spec fn fill_views(fills: Seq<Fill>) -> Seq<FillView> {
    fills.map_values(|f: Fill| f@)
}

/// The outcome of matching an incoming order against one side of the book.
pub struct Matching {
    /// The resting orders that are left.
    pub makers: Seq<OrderView>,
    /// The trades, in the order they happened.
    pub fills: Seq<FillView>,
    /// What is left of the incoming quantity.
    pub remaining: nat,
}

/// The trade of `quantity` against the resting order `maker`.
pub open spec fn fill_of(maker: OrderView, quantity: nat) -> FillView {
    FillView { maker: maker.owner, price: maker.price, quantity }
}

/// Matches an incoming order of side `taker`, limit price `limit` and quantity `want`
/// against the resting orders `makers`, best first. Each trade is made at the resting
/// order's price; a resting order that is used up leaves the book, and the last one
/// touched may stay with a smaller quantity.
pub open spec fn match_against(makers: Seq<OrderView>, taker: Side, limit: nat, want: nat) -> Matching
    decreases makers.len(),
{
    if makers.len() == 0 || want == 0 || !crosses(taker, limit, makers[0].price) {
        Matching { makers, fills: Seq::empty(), remaining: want }
    } else {
        let maker = makers[0];
        if maker.quantity <= want {
            let rest = match_against(
                makers.drop_first(),
                taker,
                limit,
                (want - maker.quantity) as nat,
            );
            Matching {
                makers: rest.makers,
                fills: seq![fill_of(maker, maker.quantity)] + rest.fills,
                remaining: rest.remaining,
            }
        } else {
            Matching {
                makers: makers.update(0, maker.with_quantity((maker.quantity - want) as nat)),
                fills: seq![fill_of(maker, want)],
                remaining: 0,
            }
        }
    }
}

/// Where an order arriving on `side` at `price` comes to rest among `orders`: behind
/// every order that stays ahead of it.
pub open spec fn rest_index(orders: Seq<OrderView>, side: Side, price: nat) -> nat
    decreases orders.len(),
{
    if orders.len() == 0 || !stays_ahead(side, orders[0].price, price) {
        0
    } else {
        1 + rest_index(orders.drop_first(), side, price)
    }
}

/// Whether `order` carries the identifier `id` and belongs to `user`.
pub open spec fn owned_by(order: OrderView, user: Seq<char>, id: nat) -> bool {
    order.id == id && order.owner == user
}

/// The position of the first of `orders` that carries `id` and belongs to `user`.
pub open spec fn locate(orders: Seq<OrderView>, user: Seq<char>, id: nat) -> Option<int> {
    if exists|i: int| 0 <= i < orders.len() && owned_by(#[trigger] orders[i], user, id) {
        Some(
            choose|i: int|
                0 <= i < orders.len() && owned_by(#[trigger] orders[i], user, id) && forall|j: int|
                    0 <= j < i ==> !owned_by(#[trigger] orders[j], user, id),
        )
    } else {
        None
    }
}

/// Whether no bid could trade with an ask: every bid is priced below every ask.
pub open spec fn uncrossed(bids: Seq<OrderView>, asks: Seq<OrderView>) -> bool {
    forall|i: int, j: int|
        0 <= i < bids.len() && 0 <= j < asks.len() ==> bids[i].price < asks[j].price
}

/// Whether an order of side `taker` with limit `limit` could trade with none of
/// `makers`.
pub open spec fn crosses_none(makers: Seq<OrderView>, taker: Side, limit: nat) -> bool {
    forall|j: int| 0 <= j < makers.len() ==> !crosses(taker, limit, (#[trigger] makers[j]).price)
}

/// Whether every one of `orders` has an identifier below `bound`.
pub open spec fn ids_below(orders: Seq<OrderView>, bound: nat) -> bool {
    forall|i: int| 0 <= i < orders.len() ==> (#[trigger] orders[i]).id < bound
}

/// Whether no two of `orders` have the same identifier.
pub open spec fn ids_distinct(orders: Seq<OrderView>) -> bool {
    forall|i: int, j: int| 0 <= i < j < orders.len() ==> orders[i].id != orders[j].id
}

/// Whether no order of `a` has the identifier of an order of `b`.
pub open spec fn ids_apart(a: Seq<OrderView>, b: Seq<OrderView>) -> bool {
    forall|i: int, j: int| 0 <= i < a.len() && 0 <= j < b.len() ==> a[i].id != b[j].id
}

/// The two sides of a book as mathematical values, each best order first.
pub struct BookView {
    pub bids: Seq<OrderView>,
    pub asks: Seq<OrderView>,
}

impl BookView {
    /// The book without orders.
    pub open spec fn empty() -> BookView {
        BookView { bids: Seq::empty(), asks: Seq::empty() }
    }

    /// The orders resting on `side`.
    pub open spec fn side(self, side: Side) -> Seq<OrderView> {
        match side {
            Side::Bid => self.bids,
            Side::Ask => self.asks,
        }
    }

    /// The book with `orders` on `side` and the other side as it is.
    pub open spec fn with_side(self, side: Side, orders: Seq<OrderView>) -> BookView {
        match side {
            Side::Bid => BookView { bids: orders, ..self },
            Side::Ask => BookView { asks: orders, ..self },
        }
    }

    /// Both sides are in priority order and hold open orders of their side only, and
    /// no bid could trade with an ask.
    pub open spec fn wf(self) -> bool {
        &&& side_wf(self.bids, Side::Bid)
        &&& side_wf(self.asks, Side::Ask)
        &&& uncrossed(self.bids, self.asks)
    }

    /// Whether `order` could trade with no order on the other side, so that it may
    /// come to rest.
    pub open spec fn can_rest(self, order: OrderView) -> bool {
        crosses_none(self.side(order.side.spec_opposite()), order.side, order.price)
    }

    /// Every resting order has an identifier below `bound`, and no two have the same.
    pub open spec fn ids_unique_below(self, bound: nat) -> bool {
        &&& ids_below(self.bids, bound)
        &&& ids_below(self.asks, bound)
        &&& ids_distinct(self.bids)
        &&& ids_distinct(self.asks)
        &&& ids_apart(self.bids, self.asks)
    }

    /// What matching an incoming order of side `taker` against the other side gives.
    pub open spec fn matching(self, taker: Side, limit: nat, want: nat) -> Matching {
        match_against(self.side(taker.spec_opposite()), taker, limit, want)
    }

    /// The book after `order` has come to rest on its side.
    pub open spec fn rest(self, order: OrderView) -> BookView {
        let orders = self.side(order.side);
        self.with_side(
            order.side,
            orders.insert(rest_index(orders, order.side, order.price) as int, order),
        )
    }

    /// The book after `order` was submitted: it trades against the other side as far
    /// as prices allow, and what is left of it comes to rest.
    pub open spec fn place(self, order: OrderView) -> BookView {
        let m = self.matching(order.side, order.price, order.quantity);
        let traded = self.with_side(order.side.spec_opposite(), m.makers);
        if m.remaining > 0 {
            traded.rest(order.with_quantity(m.remaining))
        } else {
            traded
        }
    }

    /// The order that a cancellation of `id` by `user` removes, with its side and
    /// position: the first such bid, or else the first such ask.
    pub open spec fn find(self, user: Seq<char>, id: nat) -> Option<(Side, int)> {
        match locate(self.bids, user, id) {
            Some(i) => Some((Side::Bid, i)),
            None => match locate(self.asks, user, id) {
                Some(i) => Some((Side::Ask, i)),
                None => None,
            },
        }
    }

    /// The book without the order at position `i` of `side`.
    pub open spec fn without(self, side: Side, i: int) -> BookView {
        self.with_side(side, self.side(side).remove(i))
    }

    /// The book after `user` cancelled the order `id`.
    pub open spec fn cancel(self, user: Seq<char>, id: nat) -> BookView {
        match self.find(user, id) {
            Some((side, i)) => self.without(side, i),
            None => self,
        }
    }
}

/// The first position that holds an order of `user` with `id` is what `locate` gives.
pub proof fn lemma_locate_first(orders: Seq<OrderView>, user: Seq<char>, id: nat, i: int)
    requires
        0 <= i < orders.len(),
        owned_by(orders[i], user, id),
        forall|j: int| 0 <= j < i ==> !owned_by(#[trigger] orders[j], user, id),
    ensures
        locate(orders, user, id) == Some(i),
{
    let c = choose|c: int|
        0 <= c < orders.len() && owned_by(#[trigger] orders[c], user, id) && forall|j: int|
            0 <= j < c ==> !owned_by(#[trigger] orders[j], user, id);
    if c < i {
        assert(!owned_by(orders[c], user, id));
    } else if i < c {
        assert(!owned_by(orders[i], user, id));
    }
}

/// Before any position that holds an order of `user` with `id` there is a first one.
/// Returns it.
pub proof fn lemma_first_owned(orders: Seq<OrderView>, user: Seq<char>, id: nat, i: int) -> (c:
    int)
    requires
        0 <= i < orders.len(),
        owned_by(orders[i], user, id),
    ensures
        0 <= c <= i,
        owned_by(orders[c], user, id),
        forall|j: int| 0 <= j < c ==> !owned_by(#[trigger] orders[j], user, id),
    decreases i,
{
    if exists|j: int| 0 <= j < i && owned_by(#[trigger] orders[j], user, id) {
        let j = choose|j: int| 0 <= j < i && owned_by(#[trigger] orders[j], user, id);
        lemma_first_owned(orders, user, id, j)
    } else {
        i
    }
}

/// What `locate` gives is the first position that holds an order of `user` with
/// `id`; it gives none only where there is no such order.
pub proof fn lemma_locate(orders: Seq<OrderView>, user: Seq<char>, id: nat)
    ensures
        match locate(orders, user, id) {
            Some(i) => 0 <= i < orders.len() && owned_by(orders[i], user, id) && forall|j: int|
                0 <= j < i ==> !owned_by(#[trigger] orders[j], user, id),
            None => forall|j: int| 0 <= j < orders.len() ==> !owned_by(#[trigger] orders[j], user, id),
        },
{
    if exists|i: int| 0 <= i < orders.len() && owned_by(#[trigger] orders[i], user, id) {
        let i = choose|i: int| 0 <= i < orders.len() && owned_by(#[trigger] orders[i], user, id);
        let c = lemma_first_owned(orders, user, id, i);
        lemma_locate_first(orders, user, id, c);
    }
}

/// An order comes to rest at `k` when the `k` orders before it stay ahead of it and
/// the next one does not.
pub proof fn lemma_rest_index(orders: Seq<OrderView>, side: Side, price: nat, k: int)
    requires
        0 <= k <= orders.len(),
        forall|j: int| 0 <= j < k ==> stays_ahead(side, (#[trigger] orders[j]).price, price),
        k < orders.len() ==> !stays_ahead(side, orders[k].price, price),
    ensures
        rest_index(orders, side, price) == k,
    decreases k,
{
    if k > 0 {
        let tail = orders.drop_first();
        assert forall|j: int| 0 <= j < k - 1 implies stays_ahead(
            side,
            (#[trigger] tail[j]).price,
            price,
        ) by {
            assert(tail[j] == orders[j + 1]);
        }
        assert(stays_ahead(side, orders[0].price, price));
        lemma_rest_index(tail, side, price, k - 1);
    }
}

/// Removing one order from a side leaves a side.
pub proof fn lemma_remove_keeps_side(orders: Seq<OrderView>, side: Side, i: int)
    requires
        side_wf(orders, side),
        0 <= i < orders.len(),
    ensures
        side_wf(orders.remove(i), side),
{
    let r = orders.remove(i);
    assert forall|a: int, b: int| 0 <= a < b < r.len() implies stays_ahead(
        side,
        r[a].price,
        r[b].price,
    ) by {
        let a0 = if a < i { a } else { a + 1 };
        let b0 = if b < i { b } else { b + 1 };
        assert(r[a] == orders[a0]);
        assert(r[b] == orders[b0]);
    }
    assert forall|a: int| 0 <= a < r.len() implies (#[trigger] r[a]).quantity > 0 && r[a].side
        == side by {
        let a0 = if a < i { a } else { a + 1 };
        assert(r[a] == orders[a0]);
    }
}

/// Whether an incoming order of side `taker` with limit `limit` may trade at `maker_price`.
fn crosses_at(taker: Side, limit: u64, maker_price: u64) -> (b: bool)
    ensures
        b == crosses(taker, limit as nat, maker_price as nat),
{
    match taker {
        Side::Bid => maker_price <= limit,
        Side::Ask => maker_price >= limit,
    }
}

/// Whether a resting order at `resting` stays ahead of one arriving at `arriving`.
fn keeps_place(side: Side, resting: u64, arriving: u64) -> (b: bool)
    ensures
        b == stays_ahead(side, resting as nat, arriving as nat),
{
    match side {
        Side::Bid => resting >= arriving,
        Side::Ask => resting <= arriving,
    }
}

/// Matches an incoming order against `makers`, which it changes to what is left.
fn match_into(makers: &mut Vec<Order>, taker: Side, limit: u64, want: u64) -> (r: (Vec<Fill>, u64))
    requires
        side_wf(order_views(old(makers)@), taker.spec_opposite()),
    ensures
        side_wf(order_views(final(makers)@), taker.spec_opposite()),
        ({
            let m = match_against(order_views(old(makers)@), taker, limit as nat, want as nat);
            &&& order_views(final(makers)@) == m.makers
            &&& fill_views(r.0@) == m.fills
            &&& r.1 == m.remaining
        }),
{
    let ghost target = match_against(order_views(makers@), taker, limit as nat, want as nat);
    let ghost side = taker.spec_opposite();
    let mut fills: Vec<Fill> = Vec::new();
    let mut remaining: u64 = want;
    assert(fill_views(fills@) + target.fills =~= target.fills);
    while makers.len() > 0 && remaining > 0 && crosses_at(taker, limit, makers[0].price)
        invariant
            side == taker.spec_opposite(),
            side_wf(order_views(makers@), side),
            ({
                let m = match_against(order_views(makers@), taker, limit as nat, remaining as nat);
                &&& m.makers == target.makers
                &&& fill_views(fills@) + m.fills == target.fills
                &&& m.remaining == target.remaining
            }),
        decreases makers.len(), remaining,
    {
        let ghost before = order_views(makers@);
        let ghost done = fill_views(fills@);
        let ghost m = match_against(before, taker, limit as nat, remaining as nat);
        assert(before[0] == makers@[0]@);
        if makers[0].quantity <= remaining {
            let maker = makers.remove(0);
            remaining = remaining - maker.quantity;
            fills.push(Fill { maker: maker.owner, price: maker.price, quantity: maker.quantity });
            proof {
                assert(order_views(makers@) =~= before.drop_first());
                lemma_remove_keeps_side(before, side, 0);
                assert(before.remove(0) =~= before.drop_first());
                let rest = match_against(
                    before.drop_first(),
                    taker,
                    limit as nat,
                    remaining as nat,
                );
                assert(fill_views(fills@) =~= done.push(fill_of(before[0], before[0].quantity)));
                assert(fill_views(fills@) + rest.fills =~= done + m.fills);
            }
        } else {
            let price = makers[0].price;
            let owner = makers[0].owner.clone();
            makers[0].quantity = makers[0].quantity - remaining;
            fills.push(Fill { maker: owner, price, quantity: remaining });
            proof {
                let left = before[0].with_quantity((before[0].quantity - remaining) as nat);
                assert(order_views(makers@) =~= before.update(0, left));
                assert(fill_views(fills@) =~= done.push(fill_of(before[0], remaining as nat)));
                assert(fill_views(fills@) + Seq::<FillView>::empty() =~= done + m.fills);
                let after = order_views(makers@);
                assert forall|a: int, b: int| 0 <= a < b < after.len() implies stays_ahead(
                    side,
                    after[a].price,
                    after[b].price,
                ) by {
                    assert(after[a].price == before[a].price);
                    assert(after[b].price == before[b].price);
                }
            }
            remaining = 0;
        }
    }
    (fills, remaining)
}

/// Puts `order` among `orders` where its price and arrival time place it.
fn insert_by_priority(orders: &mut Vec<Order>, order: Order)
    requires
        side_wf(order_views(old(orders)@), order.side),
        order.quantity > 0,
    ensures
        side_wf(order_views(final(orders)@), order.side),
        order_views(final(orders)@) == order_views(old(orders)@).insert(
            rest_index(order_views(old(orders)@), order.side, order.price as nat) as int,
            order@,
        ),
{
    let ghost before = order_views(orders@);
    let ghost side = order.side;
    let ghost price = order.price as nat;
    let ghost arriving = order@;
    let mut i: usize = 0;
    while i < orders.len() && keeps_place(order.side, orders[i].price, order.price)
        invariant
            i <= orders.len(),
            before == order_views(orders@),
            side == order.side,
            price == order.price,
            forall|j: int| 0 <= j < i ==> stays_ahead(side, (#[trigger] before[j]).price, price),
        decreases orders.len() - i,
    {
        i += 1;
    }
    proof {
        lemma_rest_index(before, side, price, i as int);
    }
    orders.insert(i, order);
    proof {
        let after = order_views(orders@);
        assert(after =~= before.insert(i as int, arriving));
        assert forall|a: int, b: int| 0 <= a < b < after.len() implies stays_ahead(
            side,
            after[a].price,
            after[b].price,
        ) by {
            if b < i {
            } else if a > i {
                assert(after[a] == before[a - 1]);
                assert(after[b] == before[b - 1]);
            } else if a == i {
                assert(after[b] == before[b - 1]);
                if b - 1 > i {
                    assert(stays_ahead(side, before[i as int].price, before[b - 1].price));
                }
            } else if b == i {
            } else {
                assert(after[b] == before[b - 1]);
            }
        }
        assert forall|a: int| 0 <= a < after.len() implies (#[trigger] after[a]).quantity > 0
            && after[a].side == side by {
            if a < i {
            } else if a > i {
                assert(after[a] == before[a - 1]);
            }
        }
    }
}

/// The position of the first of `orders` that carries `id` and belongs to `user`.
fn position_of(orders: &Vec<Order>, user: &String, id: u64) -> (r: Option<usize>)
    ensures
        match r {
            Some(i) => locate(order_views(orders@), user@, id as nat) == Some(i as int) && i
                < orders.len(),
            None => locate(order_views(orders@), user@, id as nat) is None,
        },
{
    let ghost views = order_views(orders@);
    let mut i: usize = 0;
    while i < orders.len()
        invariant
            i <= orders.len(),
            views == order_views(orders@),
            forall|j: int| 0 <= j < i ==> !owned_by(#[trigger] views[j], user@, id as nat),
        decreases orders.len() - i,
    {
        if orders[i].id == id && orders[i].owner == *user {
            proof {
                lemma_locate_first(views, user@, id as nat, i as int);
            }
            return Some(i);
        }
        i += 1;
    }
    None
}

/// A book of resting limit orders: bids and asks, each side in price-time priority.
#[derive(Debug)]
pub struct OrderBook {
    bids: Vec<Order>,
    asks: Vec<Order>,
}

impl View for OrderBook {
    type V = BookView;

    closed spec fn view(&self) -> BookView {
        BookView { bids: order_views(self.bids@), asks: order_views(self.asks@) }
    }
}

impl OrderBook {
    /// Both sides are in priority order and hold open orders of their side only, and
    /// no bid could trade with an ask.
    pub open spec fn wf(&self) -> bool {
        self@.wf()
    }

    /// A book without orders.
    pub fn new() -> (book: Self)
        ensures
            book.wf(),
            book@ == BookView::empty(),
    {
        let book = OrderBook { bids: Vec::new(), asks: Vec::new() };
        assert(book@.bids =~= Seq::empty());
        assert(book@.asks =~= Seq::empty());
        book
    }

    /// The resting bids, highest price first.
    pub fn get_bids(&self) -> (bids: &[Order])
        ensures
            order_views(bids@) == self@.bids,
    {
        self.bids.as_slice()
    }

    /// The resting asks, lowest price first.
    pub fn get_asks(&self) -> (asks: &[Order])
        ensures
            order_views(asks@) == self@.asks,
    {
        self.asks.as_slice()
    }

    /// How many bids rest in the book.
    pub fn get_bids_count(&self) -> (n: usize)
        ensures
            n == self@.bids.len(),
    {
        self.bids.len()
    }

    /// How many asks rest in the book.
    pub fn get_asks_count(&self) -> (n: usize)
        ensures
            n == self@.asks.len(),
    {
        self.asks.len()
    }

    /// How many orders rest on `side`.
    pub fn count(&self, side: Side) -> (n: usize)
        ensures
            n == self@.side(side).len(),
    {
        match side {
            Side::Bid => self.bids.len(),
            Side::Ask => self.asks.len(),
        }
    }

    /// The order at position `i` of `side`.
    pub fn order_at(&self, side: Side, i: usize) -> (order: &Order)
        requires
            i < self@.side(side).len(),
        ensures
            order@ == self@.side(side)[i as int],
    {
        match side {
            Side::Bid => &self.bids[i],
            Side::Ask => &self.asks[i],
        }
    }

    /// Takes the order at position `i` of `side` out of the book.
    pub fn remove_at(&mut self, side: Side, i: usize) -> (order: Order)
        requires
            old(self).wf(),
            i < old(self)@.side(side).len(),
        ensures
            final(self).wf(),
            final(self)@ == old(self)@.without(side, i as int),
            order@ == old(self)@.side(side)[i as int],
    {
        proof {
            lemma_without_wf(self@, side, i as int, 0);
        }
        match side {
            Side::Bid => {
                let order = self.bids.remove(i);
                assert(order_views(self.bids@) =~= order_views(old(self).bids@).remove(i as int));
                order
            },
            Side::Ask => {
                let order = self.asks.remove(i);
                assert(order_views(self.asks@) =~= order_views(old(self).asks@).remove(i as int));
                order
            },
        }
    }

    /// Matches an incoming order of side `taker`, limit price `limit` and quantity
    /// `want` against the other side of the book. Returns the trades in the order they
    /// happened and the quantity that found no counterpart.
    pub fn fill(&mut self, taker: Side, limit: u64, want: u64) -> (r: (Vec<Fill>, u64))
        requires
            old(self).wf(),
        ensures
            final(self).wf(),
            ({
                let m = old(self)@.matching(taker, limit as nat, want as nat);
                &&& final(self)@ == old(self)@.with_side(taker.spec_opposite(), m.makers)
                &&& fill_views(r.0@) == m.fills
                &&& r.1 == m.remaining
            }),
    {
        proof {
            lemma_matching_wf(self@, taker, limit as nat, want as nat, 0);
        }
        match taker {
            Side::Bid => match_into(&mut self.asks, taker, limit, want),
            Side::Ask => match_into(&mut self.bids, taker, limit, want),
        }
    }

    /// Lets `order` come to rest on its side, behind every order that stays ahead of
    /// it. The order has an open quantity and could trade with no order on the other
    /// side.
    pub fn rest(&mut self, order: Order)
        requires
            old(self).wf(),
            order.quantity > 0,
            old(self)@.can_rest(order@),
        ensures
            final(self).wf(),
            final(self)@ == old(self)@.rest(order@),
    {
        proof {
            lemma_rest_wf(self@, order@, 0);
        }
        match order.side {
            Side::Bid => insert_by_priority(&mut self.bids, order),
            Side::Ask => insert_by_priority(&mut self.asks, order),
        }
    }

    /// Submits `order`: it trades against the other side as far as prices allow, and
    /// what is left of it comes to rest. An order without quantity changes nothing.
    pub fn place_order(&mut self, order: Order)
        requires
            old(self).wf(),
        ensures
            final(self).wf(),
            final(self)@ == old(self)@.place(order@),
    {
        proof {
            lemma_remainder_can_rest(self@, order.side, order.price as nat, order.quantity as nat);
        }
        let (_fills, remaining) = self.fill(order.side, order.price, order.quantity);
        if remaining > 0 {
            let mut residual = order;
            residual.quantity = remaining;
            self.rest(residual);
        }
    }

    /// Where the order `id` of `user` stands, if it rests in the book.
    pub fn find_order(&self, user: &String, id: u64) -> (r: Option<(Side, usize)>)
        ensures
            match r {
                Some((side, i)) => self@.find(user@, id as nat) == Some((side, i as int)) && i
                    < self@.side(side).len(),
                None => self@.find(user@, id as nat) is None,
            },
    {
        match position_of(&self.bids, user, id) {
            Some(i) => Some((Side::Bid, i)),
            None => match position_of(&self.asks, user, id) {
                Some(i) => Some((Side::Ask, i)),
                None => None,
            },
        }
    }

    /// Cancels the order `id` if it rests in the book and belongs to `user`. Returns
    /// whether an order was removed.
    pub fn cancel_order(&mut self, user: &str, order_id: u64) -> (removed: bool)
        requires
            old(self).wf(),
        ensures
            final(self).wf(),
            removed == old(self)@.find(user@, order_id as nat).is_some(),
            final(self)@ == old(self)@.cancel(user@, order_id as nat),
    {
        let name = user.to_owned();
        match self.find_order(&name, order_id) {
            Some((side, i)) => {
                let _order = self.remove_at(side, i);
                true
            },
            None => false,
        }
    }
}

impl Clone for OrderBook {
    fn clone(&self) -> (copy: Self)
        ensures
            copy@ == self@,
    {
        OrderBook { bids: copy_orders(&self.bids), asks: copy_orders(&self.asks) }
    }
}

} // verus!
