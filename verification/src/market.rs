use crate::book::{BookView, OrderBook};
use crate::clearing::{
    cover_fees, lemma_credit, lemma_grown, lemma_release, lemma_release_selected, lemma_settle,
    locked_amount, locked_asset, Clearing, ClearingView, FeeReceiver,
};
use crate::events::{event_views, Event, EventQueue, EventType};
use crate::invariants::{
    lemma_batch_match_wf, lemma_cancel_wf, lemma_consume_wf, lemma_deposit_wf, lemma_evict_wf,
    lemma_place_order_wf, lemma_remainder_can_rest,
};
use crate::ledger::{lemma_balance_fits, lemma_credit_beyond, Asset, Ledger, UserBalance};
use crate::order::{order_views, stamp, Order, OrderView, Side};
use vstd::prelude::*;

verus! {

/// Picks the orders that are no longer valid at time `now`.
pub open spec fn expired_at(now: nat) -> spec_fn(OrderView) -> bool {
    |order: OrderView| order.expired(now)
}

/// Picks the orders of `user` whose identifier is among `ids`.
pub open spec fn listed_for(user: Seq<char>, ids: Seq<nat>) -> spec_fn(OrderView) -> bool {
    |order: OrderView| order.owner == user && ids.contains(order.id)
}

/// Picks the orders that `selected` does not pick.
pub open spec fn kept(selected: spec_fn(OrderView) -> bool) -> spec_fn(OrderView) -> bool {
    |order: OrderView| !selected(order)
}

/// Identifiers as mathematical values.
pub open spec fn id_views(ids: Seq<u64>) -> Seq<nat> {
    ids.map_values(|id: u64| id as nat)
}

/// An identifier that may be absent, as a mathematical value.
pub open spec fn id_view(id: Option<u64>) -> Option<nat> {
    match id {
        Some(n) => Some(n as nat),
        None => None,
    }
}

/// A market as a mathematical value: the book, the identifier that the next order
/// gets, and the accounts, fees and events.
pub struct MarketView {
    pub book: BookView,
    pub next_order_id: nat,
    pub clearing: ClearingView,
}

impl MarketView {
    /// A market in which nothing has happened yet.
    pub open spec fn empty() -> MarketView {
        MarketView { book: BookView::empty(), next_order_id: 0, clearing: ClearingView::empty() }
    }

    /// The book, the ledger and the log are well formed.
    pub open spec fn sound(self) -> bool {
        &&& self.book.wf()
        &&& self.clearing.wf()
    }

    /// The book, the ledger and the log are well formed, and every resting order has
    /// an identifier of its own, which is below the one that the next order gets.
    pub open spec fn wf(self) -> bool {
        &&& self.sound()
        &&& self.book.ids_unique_below(self.next_order_id)
    }

    /// Whether every amount and the next identifier can be held in 64 bits.
    pub open spec fn fits(self) -> bool {
        &&& self.clearing.fits()
        &&& self.next_order_id <= u64::MAX
    }

    /// The market after `user` paid in `base` of the base asset and `quote` of the
    /// quote asset.
    pub open spec fn deposit(self, user: Seq<char>, base: nat, quote: nat) -> MarketView {
        MarketView { clearing: self.clearing.deposit(user, base, quote), ..self }
    }

    /// Whether a deposit keeps every amount within 64 bits.
    pub open spec fn admits_deposit(self, user: Seq<char>, base: nat, quote: nat) -> bool {
        self.deposit(user, base, quote).fits()
    }

    /// Whether the sweep of the orders that are no longer valid at `now` keeps every
    /// amount within 64 bits.
    pub open spec fn admits_sweep(self, now: nat, market: Seq<char>) -> bool {
        self.sweep(now, market).fits()
    }

    /// Whether a batch cancellation keeps every amount within 64 bits.
    pub open spec fn admits_batch_cancel(
        self,
        user: Seq<char>,
        ids: Seq<nat>,
        now: nat,
        market: Seq<char>,
    ) -> bool {
        self.batch_cancel(user, ids, now, market).fits()
    }

    /// Whether a cancellation keeps every amount within 64 bits.
    pub open spec fn admits_cancel_order(
        self,
        user: Seq<char>,
        id: nat,
        now: nat,
        market: Seq<char>,
    ) -> bool {
        self.cancel_order(user, id, now, market).0.fits()
    }

    /// The market after every resting order that `selected` picks left the book
    /// unfilled, the bids first and each side from its best order on: the owner gets
    /// back what the order locks, and an event of `kind` records it.
    pub open spec fn evict(
        self,
        selected: spec_fn(OrderView) -> bool,
        kind: EventType,
        now: nat,
        market: Seq<char>,
    ) -> MarketView {
        MarketView {
            book: BookView {
                bids: self.book.bids.filter(kept(selected)),
                asks: self.book.asks.filter(kept(selected)),
            },
            clearing: self.clearing.release_selected(
                self.book.bids,
                selected,
                kind,
                now,
                market,
            ).release_selected(self.book.asks, selected, kind, now, market),
            ..self
        }
    }

    /// The market after the orders that are no longer valid at `now` left the book.
    pub open spec fn sweep(self, now: nat, market: Seq<char>) -> MarketView {
        self.evict(expired_at(now), EventType::Expire, now, market)
    }

    /// The market after `user` cancelled those of its resting orders whose identifier
    /// is among `ids`.
    pub open spec fn batch_cancel(
        self,
        user: Seq<char>,
        ids: Seq<nat>,
        now: nat,
        market: Seq<char>,
    ) -> MarketView {
        self.evict(listed_for(user, ids), EventType::Cancel, now, market)
    }

    /// The market after `user` asked to cancel the order `id`, and whether an order
    /// was cancelled: the order leaves the book if it rests there and belongs to
    /// `user`, and nothing changes otherwise.
    pub open spec fn cancel_order(
        self,
        user: Seq<char>,
        id: nat,
        now: nat,
        market: Seq<char>,
    ) -> (MarketView, bool) {
        match self.book.find(user, id) {
            Some((side, i)) => (
                MarketView {
                    book: self.book.without(side, i),
                    clearing: self.clearing.release(
                        self.book.side(side)[i],
                        EventType::Cancel,
                        now,
                        market,
                    ),
                    ..self
                },
                true,
            ),
            None => (self, false),
        }
    }

    /// The market after `owner` submitted an order, and the identifier the order got.
    ///
    /// First the orders that are no longer valid at `now` leave the book. An order
    /// without quantity then uses up an identifier and changes nothing else. An order
    /// whose owner holds less than the order locks is turned down: it gets no
    /// identifier and changes nothing. Any other order locks its amount, trades
    /// against the other side as far as prices allow, each trade being settled at the
    /// resting order's price, and what is left of it comes to rest, its owner getting
    /// back what that remainder locks.
    pub open spec fn place_order(
        self,
        market: Seq<char>,
        owner: Seq<char>,
        side: Side,
        price: nat,
        quantity: nat,
        now: nat,
        fee_bps: nat,
        expire_ts: Option<nat>,
    ) -> (MarketView, Option<nat>) {
        let swept = self.sweep(now, market);
        let id = swept.next_order_id;
        let asset = locked_asset(side);
        let needed = locked_amount(side, price, quantity);
        if quantity == 0 {
            (MarketView { next_order_id: id + 1, ..swept }, Some(id))
        } else if swept.clearing.ledger.balance(owner, asset) < needed {
            (swept, None)
        } else {
            let m = swept.book.matching(side, price, quantity);
            let locked = ClearingView {
                ledger: swept.clearing.ledger.debit(owner, asset, needed),
                ..swept.clearing
            };
            let traded = MarketView {
                book: swept.book.with_side(side.spec_opposite(), m.makers),
                next_order_id: id + 1,
                clearing: locked.settle(m.fills, owner, side, id, now, fee_bps, market),
            };
            if m.remaining > 0 {
                let residual = OrderView {
                    id,
                    owner,
                    side,
                    price,
                    quantity: m.remaining,
                    expire_ts,
                };
                (
                    MarketView {
                        book: traded.book.rest(residual),
                        clearing: traded.clearing.credit(
                            owner,
                            asset,
                            locked_amount(side, price, m.remaining),
                        ),
                        ..traded
                    },
                    Some(id),
                )
            } else {
                (traded, Some(id))
            }
        }
    }

    /// Whether a submission can be carried out: it keeps every amount within 64 bits,
    /// after the expired orders have left and when it is done, and what is paid in
    /// each of its trades covers the fee.
    pub open spec fn admits_place_order(
        self,
        market: Seq<char>,
        owner: Seq<char>,
        side: Side,
        price: nat,
        quantity: nat,
        now: nat,
        fee_bps: nat,
        expire_ts: Option<nat>,
    ) -> bool {
        let outcome = self.place_order(
            market,
            owner,
            side,
            price,
            quantity,
            now,
            fee_bps,
            expire_ts,
        );
        &&& self.sweep(now, market).fits()
        &&& outcome.0.fits()
        &&& quantity > 0 && outcome.1 is Some ==> cover_fees(
            self.sweep(now, market).book.matching(side, price, quantity).fills,
            fee_bps,
        )
    }

    /// The market after each of `orders` was submitted anew on `side`, first to last,
    /// under its owner and with its price, quantity and time limit.
    pub open spec fn replay(
        self,
        orders: Seq<OrderView>,
        side: Side,
        now: nat,
        fee_bps: nat,
        market: Seq<char>,
    ) -> MarketView
        decreases orders.len(),
    {
        if orders.len() == 0 {
            self
        } else {
            let o = orders[0];
            self.place_order(
                market,
                o.owner,
                side,
                o.price,
                o.quantity,
                now,
                fee_bps,
                o.expire_ts,
            ).0.replay(orders.drop_first(), side, now, fee_bps, market)
        }
    }

    /// Whether each submission of a replay can be carried out.
    pub open spec fn admits_replay(
        self,
        orders: Seq<OrderView>,
        side: Side,
        now: nat,
        fee_bps: nat,
        market: Seq<char>,
    ) -> bool
        decreases orders.len(),
    {
        if orders.len() == 0 {
            true
        } else {
            let o = orders[0];
            &&& self.admits_place_order(
                market,
                o.owner,
                side,
                o.price,
                o.quantity,
                now,
                fee_bps,
                o.expire_ts,
            )
            &&& self.place_order(
                market,
                o.owner,
                side,
                o.price,
                o.quantity,
                now,
                fee_bps,
                o.expire_ts,
            ).0.admits_replay(orders.drop_first(), side, now, fee_bps, market)
        }
    }

    /// The orders that a batch match of `n` orders on `side` submits anew: the first
    /// `n` on that side, or all of them if there are fewer.
    pub open spec fn batch(self, side: Side, n: nat) -> Seq<OrderView> {
        let orders = self.book.side(side);
        if n <= orders.len() {
            orders.take(n as int)
        } else {
            orders
        }
    }

    /// The market after a batch match: the orders that are no longer valid at `now`
    /// leave the book, and then the first `n` orders resting on `side` are submitted
    /// anew, best first.
    pub open spec fn batch_match(
        self,
        side: Side,
        n: nat,
        now: nat,
        fee_bps: nat,
        market: Seq<char>,
    ) -> MarketView {
        let swept = self.sweep(now, market);
        swept.replay(swept.batch(side, n), side, now, fee_bps, market)
    }

    /// Whether a batch match can be carried out: the sweep keeps every amount within 64
    /// bits, and each submission can be carried out.
    pub open spec fn admits_batch_match(
        self,
        side: Side,
        n: nat,
        now: nat,
        fee_bps: nat,
        market: Seq<char>,
    ) -> bool {
        let swept = self.sweep(now, market);
        &&& swept.fits()
        &&& swept.admits_replay(swept.batch(side, n), side, now, fee_bps, market)
    }
}

/// Which resting orders are to leave the book.
enum Selector<'a> {
    /// Those no longer valid at the given time.
    Expired(u64),
    /// Those of the given user whose identifier is listed.
    Listed(&'a String, &'a [u64]),
}

/// Whether `id` is among `ids`.
fn is_listed(ids: &[u64], id: u64) -> (b: bool)
    ensures
        b == id_views(ids@).contains(id as nat),
{
    let ghost views = id_views(ids@);
    let mut i: usize = 0;
    while i < ids.len()
        invariant
            i <= ids.len(),
            views == id_views(ids@),
            forall|j: int| 0 <= j < i ==> views[j] != id as nat,
        decreases ids.len() - i,
    {
        if ids[i] == id {
            assert(views[i as int] == id as nat);
            return true;
        }
        i += 1;
    }
    false
}

impl<'a> Selector<'a> {
    /// The orders that are picked.
    spec fn picks(&self) -> spec_fn(OrderView) -> bool {
        match self {
            Selector::Expired(now) => expired_at(*now as nat),
            Selector::Listed(user, ids) => listed_for(user@, id_views(ids@)),
        }
    }

    /// Whether `order` is picked.
    fn selects(&self, order: &Order) -> (b: bool)
        ensures
            b == (self.picks())(order@),
    {
        match self {
            Selector::Expired(now) => order.is_expired(*now),
            Selector::Listed(user, ids) => order.owner == **user && is_listed(ids, order.id),
        }
    }
}

/// One market: its book of resting orders, its accounts, the fees it has collected
/// and its event log.
#[derive(Debug)]
pub struct MarketState {
    book: OrderBook,
    next_order_id: u64,
    clearing: Clearing,
}

impl View for MarketState {
    type V = MarketView;

    closed spec fn view(&self) -> MarketView {
        MarketView {
            book: self.book@,
            next_order_id: self.next_order_id as nat,
            clearing: self.clearing@,
        }
    }
}

impl MarketState {
    /// The book, the ledger and the log are well formed, and every resting order has
    /// an identifier of its own, which is below the one that the next order gets.
    pub open spec fn wf(&self) -> bool {
        self@.wf()
    }

    /// What a market holds always fits in 64 bits.
    pub proof fn lemma_fits(&self)
        ensures
            self@.fits(),
    {
        self.clearing.lemma_fits();
    }

    /// Lets the orders on `side` that `selector` picks leave the book. The result is
    /// `false` where a sum does not fit in 64 bits; the market is then of no further
    /// use.
    fn evict_side(
        &mut self,
        side: Side,
        selector: &Selector,
        kind: EventType,
        now: u64,
        market: &String,
    ) -> (ok: bool)
        requires
            old(self)@.sound(),
        ensures
            final(self)@.sound(),
            ({
                let released = old(self)@.clearing.release_selected(
                    old(self)@.book.side(side),
                    selector.picks(),
                    kind,
                    now as nat,
                    market@,
                );
                &&& ok == released.fits()
                &&& ok ==> final(self)@ == (MarketView {
                    book: old(self)@.book.with_side(
                        side,
                        old(self)@.book.side(side).filter(kept(selector.picks())),
                    ),
                    clearing: released,
                    ..old(self)@
                })
            }),
    {
        let ghost start = self@;
        let ghost orig = start.book.side(side);
        let ghost sel = selector.picks();
        let ghost target = start.clearing.release_selected(orig, sel, kind, now as nat, market@);
        let mut i: usize = 0;
        let ghost mut k: int = 0;
        proof {
            reveal(Seq::filter);
            assert(orig.take(0).filter(kept(sel)) =~= Seq::<OrderView>::empty());
            assert(orig.take(0).filter(kept(sel)) + orig.skip(0) =~= orig);
            assert(start.book.with_side(side, orig) == start.book);
        }
        while i < self.book.count(side)
            invariant
                self@.sound(),
                0 <= k <= orig.len(),
                start == old(self)@,
                orig == start.book.side(side),
                sel == selector.picks(),
                target == start.clearing.release_selected(orig, sel, kind, now as nat, market@),
                self@.book == start.book.with_side(
                    side,
                    orig.take(k).filter(kept(sel)) + orig.skip(k),
                ),
                i == orig.take(k).filter(kept(sel)).len(),
                self@.next_order_id == start.next_order_id,
                self@.clearing.release_selected(orig.skip(k), sel, kind, now as nat, market@)
                    == target,
            decreases orig.len() - k,
        {
            let ghost here = self@;
            let ghost done = orig.take(k).filter(kept(sel));
            proof {
                assert(here.book.side(side) == done + orig.skip(k));
                assert(k < orig.len());
                assert((done + orig.skip(k))[i as int] == orig[k]);
                assert(orig.skip(k)[0] == orig[k]);
                assert(orig.skip(k).drop_first() =~= orig.skip(k + 1));
                assert(orig.take(k + 1) =~= orig.take(k).push(orig[k]));
                orig.take(k).lemma_filter_push(orig[k], kept(sel));
            }
            let picked = selector.selects(self.book.order_at(side, i));
            if picked {
                let order = self.book.remove_at(side, i);
                proof {
                    assert((done + orig.skip(k)).remove(i as int) =~= done + orig.skip(k + 1));
                    let next = here.clearing.release(order@, kind, now as nat, market@);
                    lemma_release(here.clearing, order@, kind, now as nat, market@);
                    lemma_release_selected(
                        next,
                        orig.skip(k + 1),
                        sel,
                        kind,
                        now as nat,
                        market@,
                    );
                    lemma_grown(next, target, target);
                }
                if !self.clearing.release(&order, kind, now, market) {
                    return false;
                }
                proof {
                    assert(orig.take(k + 1).filter(kept(sel)) == done);
                    assert(self@.book.side(side) == done + orig.skip(k + 1));
                    assert(self@.book == start.book.with_side(side, done + orig.skip(k + 1)));
                }
            } else {
                i += 1;
                proof {
                    assert(orig.take(k + 1).filter(kept(sel)) == done.push(orig[k]));
                    assert(done.push(orig[k]) + orig.skip(k + 1) =~= done + orig.skip(k));
                }
            }
            proof {
                k = k + 1;
            }
        }
        proof {
            assert(orig.take(k) =~= orig);
            assert(orig.filter(kept(sel)) + orig.skip(k) =~= orig.filter(kept(sel)));
            self.lemma_fits();
        }
        true
    }

    /// Lets the resting orders that `selector` picks leave the book, the bids first.
    /// The result is `false` where a sum does not fit in 64 bits; the market is then of
    /// no further use.
    fn evict(&mut self, selector: &Selector, kind: EventType, now: u64, market: &String) -> (ok:
        bool)
        requires
            old(self)@.sound(),
        ensures
            final(self)@.sound(),
            ok == old(self)@.evict(selector.picks(), kind, now as nat, market@).fits(),
            ok ==> final(self)@ == old(self)@.evict(selector.picks(), kind, now as nat, market@),
    {
        proof {
            let start = self@;
            let sel = selector.picks();
            let bids_out = start.clearing.release_selected(
                start.book.bids,
                sel,
                kind,
                now as nat,
                market@,
            );
            lemma_release_selected(
                start.clearing,
                start.book.bids,
                sel,
                kind,
                now as nat,
                market@,
            );
            lemma_release_selected(bids_out, start.book.asks, sel, kind, now as nat, market@);
            lemma_grown(
                bids_out,
                bids_out.release_selected(start.book.asks, sel, kind, now as nat, market@),
                bids_out,
            );
        }
        if !self.evict_side(Side::Bid, selector, kind, now, market) {
            return false;
        }
        self.evict_side(Side::Ask, selector, kind, now, market)
    }

    /// Handles a submission. The result is `None` where a sum does not fit in 64 bits
    /// or a fee is more than what is paid; the market is then of no further use.
    fn submit(
        &mut self,
        market: &String,
        owner: &String,
        side: Side,
        price: u64,
        quantity: u64,
        now: u64,
        fee_bps: u64,
        expire_ts: Option<u64>,
    ) -> (r: Option<Option<u64>>)
        requires
            old(self)@.sound(),
        ensures
            final(self)@.sound(),
            r is Some == old(self)@.admits_place_order(
                market@,
                owner@,
                side,
                price as nat,
                quantity as nat,
                now as nat,
                fee_bps as nat,
                stamp(expire_ts),
            ),
            r matches Some(id) ==> {
                let outcome = old(self)@.place_order(
                    market@,
                    owner@,
                    side,
                    price as nat,
                    quantity as nat,
                    now as nat,
                    fee_bps as nat,
                    stamp(expire_ts),
                );
                &&& final(self)@ == outcome.0
                &&& id_view(id) == outcome.1
            },
    {
        let ghost start = self@;
        let ghost outcome = start.place_order(
            market@,
            owner@,
            side,
            price as nat,
            quantity as nat,
            now as nat,
            fee_bps as nat,
            stamp(expire_ts),
        );
        if !self.evict(&Selector::Expired(now), EventType::Expire, now, market) {
            return None;
        }
        let ghost swept = self@;
        proof {
            self.lemma_fits();
        }
        let id = self.next_order_id;
        let next_id = id.checked_add(1);
        if quantity == 0 {
            return match next_id {
                Some(next) => {
                    self.next_order_id = next;
                    Some(Some(id))
                },
                None => None,
            };
        }
        let asset = match side {
            Side::Bid => Asset::Quote,
            Side::Ask => Asset::Base,
        };
        let needed = match side {
            Side::Bid => price.checked_mul(quantity),
            Side::Ask => Some(quantity),
        };
        let needed = match needed {
            Some(amount) => amount,
            None => {
                proof {
                    lemma_balance_fits(swept.clearing.ledger, owner@, asset);
                }
                return Some(None);
            },
        };
        if !self.clearing.lock(owner, asset, needed) {
            return Some(None);
        }
        let ghost locked = self@.clearing;
        let ghost m = swept.book.matching(side, price as nat, quantity as nat);
        let ghost traded = locked.settle(
            m.fills,
            owner@,
            side,
            id as nat,
            now as nat,
            fee_bps as nat,
            market@,
        );
        let ghost refund_due = locked_amount(side, price as nat, m.remaining);
        proof {
            lemma_settle(
                locked,
                m.fills,
                owner@,
                side,
                id as nat,
                now as nat,
                fee_bps as nat,
                market@,
            );
            lemma_credit(traded, owner@, asset, refund_due);
            lemma_grown(traded, traded.credit(owner@, asset, refund_due), traded);
            lemma_grown(traded, traded, traded);
        }
        let next = match next_id {
            Some(next) => next,
            None => {
                return None;
            },
        };
        self.next_order_id = next;
        proof {
            lemma_remainder_can_rest(swept.book, side, price as nat, quantity as nat);
        }
        let (fills, remaining) = self.book.fill(side, price, quantity);
        if !self.clearing.settle(&fills, owner, side, id, now, fee_bps, market) {
            return None;
        }
        if remaining > 0 {
            let refund = match side {
                Side::Bid => price.checked_mul(remaining),
                Side::Ask => Some(remaining),
            };
            let refund = match refund {
                Some(amount) => amount,
                None => {
                    proof {
                        lemma_credit_beyond(traded.ledger, owner@, asset, refund_due);
                    }
                    return None;
                },
            };
            if !self.clearing.credit(owner, asset, refund) {
                return None;
            }
            self.book.rest(
                Order { id, owner: owner.clone(), side, price, quantity: remaining, expire_ts },
            );
        }
        proof {
            self.lemma_fits();
        }
        Some(Some(id))
    }

    /// Handles a cancellation. The result is `None` where a sum does not fit in 64
    /// bits; the market is then of no further use.
    fn withdraw(&mut self, market: &String, user: &String, order_id: u64, now: u64) -> (r: Option<
        bool,
    >)
        requires
            old(self)@.sound(),
        ensures
            final(self)@.sound(),
            r is Some == old(self)@.cancel_order(user@, order_id as nat, now as nat, market@).0.fits(),
            r matches Some(cancelled) ==> {
                let outcome = old(self)@.cancel_order(user@, order_id as nat, now as nat, market@);
                &&& final(self)@ == outcome.0
                &&& cancelled == outcome.1
            },
    {
        proof {
            self.lemma_fits();
        }
        match self.book.find_order(user, order_id) {
            Some((side, i)) => {
                let order = self.book.remove_at(side, i);
                if self.clearing.release(&order, EventType::Cancel, now, market) {
                    proof {
                        self.lemma_fits();
                    }
                    Some(true)
                } else {
                    None
                }
            },
            None => Some(false),
        }
    }

    /// Handles a batch match. The result is `false` where a sum does not fit in 64
    /// bits or a fee is more than what is paid; the market is then of no further use.
    fn rematch(&mut self, market: &String, side: Side, n: usize, now: u64, fee_bps: u64) -> (ok:
        bool)
        requires
            old(self)@.sound(),
        ensures
            final(self)@.sound(),
            ok == old(self)@.admits_batch_match(
                side,
                n as nat,
                now as nat,
                fee_bps as nat,
                market@,
            ),
            ok ==> final(self)@ == old(self)@.batch_match(
                side,
                n as nat,
                now as nat,
                fee_bps as nat,
                market@,
            ),
    {
        if !self.evict(&Selector::Expired(now), EventType::Expire, now, market) {
            return false;
        }
        let ghost swept = self@;
        proof {
            self.lemma_fits();
        }
        let total = self.book.count(side);
        let count = if n <= total {
            n
        } else {
            total
        };
        let mut snapshot: Vec<Order> = Vec::new();
        let mut j: usize = 0;
        while j < count
            invariant
                j <= count <= swept.book.side(side).len(),
                self@ == swept,
                order_views(snapshot@) =~= swept.book.side(side).take(j as int),
            decreases count - j,
        {
            let ghost taken = order_views(snapshot@);
            let copy = self.book.order_at(side, j).clone();
            snapshot.push(copy);
            assert(order_views(snapshot@) =~= taken.push(swept.book.side(side)[j as int]));
            j += 1;
        }
        let ghost orders = order_views(snapshot@);
        let ghost target = swept.replay(orders, side, now as nat, fee_bps as nat, market@);
        let ghost admitted = swept.admits_replay(
            orders,
            side,
            now as nat,
            fee_bps as nat,
            market@,
        );
        proof {
            assert(orders =~= swept.batch(side, n as nat));
            assert(orders.skip(0) =~= orders);
        }
        let mut j: usize = 0;
        while j < snapshot.len()
            invariant
                j <= snapshot.len(),
                self@.sound(),
                    orders == order_views(snapshot@),
                swept == old(self)@.sweep(now as nat, market@),
                swept.fits(),
                orders == swept.batch(side, n as nat),
                target == swept.replay(orders, side, now as nat, fee_bps as nat, market@),
                admitted == swept.admits_replay(
                    orders,
                    side,
                    now as nat,
                    fee_bps as nat,
                    market@,
                ),
                self@.replay(orders.skip(j as int), side, now as nat, fee_bps as nat, market@)
                    == target,
                self@.admits_replay(
                    orders.skip(j as int),
                    side,
                    now as nat,
                    fee_bps as nat,
                    market@,
                ) == admitted,
            decreases snapshot.len() - j,
        {
            proof {
                assert(orders.skip(j as int)[0] == snapshot@[j as int]@);
                assert(orders.skip(j as int).drop_first() =~= orders.skip(j + 1));
            }
            let order = &snapshot[j];
            let placed = self.submit(
                market,
                &order.owner,
                side,
                order.price,
                order.quantity,
                now,
                fee_bps,
                order.expire_ts,
            );
            if placed.is_none() {
                return false;
            }
            j += 1;
        }
        true
    }

    /// A market in which nothing has happened yet.
    pub fn new() -> (market: Self)
        ensures
            market.wf(),
            market@ == MarketView::empty(),
    {
        MarketState { book: OrderBook::new(), next_order_id: 0, clearing: Clearing::new() }
    }

    /// The book of resting orders.
    pub fn book(&self) -> (book: &OrderBook)
        ensures
            book@ == self@.book,
    {
        &self.book
    }

    /// The resting bids, highest price first.
    pub fn bids(&self) -> (bids: &[Order])
        ensures
            order_views(bids@) == self@.book.bids,
    {
        self.book.get_bids()
    }

    /// The resting asks, lowest price first.
    pub fn asks(&self) -> (asks: &[Order])
        ensures
            order_views(asks@) == self@.book.asks,
    {
        self.book.get_asks()
    }

    /// The identifier that the next order gets.
    pub fn next_order_id(&self) -> (id: u64)
        ensures
            id == self@.next_order_id,
    {
        self.next_order_id
    }

    /// The accounts.
    pub fn balances(&self) -> (ledger: &Ledger)
        ensures
            ledger@ == self@.clearing.ledger,
    {
        self.clearing.balances()
    }

    /// What `user` holds free of any open order; nothing, if `user` has no account.
    pub fn balance_of(&self, user: &str) -> (balance: UserBalance)
        requires
            self.wf(),
        ensures
            balance@ == self@.clearing.ledger.holdings_of(user@),
    {
        self.clearing.balances().balance_of(user)
    }

    /// The fees collected so far.
    pub fn fee_receiver(&self) -> (fees: FeeReceiver)
        ensures
            fees.collected_fee == self@.clearing.collected_fee,
    {
        self.clearing.fee_receiver()
    }

    /// The event log.
    pub fn event_queue(&self) -> (queue: &EventQueue)
        ensures
            queue@ == self@.clearing.log,
    {
        self.clearing.event_queue()
    }

    /// Hands `consumer` the oldest events that it has not been handed yet, at most
    /// `max_events` of them, and moves its position behind them.
    pub fn consume_events(&mut self, consumer: &str, max_events: usize) -> (batch: Vec<Event>)
        requires
            old(self).wf(),
        ensures
            final(self).wf(),
            final(self)@ == (MarketView {
                clearing: ClearingView {
                    log: old(self)@.clearing.log.consume(consumer@, max_events as nat),
                    ..old(self)@.clearing
                },
                ..old(self)@
            }),
            event_views(batch@) == old(self)@.clearing.log.batch(consumer@, max_events as nat),
    {
        proof {
            lemma_consume_wf(self@, consumer@, max_events as nat);
        }
        self.clearing.consume_events(consumer, max_events)
    }

    /// Pays in `base` of the base asset and `quote` of the quote asset for `user`,
    /// who gets an account if there was none. What `user` then holds has to fit in 64
    /// bits, which `admits_deposit` tells.
    pub fn deposit(&mut self, user: &str, base: u64, quote: u64)
        requires
            old(self).wf(),
            old(self)@.admits_deposit(user@, base as nat, quote as nat),
        ensures
            final(self).wf(),
            final(self)@ == old(self)@.deposit(user@, base as nat, quote as nat),
    {
        proof {
            lemma_deposit_wf(self@, user@, base as nat, quote as nat);
        }
        let name = user.to_owned();
        let ok = self.clearing.deposit(&name, base, quote);
        assert(ok);
    }

    /// Lets every resting order that is no longer valid at `now` leave the book: its
    /// owner gets back what it locks, and an `Expire` event records it. What the owners
    /// then hold has to fit in 64 bits, which `admits_clean_expired_orders` tells.
    pub fn clean_expired_orders(&mut self, now: u64, market: &str)
        requires
            old(self).wf(),
            old(self)@.admits_sweep(now as nat, market@),
        ensures
            final(self).wf(),
            final(self)@ == old(self)@.sweep(now as nat, market@),
    {
        proof {
            lemma_evict_wf(self@, expired_at(now as nat), EventType::Expire, now as nat, market@);
        }
        let name = market.to_owned();
        let ok = self.evict(&Selector::Expired(now), EventType::Expire, now, &name);
        assert(ok);
    }

    /// Submits an order of `owner`: the orders that are no longer valid at `now` leave
    /// the book, the order locks what it needs, trades with the other side of the book
    /// as far as its limit allows, and what is left of it comes to rest. Returns the
    /// identifier it got, or `None` where `owner` holds less than the order locks. The
    /// submission has to be one that can be carried out, which `admits_place_order`
    /// tells.
    pub fn place_order(
        &mut self,
        market: &str,
        owner: &str,
        side: Side,
        price: u64,
        quantity: u64,
        now: u64,
        fee_bps: u64,
        expire_ts: Option<u64>,
    ) -> (id: Option<u64>)
        requires
            old(self).wf(),
            old(self)@.admits_place_order(
                market@,
                owner@,
                side,
                price as nat,
                quantity as nat,
                now as nat,
                fee_bps as nat,
                stamp(expire_ts),
            ),
        ensures
            final(self).wf(),
            final(self)@ == old(self)@.place_order(
                market@,
                owner@,
                side,
                price as nat,
                quantity as nat,
                now as nat,
                fee_bps as nat,
                stamp(expire_ts),
            ).0,
            id_view(id) == old(self)@.place_order(
                market@,
                owner@,
                side,
                price as nat,
                quantity as nat,
                now as nat,
                fee_bps as nat,
                stamp(expire_ts),
            ).1,
    {
        proof {
            lemma_place_order_wf(
                self@,
                market@,
                owner@,
                side,
                price as nat,
                quantity as nat,
                now as nat,
                fee_bps as nat,
                stamp(expire_ts),
            );
        }
        let market_name = market.to_owned();
        let owner_name = owner.to_owned();
        match self.submit(
            &market_name,
            &owner_name,
            side,
            price,
            quantity,
            now,
            fee_bps,
            expire_ts,
        ) {
            Some(id) => id,
            None => None,
        }
    }

    /// Cancels the order `order_id` if it rests in the book and belongs to `user`:
    /// `user` gets back what it locks, and a `Cancel` event records it. Returns
    /// whether an order was cancelled. What `user` then holds has to fit in 64 bits,
    /// which `admits_cancel_order` tells.
    pub fn cancel_order(&mut self, market: &str, user: &str, order_id: u64, now: u64) -> (cancelled:
        bool)
        requires
            old(self).wf(),
            old(self)@.admits_cancel_order(user@, order_id as nat, now as nat, market@),
        ensures
            final(self).wf(),
            final(self)@ == old(self)@.cancel_order(user@, order_id as nat, now as nat, market@).0,
            cancelled == old(self)@.cancel_order(user@, order_id as nat, now as nat, market@).1,
    {
        proof {
            lemma_cancel_wf(self@, user@, order_id as nat, now as nat, market@);
        }
        let market_name = market.to_owned();
        let user_name = user.to_owned();
        match self.withdraw(&market_name, &user_name, order_id, now) {
            Some(cancelled) => cancelled,
            None => false,
        }
    }

    /// Lets the orders that are no longer valid at `now` leave the book and then
    /// submits the first `n` orders resting on `side` anew, best first. Each of these
    /// steps has to be one that can be carried out, which `admits_batch_match` tells.
    pub fn batch_match(&mut self, market: &str, side: Side, n: usize, now: u64, fee_bps: u64)
        requires
            old(self).wf(),
            old(self)@.admits_batch_match(side, n as nat, now as nat, fee_bps as nat, market@),
        ensures
            final(self).wf(),
            final(self)@ == old(self)@.batch_match(
                side,
                n as nat,
                now as nat,
                fee_bps as nat,
                market@,
            ),
    {
        proof {
            lemma_batch_match_wf(self@, side, n as nat, now as nat, fee_bps as nat, market@);
        }
        let market_name = market.to_owned();
        let ok = self.rematch(&market_name, side, n, now, fee_bps);
        assert(ok);
    }

    /// Cancels every resting order of `user` whose identifier is among `ids`, the
    /// bids first and each side from its best order on. What `user` then holds has to
    /// fit in 64 bits, which `admits_batch_cancel` tells.
    pub fn batch_cancel(&mut self, market: &str, user: &str, ids: &[u64], now: u64)
        requires
            old(self).wf(),
            old(self)@.admits_batch_cancel(user@, id_views(ids@), now as nat, market@),
        ensures
            final(self).wf(),
            final(self)@ == old(self)@.batch_cancel(user@, id_views(ids@), now as nat, market@),
    {
        proof {
            lemma_evict_wf(
                self@,
                listed_for(user@, id_views(ids@)),
                EventType::Cancel,
                now as nat,
                market@,
            );
        }
        let market_name = market.to_owned();
        let user_name = user.to_owned();
        let ok = self.evict(
            &Selector::Listed(&user_name, ids),
            EventType::Cancel,
            now,
            &market_name,
        );
        assert(ok);
    }
}

impl MarketState {
    /// Whether a deposit keeps every amount within 64 bits.
    pub fn admits_deposit(&self, user: &str, base: u64, quote: u64) -> (ok: bool)
        requires
            self.wf(),
        ensures
            ok == self@.admits_deposit(user@, base as nat, quote as nat),
    {
        let mut trial = self.clone();
        let name = user.to_owned();
        trial.clearing.deposit(&name, base, quote)
    }

    /// Whether the sweep of the orders that are no longer valid at `now` keeps every
    /// amount within 64 bits.
    pub fn admits_clean_expired_orders(&self, now: u64, market: &str) -> (ok: bool)
        requires
            self.wf(),
        ensures
            ok == self@.admits_sweep(now as nat, market@),
    {
        let mut trial = self.clone();
        let name = market.to_owned();
        trial.evict(&Selector::Expired(now), EventType::Expire, now, &name)
    }

    /// Whether a submission can be carried out: it keeps every amount within 64 bits
    /// and what is paid in each of its trades covers the fee.
    pub fn admits_place_order(
        &self,
        market: &str,
        owner: &str,
        side: Side,
        price: u64,
        quantity: u64,
        now: u64,
        fee_bps: u64,
        expire_ts: Option<u64>,
    ) -> (ok: bool)
        requires
            self.wf(),
        ensures
            ok == self@.admits_place_order(
                market@,
                owner@,
                side,
                price as nat,
                quantity as nat,
                now as nat,
                fee_bps as nat,
                stamp(expire_ts),
            ),
    {
        let mut trial = self.clone();
        let market_name = market.to_owned();
        let owner_name = owner.to_owned();
        trial.submit(
            &market_name,
            &owner_name,
            side,
            price,
            quantity,
            now,
            fee_bps,
            expire_ts,
        ).is_some()
    }

    /// Whether a cancellation keeps every amount within 64 bits.
    pub fn admits_cancel_order(&self, market: &str, user: &str, order_id: u64, now: u64) -> (ok:
        bool)
        requires
            self.wf(),
        ensures
            ok == self@.admits_cancel_order(user@, order_id as nat, now as nat, market@),
    {
        let mut trial = self.clone();
        let market_name = market.to_owned();
        let user_name = user.to_owned();
        trial.withdraw(&market_name, &user_name, order_id, now).is_some()
    }

    /// Whether a batch match can be carried out: each step keeps every amount within
    /// 64 bits and what is paid in each trade covers the fee.
    pub fn admits_batch_match(&self, market: &str, side: Side, n: usize, now: u64, fee_bps: u64) -> (ok:
        bool)
        requires
            self.wf(),
        ensures
            ok == self@.admits_batch_match(
                side,
                n as nat,
                now as nat,
                fee_bps as nat,
                market@,
            ),
    {
        let mut trial = self.clone();
        let market_name = market.to_owned();
        trial.rematch(&market_name, side, n, now, fee_bps)
    }

    /// Whether a batch cancellation keeps every amount within 64 bits.
    pub fn admits_batch_cancel(&self, market: &str, user: &str, ids: &[u64], now: u64) -> (ok:
        bool)
        requires
            self.wf(),
        ensures
            ok == self@.admits_batch_cancel(user@, id_views(ids@), now as nat, market@),
    {
        let mut trial = self.clone();
        let market_name = market.to_owned();
        let user_name = user.to_owned();
        trial.evict(&Selector::Listed(&user_name, ids), EventType::Cancel, now, &market_name)
    }
}

impl Default for MarketState {
    fn default() -> (market: Self)
        ensures
            market.wf(),
            market@ == MarketView::empty(),
    {
        MarketState::new()
    }
}

impl Clone for MarketState {
    fn clone(&self) -> (copy: Self)
        ensures
            copy@ == self@,
    {
        MarketState {
            book: self.book.clone(),
            next_order_id: self.next_order_id,
            clearing: self.clearing.clone(),
        }
    }
}

} // verus!
