use crate::book::{fill_views, Fill, FillView};
use crate::events::{event_views, Event, EventQueue, EventType, EventView, LogView};
use crate::ledger::{lemma_credit_beyond, lemma_credit_grows, Asset, Ledger, LedgerView};
use crate::order::{Order, OrderView, Side};
use vstd::arithmetic::div_mod::{lemma_fundamental_div_mod, lemma_hoist_over_denominator};
use vstd::prelude::*;

verus! {

/// How many basis points make the whole.
pub const BPS_DENOMINATOR: u64 = 10_000;

/// The fee on a trade worth `notional` at a rate of `fee_bps` basis points, rounded down.
pub open spec fn fee_amount(notional: nat, fee_bps: nat) -> nat {
    notional * fee_bps / (BPS_DENOMINATOR as nat)
}

/// What is left of `notional` for the seller after the fee at `fee_bps` basis points;
/// nothing, where the fee is more than the whole.
pub open spec fn proceeds_after_fee(notional: nat, fee_bps: nat) -> nat {
    let fee = fee_amount(notional, fee_bps);
    if fee <= notional {
        (notional - fee) as nat
    } else {
        0
    }
}

/// Whether what is paid in the trade `fill` covers the fee on it.
pub open spec fn covers_fee(fill: FillView, fee_bps: nat) -> bool {
    fee_amount(fill.price * fill.quantity, fee_bps) <= fill.price * fill.quantity
}

/// Whether what is paid in each of `fills` covers the fee on it.
pub open spec fn cover_fees(fills: Seq<FillView>, fee_bps: nat) -> bool {
    forall|i: int| 0 <= i < fills.len() ==> covers_fee(#[trigger] fills[i], fee_bps)
}

/// The asset that an order of `side` locks: a bid pays in the quote asset, an ask
/// delivers the base asset.
pub open spec fn locked_asset(side: Side) -> Asset {
    match side {
        Side::Bid => Asset::Quote,
        Side::Ask => Asset::Base,
    }
}

/// How much an order of `side` locks for `quantity` at `price`.
pub open spec fn locked_amount(side: Side, price: nat, quantity: nat) -> nat {
    match side {
        Side::Bid => price * quantity,
        Side::Ask => quantity,
    }
}

/// The event that records that `order` left the book unfilled, cancelled or expired.
pub open spec fn leaving_event(
    kind: EventType,
    order: OrderView,
    now: nat,
    market: Seq<char>,
) -> EventView {
    EventView {
        event_type: kind,
        market,
        maker: None,
        taker: Some(order.owner),
        price: Some(order.price),
        quantity: order.quantity,
        fee: 0,
        order_id: order.id,
        timestamp: now,
    }
}

/// The event that records the trade `fill` of the incoming order `id` of `taker`.
pub open spec fn fill_event(
    fill: FillView,
    taker: Seq<char>,
    id: nat,
    fee: nat,
    now: nat,
    market: Seq<char>,
) -> EventView {
    EventView {
        event_type: EventType::Fill,
        market,
        maker: Some(fill.maker),
        taker: Some(taker),
        price: Some(fill.price),
        quantity: fill.quantity,
        fee,
        order_id: id,
        timestamp: now,
    }
}

/// The fees that a market has collected, in the quote asset.
#[derive(Clone, Copy, Debug, PartialEq, Eq, Structural)]
pub struct FeeReceiver {
    /// The sum of the fees charged so far.
    pub collected_fee: u64,
}

impl Default for FeeReceiver {
    fn default() -> (r: Self)
        ensures
            r.collected_fee == 0,
    {
        FeeReceiver { collected_fee: 0 }
    }
}

/// What a market keeps besides its book, as mathematical values: the accounts, the
/// fees collected and the event log.
pub struct ClearingView {
    pub ledger: LedgerView,
    pub collected_fee: nat,
    pub log: LogView,
}

impl ClearingView {
    /// No accounts, no fees, no events.
    pub open spec fn empty() -> ClearingView {
        ClearingView { ledger: LedgerView::empty(), collected_fee: 0, log: LogView::empty() }
    }

    /// The ledger and the log are well formed.
    pub open spec fn wf(self) -> bool {
        &&& self.ledger.wf()
        &&& self.log.wf()
    }

    /// Whether every amount can be held in 64 bits.
    pub open spec fn fits(self) -> bool {
        &&& self.ledger.fits()
        &&& self.collected_fee <= u64::MAX
    }

    /// Whether `later` holds at least as much in every account and in fees.
    pub open spec fn grown_to(self, later: ClearingView) -> bool {
        &&& self.ledger.grown_to(later.ledger)
        &&& self.collected_fee <= later.collected_fee
    }

    /// Whether `later` has kept what was recorded here: every event stands where it
    /// stood, every consumer stands where it stood, and no fee was given back.
    pub open spec fn kept_in(self, later: ClearingView) -> bool {
        &&& self.log.events.is_prefix_of(later.log.events)
        &&& self.log.consumers == later.log.consumers
        &&& self.log.positions == later.log.positions
        &&& self.collected_fee <= later.collected_fee
    }

    /// After `amount` of `asset` was added to what `user` holds.
    pub open spec fn credit(self, user: Seq<char>, asset: Asset, amount: nat) -> ClearingView {
        ClearingView { ledger: self.ledger.credit(user, asset, amount), ..self }
    }

    /// After `event` was appended to the log.
    pub open spec fn record(self, event: EventView) -> ClearingView {
        ClearingView { log: self.log.append(event), ..self }
    }

    /// After `user` paid in `base` of the base asset and `quote` of the quote asset.
    pub open spec fn deposit(self, user: Seq<char>, base: nat, quote: nat) -> ClearingView {
        self.credit(user, Asset::Base, base).credit(user, Asset::Quote, quote)
    }

    /// After `order` left the book unfilled: its owner gets back what the open
    /// quantity locks, and an event of `kind` records it.
    pub open spec fn release(
        self,
        order: OrderView,
        kind: EventType,
        now: nat,
        market: Seq<char>,
    ) -> ClearingView {
        self.credit(
            order.owner,
            locked_asset(order.side),
            locked_amount(order.side, order.price, order.quantity),
        ).record(leaving_event(kind, order, now, market))
    }

    /// After those of `orders` that `selected` picks left the book, first to last.
    pub open spec fn release_selected(
        self,
        orders: Seq<OrderView>,
        selected: spec_fn(OrderView) -> bool,
        kind: EventType,
        now: nat,
        market: Seq<char>,
    ) -> ClearingView
        decreases orders.len(),
    {
        if orders.len() == 0 {
            self
        } else {
            let next = if selected(orders[0]) {
                self.release(orders[0], kind, now, market)
            } else {
                self
            };
            next.release_selected(orders.drop_first(), selected, kind, now, market)
        }
    }

    /// After the trade `fill` of the incoming order `id` of `taker` on `side` was
    /// settled. The buyer gets the quantity in the base asset. The seller gets the
    /// price times the quantity in the quote asset, less the fee, which goes to the
    /// fees collected. The incoming order's owner is paid first.
    pub open spec fn settle_one(
        self,
        fill: FillView,
        taker: Seq<char>,
        side: Side,
        id: nat,
        now: nat,
        fee_bps: nat,
        market: Seq<char>,
    ) -> ClearingView {
        let notional = fill.price * fill.quantity;
        let fee = fee_amount(notional, fee_bps);
        let proceeds = proceeds_after_fee(notional, fee_bps);
        let paid = match side {
            Side::Bid => self.credit(taker, Asset::Base, fill.quantity).credit(
                fill.maker,
                Asset::Quote,
                proceeds,
            ),
            Side::Ask => self.credit(taker, Asset::Quote, proceeds).credit(
                fill.maker,
                Asset::Base,
                fill.quantity,
            ),
        };
        ClearingView { collected_fee: self.collected_fee + fee, ..paid }.record(
            fill_event(fill, taker, id, fee, now, market),
        )
    }

    /// After the trades `fills` were settled, first to last.
    pub open spec fn settle(
        self,
        fills: Seq<FillView>,
        taker: Seq<char>,
        side: Side,
        id: nat,
        now: nat,
        fee_bps: nat,
        market: Seq<char>,
    ) -> ClearingView
        decreases fills.len(),
    {
        if fills.len() == 0 {
            self
        } else {
            self.settle_one(fills[0], taker, side, id, now, fee_bps, market).settle(
                fills.drop_first(),
                taker,
                side,
                id,
                now,
                fee_bps,
                market,
            )
        }
    }
}

/// Growth is reflexive and transitive, and what has grown to something that fits, fits.
pub proof fn lemma_grown(a: ClearingView, b: ClearingView, c: ClearingView)
    ensures
        a.grown_to(a),
        a.grown_to(b) && b.grown_to(c) ==> a.grown_to(c),
        a.grown_to(b) && b.fits() ==> a.fits(),
        a.kept_in(a),
        a.kept_in(b) && b.kept_in(c) ==> a.kept_in(c),
{
    if a.grown_to(b) && b.fits() {
        assert forall|i: int| 0 <= i < a.ledger.holdings.len() implies (
        #[trigger] a.ledger.holdings[i]).fits() by {
            assert(b.ledger.holdings[i].fits());
        }
    }
}

/// A credit keeps the records well formed and takes nothing from anyone.
pub proof fn lemma_credit(c: ClearingView, user: Seq<char>, asset: Asset, amount: nat)
    requires
        c.wf(),
    ensures
        c.credit(user, asset, amount).wf(),
        c.grown_to(c.credit(user, asset, amount)),
        c.kept_in(c.credit(user, asset, amount)),
{
    lemma_credit_grows(c.ledger, user, asset, amount);
}

/// Appending an event keeps the records well formed.
pub proof fn lemma_record(c: ClearingView, event: EventView)
    requires
        c.wf(),
    ensures
        c.record(event).wf(),
        c.grown_to(c.record(event)),
        c.kept_in(c.record(event)),
        c.record(event).fits() == c.fits(),
{
    lemma_grown(c, c, c);
}

/// Releasing an order keeps the records well formed and takes nothing from anyone.
pub proof fn lemma_release(
    c: ClearingView,
    order: OrderView,
    kind: EventType,
    now: nat,
    market: Seq<char>,
)
    requires
        c.wf(),
    ensures
        c.release(order, kind, now, market).wf(),
        c.grown_to(c.release(order, kind, now, market)),
        c.kept_in(c.release(order, kind, now, market)),
{
    let asset = locked_asset(order.side);
    let amount = locked_amount(order.side, order.price, order.quantity);
    lemma_credit(c, order.owner, asset, amount);
    lemma_record(c.credit(order.owner, asset, amount), leaving_event(kind, order, now, market));
}

/// Releasing orders keeps the records well formed and takes nothing from anyone.
pub proof fn lemma_release_selected(
    c: ClearingView,
    orders: Seq<OrderView>,
    selected: spec_fn(OrderView) -> bool,
    kind: EventType,
    now: nat,
    market: Seq<char>,
)
    requires
        c.wf(),
    ensures
        c.release_selected(orders, selected, kind, now, market).wf(),
        c.grown_to(c.release_selected(orders, selected, kind, now, market)),
        c.kept_in(c.release_selected(orders, selected, kind, now, market)),
        c.release_selected(orders, selected, kind, now, market).collected_fee == c.collected_fee,
    decreases orders.len(),
{
    if orders.len() == 0 {
        lemma_grown(c, c, c);
    } else {
        let next = if selected(orders[0]) {
            c.release(orders[0], kind, now, market)
        } else {
            c
        };
        lemma_release(c, orders[0], kind, now, market);
        lemma_grown(c, c, c);
        lemma_release_selected(next, orders.drop_first(), selected, kind, now, market);
        lemma_grown(
            c,
            next,
            next.release_selected(orders.drop_first(), selected, kind, now, market),
        );
    }
}

/// Settling a trade keeps the records well formed and takes nothing from anyone.
pub proof fn lemma_settle_one(
    c: ClearingView,
    fill: FillView,
    taker: Seq<char>,
    side: Side,
    id: nat,
    now: nat,
    fee_bps: nat,
    market: Seq<char>,
)
    requires
        c.wf(),
    ensures
        c.settle_one(fill, taker, side, id, now, fee_bps, market).wf(),
        c.grown_to(c.settle_one(fill, taker, side, id, now, fee_bps, market)),
        c.kept_in(c.settle_one(fill, taker, side, id, now, fee_bps, market)),
{
    let notional = fill.price * fill.quantity;
    let fee = fee_amount(notional, fee_bps);
    let proceeds = proceeds_after_fee(notional, fee_bps);
    let first = match side {
        Side::Bid => c.credit(taker, Asset::Base, fill.quantity),
        Side::Ask => c.credit(taker, Asset::Quote, proceeds),
    };
    let paid = match side {
        Side::Bid => first.credit(fill.maker, Asset::Quote, proceeds),
        Side::Ask => first.credit(fill.maker, Asset::Base, fill.quantity),
    };
    match side {
        Side::Bid => {
            lemma_credit(c, taker, Asset::Base, fill.quantity);
            lemma_credit(first, fill.maker, Asset::Quote, proceeds);
        },
        Side::Ask => {
            lemma_credit(c, taker, Asset::Quote, proceeds);
            lemma_credit(first, fill.maker, Asset::Base, fill.quantity);
        },
    }
    lemma_grown(c, first, paid);
    let charged = ClearingView { collected_fee: c.collected_fee + fee, ..paid };
    lemma_record(charged, fill_event(fill, taker, id, fee, now, market));
}

/// Settling trades keeps the records well formed and takes nothing from anyone.
pub proof fn lemma_settle(
    c: ClearingView,
    fills: Seq<FillView>,
    taker: Seq<char>,
    side: Side,
    id: nat,
    now: nat,
    fee_bps: nat,
    market: Seq<char>,
)
    requires
        c.wf(),
    ensures
        c.settle(fills, taker, side, id, now, fee_bps, market).wf(),
        c.grown_to(c.settle(fills, taker, side, id, now, fee_bps, market)),
        c.kept_in(c.settle(fills, taker, side, id, now, fee_bps, market)),
    decreases fills.len(),
{
    if fills.len() == 0 {
        lemma_grown(c, c, c);
    } else {
        let next = c.settle_one(fills[0], taker, side, id, now, fee_bps, market);
        lemma_settle_one(c, fills[0], taker, side, id, now, fee_bps, market);
        lemma_settle(next, fills.drop_first(), taker, side, id, now, fee_bps, market);
        lemma_grown(
            c,
            next,
            next.settle(fills.drop_first(), taker, side, id, now, fee_bps, market),
        );
    }
}

/// The fee on `notional` at `fee_bps` basis points, rounded down; `None` where it is
/// more than 128 bits hold.
pub fn fee_on(notional: u128, fee_bps: u64) -> (fee: Option<u128>)
    ensures
        match fee {
            Some(amount) => amount == fee_amount(notional as nat, fee_bps as nat),
            None => fee_amount(notional as nat, fee_bps as nat) > u128::MAX,
        },
{
    let whole = notional / (BPS_DENOMINATOR as u128);
    let part = notional % (BPS_DENOMINATOR as u128);
    let bps = fee_bps as u128;
    proof {
        let n = notional as int;
        let a = whole as int;
        let b = part as int;
        let r = bps as int;
        lemma_fundamental_div_mod(n, 10_000);
        assert(n == 10_000 * a + b);
        assert(0 <= b * r <= 9_999 * 0xffff_ffff_ffff_ffff) by (nonlinear_arith)
            requires
                0 <= b <= 9_999,
                0 <= r <= 0xffff_ffff_ffff_ffff,
        ;
        assert(0 <= a * r) by (nonlinear_arith)
            requires
                0 <= a,
                0 <= r,
        ;
        assert(n * r == b * r + (a * r) * 10_000) by (nonlinear_arith)
            requires
                n == 10_000 * a + b,
        ;
        lemma_hoist_over_denominator(b * r, a * r, 10_000);
        assert(fee_amount(notional as nat, fee_bps as nat) == a * r + (b * r) / 10_000);
        assert(0 <= (b * r) / 10_000);
    }
    let part_fee = part * bps / (BPS_DENOMINATOR as u128);
    match whole.checked_mul(bps) {
        Some(whole_fee) => whole_fee.checked_add(part_fee),
        None => None,
    }
}

/// What a market keeps besides its book: the accounts, the fees collected and the
/// event log.
#[derive(Debug)]
pub struct Clearing {
    balances: Ledger,
    fee_receiver: FeeReceiver,
    event_queue: EventQueue,
}

impl View for Clearing {
    type V = ClearingView;

    closed spec fn view(&self) -> ClearingView {
        ClearingView {
            ledger: self.balances@,
            collected_fee: self.fee_receiver.collected_fee as nat,
            log: self.event_queue@,
        }
    }
}

impl Clearing {
    /// The ledger and the log are well formed.
    pub open spec fn wf(&self) -> bool {
        self@.wf()
    }

    /// What is kept always fits in 64 bits.
    pub proof fn lemma_fits(&self)
        ensures
            self@.fits(),
    {
        self.balances.lemma_fits();
    }

    /// No accounts, no fees, no events.
    pub fn new() -> (clearing: Self)
        ensures
            clearing.wf(),
            clearing@ == ClearingView::empty(),
    {
        Clearing {
            balances: Ledger::new(),
            fee_receiver: FeeReceiver { collected_fee: 0 },
            event_queue: EventQueue::new(),
        }
    }

    /// The accounts.
    pub fn balances(&self) -> (ledger: &Ledger)
        ensures
            ledger@ == self@.ledger,
    {
        &self.balances
    }

    /// The fees collected so far.
    pub fn fee_receiver(&self) -> (fees: FeeReceiver)
        ensures
            fees.collected_fee == self@.collected_fee,
    {
        self.fee_receiver
    }

    /// The event log.
    pub fn event_queue(&self) -> (queue: &EventQueue)
        ensures
            queue@ == self@.log,
    {
        &self.event_queue
    }

    /// Hands `consumer` the oldest events that it has not been handed yet, at most
    /// `max_events` of them.
    pub fn consume_events(&mut self, consumer: &str, max_events: usize) -> (batch: Vec<Event>)
        requires
            old(self).wf(),
        ensures
            final(self).wf(),
            final(self)@ == (ClearingView {
                log: old(self)@.log.consume(consumer@, max_events as nat),
                ..old(self)@
            }),
            event_views(batch@) == old(self)@.log.batch(
                consumer@,
                max_events as nat,
            ),
    {
        self.event_queue.consume_events(consumer, max_events)
    }

    /// Adds `amount` of `asset` to what `user` holds. Where the sum does not fit in 64
    /// bits, nothing changes and the result is `false`.
    pub fn credit(&mut self, user: &String, asset: Asset, amount: u64) -> (ok: bool)
        requires
            old(self).wf(),
        ensures
            final(self).wf(),
            ok == old(self)@.credit(user@, asset, amount as nat).fits(),
            ok ==> final(self)@ == old(self)@.credit(user@, asset, amount as nat),
            !ok ==> final(self)@ == old(self)@,
    {
        proof {
            self.lemma_fits();
        }
        self.balances.credit(user, asset, amount)
    }

    /// Takes `amount` of `asset` from what `user` holds. Where `user` holds less,
    /// nothing changes and the result is `false`.
    pub fn lock(&mut self, user: &String, asset: Asset, amount: u64) -> (ok: bool)
        requires
            old(self).wf(),
        ensures
            final(self).wf(),
            ok == (amount <= old(self)@.ledger.balance(user@, asset)),
            ok ==> final(self)@ == (ClearingView {
                ledger: old(self)@.ledger.debit(user@, asset, amount as nat),
                ..old(self)@
            }),
            !ok ==> final(self)@ == old(self)@,
    {
        self.balances.debit(user, asset, amount)
    }

    /// Appends `event` to the log.
    pub fn record(&mut self, event: Event)
        requires
            old(self).wf(),
        ensures
            final(self).wf(),
            final(self)@ == old(self)@.record(event@),
    {
        self.event_queue.push(event);
    }

    /// Pays in `base` of the base asset and `quote` of the quote asset for `user`.
    /// The result is `false` where a sum does not fit in 64 bits; the records are
    /// then of no further use.
    pub(crate) fn deposit(&mut self, user: &String, base: u64, quote: u64) -> (ok: bool)
        requires
            old(self).wf(),
        ensures
            final(self).wf(),
            ok == old(self)@.deposit(user@, base as nat, quote as nat).fits(),
            ok ==> final(self)@ == old(self)@.deposit(user@, base as nat, quote as nat),
    {
        let ghost first = self@.credit(user@, Asset::Base, base as nat);
        proof {
            lemma_credit(self@, user@, Asset::Base, base as nat);
            lemma_credit(first, user@, Asset::Quote, quote as nat);
            lemma_grown(first, first.credit(user@, Asset::Quote, quote as nat), first);
        }
        if !self.credit(user, Asset::Base, base) {
            return false;
        }
        self.credit(user, Asset::Quote, quote)
    }

    /// Lets `order` leave the book unfilled: its owner gets back what the open
    /// quantity locks, and an event of `kind` records it. The result is `false` where
    /// a sum does not fit in 64 bits; nothing has changed then.
    pub fn release(&mut self, order: &Order, kind: EventType, now: u64, market: &String) -> (ok:
        bool)
        requires
            old(self).wf(),
        ensures
            final(self).wf(),
            ok == old(self)@.release(order@, kind, now as nat, market@).fits(),
            ok ==> final(self)@ == old(self)@.release(order@, kind, now as nat, market@),
            !ok ==> final(self)@ == old(self)@,
    {
        let ghost asset = locked_asset(order.side);
        let ghost amount = locked_amount(order.side, order.price as nat, order.quantity as nat);
        proof {
            lemma_credit(self@, order.owner@, asset, amount);
            lemma_record(
                self@.credit(order.owner@, asset, amount),
                leaving_event(kind, order@, now as nat, market@),
            );
        }
        let paid = match order.side {
            Side::Bid => match order.price.checked_mul(order.quantity) {
                Some(refund) => self.credit(&order.owner, Asset::Quote, refund),
                None => {
                    proof {
                        lemma_credit_beyond(self@.ledger, order.owner@, asset, amount);
                    }
                    false
                },
            },
            Side::Ask => self.credit(&order.owner, Asset::Base, order.quantity),
        };
        if !paid {
            return false;
        }
        self.record(
            Event {
                event_type: kind,
                market: market.clone(),
                maker: None,
                taker: Some(order.owner.clone()),
                price: Some(order.price),
                quantity: order.quantity,
                fee: 0,
                order_id: order.id,
                timestamp: now,
            },
        );
        true
    }

    /// Settles the trade `fill` of the incoming order `id` of `taker` on `side`. The
    /// result is `false` where a sum does not fit in 64 bits or the fee is more than
    /// what is paid; the records are then of no further use.
    pub(crate) fn settle_one(
        &mut self,
        fill: &Fill,
        taker: &String,
        side: Side,
        id: u64,
        now: u64,
        fee_bps: u64,
        market: &String,
    ) -> (ok: bool)
        requires
            old(self).wf(),
        ensures
            final(self).wf(),
            ok == (old(self)@.settle_one(
                fill@,
                taker@,
                side,
                id as nat,
                now as nat,
                fee_bps as nat,
                market@,
            ).fits() && covers_fee(fill@, fee_bps as nat)),
            ok ==> final(self)@ == old(self)@.settle_one(
                fill@,
                taker@,
                side,
                id as nat,
                now as nat,
                fee_bps as nat,
                market@,
            ),
    {
        let ghost before = self@;
        let ghost target = before.settle_one(
            fill@,
            taker@,
            side,
            id as nat,
            now as nat,
            fee_bps as nat,
            market@,
        );
        assert((fill.price as u128) * (fill.quantity as u128) <= u128::MAX) by (nonlinear_arith)
            requires
                fill.price <= u64::MAX,
                fill.quantity <= u64::MAX,
        ;
        let notional: u128 = (fill.price as u128) * (fill.quantity as u128);
        assert(notional as nat == fill@.price * fill@.quantity);
        let fee_wide = match fee_on(notional, fee_bps) {
            Some(amount) => amount,
            None => {
                return false;
            },
        };
        if fee_wide > notional {
            return false;
        }
        let proceeds_wide = notional - fee_wide;
        let ghost fee = fee_wide as nat;
        let ghost proceeds = proceeds_wide as nat;
        let ghost first = match side {
            Side::Bid => before.credit(taker@, Asset::Base, fill.quantity as nat),
            Side::Ask => before.credit(taker@, Asset::Quote, proceeds),
        };
        let ghost paid = match side {
            Side::Bid => first.credit(fill.maker@, Asset::Quote, proceeds),
            Side::Ask => first.credit(fill.maker@, Asset::Base, fill.quantity as nat),
        };
        proof {
            assert(proceeds == proceeds_after_fee(notional as nat, fee_bps as nat));
            match side {
                Side::Bid => {
                    lemma_credit(before, taker@, Asset::Base, fill.quantity as nat);
                    lemma_credit(first, fill.maker@, Asset::Quote, proceeds);
                },
                Side::Ask => {
                    lemma_credit(before, taker@, Asset::Quote, proceeds);
                    lemma_credit(first, fill.maker@, Asset::Base, fill.quantity as nat);
                },
            }
            lemma_grown(first, paid, paid);
            assert(target.ledger == paid.ledger);
            assert(target.collected_fee == before.collected_fee + fee);
        }
        if proceeds_wide > u64::MAX as u128 {
            proof {
                match side {
                    Side::Bid => {
                        lemma_credit_beyond(first.ledger, fill.maker@, Asset::Quote, proceeds);
                    },
                    Side::Ask => {
                        lemma_credit_beyond(before.ledger, taker@, Asset::Quote, proceeds);
                    },
                }
            }
            return false;
        }
        if fee_wide > u64::MAX as u128 {
            return false;
        }
        let proceeds_held = proceeds_wide as u64;
        let fee_held = fee_wide as u64;
        let paid_both = match side {
            Side::Bid => self.credit(taker, Asset::Base, fill.quantity) && self.credit(
                &fill.maker,
                Asset::Quote,
                proceeds_held,
            ),
            Side::Ask => self.credit(taker, Asset::Quote, proceeds_held) && self.credit(
                &fill.maker,
                Asset::Base,
                fill.quantity,
            ),
        };
        if !paid_both {
            return false;
        }
        match self.fee_receiver.collected_fee.checked_add(fee_held) {
            Some(total) => {
                self.fee_receiver.collected_fee = total;
            },
            None => {
                return false;
            },
        }
        proof {
            self.lemma_fits();
            let charged = ClearingView { collected_fee: before.collected_fee + fee, ..paid };
            assert(self@ == charged);
            lemma_record(charged, fill_event(fill@, taker@, id as nat, fee, now as nat, market@));
        }
        self.record(
            Event {
                event_type: EventType::Fill,
                market: market.clone(),
                maker: Some(fill.maker.clone()),
                taker: Some(taker.clone()),
                price: Some(fill.price),
                quantity: fill.quantity,
                fee: fee_held,
                order_id: id,
                timestamp: now,
            },
        );
        true
    }

    /// Settles the trades `fills`, first to last. The result is `false` where a sum
    /// does not fit in 64 bits or a fee is more than what is paid; the records are then
    /// of no further use.
    pub(crate) fn settle(
        &mut self,
        fills: &Vec<Fill>,
        taker: &String,
        side: Side,
        id: u64,
        now: u64,
        fee_bps: u64,
        market: &String,
    ) -> (ok: bool)
        requires
            old(self).wf(),
        ensures
            final(self).wf(),
            ok == (old(self)@.settle(
                fill_views(fills@),
                taker@,
                side,
                id as nat,
                now as nat,
                fee_bps as nat,
                market@,
            ).fits() && cover_fees(fill_views(fills@), fee_bps as nat)),
            ok ==> final(self)@ == old(self)@.settle(
                fill_views(fills@),
                taker@,
                side,
                id as nat,
                now as nat,
                fee_bps as nat,
                market@,
            ),
    {
        let ghost views = fill_views(fills@);
        let ghost target = self@.settle(
            views,
            taker@,
            side,
            id as nat,
            now as nat,
            fee_bps as nat,
            market@,
        );
        let mut i: usize = 0;
        assert(views.skip(0) =~= views);
        while i < fills.len()
            invariant
                i <= fills.len(),
                self.wf(),
                views == fill_views(fills@),
                forall|j: int| 0 <= j < i ==> covers_fee(#[trigger] views[j], fee_bps as nat),
                target == old(self)@.settle(
                    views,
                    taker@,
                    side,
                    id as nat,
                    now as nat,
                    fee_bps as nat,
                    market@,
                ),
                self@.settle(
                    views.skip(i as int),
                    taker@,
                    side,
                    id as nat,
                    now as nat,
                    fee_bps as nat,
                    market@,
                ) == target,
            decreases fills.len() - i,
        {
            let ghost here = self@;
            let ghost next = here.settle_one(
                views[i as int],
                taker@,
                side,
                id as nat,
                now as nat,
                fee_bps as nat,
                market@,
            );
            proof {
                assert(views.skip(i as int)[0] == views[i as int]);
                assert(views.skip(i as int).drop_first() =~= views.skip(i + 1));
                lemma_settle_one(
                    here,
                    views[i as int],
                    taker@,
                    side,
                    id as nat,
                    now as nat,
                    fee_bps as nat,
                    market@,
                );
                lemma_settle(
                    next,
                    views.skip(i + 1),
                    taker@,
                    side,
                    id as nat,
                    now as nat,
                    fee_bps as nat,
                    market@,
                );
                assert(here.settle(
                    views.skip(i as int),
                    taker@,
                    side,
                    id as nat,
                    now as nat,
                    fee_bps as nat,
                    market@,
                ) == next.settle(
                    views.skip(i + 1),
                    taker@,
                    side,
                    id as nat,
                    now as nat,
                    fee_bps as nat,
                    market@,
                ));
                lemma_grown(next, target, target);
            }
            assert(views[i as int] == fills@[i as int]@);
            if !self.settle_one(&fills[i], taker, side, id, now, fee_bps, market) {
                return false;
            }
            i += 1;
        }
        proof {
            self.lemma_fits();
        }
        true
    }
}

impl Clone for Clearing {
    fn clone(&self) -> (copy: Self)
        ensures
            copy@ == self@,
    {
        Clearing {
            balances: self.balances.clone(),
            fee_receiver: self.fee_receiver,
            event_queue: self.event_queue.clone(),
        }
    }
}

} // verus!
