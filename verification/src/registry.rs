use crate::clearing::ClearingView;
use crate::events::{event_views, Event, EventView};
use crate::market::{id_view, id_views, MarketState, MarketView};
use crate::order::{stamp, Side};
use crate::table::{distinct, lookup, Table};
use vstd::prelude::*;

verus! {

/// The markets of a registry as mathematical values, in the order they were created.
pub struct RegistryView {
    pub names: Seq<Seq<char>>,
    pub markets: Seq<MarketView>,
}

impl RegistryView {
    /// The registry without markets.
    pub open spec fn empty() -> RegistryView {
        RegistryView { names: Seq::empty(), markets: Seq::empty() }
    }

    /// Every market has one name, no name is used twice, and every market is well
    /// formed.
    pub open spec fn wf(self) -> bool {
        &&& self.names.len() == self.markets.len()
        &&& distinct(self.names)
        &&& forall|i: int| 0 <= i < self.markets.len() ==> (#[trigger] self.markets[i]).wf()
    }

    /// The market called `name`, if there is one.
    pub open spec fn market(self, name: Seq<char>) -> Option<MarketView> {
        match lookup(self.names, name) {
            Some(i) => Some(self.markets[i]),
            None => None,
        }
    }

    /// The registry in which the market called `name` is `market`, all others being
    /// as they are. Nothing changes if there is no such market.
    pub open spec fn with_market(self, name: Seq<char>, market: MarketView) -> RegistryView {
        match lookup(self.names, name) {
            Some(i) => RegistryView { markets: self.markets.update(i, market), ..self },
            None => self,
        }
    }

    /// Whether a deposit in `market` keeps every amount within 64 bits. An unknown
    /// market admits everything, as nothing happens there.
    pub open spec fn admits_deposit(
        self,
        market: Seq<char>,
        user: Seq<char>,
        base: nat,
        quote: nat,
    ) -> bool {
        self.market(market) matches Some(m) ==> m.admits_deposit(user, base, quote)
    }

    /// Whether a submission in `market` can be carried out.
    pub open spec fn admits_place_order(
        self,
        market: Seq<char>,
        owner: Seq<char>,
        side: Side,
        price: nat,
        quantity: nat,
        now: nat,
        fee_bps: nat,
        expire_ts: Option<nat>,
    ) -> bool {
        self.market(market) matches Some(m) ==> m.admits_place_order(
            market,
            owner,
            side,
            price,
            quantity,
            now,
            fee_bps,
            expire_ts,
        )
    }

    /// Whether a cancellation in `market` keeps every amount within 64 bits.
    pub open spec fn admits_cancel_order(
        self,
        market: Seq<char>,
        user: Seq<char>,
        id: nat,
        now: nat,
    ) -> bool {
        self.market(market) matches Some(m) ==> m.admits_cancel_order(user, id, now, market)
    }

    /// Whether a batch match in `market` can be carried out.
    pub open spec fn admits_batch_match(
        self,
        market: Seq<char>,
        side: Side,
        n: nat,
        now: nat,
        fee_bps: nat,
    ) -> bool {
        self.market(market) matches Some(m) ==> m.admits_batch_match(side, n, now, fee_bps, market)
    }

    /// Whether a batch cancellation in `market` keeps every amount within 64 bits.
    pub open spec fn admits_batch_cancel(
        self,
        market: Seq<char>,
        user: Seq<char>,
        ids: Seq<nat>,
        now: nat,
    ) -> bool {
        self.market(market) matches Some(m) ==> m.admits_batch_cancel(user, ids, now, market)
    }

    /// The registry with a market called `name`: a new one in which nothing has
    /// happened yet, unless there was one already.
    pub open spec fn create_market(self, name: Seq<char>) -> RegistryView {
        match lookup(self.names, name) {
            Some(_) => self,
            None => RegistryView {
                names: self.names.push(name),
                markets: self.markets.push(MarketView::empty()),
            },
        }
    }

    /// The registry after a deposit in `market`.
    pub open spec fn deposit(
        self,
        market: Seq<char>,
        user: Seq<char>,
        base: nat,
        quote: nat,
    ) -> RegistryView {
        match self.market(market) {
            Some(m) => self.with_market(market, m.deposit(user, base, quote)),
            None => self,
        }
    }

    /// The registry after a submission in `market`, and the identifier the order got.
    /// An unknown market turns every order down.
    pub open spec fn place_order(
        self,
        market: Seq<char>,
        owner: Seq<char>,
        side: Side,
        price: nat,
        quantity: nat,
        now: nat,
        fee_bps: nat,
        expire_ts: Option<nat>,
    ) -> (RegistryView, Option<nat>) {
        match self.market(market) {
            Some(m) => {
                let outcome = m.place_order(
                    market,
                    owner,
                    side,
                    price,
                    quantity,
                    now,
                    fee_bps,
                    expire_ts,
                );
                (self.with_market(market, outcome.0), outcome.1)
            },
            None => (self, None),
        }
    }

    /// The registry after `user` asked to cancel the order `id` in `market`, and
    /// whether an order was cancelled.
    pub open spec fn cancel_order(
        self,
        market: Seq<char>,
        user: Seq<char>,
        id: nat,
        now: nat,
    ) -> (RegistryView, bool) {
        match self.market(market) {
            Some(m) => {
                let outcome = m.cancel_order(user, id, now, market);
                (self.with_market(market, outcome.0), outcome.1)
            },
            None => (self, false),
        }
    }

    /// The registry after a batch match in `market`.
    pub open spec fn batch_match(
        self,
        market: Seq<char>,
        side: Side,
        n: nat,
        now: nat,
        fee_bps: nat,
    ) -> RegistryView {
        match self.market(market) {
            Some(m) => self.with_market(market, m.batch_match(side, n, now, fee_bps, market)),
            None => self,
        }
    }

    /// The registry after a batch cancellation in `market`.
    pub open spec fn batch_cancel(
        self,
        market: Seq<char>,
        user: Seq<char>,
        ids: Seq<nat>,
        now: nat,
    ) -> RegistryView {
        match self.market(market) {
            Some(m) => self.with_market(market, m.batch_cancel(user, ids, now, market)),
            None => self,
        }
    }

    /// The registry after `consumer` read at most `max` events of `market`, and the
    /// events it was handed: none, if the market is unknown.
    pub open spec fn consume_events(
        self,
        market: Seq<char>,
        consumer: Seq<char>,
        max: nat,
    ) -> (RegistryView, Seq<EventView>) {
        match self.market(market) {
            Some(m) => (
                self.with_market(
                    market,
                    MarketView {
                        clearing: ClearingView {
                            log: m.clearing.log.consume(consumer, max),
                            ..m.clearing
                        },
                        ..m
                    },
                ),
                m.clearing.log.batch(consumer, max),
            ),
            None => (self, Seq::empty()),
        }
    }
}

/// Markets by name. The markets share nothing.
#[derive(Debug)]
pub struct Markets {
    markets: Table<MarketState>,
}

impl View for Markets {
    type V = RegistryView;

    closed spec fn view(&self) -> RegistryView {
        RegistryView {
            names: self.markets.names(),
            markets: self.markets.values().map_values(|m: MarketState| m@),
        }
    }
}

impl Markets {
    /// No name is used twice, and every market is well formed.
    pub open spec fn wf(&self) -> bool {
        self@.wf()
    }

    /// A registry without markets.
    pub fn new() -> (registry: Self)
        ensures
            registry.wf(),
            registry@ == RegistryView::empty(),
    {
        let registry = Markets { markets: Table::new() };
        assert(registry@.markets =~= Seq::empty());
        registry
    }

    /// How many markets there are.
    pub fn len(&self) -> (n: usize)
        requires
            self.wf(),
        ensures
            n == self@.names.len(),
    {
        self.markets.len()
    }

    /// The name and the state of the market at position `i`.
    pub fn market_at(&self, i: usize) -> (r: (&String, &MarketState))
        requires
            self.wf(),
            i < self@.names.len(),
        ensures
            r.0@ == self@.names[i as int],
            r.1@ == self@.markets[i as int],
            r.1.wf(),
    {
        (self.markets.name(i), self.markets.get(i))
    }

    /// The market called `market`, if there is one.
    pub fn get(&self, market: &str) -> (state: Option<&MarketState>)
        requires
            self.wf(),
        ensures
            match state {
                Some(m) => self@.market(market@) == Some(m@) && m.wf(),
                None => self@.market(market@) is None,
            },
    {
        let name = market.to_owned();
        match self.markets.find(&name) {
            Some(i) => Some(self.markets.get(i)),
            None => None,
        }
    }

    /// Creates the market `market`, unless there is one of that name already.
    pub fn create_market(&mut self, market: &str)
        requires
            old(self).wf(),
        ensures
            final(self).wf(),
            final(self)@ == old(self)@.create_market(market@),
    {
        let name = market.to_owned();
        if self.markets.find(&name).is_none() {
            self.markets.push(name, MarketState::new());
            assert(self@.markets =~= old(self)@.markets.push(MarketView::empty()));
        }
    }

    /// Pays in for `user` in `market`. Nothing happens if the market is unknown. The
    /// deposit has to be one that the market admits, which `admits_deposit` tells.
    pub fn deposit(&mut self, market: &str, user: &str, base: u64, quote: u64)
        requires
            old(self).wf(),
            old(self)@.admits_deposit(market@, user@, base as nat, quote as nat),
        ensures
            final(self).wf(),
            final(self)@ == old(self)@.deposit(market@, user@, base as nat, quote as nat),
    {
        let name = market.to_owned();
        match self.markets.find(&name) {
            Some(i) => {
                let state = self.markets.get_mut(i);
                state.deposit(user, base, quote);
                assert(self@.markets =~= old(self)@.deposit(
                    market@,
                    user@,
                    base as nat,
                    quote as nat,
                ).markets);
            },
            None => {},
        }
    }

    /// Submits an order in `market`. Returns the identifier it got, or `None` where
    /// the market is unknown or the owner holds less than the order locks. The
    /// submission has to be one that the market admits, which `admits_place_order`
    /// tells.
    pub fn place_order(
        &mut self,
        market: &str,
        owner: &str,
        side: Side,
        price: u64,
        quantity: u64,
        now: u64,
        fee_bps: u64,
        expire_ts: Option<u64>,
    ) -> (id: Option<u64>)
        requires
            old(self).wf(),
            old(self)@.admits_place_order(
                market@,
                owner@,
                side,
                price as nat,
                quantity as nat,
                now as nat,
                fee_bps as nat,
                stamp(expire_ts),
            ),
        ensures
            final(self).wf(),
            final(self)@ == old(self)@.place_order(
                market@,
                owner@,
                side,
                price as nat,
                quantity as nat,
                now as nat,
                fee_bps as nat,
                stamp(expire_ts),
            ).0,
            id_view(id) == old(self)@.place_order(
                market@,
                owner@,
                side,
                price as nat,
                quantity as nat,
                now as nat,
                fee_bps as nat,
                stamp(expire_ts),
            ).1,
    {
        let name = market.to_owned();
        match self.markets.find(&name) {
            Some(i) => {
                let state = self.markets.get_mut(i);
                let id = state.place_order(
                    market,
                    owner,
                    side,
                    price,
                    quantity,
                    now,
                    fee_bps,
                    expire_ts,
                );
                assert(self@.markets =~= old(self)@.place_order(
                    market@,
                    owner@,
                    side,
                    price as nat,
                    quantity as nat,
                    now as nat,
                    fee_bps as nat,
                    stamp(expire_ts),
                ).0.markets);
                id
            },
            None => None,
        }
    }

    /// Cancels an order in `market`. Returns whether an order was cancelled; none is
    /// where the market is unknown. The cancellation has to be one that the market
    /// admits, which `admits_cancel_order` tells.
    pub fn cancel_order(&mut self, market: &str, user: &str, order_id: u64, now: u64) -> (cancelled:
        bool)
        requires
            old(self).wf(),
            old(self)@.admits_cancel_order(market@, user@, order_id as nat, now as nat),
        ensures
            final(self).wf(),
            final(self)@ == old(self)@.cancel_order(
                market@,
                user@,
                order_id as nat,
                now as nat,
            ).0,
            cancelled == old(self)@.cancel_order(market@, user@, order_id as nat, now as nat).1,
    {
        let name = market.to_owned();
        match self.markets.find(&name) {
            Some(i) => {
                let state = self.markets.get_mut(i);
                let cancelled = state.cancel_order(market, user, order_id, now);
                assert(self@.markets =~= old(self)@.cancel_order(
                    market@,
                    user@,
                    order_id as nat,
                    now as nat,
                ).0.markets);
                cancelled
            },
            None => false,
        }
    }

    /// Runs a batch match in `market`. Nothing happens if the market is unknown. The
    /// batch match has to be one that the market admits, which `admits_batch_match`
    /// tells.
    pub fn batch_match(&mut self, market: &str, side: Side, n: usize, now: u64, fee_bps: u64)
        requires
            old(self).wf(),
            old(self)@.admits_batch_match(market@, side, n as nat, now as nat, fee_bps as nat),
        ensures
            final(self).wf(),
            final(self)@ == old(self)@.batch_match(
                market@,
                side,
                n as nat,
                now as nat,
                fee_bps as nat,
            ),
    {
        let name = market.to_owned();
        match self.markets.find(&name) {
            Some(i) => {
                let state = self.markets.get_mut(i);
                state.batch_match(market, side, n, now, fee_bps);
                assert(self@.markets =~= old(self)@.batch_match(
                    market@,
                    side,
                    n as nat,
                    now as nat,
                    fee_bps as nat,
                ).markets);
            },
            None => {},
        }
    }

    /// Cancels orders of `user` in `market`. Nothing happens if the market is unknown.
    /// The batch cancellation has to be one that the market admits, which
    /// `admits_batch_cancel` tells.
    pub fn batch_cancel(&mut self, market: &str, user: &str, ids: &[u64], now: u64)
        requires
            old(self).wf(),
            old(self)@.admits_batch_cancel(market@, user@, id_views(ids@), now as nat),
        ensures
            final(self).wf(),
            final(self)@ == old(self)@.batch_cancel(
                market@,
                user@,
                id_views(ids@),
                now as nat,
            ),
    {
        let name = market.to_owned();
        match self.markets.find(&name) {
            Some(i) => {
                let state = self.markets.get_mut(i);
                state.batch_cancel(market, user, ids, now);
                assert(self@.markets =~= old(self)@.batch_cancel(
                    market@,
                    user@,
                    id_views(ids@),
                    now as nat,
                ).markets);
            },
            None => {},
        }
    }

    /// Hands `consumer` the oldest events of `market` that it has not been handed
    /// yet, at most `max_events` of them. An unknown market has no events.
    pub fn consume_events(&mut self, market: &str, consumer: &str, max_events: usize) -> (batch:
        Vec<Event>)
        requires
            old(self).wf(),
        ensures
            final(self).wf(),
            final(self)@ == old(self)@.consume_events(market@, consumer@, max_events as nat).0,
            event_views(batch@) == old(self)@.consume_events(
                market@,
                consumer@,
                max_events as nat,
            ).1,
    {
        let name = market.to_owned();
        match self.markets.find(&name) {
            Some(i) => {
                assert(self@.markets[i as int].wf());
                let state = self.markets.get_mut(i);
                let batch = state.consume_events(consumer, max_events);
                assert(self@.markets =~= old(self)@.consume_events(
                    market@,
                    consumer@,
                    max_events as nat,
                ).0.markets);
                batch
            },
            None => {
                let batch: Vec<Event> = Vec::new();
                assert(event_views(batch@) =~= Seq::empty());
                batch
            },
        }
    }
}

impl Markets {
    /// Whether a deposit in `market` keeps every amount within 64 bits.
    pub fn admits_deposit(&self, market: &str, user: &str, base: u64, quote: u64) -> (ok: bool)
        requires
            self.wf(),
        ensures
            ok == self@.admits_deposit(market@, user@, base as nat, quote as nat),
    {
        match self.get(market) {
            Some(state) => state.admits_deposit(user, base, quote),
            None => true,
        }
    }

    /// Whether a submission in `market` can be carried out.
    pub fn admits_place_order(
        &self,
        market: &str,
        owner: &str,
        side: Side,
        price: u64,
        quantity: u64,
        now: u64,
        fee_bps: u64,
        expire_ts: Option<u64>,
    ) -> (ok: bool)
        requires
            self.wf(),
        ensures
            ok == self@.admits_place_order(
                market@,
                owner@,
                side,
                price as nat,
                quantity as nat,
                now as nat,
                fee_bps as nat,
                stamp(expire_ts),
            ),
    {
        match self.get(market) {
            Some(state) => state.admits_place_order(
                market,
                owner,
                side,
                price,
                quantity,
                now,
                fee_bps,
                expire_ts,
            ),
            None => true,
        }
    }

    /// Whether a cancellation in `market` keeps every amount within 64 bits.
    pub fn admits_cancel_order(&self, market: &str, user: &str, order_id: u64, now: u64) -> (ok:
        bool)
        requires
            self.wf(),
        ensures
            ok == self@.admits_cancel_order(market@, user@, order_id as nat, now as nat),
    {
        match self.get(market) {
            Some(state) => state.admits_cancel_order(market, user, order_id, now),
            None => true,
        }
    }

    /// Whether a batch match in `market` can be carried out.
    pub fn admits_batch_match(&self, market: &str, side: Side, n: usize, now: u64, fee_bps: u64) -> (ok:
        bool)
        requires
            self.wf(),
        ensures
            ok == self@.admits_batch_match(
                market@,
                side,
                n as nat,
                now as nat,
                fee_bps as nat,
            ),
    {
        match self.get(market) {
            Some(state) => state.admits_batch_match(market, side, n, now, fee_bps),
            None => true,
        }
    }

    /// Whether a batch cancellation in `market` keeps every amount within 64 bits.
    pub fn admits_batch_cancel(&self, market: &str, user: &str, ids: &[u64], now: u64) -> (ok:
        bool)
        requires
            self.wf(),
        ensures
            ok == self@.admits_batch_cancel(market@, user@, id_views(ids@), now as nat),
    {
        match self.get(market) {
            Some(state) => state.admits_batch_cancel(market, user, ids, now),
            None => true,
        }
    }
}

} // verus!
