use crate::book::{
    crosses, fill_of, lemma_locate, match_against, owned_by, rest_index, sorted, stays_ahead,
    BookView,
};
use crate::clearing::{
    leaving_event, lemma_credit, lemma_grown, lemma_release, lemma_release_selected,
    lemma_settle, locked_amount, locked_asset, ClearingView,
};
use crate::events::{lemma_with_position, EventType, EventView, LogView};
use crate::invariants::{
    lemma_evict_wf, lemma_filter_side, lemma_find_in_range, lemma_place_order_wf,
};
use crate::ledger::{lemma_credit_grows, lemma_debit_holds, Asset};
use crate::market::{expired_at, kept, MarketView};
use crate::order::{OrderView, Side};
use crate::registry::RegistryView;
use crate::table::{lemma_lookup_found, lookup};
use vstd::prelude::*;

verus! {

/// Price-time priority in matching: an incoming order trades with the resting orders
/// from the best one on, without passing one over. The `i`-th trade is made with the
/// `i`-th resting order and at that order's price, which the incoming order's limit
/// allows; every resting order before the last one traded with is used up; the
/// resting orders behind stay as they are; and the incoming order stops only when it
/// is filled or when the best resting order left is beyond its limit.
pub proof fn law_best_first(makers: Seq<OrderView>, taker: Side, limit: nat, want: nat)
    ensures
        ({
            let m = match_against(makers, taker, limit, want);
            let n = m.fills.len() as int;
            let gone = makers.len() - m.makers.len();
            &&& n <= makers.len()
            &&& 0 <= gone <= n <= gone + 1
            &&& forall|i: int|
                0 <= i < n ==> {
                    &&& (#[trigger] m.fills[i]).maker == makers[i].owner
                    &&& m.fills[i].price == makers[i].price
                    &&& m.fills[i].quantity <= makers[i].quantity
                    &&& crosses(taker, limit, makers[i].price)
                }
            &&& forall|i: int| 0 <= i < gone ==> (#[trigger] m.fills[i]).quantity == makers[i].quantity
            &&& n == gone + 1 ==> m.remaining == 0 && m.makers[0] == makers[gone].with_quantity(
                (makers[gone].quantity - m.fills[gone].quantity) as nat,
            ) && m.fills[gone].quantity < makers[gone].quantity
            &&& forall|j: int| n <= j < makers.len() ==> #[trigger] makers[j] == m.makers[j - gone]
            &&& m.remaining > 0 ==> m.makers.len() == 0 || !crosses(taker, limit, m.makers[0].price)
            &&& m.remaining <= want
        }),
    decreases makers.len(),
{
    let m = match_against(makers, taker, limit, want);
    if makers.len() == 0 || want == 0 || !crosses(taker, limit, makers[0].price) {
    } else {
        let maker = makers[0];
        if maker.quantity <= want {
            let tail = makers.drop_first();
            let w = (want - maker.quantity) as nat;
            let rest = match_against(tail, taker, limit, w);
            law_best_first(tail, taker, limit, w);
            let first = seq![fill_of(maker, maker.quantity)];
            assert(m.fills == first + rest.fills);
            let n = m.fills.len() as int;
            let gone = makers.len() - m.makers.len();
            let rest_gone = tail.len() - rest.makers.len();
            assert(gone == rest_gone + 1);
            assert forall|i: int| 0 <= i < n implies {
                &&& (#[trigger] m.fills[i]).maker == makers[i].owner
                &&& m.fills[i].price == makers[i].price
                &&& m.fills[i].quantity <= makers[i].quantity
                &&& crosses(taker, limit, makers[i].price)
            } by {
                if i > 0 {
                    assert(m.fills[i] == rest.fills[i - 1]);
                    assert(tail[i - 1] == makers[i]);
                }
            }
            assert forall|i: int| 0 <= i < gone implies (#[trigger] m.fills[i]).quantity
                == makers[i].quantity by {
                if i > 0 {
                    assert(m.fills[i] == rest.fills[i - 1]);
                    assert(tail[i - 1] == makers[i]);
                }
            }
            if n == gone + 1 {
                assert(m.fills[gone] == rest.fills[rest_gone]);
                assert(tail[rest_gone] == makers[gone]);
            }
            assert forall|j: int| n <= j < makers.len() implies #[trigger] makers[j]
                == m.makers[j - gone] by {
                assert(tail[j - 1] == makers[j]);
            }
        }
    }
}

/// Price-time priority at rest: an order that comes to rest takes its place behind
/// every resting order with a better or the same price and ahead of every one with a
/// worse price, the resting orders keep their order, and the side stays in priority
/// order.
pub proof fn law_rests_behind_equals(book: BookView, order: OrderView)
    requires
        book.wf(),
        order.quantity > 0,
    ensures
        ({
            let before = book.side(order.side);
            let after = book.rest(order).side(order.side);
            let k = rest_index(before, order.side, order.price) as int;
            &&& 0 <= k <= before.len()
            &&& after == before.insert(k, order)
            &&& after.remove(k) == before
            &&& forall|j: int|
                0 <= j < k ==> stays_ahead(order.side, (#[trigger] before[j]).price, order.price)
            &&& forall|j: int|
                k <= j < before.len() ==> !stays_ahead(
                    order.side,
                    (#[trigger] before[j]).price,
                    order.price,
                )
            &&& sorted(after, order.side)
            &&& book.rest(order).side(order.side.spec_opposite()) == book.side(
                order.side.spec_opposite(),
            )
        }),
{
    let before = book.side(order.side);
    let k = rest_index(before, order.side, order.price) as int;
    lemma_rest_index_splits(before, order.side, order.price);
    let after = before.insert(k, order);
    assert(after.remove(k) =~= before);
    assert forall|a: int, b: int| 0 <= a < b < after.len() implies stays_ahead(
        order.side,
        after[a].price,
        after[b].price,
    ) by {
        if b < k {
        } else if a > k {
            assert(after[a] == before[a - 1]);
            assert(after[b] == before[b - 1]);
        } else if a == k {
            assert(after[b] == before[b - 1]);
        } else if b == k {
        } else {
            assert(after[b] == before[b - 1]);
        }
    }
}

/// The resting orders before `rest_index` stay ahead of the newcomer; in a side in
/// priority order, those from there on do not.
pub proof fn lemma_rest_index_splits(orders: Seq<OrderView>, side: Side, price: nat)
    requires
        sorted(orders, side),
    ensures
        rest_index(orders, side, price) <= orders.len(),
        forall|j: int|
            0 <= j < rest_index(orders, side, price) ==> stays_ahead(
                side,
                (#[trigger] orders[j]).price,
                price,
            ),
        forall|j: int|
            rest_index(orders, side, price) <= j < orders.len() ==> !stays_ahead(
                side,
                (#[trigger] orders[j]).price,
                price,
            ),
    decreases orders.len(),
{
    if orders.len() == 0 || !stays_ahead(side, orders[0].price, price) {
        assert forall|j: int| 0 <= j < orders.len() implies !stays_ahead(
            side,
            (#[trigger] orders[j]).price,
            price,
        ) by {
            if j > 0 {
                assert(stays_ahead(side, orders[0].price, orders[j].price));
            }
        }
    } else {
        let tail = orders.drop_first();
        assert forall|a: int, b: int| 0 <= a < b < tail.len() implies stays_ahead(
            side,
            tail[a].price,
            tail[b].price,
        ) by {
            assert(tail[a] == orders[a + 1]);
            assert(tail[b] == orders[b + 1]);
        }
        lemma_rest_index_splits(tail, side, price);
        let k = rest_index(tail, side, price);
        assert forall|j: int| 0 <= j < k + 1 implies stays_ahead(
            side,
            (#[trigger] orders[j]).price,
            price,
        ) by {
            if j > 0 {
                assert(tail[j - 1] == orders[j]);
            }
        }
        assert forall|j: int| k + 1 <= j < orders.len() implies !stays_ahead(
            side,
            (#[trigger] orders[j]).price,
            price,
        ) by {
            assert(tail[j - 1] == orders[j]);
        }
    }
}

/// An order without quantity leaves a book as it is.
pub proof fn law_zero_quantity_book(book: BookView, order: OrderView)
    requires
        order.quantity == 0,
    ensures
        book.place(order) == book,
{
    let m = book.matching(order.side, order.price, order.quantity);
    assert(m.makers == book.side(order.side.spec_opposite()));
}

/// A submission without quantity creates no order, locks nothing and records no
/// event: once the expired orders have left, the book, the accounts, the fees and the
/// log are what they were. It uses up one identifier, which it returns.
pub proof fn law_zero_quantity(
    s: MarketView,
    market: Seq<char>,
    owner: Seq<char>,
    side: Side,
    price: nat,
    now: nat,
    fee_bps: nat,
    expire_ts: Option<nat>,
)
    ensures
        ({
            let swept = s.sweep(now, market);
            let outcome = s.place_order(market, owner, side, price, 0, now, fee_bps, expire_ts);
            &&& outcome.0.book == swept.book
            &&& outcome.0.clearing == swept.clearing
            &&& outcome.0.next_order_id == swept.next_order_id + 1
            &&& outcome.1 == Some(swept.next_order_id)
        }),
{
}

/// Consumers read independently: a read by `a` changes neither the log nor where
/// another consumer `b` stands, so `b` is handed the same events whether or not `a`
/// has read, and the two reads give the same log in either order.
pub proof fn law_cursor_independence(
    log: LogView,
    a: Seq<char>,
    b: Seq<char>,
    max_a: nat,
    max_b: nat,
)
    requires
        log.wf(),
        a != b,
    ensures
        log.consume(a, max_a).wf(),
        log.consume(a, max_a).events == log.events,
        log.consume(a, max_a).position(b) == log.position(b),
        log.consume(a, max_a).batch(b, max_b) == log.batch(b, max_b),
        log.consume(a, max_a).consume(b, max_b).position(a) == log.consume(b, max_b).consume(
            a,
            max_a,
        ).position(a),
        log.consume(a, max_a).consume(b, max_b).position(b) == log.consume(b, max_b).consume(
            a,
            max_a,
        ).position(b),
{
    lemma_position_in_range(log, a);
    lemma_position_in_range(log, b);
    let pa = log.position(a) + log.batch_len(a, max_a);
    let pb = log.position(b) + log.batch_len(b, max_b);
    lemma_with_position(log, a, pa);
    lemma_with_position(log, b, pb);
    let la = log.consume(a, max_a);
    let lb = log.consume(b, max_b);
    lemma_with_position(la, b, pb);
    lemma_with_position(lb, a, pa);
}

/// Every event reaches a consumer exactly once and in order: a read hands over the
/// events from the consumer's position on, as many as asked for or as there are, and
/// moves the position behind them, so that the next read starts where this one
/// ended. Two reads in a row hand over what one read of both sizes would.
pub proof fn law_exactly_once(log: LogView, consumer: Seq<char>, first: nat, second: nat)
    requires
        log.wf(),
    ensures
        ({
            let from = log.position(consumer) as int;
            let after = log.consume(consumer, first);
            &&& from <= log.events.len()
            &&& log.batch(consumer, first) == log.events.subrange(
                from,
                from + log.batch_len(consumer, first),
            )
            &&& log.batch_len(consumer, first) <= first
            &&& log.batch_len(consumer, first) < first ==> from + log.batch_len(consumer, first)
                == log.events.len()
            &&& after.wf()
            &&& after.events == log.events
            &&& after.position(consumer) == from + log.batch_len(consumer, first)
            &&& log.batch(consumer, first) + after.batch(consumer, second) == log.batch(
                consumer,
                first + second,
            )
            &&& after.consume(consumer, second).position(consumer) == log.consume(
                consumer,
                first + second,
            ).position(consumer)
        }),
{
    lemma_position_in_range(log, consumer);
    let from = log.position(consumer);
    let k1 = log.batch_len(consumer, first);
    lemma_with_position(log, consumer, from + k1);
    let after = log.consume(consumer, first);
    let k2 = after.batch_len(consumer, second);
    lemma_with_position(after, consumer, from + k1 + k2);
    lemma_with_position(log, consumer, from + log.batch_len(consumer, first + second));
    assert(log.batch(consumer, first) + after.batch(consumer, second) =~= log.batch(
        consumer,
        first + second,
    ));
}

/// In a well-formed log no consumer stands behind the end.
pub proof fn lemma_position_in_range(log: LogView, consumer: Seq<char>)
    requires
        log.wf(),
    ensures
        log.position(consumer) <= log.events.len(),
{
}

/// Cancelling is idempotent: of two requests by the same user to cancel the same
/// order, one after the other, the second finds nothing to cancel and changes
/// nothing, whatever the first one did; and a first request that finds nothing
/// changes nothing either.
pub proof fn law_cancel_once(
    s: MarketView,
    user: Seq<char>,
    id: nat,
    now: nat,
    later: nat,
    market: Seq<char>,
)
    requires
        s.wf(),
    ensures
        ({
            let first = s.cancel_order(user, id, now, market);
            let second = first.0.cancel_order(user, id, later, market);
            &&& !second.1
            &&& second.0 == first.0
            &&& !first.1 ==> first.0 == s
            &&& first.1 <==> s.book.find(user, id) is Some
        }),
{
    let first = s.cancel_order(user, id, now, market);
    lemma_find_in_range(s.book, user, id);
    match s.book.find(user, id) {
        Some((side, i)) => {
            let left = s.book.without(side, i);
            let gone = s.book.side(side)[i];
            assert(first.0.book == left);
            assert forall|j: int| 0 <= j < left.bids.len() implies !owned_by(
                #[trigger] left.bids[j],
                user,
                id,
            ) by {
                match side {
                    Side::Bid => {
                        let j0 = if j < i { j } else { j + 1 };
                        assert(left.bids[j] == s.book.bids[j0]);
                        assert(s.book.bids[j0].id != gone.id);
                    },
                    Side::Ask => {
                        assert(left.bids[j] == s.book.bids[j]);
                        assert(s.book.bids[j].id != gone.id);
                    },
                }
            }
            assert forall|j: int| 0 <= j < left.asks.len() implies !owned_by(
                #[trigger] left.asks[j],
                user,
                id,
            ) by {
                match side {
                    Side::Ask => {
                        let j0 = if j < i { j } else { j + 1 };
                        assert(left.asks[j] == s.book.asks[j0]);
                        assert(s.book.asks[j0].id != gone.id);
                    },
                    Side::Bid => {
                        assert(left.asks[j] == s.book.asks[j]);
                        assert(gone.id != s.book.asks[j].id);
                    },
                }
            }
            lemma_locate(left.bids, user, id);
            lemma_locate(left.asks, user, id);
        },
        None => {},
    }
}

/// A filter gives back unchanged what it keeps all of.
pub proof fn lemma_filter_keeps_all(orders: Seq<OrderView>, keep: spec_fn(OrderView) -> bool)
    requires
        forall|i: int| 0 <= i < orders.len() ==> keep(#[trigger] orders[i]),
    ensures
        orders.filter(keep) == orders,
    decreases orders.len(),
{
    reveal(Seq::filter);
    if orders.len() > 0 {
        let front = orders.drop_last();
        assert forall|i: int| 0 <= i < front.len() implies keep(#[trigger] front[i]) by {
            assert(front[i] == orders[i]);
        }
        lemma_filter_keeps_all(front, keep);
        assert(front.push(orders.last()) =~= orders);
    }
}

/// Where none of the orders is picked, none leaves and nothing is recorded.
pub proof fn lemma_release_none(
    c: ClearingView,
    orders: Seq<OrderView>,
    selected: spec_fn(OrderView) -> bool,
    kind: EventType,
    now: nat,
    market: Seq<char>,
)
    requires
        forall|i: int| 0 <= i < orders.len() ==> !selected(#[trigger] orders[i]),
    ensures
        c.release_selected(orders, selected, kind, now, market) == c,
    decreases orders.len(),
{
    if orders.len() > 0 {
        let tail = orders.drop_first();
        assert(!selected(orders[0]));
        assert forall|i: int| 0 <= i < tail.len() implies !selected(#[trigger] tail[i]) by {
            assert(tail[i] == orders[i + 1]);
        }
        lemma_release_none(c, tail, selected, kind, now, market);
    }
}

/// After the sweep no order that is no longer valid rests in the book, so that what
/// follows the sweep never trades with one.
pub proof fn law_sweep_leaves_no_expired(s: MarketView, now: nat, market: Seq<char>)
    ensures
        forall|i: int|
            0 <= i < s.sweep(now, market).book.bids.len() ==> !(#[trigger] s.sweep(
                now,
                market,
            ).book.bids[i]).expired(now),
        forall|i: int|
            0 <= i < s.sweep(now, market).book.asks.len() ==> !(#[trigger] s.sweep(
                now,
                market,
            ).book.asks[i]).expired(now),
{
    let keep = kept(expired_at(now));
    lemma_filter_side(s.book.bids, keep, Side::Bid, 0, s.book.asks);
    lemma_filter_side(s.book.asks, keep, Side::Ask, 0, s.book.bids);
}

/// The sweep is idempotent: a second sweep at the same time changes nothing.
pub proof fn law_sweep_idempotent(s: MarketView, now: nat, market: Seq<char>)
    ensures
        s.sweep(now, market).sweep(now, market) == s.sweep(now, market),
{
    let swept = s.sweep(now, market);
    let selected = expired_at(now);
    let keep = kept(selected);
    law_sweep_leaves_no_expired(s, now, market);
    assert forall|i: int| 0 <= i < swept.book.bids.len() implies keep(
        #[trigger] swept.book.bids[i],
    ) by {
        assert(!swept.book.bids[i].expired(now));
    }
    assert forall|i: int| 0 <= i < swept.book.asks.len() implies keep(
        #[trigger] swept.book.asks[i],
    ) by {
        assert(!swept.book.asks[i].expired(now));
    }
    lemma_filter_keeps_all(swept.book.bids, keep);
    lemma_filter_keeps_all(swept.book.asks, keep);
    assert forall|i: int| 0 <= i < swept.book.bids.len() implies !selected(
        #[trigger] swept.book.bids[i],
    ) by {
        assert(!swept.book.bids[i].expired(now));
    }
    assert forall|i: int| 0 <= i < swept.book.asks.len() implies !selected(
        #[trigger] swept.book.asks[i],
    ) by {
        assert(!swept.book.asks[i].expired(now));
    }
    lemma_release_none(swept.clearing, swept.book.bids, selected, EventType::Expire, now, market);
    lemma_release_none(swept.clearing, swept.book.asks, selected, EventType::Expire, now, market);
}

/// Orders that leave the book take nothing from the records: the events recorded
/// stay where they are, the consumers stay where they stand, the fees collected stay,
/// and the next identifier stays.
pub proof fn law_evict_keeps_records(
    s: MarketView,
    selected: spec_fn(OrderView) -> bool,
    kind: EventType,
    now: nat,
    market: Seq<char>,
)
    requires
        s.wf(),
    ensures
        s.clearing.kept_in(s.evict(selected, kind, now, market).clearing),
        s.evict(selected, kind, now, market).clearing.collected_fee == s.clearing.collected_fee,
        s.evict(selected, kind, now, market).next_order_id == s.next_order_id,
{
    let bids_out = s.clearing.release_selected(s.book.bids, selected, kind, now, market);
    lemma_release_selected(s.clearing, s.book.bids, selected, kind, now, market);
    lemma_release_selected(bids_out, s.book.asks, selected, kind, now, market);
    lemma_grown(
        s.clearing,
        bids_out,
        bids_out.release_selected(s.book.asks, selected, kind, now, market),
    );
}

/// A cancellation takes nothing from the records and collects no fee.
pub proof fn law_cancel_keeps_records(
    s: MarketView,
    user: Seq<char>,
    id: nat,
    now: nat,
    market: Seq<char>,
)
    requires
        s.wf(),
    ensures
        s.clearing.kept_in(s.cancel_order(user, id, now, market).0.clearing),
        s.cancel_order(user, id, now, market).0.clearing.collected_fee == s.clearing.collected_fee,
        s.cancel_order(user, id, now, market).0.next_order_id == s.next_order_id,
{
    lemma_grown(s.clearing, s.clearing, s.clearing);
    match s.book.find(user, id) {
        Some((side, i)) => {
            lemma_release(s.clearing, s.book.side(side)[i], EventType::Cancel, now, market);
        },
        None => {},
    }
}

/// A submission takes nothing from the records: the events recorded stay where they
/// are, the consumers stay where they stand, the fees collected do not shrink, and
/// the next identifier does not fall. The identifier that the order gets is the one
/// that was next, which no resting order carries.
pub proof fn law_place_order_keeps_records(
    s: MarketView,
    market: Seq<char>,
    owner: Seq<char>,
    side: Side,
    price: nat,
    quantity: nat,
    now: nat,
    fee_bps: nat,
    expire_ts: Option<nat>,
)
    requires
        s.wf(),
    ensures
        ({
            let outcome = s.place_order(
                market,
                owner,
                side,
                price,
                quantity,
                now,
                fee_bps,
                expire_ts,
            );
            &&& s.clearing.kept_in(outcome.0.clearing)
            &&& s.next_order_id <= outcome.0.next_order_id
            &&& outcome.1 matches Some(id) ==> id == s.next_order_id && outcome.0.next_order_id
                == id + 1
            &&& outcome.1 is None ==> outcome.0 == s.sweep(now, market)
        }),
{
    let swept = s.sweep(now, market);
    law_evict_keeps_records(s, expired_at(now), EventType::Expire, now, market);
    lemma_evict_wf(s, expired_at(now), EventType::Expire, now, market);
    let id = swept.next_order_id;
    let asset = locked_asset(side);
    let needed = locked_amount(side, price, quantity);
    if quantity == 0 {
    } else if swept.clearing.ledger.balance(owner, asset) < needed {
    } else {
        let m = swept.book.matching(side, price, quantity);
        lemma_debit_holds(swept.clearing.ledger, owner, asset, needed);
        let locked = ClearingView {
            ledger: swept.clearing.ledger.debit(owner, asset, needed),
            ..swept.clearing
        };
        lemma_settle(locked, m.fills, owner, side, id, now, fee_bps, market);
        let traded = locked.settle(m.fills, owner, side, id, now, fee_bps, market);
        lemma_grown(swept.clearing, locked, traded);
        lemma_grown(s.clearing, swept.clearing, traded);
        if m.remaining > 0 {
            let refund = locked_amount(side, price, m.remaining);
            lemma_credit(traded, owner, asset, refund);
            lemma_grown(s.clearing, traded, traded.credit(owner, asset, refund));
        }
    }
}

/// Submitting orders anew takes nothing from the records.
pub proof fn lemma_replay_keeps_records(
    s: MarketView,
    orders: Seq<OrderView>,
    side: Side,
    now: nat,
    fee_bps: nat,
    market: Seq<char>,
)
    requires
        s.wf(),
    ensures
        s.clearing.kept_in(s.replay(orders, side, now, fee_bps, market).clearing),
        s.next_order_id <= s.replay(orders, side, now, fee_bps, market).next_order_id,
    decreases orders.len(),
{
    lemma_grown(s.clearing, s.clearing, s.clearing);
    if orders.len() > 0 {
        let o = orders[0];
        let next = s.place_order(
            market,
            o.owner,
            side,
            o.price,
            o.quantity,
            now,
            fee_bps,
            o.expire_ts,
        ).0;
        law_place_order_keeps_records(
            s,
            market,
            o.owner,
            side,
            o.price,
            o.quantity,
            now,
            fee_bps,
            o.expire_ts,
        );
        lemma_place_order_wf(s, market, o.owner, side, o.price, o.quantity, now, fee_bps, o.expire_ts);
        lemma_replay_keeps_records(next, orders.drop_first(), side, now, fee_bps, market);
        lemma_grown(
            s.clearing,
            next.clearing,
            next.replay(orders.drop_first(), side, now, fee_bps, market).clearing,
        );
    }
}

/// A batch match takes nothing from the records.
pub proof fn law_batch_match_keeps_records(
    s: MarketView,
    side: Side,
    n: nat,
    now: nat,
    fee_bps: nat,
    market: Seq<char>,
)
    requires
        s.wf(),
    ensures
        s.clearing.kept_in(s.batch_match(side, n, now, fee_bps, market).clearing),
        s.next_order_id <= s.batch_match(side, n, now, fee_bps, market).next_order_id,
{
    let swept = s.sweep(now, market);
    law_evict_keeps_records(s, expired_at(now), EventType::Expire, now, market);
    lemma_evict_wf(s, expired_at(now), EventType::Expire, now, market);
    lemma_replay_keeps_records(swept, swept.batch(side, n), side, now, fee_bps, market);
    lemma_grown(
        s.clearing,
        swept.clearing,
        swept.replay(swept.batch(side, n), side, now, fee_bps, market).clearing,
    );
}

/// Markets share nothing: whatever happens in one market leaves every other market
/// as it is. Stated of a registry in which the market called `name` was replaced.
pub proof fn law_markets_are_independent(
    r: RegistryView,
    name: Seq<char>,
    changed: MarketView,
    other: Seq<char>,
)
    requires
        r.wf(),
        other != name,
    ensures
        r.with_market(name, changed).market(other) == r.market(other),
        r.with_market(name, changed).names == r.names,
        r.market(name) is Some ==> r.with_market(name, changed).market(name) == Some(changed),
        r.market(name) is None ==> r.with_market(name, changed) == r,
{
    match lookup(r.names, name) {
        Some(i) => {
            match lookup(r.names, other) {
                Some(j) => {
                    assert(i != j);
                },
                None => {},
            }
        },
        None => {},
    }
}

/// Creating a market is idempotent: a second creation under the same name changes
/// nothing, and the market that is there keeps its state.
pub proof fn law_create_market_idempotent(r: RegistryView, name: Seq<char>)
    requires
        r.wf(),
    ensures
        r.create_market(name).create_market(name) == r.create_market(name),
        r.create_market(name).market(name) is Some,
        r.market(name) is Some ==> r.create_market(name) == r,
        r.market(name) is None ==> r.create_market(name).market(name) == Some(MarketView::empty()),
        r.create_market(name).wf(),
{
    let created = r.create_market(name);
    match lookup(r.names, name) {
        Some(_) => {},
        None => {
            let n = r.names.len() as int;
            assert(created.names[n] == name);
            assert forall|a: int, b: int| 0 <= a < b < created.names.len() implies created.names[a]
                != created.names[b] by {
                if b == n {
                    if r.names[a] == name {
                        assert(lookup(r.names, name) is Some);
                    }
                }
            }
            lemma_lookup_found(created.names, name, n);
            assert forall|i: int| 0 <= i < created.markets.len() implies (
            #[trigger] created.markets[i]).wf() by {
                if i < n {
                    assert(created.markets[i] == r.markets[i]);
                }
            }
        },
    }
}

/// What those of `orders` that `selected` picks give back to `user` in `asset` when
/// they leave the book.
pub open spec fn given_back(
    orders: Seq<OrderView>,
    selected: spec_fn(OrderView) -> bool,
    user: Seq<char>,
    asset: Asset,
) -> nat
    decreases orders.len(),
{
    if orders.len() == 0 {
        0
    } else {
        let first = orders[0];
        let share: nat = if selected(first) && first.owner == user && locked_asset(first.side)
            == asset {
            locked_amount(first.side, first.price, first.quantity)
        } else {
            0
        };
        share + given_back(orders.drop_first(), selected, user, asset)
    }
}

/// Every order that leaves the book unfilled gives back to its owner all that it
/// locks, and nothing to anyone else: afterwards each user holds what it held and
/// what its orders among those that left stood for.
pub proof fn law_release_gives_back(
    c: ClearingView,
    orders: Seq<OrderView>,
    selected: spec_fn(OrderView) -> bool,
    kind: EventType,
    now: nat,
    market: Seq<char>,
    user: Seq<char>,
    asset: Asset,
)
    requires
        c.wf(),
    ensures
        c.release_selected(orders, selected, kind, now, market).ledger.balance(user, asset)
            == c.ledger.balance(user, asset) + given_back(orders, selected, user, asset),
    decreases orders.len(),
{
    if orders.len() > 0 {
        let first = orders[0];
        let next = if selected(first) {
            c.release(first, kind, now, market)
        } else {
            c
        };
        lemma_release(c, first, kind, now, market);
        lemma_credit_grows(
            c.ledger,
            first.owner,
            locked_asset(first.side),
            locked_amount(first.side, first.price, first.quantity),
        );
        law_release_gives_back(next, orders.drop_first(), selected, kind, now, market, user, asset);
    }
}

/// The two sides of the book are swept independently: whether the bids or the asks
/// leave first, every user holds the same afterwards, namely what it held and what
/// its orders among those that left stood for, and the same fees are collected. What
/// the book keeps does not depend on the order either, as each side is filtered by
/// itself.
pub proof fn law_evict_sides_are_independent(
    s: MarketView,
    selected: spec_fn(OrderView) -> bool,
    kind: EventType,
    now: nat,
    market: Seq<char>,
    user: Seq<char>,
    asset: Asset,
)
    requires
        s.wf(),
    ensures
        ({
            let bids_first = s.clearing.release_selected(
                s.book.bids,
                selected,
                kind,
                now,
                market,
            ).release_selected(s.book.asks, selected, kind, now, market);
            let asks_first = s.clearing.release_selected(
                s.book.asks,
                selected,
                kind,
                now,
                market,
            ).release_selected(s.book.bids, selected, kind, now, market);
            &&& s.evict(selected, kind, now, market).clearing == bids_first
            &&& bids_first.ledger.balance(user, asset) == asks_first.ledger.balance(user, asset)
            &&& bids_first.ledger.balance(user, asset) == s.clearing.ledger.balance(user, asset)
                + given_back(s.book.bids, selected, user, asset) + given_back(
                s.book.asks,
                selected,
                user,
                asset,
            )
            &&& bids_first.collected_fee == asks_first.collected_fee
        }),
{
    let bids_out = s.clearing.release_selected(s.book.bids, selected, kind, now, market);
    let asks_out = s.clearing.release_selected(s.book.asks, selected, kind, now, market);
    lemma_release_selected(s.clearing, s.book.bids, selected, kind, now, market);
    lemma_release_selected(s.clearing, s.book.asks, selected, kind, now, market);
    lemma_release_selected(bids_out, s.book.asks, selected, kind, now, market);
    lemma_release_selected(asks_out, s.book.bids, selected, kind, now, market);
    law_release_gives_back(s.clearing, s.book.bids, selected, kind, now, market, user, asset);
    law_release_gives_back(s.clearing, s.book.asks, selected, kind, now, market, user, asset);
    law_release_gives_back(bids_out, s.book.asks, selected, kind, now, market, user, asset);
    law_release_gives_back(asks_out, s.book.bids, selected, kind, now, market, user, asset);
}

/// The book of a market changes as a plain book does: a submission that is carried
/// out leaves the book that the plain book would have after the sweep, had the order
/// been placed there under the identifier it got.
pub proof fn law_market_book_is_plain_book(
    s: MarketView,
    market: Seq<char>,
    owner: Seq<char>,
    side: Side,
    price: nat,
    quantity: nat,
    now: nat,
    fee_bps: nat,
    expire_ts: Option<nat>,
)
    ensures
        ({
            let outcome = s.place_order(
                market,
                owner,
                side,
                price,
                quantity,
                now,
                fee_bps,
                expire_ts,
            );
            let swept = s.sweep(now, market);
            &&& outcome.1 matches Some(id) ==> outcome.0.book == swept.book.place(
                OrderView { id, owner, side, price, quantity, expire_ts },
            )
            &&& outcome.1 is None ==> outcome.0.book == swept.book
        }),
{
    let swept = s.sweep(now, market);
    let order = OrderView { id: swept.next_order_id, owner, side, price, quantity, expire_ts };
    if quantity == 0 {
        law_zero_quantity_book(swept.book, order);
    }
}

/// Turns an order into the event that records that it left the book unfilled.
pub open spec fn as_leaving(kind: EventType, now: nat, market: Seq<char>) -> spec_fn(
    OrderView,
) -> EventView {
    |order: OrderView| leaving_event(kind, order, now, market)
}

/// The events that record that those of `orders` that `selected` picks left the book
/// unfilled: one for each, in the order of the orders.
pub open spec fn leaving_events(
    orders: Seq<OrderView>,
    selected: spec_fn(OrderView) -> bool,
    kind: EventType,
    now: nat,
    market: Seq<char>,
) -> Seq<EventView> {
    orders.filter(selected).map_values(as_leaving(kind, now, market))
}

/// Every order that leaves the book unfilled is recorded exactly once: the log grows
/// by one event for each of the orders picked, in their order, and by nothing else.
pub proof fn law_release_records_each_once(
    c: ClearingView,
    orders: Seq<OrderView>,
    selected: spec_fn(OrderView) -> bool,
    kind: EventType,
    now: nat,
    market: Seq<char>,
)
    ensures
        c.release_selected(orders, selected, kind, now, market).log.events == c.log.events
            + leaving_events(orders, selected, kind, now, market),
        c.release_selected(orders, selected, kind, now, market).log.consumers == c.log.consumers,
        c.release_selected(orders, selected, kind, now, market).log.positions == c.log.positions,
    decreases orders.len(),
{
    if orders.len() == 0 {
        reveal(Seq::filter);
        assert(orders.filter(selected) =~= Seq::<OrderView>::empty());
        assert(c.log.events + leaving_events(orders, selected, kind, now, market)
            =~= c.log.events);
    } else {
        let first = orders[0];
        let tail = orders.drop_first();
        let next = if selected(first) {
            c.release(first, kind, now, market)
        } else {
            c
        };
        law_release_records_each_once(next, tail, selected, kind, now, market);
        assert(orders =~= seq![first] + tail);
        tail.lemma_filter_prepend(first, selected);
        let convert = as_leaving(kind, now, market);
        if selected(first) {
            assert((seq![first] + tail.filter(selected)).map_values(convert) =~= seq![
                leaving_event(kind, first, now, market),
            ] + tail.filter(selected).map_values(convert));
            assert(c.log.events.push(leaving_event(kind, first, now, market)) + tail.filter(
                selected,
            ).map_values(convert) =~= c.log.events + leaving_events(
                orders,
                selected,
                kind,
                now,
                market,
            ));
        } else {
            assert(Seq::<OrderView>::empty() + tail.filter(selected) =~= tail.filter(selected));
        }
    }
}

/// The sweep records exactly one `Expire` event for each order that is no longer
/// valid, the bids before the asks and each side from its best order on, and no other
/// event.
pub proof fn law_sweep_records_each_once(s: MarketView, now: nat, market: Seq<char>)
    ensures
        s.sweep(now, market).clearing.log.events == s.clearing.log.events + leaving_events(
            s.book.bids,
            expired_at(now),
            EventType::Expire,
            now,
            market,
        ) + leaving_events(s.book.asks, expired_at(now), EventType::Expire, now, market),
{
    let selected = expired_at(now);
    let bids_out = s.clearing.release_selected(
        s.book.bids,
        selected,
        EventType::Expire,
        now,
        market,
    );
    law_release_records_each_once(s.clearing, s.book.bids, selected, EventType::Expire, now, market);
    law_release_records_each_once(bids_out, s.book.asks, selected, EventType::Expire, now, market);
}

} // verus!
