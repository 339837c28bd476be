use crate::book::{crosses, match_against, rest_index, FillView};
use crate::clearing::{
    cover_fees, covers_fee, fee_amount, lemma_credit, lemma_release, lemma_release_selected,
    lemma_settle, lemma_settle_one, locked_amount, locked_asset, proceeds_after_fee,
    ClearingView,
};
use crate::events::EventType;
use crate::invariants::{
    lemma_cancel_wf, lemma_deposit_wf, lemma_evict_wf, lemma_find_in_range, lemma_insert_side,
    lemma_matching_wf, lemma_place_order_wf,
};
use crate::ledger::{lemma_credit_grows, lemma_debit_holds, Asset, Holdings, LedgerView};
use crate::market::{expired_at, kept, listed_for, MarketView};
use crate::order::{OrderView, Side};
use crate::sums::{
    lemma_sum_concat, lemma_sum_insert, lemma_sum_one, lemma_sum_push, lemma_sum_remove,
    lemma_sum_update, sum,
};
use crate::table::lookup;
use vstd::prelude::*;

verus! {

/// What each account holds of `asset`.
pub open spec fn held(holdings: Seq<Holdings>, asset: Asset) -> Seq<nat> {
    Seq::new(holdings.len(), |i: int| holdings[i].of(asset))
}

/// What all users together hold of `asset`.
pub open spec fn total_held(ledger: LedgerView, asset: Asset) -> nat {
    sum(held(ledger.holdings, asset))
}

/// What each of `orders` locks.
pub open spec fn locks(orders: Seq<OrderView>) -> Seq<nat> {
    Seq::new(
        orders.len(),
        |i: int| locked_amount(orders[i].side, orders[i].price, orders[i].quantity),
    )
}

/// What `orders` lock together: the open quantities of asks in the base asset, the
/// open quantities of bids at their limit prices in the quote asset.
pub open spec fn total_locked(orders: Seq<OrderView>) -> nat {
    sum(locks(orders))
}

/// What each of `fills` takes from a resting order of `side`.
pub open spec fn takes(fills: Seq<FillView>, side: Side) -> Seq<nat> {
    Seq::new(fills.len(), |i: int| locked_amount(side, fills[i].price, fills[i].quantity))
}

/// What `fills` take together from resting orders of `side`: the quantities traded
/// from asks, the quantities at the trade prices from bids.
pub open spec fn total_taken(fills: Seq<FillView>, side: Side) -> nat {
    sum(takes(fills, side))
}

/// The base asset in a market: what the users hold and what the resting asks stand
/// for.
pub open spec fn base_supply(s: MarketView) -> nat {
    total_held(s.clearing.ledger, Asset::Base) + total_locked(s.book.asks)
}

/// The quote asset in a market: what the users hold, what the resting bids stand
/// for, and the fees collected.
pub open spec fn quote_supply(s: MarketView) -> nat {
    total_held(s.clearing.ledger, Asset::Quote) + total_locked(s.book.bids)
        + s.clearing.collected_fee
}

/// `amount` if the two assets are the same, and nothing otherwise.
pub open spec fn if_same(a: Asset, b: Asset, amount: nat) -> nat {
    if a == b {
        amount
    } else {
        0
    }
}

/// A credit adds its amount to what all users hold of its asset, and nothing to the
/// other asset.
pub proof fn lemma_credit_total(
    l: LedgerView,
    user: Seq<char>,
    asset: Asset,
    amount: nat,
    which: Asset,
)
    requires
        l.wf(),
    ensures
        total_held(l.credit(user, asset, amount), which) == total_held(l, which) + if_same(
            which,
            asset,
            amount,
        ),
{
    let c = l.credit(user, asset, amount);
    match lookup(l.users, user) {
        Some(i) => {
            let h = l.holdings[i].plus(asset, amount);
            assert(held(c.holdings, which) =~= held(l.holdings, which).update(i, h.of(which)));
            lemma_sum_update(held(l.holdings, which), i, h.of(which));
        },
        None => {
            let h = Holdings::zero().plus(asset, amount);
            assert(held(c.holdings, which) =~= held(l.holdings, which).push(h.of(which)));
            lemma_sum_push(held(l.holdings, which), h.of(which));
        },
    }
}

/// A debit of no more than is held takes its amount from what all users hold of its
/// asset, and nothing from the other asset.
pub proof fn lemma_debit_total(
    l: LedgerView,
    user: Seq<char>,
    asset: Asset,
    amount: nat,
    which: Asset,
)
    requires
        l.wf(),
        amount <= l.balance(user, asset),
    ensures
        total_held(l.debit(user, asset, amount), which) + if_same(which, asset, amount)
            == total_held(l, which),
{
    let d = l.debit(user, asset, amount);
    match lookup(l.users, user) {
        Some(i) => {
            let h = l.holdings[i].minus(asset, amount);
            assert(held(d.holdings, which) =~= held(l.holdings, which).update(i, h.of(which)));
            lemma_sum_update(held(l.holdings, which), i, h.of(which));
        },
        None => {
            let h = Holdings::zero().minus(asset, amount);
            assert(held(d.holdings, which) =~= held(l.holdings, which).push(h.of(which)));
            lemma_sum_push(held(l.holdings, which), h.of(which));
        },
    }
}

/// The first order's lock and the locks of the others make up the locks of all.
pub proof fn lemma_locked_first(orders: Seq<OrderView>)
    requires
        orders.len() > 0,
    ensures
        total_locked(orders) == locked_amount(orders[0].side, orders[0].price, orders[0].quantity)
            + total_locked(orders.drop_first()),
{
    assert(locks(orders).drop_first() =~= locks(orders.drop_first()));
}

/// What an order gets back when it leaves the book is what it locked.
pub proof fn lemma_release_total(
    c: ClearingView,
    order: OrderView,
    kind: EventType,
    now: nat,
    market: Seq<char>,
    which: Asset,
)
    requires
        c.wf(),
    ensures
        total_held(c.release(order, kind, now, market).ledger, which) == total_held(
            c.ledger,
            which,
        ) + if_same(
            which,
            locked_asset(order.side),
            locked_amount(order.side, order.price, order.quantity),
        ),
        c.release(order, kind, now, market).collected_fee == c.collected_fee,
{
    lemma_credit_total(
        c.ledger,
        order.owner,
        locked_asset(order.side),
        locked_amount(order.side, order.price, order.quantity),
        which,
    );
}

/// What the orders that a filter keeps lock: the first one's lock, if it is kept,
/// and what the kept ones among the others lock.
pub proof fn lemma_kept_first(orders: Seq<OrderView>, keep: spec_fn(OrderView) -> bool)
    requires
        orders.len() > 0,
    ensures
        total_locked(orders.filter(keep)) == (if keep(orders[0]) {
            locked_amount(orders[0].side, orders[0].price, orders[0].quantity)
        } else {
            0
        }) + total_locked(orders.drop_first().filter(keep)),
{
    let first = orders[0];
    let tail = orders.drop_first();
    assert(orders =~= seq![first] + tail);
    tail.lemma_filter_prepend(first, keep);
    if keep(first) {
        let left = seq![first] + tail.filter(keep);
        assert(left.drop_first() =~= tail.filter(keep));
        assert(left[0] == first);
        lemma_locked_first(left);
    } else {
        assert(Seq::<OrderView>::empty() + tail.filter(keep) =~= tail.filter(keep));
    }
}

/// What the orders that leave a side get back is what the side no longer locks.
pub proof fn lemma_release_selected_total(
    c: ClearingView,
    orders: Seq<OrderView>,
    selected: spec_fn(OrderView) -> bool,
    kind: EventType,
    now: nat,
    market: Seq<char>,
    side: Side,
    which: Asset,
)
    requires
        c.wf(),
        forall|i: int| 0 <= i < orders.len() ==> (#[trigger] orders[i]).side == side,
    ensures
        total_held(c.release_selected(orders, selected, kind, now, market).ledger, which) + if_same(
            which,
            locked_asset(side),
            total_locked(orders.filter(kept(selected))),
        ) == total_held(c.ledger, which) + if_same(which, locked_asset(side), total_locked(orders)),
        c.release_selected(orders, selected, kind, now, market).collected_fee == c.collected_fee,
    decreases orders.len(),
{
    let keep = kept(selected);
    if orders.len() == 0 {
        reveal(Seq::filter);
        assert(orders.filter(keep) =~= orders);
    } else {
        let first = orders[0];
        let tail = orders.drop_first();
        let next = if selected(first) {
            c.release(first, kind, now, market)
        } else {
            c
        };
        assert(first.side == side);
        assert(keep(first) == !selected(first));
        lemma_release(c, first, kind, now, market);
        lemma_release_total(c, first, kind, now, market, which);
        assert forall|i: int| 0 <= i < tail.len() implies (#[trigger] tail[i]).side == side by {
            assert(tail[i] == orders[i + 1]);
        }
        lemma_release_selected_total(next, tail, selected, kind, now, market, side, which);
        lemma_locked_first(orders);
        lemma_kept_first(orders, keep);
    }
}

/// What the trades take from the resting orders is what these no longer lock.
pub proof fn lemma_match_total(
    makers: Seq<OrderView>,
    taker: Side,
    limit: nat,
    want: nat,
    side: Side,
)
    requires
        forall|i: int| 0 <= i < makers.len() ==> (#[trigger] makers[i]).side == side,
    ensures
        total_locked(match_against(makers, taker, limit, want).makers) + total_taken(
            match_against(makers, taker, limit, want).fills,
            side,
        ) == total_locked(makers),
    decreases makers.len(),
{
    let m = match_against(makers, taker, limit, want);
    if makers.len() == 0 || want == 0 || !crosses(taker, limit, makers[0].price) {
        assert(takes(m.fills, side) =~= Seq::<nat>::empty());
    } else {
        let maker = makers[0];
        lemma_locked_first(makers);
        if maker.quantity <= want {
            let tail = makers.drop_first();
            let rest = match_against(tail, taker, limit, (want - maker.quantity) as nat);
            assert forall|i: int| 0 <= i < tail.len() implies (#[trigger] tail[i]).side == side by {
                assert(tail[i] == makers[i + 1]);
            }
            lemma_match_total(tail, taker, limit, (want - maker.quantity) as nat, side);
            let head = locked_amount(side, maker.price, maker.quantity);
            assert(takes(m.fills, side) =~= seq![head] + takes(rest.fills, side));
            lemma_sum_concat(seq![head], takes(rest.fills, side));
            lemma_sum_one(head);
        } else {
            let left = maker.with_quantity((maker.quantity - want) as nat);
            let taken = locked_amount(side, maker.price, want);
            assert(takes(m.fills, side) =~= seq![taken]);
            lemma_sum_one(taken);
            assert(locks(m.makers) =~= locks(makers).update(
                0,
                locked_amount(side, left.price, left.quantity),
            ));
            lemma_sum_update(locks(makers), 0, locked_amount(side, left.price, left.quantity));
            assert(locked_amount(side, left.price, left.quantity) + taken == locked_amount(
                side,
                maker.price,
                maker.quantity,
            )) by {
                let p = maker.price as int;
                let q = maker.quantity as int;
                let w = want as int;
                assert(p * (q - w) + p * w == p * q) by (nonlinear_arith);
            }
        }
    }
}

/// At a rate of no more than the whole, what is paid in a trade covers the fee.
pub proof fn law_ordinary_rate_covers_fees(fills: Seq<FillView>, fee_bps: nat)
    requires
        fee_bps <= 10_000,
    ensures
        cover_fees(fills, fee_bps),
{
    assert forall|i: int| 0 <= i < fills.len() implies covers_fee(#[trigger] fills[i], fee_bps) by {
        lemma_fee_bounded(fills[i].price * fills[i].quantity, fee_bps);
    }
}

/// A fee at no more than the whole is no more than the amount it is charged on.
pub proof fn lemma_fee_bounded(notional: nat, fee_bps: nat)
    requires
        fee_bps <= 10_000,
    ensures
        fee_amount(notional, fee_bps) <= notional,
{
    let n = notional as int;
    let r = fee_bps as int;
    assert(n * r <= n * 10_000) by (nonlinear_arith)
        requires
            0 <= n,
            0 <= r <= 10_000,
    ;
    vstd::arithmetic::div_mod::lemma_div_is_ordered(n * r, n * 10_000, 10_000);
    vstd::arithmetic::div_mod::lemma_div_multiples_vanish(n, 10_000);
    assert(n * 10_000 == 10_000 * n);
}

/// Settling a trade gives the buyer the quantity and splits the price paid between
/// the seller and the fees.
pub proof fn lemma_settle_one_total(
    c: ClearingView,
    fill: FillView,
    taker: Seq<char>,
    side: Side,
    id: nat,
    now: nat,
    fee_bps: nat,
    market: Seq<char>,
)
    requires
        c.wf(),
        covers_fee(fill, fee_bps),
    ensures
        ({
            let after = c.settle_one(fill, taker, side, id, now, fee_bps, market);
            &&& total_held(after.ledger, Asset::Base) == total_held(c.ledger, Asset::Base)
                + fill.quantity
            &&& total_held(after.ledger, Asset::Quote) + after.collected_fee == total_held(
                c.ledger,
                Asset::Quote,
            ) + c.collected_fee + fill.price * fill.quantity
        }),
{
    let notional = fill.price * fill.quantity;
    let fee = fee_amount(notional, fee_bps);
    let proceeds = proceeds_after_fee(notional, fee_bps);
    match side {
        Side::Bid => {
            let first = c.credit(taker, Asset::Base, fill.quantity);
            lemma_credit(c, taker, Asset::Base, fill.quantity);
            lemma_credit_total(c.ledger, taker, Asset::Base, fill.quantity, Asset::Base);
            lemma_credit_total(c.ledger, taker, Asset::Base, fill.quantity, Asset::Quote);
            lemma_credit_total(first.ledger, fill.maker, Asset::Quote, proceeds, Asset::Base);
            lemma_credit_total(first.ledger, fill.maker, Asset::Quote, proceeds, Asset::Quote);
        },
        Side::Ask => {
            let first = c.credit(taker, Asset::Quote, proceeds);
            lemma_credit(c, taker, Asset::Quote, proceeds);
            lemma_credit_total(c.ledger, taker, Asset::Quote, proceeds, Asset::Base);
            lemma_credit_total(c.ledger, taker, Asset::Quote, proceeds, Asset::Quote);
            lemma_credit_total(first.ledger, fill.maker, Asset::Base, fill.quantity, Asset::Base);
            lemma_credit_total(first.ledger, fill.maker, Asset::Base, fill.quantity, Asset::Quote);
        },
    }
}

/// Settling trades gives the buyers the quantities and splits the prices paid
/// between the sellers and the fees.
pub proof fn lemma_settle_total(
    c: ClearingView,
    fills: Seq<FillView>,
    taker: Seq<char>,
    side: Side,
    id: nat,
    now: nat,
    fee_bps: nat,
    market: Seq<char>,
)
    requires
        c.wf(),
        cover_fees(fills, fee_bps),
    ensures
        ({
            let after = c.settle(fills, taker, side, id, now, fee_bps, market);
            &&& total_held(after.ledger, Asset::Base) == total_held(c.ledger, Asset::Base)
                + total_taken(fills, Side::Ask)
            &&& total_held(after.ledger, Asset::Quote) + after.collected_fee == total_held(
                c.ledger,
                Asset::Quote,
            ) + c.collected_fee + total_taken(fills, Side::Bid)
        }),
    decreases fills.len(),
{
    if fills.len() == 0 {
        assert(takes(fills, Side::Ask) =~= Seq::<nat>::empty());
        assert(takes(fills, Side::Bid) =~= Seq::<nat>::empty());
    } else {
        let next = c.settle_one(fills[0], taker, side, id, now, fee_bps, market);
        lemma_settle_one(c, fills[0], taker, side, id, now, fee_bps, market);
        lemma_settle_one_total(c, fills[0], taker, side, id, now, fee_bps, market);
        assert forall|i: int| 0 <= i < fills.drop_first().len() implies covers_fee(
            #[trigger] fills.drop_first()[i],
            fee_bps,
        ) by {
            assert(fills.drop_first()[i] == fills[i + 1]);
        }
        lemma_settle_total(next, fills.drop_first(), taker, side, id, now, fee_bps, market);
        assert(takes(fills, Side::Ask).drop_first() =~= takes(fills.drop_first(), Side::Ask));
        assert(takes(fills, Side::Bid).drop_first() =~= takes(fills.drop_first(), Side::Bid));
    }
}

/// A deposit adds what is paid in, and nothing else.
pub proof fn law_deposit_adds(s: MarketView, user: Seq<char>, base: nat, quote: nat)
    requires
        s.wf(),
    ensures
        base_supply(s.deposit(user, base, quote)) == base_supply(s) + base,
        quote_supply(s.deposit(user, base, quote)) == quote_supply(s) + quote,
{
    let first = s.clearing.ledger.credit(user, Asset::Base, base);
    lemma_credit_grows(s.clearing.ledger, user, Asset::Base, base);
    lemma_credit_total(s.clearing.ledger, user, Asset::Base, base, Asset::Base);
    lemma_credit_total(s.clearing.ledger, user, Asset::Base, base, Asset::Quote);
    lemma_credit_total(first, user, Asset::Quote, quote, Asset::Base);
    lemma_credit_total(first, user, Asset::Quote, quote, Asset::Quote);
}

/// Orders that leave the book unfilled, cancelled or expired, create and destroy
/// nothing: their owners get back exactly what the orders stood for.
pub proof fn law_evict_conserves(
    s: MarketView,
    selected: spec_fn(OrderView) -> bool,
    kind: EventType,
    now: nat,
    market: Seq<char>,
)
    requires
        s.wf(),
    ensures
        base_supply(s.evict(selected, kind, now, market)) == base_supply(s),
        quote_supply(s.evict(selected, kind, now, market)) == quote_supply(s),
{
    let bids_out = s.clearing.release_selected(s.book.bids, selected, kind, now, market);
    lemma_release_selected(s.clearing, s.book.bids, selected, kind, now, market);
    lemma_release_selected_total(
        s.clearing,
        s.book.bids,
        selected,
        kind,
        now,
        market,
        Side::Bid,
        Asset::Base,
    );
    lemma_release_selected_total(
        s.clearing,
        s.book.bids,
        selected,
        kind,
        now,
        market,
        Side::Bid,
        Asset::Quote,
    );
    lemma_release_selected_total(
        bids_out,
        s.book.asks,
        selected,
        kind,
        now,
        market,
        Side::Ask,
        Asset::Base,
    );
    lemma_release_selected_total(
        bids_out,
        s.book.asks,
        selected,
        kind,
        now,
        market,
        Side::Ask,
        Asset::Quote,
    );
}

/// The sweep of expired orders creates and destroys nothing.
pub proof fn law_sweep_conserves(s: MarketView, now: nat, market: Seq<char>)
    requires
        s.wf(),
    ensures
        base_supply(s.sweep(now, market)) == base_supply(s),
        quote_supply(s.sweep(now, market)) == quote_supply(s),
{
    law_evict_conserves(s, expired_at(now), EventType::Expire, now, market);
}

/// A batch cancellation creates and destroys nothing.
pub proof fn law_batch_cancel_conserves(
    s: MarketView,
    user: Seq<char>,
    ids: Seq<nat>,
    now: nat,
    market: Seq<char>,
)
    requires
        s.wf(),
    ensures
        base_supply(s.batch_cancel(user, ids, now, market)) == base_supply(s),
        quote_supply(s.batch_cancel(user, ids, now, market)) == quote_supply(s),
{
    law_evict_conserves(s, listed_for(user, ids), EventType::Cancel, now, market);
}

/// A cancellation creates and destroys nothing.
pub proof fn law_cancel_conserves(
    s: MarketView,
    user: Seq<char>,
    id: nat,
    now: nat,
    market: Seq<char>,
)
    requires
        s.wf(),
    ensures
        base_supply(s.cancel_order(user, id, now, market).0) == base_supply(s),
        quote_supply(s.cancel_order(user, id, now, market).0) == quote_supply(s),
{
    lemma_find_in_range(s.book, user, id);
    match s.book.find(user, id) {
        Some((side, i)) => {
            let orders = s.book.side(side);
            let order = orders[i];
            assert(order.side == side);
            lemma_release_total(s.clearing, order, EventType::Cancel, now, market, Asset::Base);
            lemma_release_total(s.clearing, order, EventType::Cancel, now, market, Asset::Quote);
            assert(locks(orders.remove(i)) =~= locks(orders).remove(i));
            lemma_sum_remove(locks(orders), i);
        },
        None => {},
    }
}

/// What a submission does to the two assets, where what is paid in each trade
/// covers the fee, as it does at any rate of no more than the whole. The base asset
/// is conserved, except
/// that what is left of an ask comes to rest while its owner gets the same quantity
/// back. The quote asset is conserved when an ask comes in. When a bid comes in, its
/// owner pays the limit price for what it buys while the sellers and the fees get
/// the trade prices, and what is left of the bid comes to rest while its owner gets
/// the same amount back.
pub proof fn law_place_order_accounts(
    s: MarketView,
    market: Seq<char>,
    owner: Seq<char>,
    side: Side,
    price: nat,
    quantity: nat,
    now: nat,
    fee_bps: nat,
    expire_ts: Option<nat>,
)
    requires
        s.wf(),
        cover_fees(s.sweep(now, market).book.matching(side, price, quantity).fills, fee_bps),
    ensures
        ({
            let outcome = s.place_order(
                market,
                owner,
                side,
                price,
                quantity,
                now,
                fee_bps,
                expire_ts,
            );
            let m = s.sweep(now, market).book.matching(side, price, quantity);
            let traded = outcome.1 is Some && quantity > 0;
            &&& base_supply(outcome.0) == base_supply(s) + if traded && side == Side::Ask {
                m.remaining
            } else {
                0
            }
            &&& traded && side == Side::Bid ==> quote_supply(outcome.0) + price * quantity
                == quote_supply(s) + total_taken(m.fills, Side::Bid) + 2 * (price * m.remaining)
            &&& !(traded && side == Side::Bid) ==> quote_supply(outcome.0) == quote_supply(s)
            &&& total_taken(m.fills, Side::Ask) + m.remaining == quantity
        }),
{
    let swept = s.sweep(now, market);
    law_sweep_conserves(s, now, market);
    lemma_evict_wf(
        s,
        expired_at(now),
        EventType::Expire,
        now,
        market,
    );
    let id = swept.next_order_id;
    let asset = locked_asset(side);
    let needed = locked_amount(side, price, quantity);
    let opposite = side.spec_opposite();
    let m = swept.book.matching(side, price, quantity);
    law_fills_add_up(swept.book.side(opposite), side, price, quantity);
    if quantity == 0 {
    } else if swept.clearing.ledger.balance(owner, asset) < needed {
    } else {
        lemma_match_total(swept.book.side(opposite), side, price, quantity, opposite);
        lemma_debit_holds(swept.clearing.ledger, owner, asset, needed);
        lemma_debit_total(swept.clearing.ledger, owner, asset, needed, Asset::Base);
        lemma_debit_total(swept.clearing.ledger, owner, asset, needed, Asset::Quote);
        let locked = ClearingView {
            ledger: swept.clearing.ledger.debit(owner, asset, needed),
            ..swept.clearing
        };
        lemma_settle(locked, m.fills, owner, side, id, now, fee_bps, market);
        lemma_settle_total(locked, m.fills, owner, side, id, now, fee_bps, market);
        let traded = locked.settle(m.fills, owner, side, id, now, fee_bps, market);
        let traded_book = swept.book.with_side(opposite, m.makers);
        if m.remaining > 0 {
            let residual = OrderView { id, owner, side, price, quantity: m.remaining, expire_ts };
            let refund = locked_amount(side, price, m.remaining);
            lemma_credit_total(traded.ledger, owner, asset, refund, Asset::Base);
            lemma_credit_total(traded.ledger, owner, asset, refund, Asset::Quote);
            let before = traded_book.side(side);
            let k = rest_index(before, side, price) as int;
            lemma_matching_wf(swept.book, side, price, quantity, id);
            lemma_insert_side(before, residual);
            assert(locks(before.insert(k, residual)) =~= locks(before).insert(k, refund));
            lemma_sum_insert(locks(before), k, refund);
        }
        if side == Side::Bid {
            assert(price * quantity == price * total_taken(m.fills, Side::Ask) + price
                * m.remaining) by (nonlinear_arith)
                requires
                    total_taken(m.fills, Side::Ask) + m.remaining == quantity,
            ;
        }
    }
}

/// Nothing of an incoming order is lost in matching: the quantities traded and the
/// remainder add up to the incoming quantity.
pub proof fn law_fills_add_up(makers: Seq<OrderView>, taker: Side, limit: nat, want: nat)
    ensures
        total_taken(match_against(makers, taker, limit, want).fills, Side::Ask) + match_against(
            makers,
            taker,
            limit,
            want,
        ).remaining == want,
    decreases makers.len(),
{
    let m = match_against(makers, taker, limit, want);
    if makers.len() == 0 || want == 0 || !crosses(taker, limit, makers[0].price) {
        assert(takes(m.fills, Side::Ask) =~= Seq::<nat>::empty());
    } else {
        let maker = makers[0];
        if maker.quantity <= want {
            let tail = makers.drop_first();
            let rest = match_against(tail, taker, limit, (want - maker.quantity) as nat);
            law_fills_add_up(tail, taker, limit, (want - maker.quantity) as nat);
            assert(takes(m.fills, Side::Ask) =~= seq![maker.quantity] + takes(
                rest.fills,
                Side::Ask,
            ));
            lemma_sum_concat(seq![maker.quantity], takes(rest.fills, Side::Ask));
            lemma_sum_one(maker.quantity);
        } else {
            assert(takes(m.fills, Side::Ask) =~= seq![want]);
            lemma_sum_one(want);
        }
    }
}

/// Conservation of the base asset: a submission creates and destroys none of it,
/// unless it is an ask of which a part comes to rest.
pub proof fn law_place_order_conserves_base(
    s: MarketView,
    market: Seq<char>,
    owner: Seq<char>,
    side: Side,
    price: nat,
    quantity: nat,
    now: nat,
    fee_bps: nat,
    expire_ts: Option<nat>,
)
    requires
        s.wf(),
        cover_fees(s.sweep(now, market).book.matching(side, price, quantity).fills, fee_bps),
        !(side == Side::Ask && s.place_order(
            market,
            owner,
            side,
            price,
            quantity,
            now,
            fee_bps,
            expire_ts,
        ).1 is Some && s.sweep(now, market).book.matching(side, price, quantity).remaining > 0),
    ensures
        base_supply(
            s.place_order(market, owner, side, price, quantity, now, fee_bps, expire_ts).0,
        ) == base_supply(s),
{
    law_place_order_accounts(s, market, owner, side, price, quantity, now, fee_bps, expire_ts);
}

/// Conservation of the quote asset, fees included: a submission creates and destroys
/// none of it, unless it is a bid for which what comes to rest, counted both in the
/// book and in what its owner gets back, and what the trades were worth do not add up
/// to what the bid locked. A bid that is filled whole at its limit price is the plain
/// case in which they do.
pub proof fn law_place_order_conserves_quote(
    s: MarketView,
    market: Seq<char>,
    owner: Seq<char>,
    side: Side,
    price: nat,
    quantity: nat,
    now: nat,
    fee_bps: nat,
    expire_ts: Option<nat>,
)
    requires
        s.wf(),
        cover_fees(s.sweep(now, market).book.matching(side, price, quantity).fills, fee_bps),
        side == Side::Bid && quantity > 0 && s.place_order(
            market,
            owner,
            side,
            price,
            quantity,
            now,
            fee_bps,
            expire_ts,
        ).1 is Some ==> {
            let m = s.sweep(now, market).book.matching(side, price, quantity);
            total_taken(m.fills, Side::Bid) + 2 * (price * m.remaining) == price * quantity
        },
    ensures
        quote_supply(
            s.place_order(market, owner, side, price, quantity, now, fee_bps, expire_ts).0,
        ) == quote_supply(s),
{
    law_place_order_accounts(s, market, owner, side, price, quantity, now, fee_bps, expire_ts);
}

/// One thing that a user or the clock does to a market.
pub enum Step {
    /// A user pays in.
    Deposit { user: Seq<char>, base: nat, quote: nat },
    /// A user submits an order.
    Submit {
        owner: Seq<char>,
        side: Side,
        price: nat,
        quantity: nat,
        now: nat,
        fee_bps: nat,
        expire_ts: Option<nat>,
    },
    /// A user asks to cancel an order.
    Cancel { user: Seq<char>, id: nat, now: nat },
    /// A user asks to cancel several orders.
    BatchCancel { user: Seq<char>, ids: Seq<nat>, now: nat },
    /// The orders that are no longer valid leave the book.
    Sweep { now: nat },
}

/// The market called `market` after `step`.
pub open spec fn after(s: MarketView, market: Seq<char>, step: Step) -> MarketView {
    match step {
        Step::Deposit { user, base, quote } => s.deposit(user, base, quote),
        Step::Submit { owner, side, price, quantity, now, fee_bps, expire_ts } => s.place_order(
            market,
            owner,
            side,
            price,
            quantity,
            now,
            fee_bps,
            expire_ts,
        ).0,
        Step::Cancel { user, id, now } => s.cancel_order(user, id, now, market).0,
        Step::BatchCancel { user, ids, now } => s.batch_cancel(user, ids, now, market),
        Step::Sweep { now } => s.sweep(now, market),
    }
}

/// The market called `market` after `steps`, first to last.
pub open spec fn after_all(s: MarketView, market: Seq<char>, steps: Seq<Step>) -> MarketView
    decreases steps.len(),
{
    if steps.len() == 0 {
        s
    } else {
        after_all(after(s, market, steps[0]), market, steps.drop_first())
    }
}

/// What `step` pays in of `asset`.
pub open spec fn paid_in_by(step: Step, asset: Asset) -> nat {
    match step {
        Step::Deposit { user, base, quote } => match asset {
            Asset::Base => base,
            Asset::Quote => quote,
        },
        _ => 0,
    }
}

/// What `steps` pay in of `asset`.
pub open spec fn paid_in(steps: Seq<Step>, asset: Asset) -> nat
    decreases steps.len(),
{
    if steps.len() == 0 {
        0
    } else {
        paid_in_by(steps[0], asset) + paid_in(steps.drop_first(), asset)
    }
}

/// Whether `step` is no submission that creates or destroys some of `asset`: it is
/// no ask of which a part comes to rest, where the asset is the base asset; it is no
/// bid for which what comes to rest, counted twice, and what the trades were worth
/// do not add up to what the bid locked, where the asset is the quote asset; and
/// what is paid in each of its trades covers the fee.
pub open spec fn balanced(s: MarketView, market: Seq<char>, step: Step, asset: Asset) -> bool {
    match step {
        Step::Submit { owner, side, price, quantity, now, fee_bps, expire_ts } => {
            let outcome = s.place_order(
                market,
                owner,
                side,
                price,
                quantity,
                now,
                fee_bps,
                expire_ts,
            );
            let m = s.sweep(now, market).book.matching(side, price, quantity);
            let traded = quantity > 0 && outcome.1 is Some;
            &&& cover_fees(m.fills, fee_bps)
            &&& asset == Asset::Base && side == Side::Ask && traded ==> m.remaining == 0
            &&& asset == Asset::Quote && side == Side::Bid && traded ==> total_taken(
                m.fills,
                Side::Bid,
            ) + 2 * (price * m.remaining) == price * quantity
        },
        _ => true,
    }
}

/// Whether each of `steps`, taken in the market as the steps before it left it, is
/// balanced.
pub open spec fn all_balanced(
    s: MarketView,
    market: Seq<char>,
    steps: Seq<Step>,
    asset: Asset,
) -> bool
    decreases steps.len(),
{
    if steps.len() == 0 {
        true
    } else {
        &&& balanced(s, market, steps[0], asset)
        &&& all_balanced(after(s, market, steps[0]), market, steps.drop_first(), asset)
    }
}

/// What there is of `asset` in a market.
pub open spec fn supply(s: MarketView, asset: Asset) -> nat {
    match asset {
        Asset::Base => base_supply(s),
        Asset::Quote => quote_supply(s),
    }
}

/// A step keeps a market well formed, and a balanced step changes what there is of
/// an asset by what it pays in.
pub proof fn lemma_step_conserves(s: MarketView, market: Seq<char>, step: Step, asset: Asset)
    requires
        s.wf(),
        balanced(s, market, step, asset),
    ensures
        after(s, market, step).wf(),
        supply(after(s, market, step), asset) == supply(s, asset) + paid_in_by(step, asset),
{
    match step {
        Step::Deposit { user, base, quote } => {
            lemma_deposit_wf(s, user, base, quote);
            law_deposit_adds(s, user, base, quote);
        },
        Step::Submit { owner, side, price, quantity, now, fee_bps, expire_ts } => {
            lemma_place_order_wf(s, market, owner, side, price, quantity, now, fee_bps, expire_ts);
            law_place_order_accounts(
                s,
                market,
                owner,
                side,
                price,
                quantity,
                now,
                fee_bps,
                expire_ts,
            );
        },
        Step::Cancel { user, id, now } => {
            lemma_cancel_wf(s, user, id, now, market);
            law_cancel_conserves(s, user, id, now, market);
        },
        Step::BatchCancel { user, ids, now } => {
            lemma_evict_wf(s, listed_for(user, ids), EventType::Cancel, now, market);
            law_batch_cancel_conserves(s, user, ids, now, market);
        },
        Step::Sweep { now } => {
            lemma_evict_wf(s, expired_at(now), EventType::Expire, now, market);
            law_sweep_conserves(s, now, market);
        },
    }
}

/// Conservation: whatever deposits, submissions, cancellations and expirations
/// follow one another, what the users hold of an asset and what the book stands for,
/// with the fees collected where the asset is the quote asset, changes by the
/// deposits alone, as long as each submission is balanced.
pub proof fn law_conservation(s: MarketView, market: Seq<char>, steps: Seq<Step>, asset: Asset)
    requires
        s.wf(),
        all_balanced(s, market, steps, asset),
    ensures
        after_all(s, market, steps).wf(),
        supply(after_all(s, market, steps), asset) == supply(s, asset) + paid_in(steps, asset),
    decreases steps.len(),
{
    if steps.len() > 0 {
        lemma_step_conserves(s, market, steps[0], asset);
        law_conservation(after(s, market, steps[0]), market, steps.drop_first(), asset);
    }
}

} // verus!
