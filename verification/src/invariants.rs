use crate::book::{
    crosses, crosses_none, ids_apart, ids_below, ids_distinct, lemma_locate, match_against,
    owned_by, rest_index, side_wf, stays_ahead, uncrossed, BookView,
};
use crate::clearing::{
    lemma_credit, lemma_release, lemma_release_selected, lemma_settle, locked_amount, locked_asset,
    ClearingView,
};
use crate::events::{lemma_with_position, EventType};
use crate::laws::{law_best_first, lemma_rest_index_splits};
use crate::ledger::{lemma_debit_holds, Asset};
use crate::market::{expired_at, kept, MarketView};
use crate::order::{OrderView, Side};
use vstd::prelude::*;

verus! {

/// Whether each order of `part` is the order of `whole` at the position that `at`
/// gives, but for its quantity, and `at` keeps the orders in their order.
pub open spec fn drawn_from(
    part: Seq<OrderView>,
    whole: Seq<OrderView>,
    at: spec_fn(int) -> int,
) -> bool {
    &&& forall|i: int|
        0 <= i < part.len() ==> 0 <= #[trigger] at(i) < whole.len() && part[i] == whole[at(
            i,
        )].with_quantity(part[i].quantity)
    &&& forall|i: int, j: int| 0 <= i < j < part.len() ==> #[trigger] at(i) < #[trigger] at(j)
}

/// Orders drawn from a side, each with an open quantity, are a side, and they carry
/// no identifier that the side did not carry.
pub proof fn lemma_drawn_side(
    part: Seq<OrderView>,
    whole: Seq<OrderView>,
    at: spec_fn(int) -> int,
    side: Side,
    bound: nat,
    others: Seq<OrderView>,
)
    requires
        drawn_from(part, whole, at),
        forall|i: int| 0 <= i < part.len() ==> (#[trigger] part[i]).quantity > 0,
    ensures
        side_wf(whole, side) ==> side_wf(part, side),
        ids_below(whole, bound) ==> ids_below(part, bound),
        ids_distinct(whole) ==> ids_distinct(part),
        ids_apart(whole, others) ==> ids_apart(part, others),
        ids_apart(others, whole) ==> ids_apart(others, part),
        uncrossed(whole, others) ==> uncrossed(part, others),
        uncrossed(others, whole) ==> uncrossed(others, part),
{
    if uncrossed(whole, others) {
        assert forall|a: int, b: int| 0 <= a < part.len() && 0 <= b < others.len() implies part[a].price
            < others[b].price by {
            assert(part[a].price == whole[at(a)].price);
        }
    }
    if uncrossed(others, whole) {
        assert forall|b: int, a: int| 0 <= b < others.len() && 0 <= a < part.len() implies others[b].price
            < part[a].price by {
            assert(part[a].price == whole[at(a)].price);
        }
    }
    if side_wf(whole, side) {
        assert forall|a: int, b: int| 0 <= a < b < part.len() implies stays_ahead(
            side,
            part[a].price,
            part[b].price,
        ) by {
            assert(at(a) < at(b));
            assert(part[a].price == whole[at(a)].price);
            assert(part[b].price == whole[at(b)].price);
        }
        assert forall|a: int| 0 <= a < part.len() implies (#[trigger] part[a]).side == side by {
            assert(part[a].side == whole[at(a)].side);
        }
    }
    if ids_below(whole, bound) {
        assert forall|a: int| 0 <= a < part.len() implies (#[trigger] part[a]).id < bound by {
            assert(part[a].id == whole[at(a)].id);
        }
    }
    if ids_distinct(whole) {
        assert forall|a: int, b: int| 0 <= a < b < part.len() implies part[a].id
            != part[b].id by {
            assert(at(a) < at(b));
            assert(part[a].id == whole[at(a)].id);
            assert(part[b].id == whole[at(b)].id);
        }
    }
    if ids_apart(whole, others) {
        assert forall|a: int, b: int| 0 <= a < part.len() && 0 <= b < others.len() implies part[a].id
            != others[b].id by {
            assert(part[a].id == whole[at(a)].id);
        }
    }
    if ids_apart(others, whole) {
        assert forall|b: int, a: int| 0 <= b < others.len() && 0 <= a < part.len() implies others[b].id
            != part[a].id by {
            assert(part[a].id == whole[at(a)].id);
        }
    }
}

/// What a filter keeps is drawn from what it was given. Returns the positions.
pub proof fn lemma_filter_drawn(orders: Seq<OrderView>, keep: spec_fn(OrderView) -> bool) -> (at:
    spec_fn(int) -> int)
    ensures
        drawn_from(orders.filter(keep), orders, at),
        forall|i: int|
            0 <= i < orders.filter(keep).len() ==> orders.filter(keep)[i] == orders[#[trigger] at(
                i,
            )] && keep(orders[at(i)]),
    decreases orders.len(),
{
    reveal(Seq::filter);
    if orders.len() == 0 {
        |i: int| i
    } else {
        let front = orders.drop_last();
        let inner = lemma_filter_drawn(front, keep);
        let n = front.filter(keep).len() as int;
        let last = orders.len() - 1;
        let at = |i: int|
            if i < n {
                inner(i)
            } else {
                last
            };
        let part = orders.filter(keep);
        assert forall|i: int| 0 <= i < part.len() implies 0 <= #[trigger] at(i) < orders.len()
            && part[i] == orders[at(i)] && keep(orders[at(i)]) by {
            if i < n {
                assert(part[i] == front.filter(keep)[i]);
                assert(front[inner(i)] == orders[inner(i)]);
            }
        }
        assert forall|i: int, j: int| 0 <= i < j < part.len() implies #[trigger] at(i)
            < #[trigger] at(j) by {
            if j < n {
                assert(inner(i) < inner(j));
            } else {
                assert(0 <= inner(i) < front.len());
            }
        }
        at
    }
}

/// What a filter keeps of a side is a side, with no identifier that was not there.
pub proof fn lemma_filter_side(
    orders: Seq<OrderView>,
    keep: spec_fn(OrderView) -> bool,
    side: Side,
    bound: nat,
    others: Seq<OrderView>,
)
    ensures
        side_wf(orders, side) ==> side_wf(orders.filter(keep), side),
        ids_below(orders, bound) ==> ids_below(orders.filter(keep), bound),
        ids_distinct(orders) ==> ids_distinct(orders.filter(keep)),
        ids_apart(orders, others) ==> ids_apart(orders.filter(keep), others),
        ids_apart(others, orders) ==> ids_apart(others, orders.filter(keep)),
        uncrossed(orders, others) ==> uncrossed(orders.filter(keep), others),
        uncrossed(others, orders) ==> uncrossed(others, orders.filter(keep)),
        forall|i: int|
            0 <= i < orders.filter(keep).len() ==> keep(#[trigger] orders.filter(keep)[i]),
{
    let at = lemma_filter_drawn(orders, keep);
    let part = orders.filter(keep);
    if uncrossed(orders, others) {
        assert forall|a: int, b: int| 0 <= a < part.len() && 0 <= b < others.len() implies part[a].price
            < others[b].price by {
            assert(part[a] == orders[at(a)]);
        }
    }
    if uncrossed(others, orders) {
        assert forall|b: int, a: int| 0 <= b < others.len() && 0 <= a < part.len() implies others[b].price
            < part[a].price by {
            assert(part[a] == orders[at(a)]);
        }
    }
    if side_wf(orders, side) {
        assert forall|i: int| 0 <= i < part.len() implies (#[trigger] part[i]).quantity > 0 by {
            assert(part[i] == orders[at(i)]);
        }
        lemma_drawn_side(part, orders, at, side, bound, others);
    }
    // The identifiers do not depend on the quantities being open.
    if ids_below(orders, bound) {
        assert forall|a: int| 0 <= a < part.len() implies (#[trigger] part[a]).id < bound by {
            assert(part[a] == orders[at(a)]);
        }
    }
    if ids_distinct(orders) {
        assert forall|a: int, b: int| 0 <= a < b < part.len() implies part[a].id
            != part[b].id by {
            assert(at(a) < at(b));
            assert(part[a] == orders[at(a)]);
            assert(part[b] == orders[at(b)]);
        }
    }
    if ids_apart(orders, others) {
        assert forall|a: int, b: int| 0 <= a < part.len() && 0 <= b < others.len() implies part[a].id
            != others[b].id by {
            assert(part[a] == orders[at(a)]);
        }
    }
    if ids_apart(others, orders) {
        assert forall|b: int, a: int| 0 <= b < others.len() && 0 <= a < part.len() implies others[b].id
            != part[a].id by {
            assert(part[a] == orders[at(a)]);
        }
    }
    assert forall|i: int| 0 <= i < part.len() implies keep(#[trigger] part[i]) by {
        assert(part[i] == orders[at(i)]);
    }
}

/// Eviction keeps a market well formed.
pub proof fn lemma_evict_wf(
    s: MarketView,
    selected: spec_fn(OrderView) -> bool,
    kind: EventType,
    now: nat,
    market: Seq<char>,
)
    requires
        s.wf(),
    ensures
        s.evict(selected, kind, now, market).wf(),
        s.evict(selected, kind, now, market).next_order_id == s.next_order_id,
{
    let keep = kept(selected);
    let bids = s.book.bids.filter(keep);
    lemma_filter_side(s.book.bids, keep, Side::Bid, s.next_order_id, s.book.asks);
    lemma_filter_side(s.book.asks, keep, Side::Ask, s.next_order_id, bids);
    let bids_out = s.clearing.release_selected(s.book.bids, selected, kind, now, market);
    lemma_release_selected(s.clearing, s.book.bids, selected, kind, now, market);
    lemma_release_selected(bids_out, s.book.asks, selected, kind, now, market);
}

/// Removing an order keeps a book well formed, with no identifier that was not
/// there.
pub proof fn lemma_without_wf(book: BookView, side: Side, i: int, bound: nat)
    requires
        book.wf(),
        0 <= i < book.side(side).len(),
    ensures
        book.without(side, i).wf(),
        book.ids_unique_below(bound) ==> book.without(side, i).ids_unique_below(bound),
{
    let whole = book.side(side);
    let part = whole.remove(i);
    let others = book.side(side.spec_opposite());
    let at = |j: int|
        if j < i {
            j
        } else {
            j + 1
        };
    assert forall|j: int| 0 <= j < part.len() implies 0 <= #[trigger] at(j) < whole.len()
        && part[j] == whole[at(j)].with_quantity(part[j].quantity) && part[j].quantity > 0 by {
        assert(part[j] == whole[at(j)]);
        assert(side_wf(whole, side));
    }
    assert(drawn_from(part, whole, at));
    lemma_drawn_side(part, whole, at, side, bound, others);
}

/// A cancellation keeps a market well formed.
pub proof fn lemma_cancel_wf(s: MarketView, user: Seq<char>, id: nat, now: nat, market: Seq<char>)
    requires
        s.wf(),
    ensures
        s.cancel_order(user, id, now, market).0.wf(),
{
    match s.book.find(user, id) {
        Some((side, i)) => {
            lemma_find_in_range(s.book, user, id);
            lemma_without_wf(s.book, side, i, s.next_order_id);
            lemma_release(s.clearing, s.book.side(side)[i], EventType::Cancel, now, market);
        },
        None => {},
    }
}

/// What `find` gives is a position in the book that holds an order of `user` with
/// the identifier `id`.
pub proof fn lemma_find_in_range(book: BookView, user: Seq<char>, id: nat)
    ensures
        book.find(user, id) matches Some((side, i)) ==> 0 <= i < book.side(side).len()
            && owned_by(book.side(side)[i], user, id),
        book.find(user, id) is None ==> forall|side: Side, i: int|
            0 <= i < book.side(side).len() ==> !owned_by(
                #[trigger] book.side(side)[i],
                user,
                id,
            ),
{
    lemma_locate(book.bids, user, id);
    lemma_locate(book.asks, user, id);
}

/// Matching keeps a side a side, with no identifier that was not there.
pub proof fn lemma_match_side(
    makers: Seq<OrderView>,
    taker: Side,
    limit: nat,
    want: nat,
    side: Side,
    bound: nat,
    others: Seq<OrderView>,
)
    requires
        side_wf(makers, side),
    ensures
        side_wf(match_against(makers, taker, limit, want).makers, side),
        ids_below(makers, bound) ==> ids_below(
            match_against(makers, taker, limit, want).makers,
            bound,
        ),
        ids_distinct(makers) ==> ids_distinct(match_against(makers, taker, limit, want).makers),
        ids_apart(makers, others) ==> ids_apart(
            match_against(makers, taker, limit, want).makers,
            others,
        ),
        ids_apart(others, makers) ==> ids_apart(
            others,
            match_against(makers, taker, limit, want).makers,
        ),
        uncrossed(makers, others) ==> uncrossed(
            match_against(makers, taker, limit, want).makers,
            others,
        ),
        uncrossed(others, makers) ==> uncrossed(
            others,
            match_against(makers, taker, limit, want).makers,
        ),
{
    let m = match_against(makers, taker, limit, want);
    law_best_first(makers, taker, limit, want);
    let gone = makers.len() - m.makers.len();
    let n = m.fills.len() as int;
    let at = |j: int| j + gone;
    assert forall|j: int| 0 <= j < m.makers.len() implies 0 <= #[trigger] at(j) < makers.len()
        && m.makers[j] == makers[at(j)].with_quantity(m.makers[j].quantity) by {
        if j + gone >= n {
            assert(makers[j + gone] == m.makers[j + gone - gone]);
        } else {
            assert(j == 0 && n == gone + 1);
        }
    }
    assert forall|j: int| 0 <= j < m.makers.len() implies (#[trigger] m.makers[j]).quantity
        > 0 by {
        if j + gone >= n {
            assert(makers[j + gone] == m.makers[j + gone - gone]);
            assert(makers[j + gone].quantity > 0);
        } else {
            assert(j == 0 && n == gone + 1);
            assert(m.makers[0] == makers[gone].with_quantity(
                (makers[gone].quantity - m.fills[gone].quantity) as nat,
            ));
        }
    }
    assert(drawn_from(m.makers, makers, at));
    lemma_drawn_side(m.makers, makers, at, side, bound, others);
}

/// Putting an order with a fresh identifier among orders with identifiers of their
/// own below it gives orders with identifiers of their own.
pub proof fn lemma_insert_ids(before: Seq<OrderView>, k: int, order: OrderView, bound: nat)
    requires
        0 <= k <= before.len(),
        ids_below(before, bound),
        ids_distinct(before),
        order.id == bound,
    ensures
        ids_below(before.insert(k, order), bound + 1),
        ids_distinct(before.insert(k, order)),
{
    let after = before.insert(k, order);
    assert forall|a: int| 0 <= a < after.len() implies (#[trigger] after[a]).id < bound + 1 by {
        if a < k {
            assert(after[a] == before[a]);
        } else if a > k {
            assert(after[a] == before[a - 1]);
        }
    }
    assert forall|a: int, b: int| 0 <= a < b < after.len() implies after[a].id != after[b].id by {
        if a < k {
            assert(after[a] == before[a]);
        } else if a > k {
            assert(after[a] == before[a - 1]);
        }
        if b < k {
            assert(after[b] == before[b]);
        } else if b > k {
            assert(after[b] == before[b - 1]);
        }
    }
}

/// An order with a fresh identifier has the identifier of no order below it.
pub proof fn lemma_insert_apart(
    before: Seq<OrderView>,
    k: int,
    order: OrderView,
    bound: nat,
    others: Seq<OrderView>,
)
    requires
        0 <= k <= before.len(),
        ids_below(others, bound),
        order.id == bound,
    ensures
        ids_apart(before, others) ==> ids_apart(before.insert(k, order), others),
        ids_apart(others, before) ==> ids_apart(others, before.insert(k, order)),
        ids_below(others, bound + 1),
{
    let after = before.insert(k, order);
    if ids_apart(before, others) {
        assert forall|a: int, b: int| 0 <= a < after.len() && 0 <= b < others.len() implies after[a].id
            != others[b].id by {
            if a < k {
                assert(after[a] == before[a]);
            } else if a > k {
                assert(after[a] == before[a - 1]);
            }
        }
    }
    if ids_apart(others, before) {
        assert forall|b: int, a: int| 0 <= b < others.len() && 0 <= a < after.len() implies others[b].id
            != after[a].id by {
            if a < k {
                assert(after[a] == before[a]);
            } else if a > k {
                assert(after[a] == before[a - 1]);
            }
        }
    }
}

/// Putting an open order of a side where it comes to rest gives a side.
pub proof fn lemma_insert_side(before: Seq<OrderView>, order: OrderView)
    requires
        side_wf(before, order.side),
        order.quantity > 0,
    ensures
        side_wf(
            before.insert(rest_index(before, order.side, order.price) as int, order),
            order.side,
        ),
        rest_index(before, order.side, order.price) <= before.len(),
{
    let side = order.side;
    let k = rest_index(before, side, order.price) as int;
    lemma_rest_index_splits(before, side, order.price);
    let after = before.insert(k, order);
    assert forall|a: int, b: int| 0 <= a < b < after.len() implies stays_ahead(
        side,
        after[a].price,
        after[b].price,
    ) by {
        if b < k {
        } else if a > k {
            assert(after[a] == before[a - 1]);
            assert(after[b] == before[b - 1]);
        } else if a == k {
            assert(after[b] == before[b - 1]);
        } else if b == k {
        } else {
            assert(after[b] == before[b - 1]);
        }
    }
    assert forall|a: int| 0 <= a < after.len() implies (#[trigger] after[a]).quantity > 0 by {
        if a < k {
            assert(after[a] == before[a]);
        } else if a > k {
            assert(after[a] == before[a - 1]);
        }
    }
    assert forall|a: int| 0 <= a < after.len() implies (#[trigger] after[a]).side == side by {
        if a < k {
            assert(after[a] == before[a]);
        } else if a > k {
            assert(after[a] == before[a - 1]);
        }
    }
}

/// An order with an open quantity and a fresh identifier that comes to rest keeps a
/// book well formed.
pub proof fn lemma_rest_wf(book: BookView, order: OrderView, bound: nat)
    requires
        book.wf(),
        order.quantity > 0,
        book.can_rest(order),
    ensures
        book.rest(order).wf(),
        book.ids_unique_below(bound) && order.id == bound ==> book.rest(order).ids_unique_below(
            bound + 1,
        ),
{
    let before = book.side(order.side);
    let others = book.side(order.side.spec_opposite());
    let k = rest_index(before, order.side, order.price) as int;
    lemma_insert_side(before, order);
    lemma_insert_uncrossed(before, k, order, others);
    if book.ids_unique_below(bound) && order.id == bound {
        lemma_insert_ids(before, k, order, bound);
        lemma_insert_apart(before, k, order, bound, others);
    }
}

/// An order that could trade with none of the other side keeps the book uncrossed
/// wherever it is put on its side.
pub proof fn lemma_insert_uncrossed(
    before: Seq<OrderView>,
    k: int,
    order: OrderView,
    others: Seq<OrderView>,
)
    requires
        0 <= k <= before.len(),
        crosses_none(others, order.side, order.price),
    ensures
        order.side == Side::Bid && uncrossed(before, others) ==> uncrossed(
            before.insert(k, order),
            others,
        ),
        order.side == Side::Ask && uncrossed(others, before) ==> uncrossed(
            others,
            before.insert(k, order),
        ),
{
    let after = before.insert(k, order);
    if order.side == Side::Bid && uncrossed(before, others) {
        assert forall|a: int, b: int| 0 <= a < after.len() && 0 <= b < others.len() implies after[a].price
            < others[b].price by {
            if a < k {
                assert(after[a] == before[a]);
            } else if a > k {
                assert(after[a] == before[a - 1]);
            } else {
                assert(!crosses(order.side, order.price, others[b].price));
            }
        }
    }
    if order.side == Side::Ask && uncrossed(others, before) {
        assert forall|b: int, a: int| 0 <= b < others.len() && 0 <= a < after.len() implies others[b].price
            < after[a].price by {
            if a < k {
                assert(after[a] == before[a]);
            } else if a > k {
                assert(after[a] == before[a - 1]);
            } else {
                assert(!crosses(order.side, order.price, others[b].price));
            }
        }
    }
}

/// What is left of an incoming order after matching could trade with none of the
/// resting orders that are left, so that it may come to rest.
pub proof fn lemma_remainder_can_rest(book: BookView, taker: Side, limit: nat, want: nat)
    requires
        book.wf(),
    ensures
        book.matching(taker, limit, want).remaining > 0 ==> crosses_none(
            book.matching(taker, limit, want).makers,
            taker,
            limit,
        ),
{
    let opposite = taker.spec_opposite();
    let makers = book.side(opposite);
    let m = match_against(makers, taker, limit, want);
    law_best_first(makers, taker, limit, want);
    lemma_match_side(makers, taker, limit, want, opposite, 0, book.side(taker));
    if m.remaining > 0 {
        assert forall|j: int| 0 <= j < m.makers.len() implies !crosses(
            taker,
            limit,
            (#[trigger] m.makers[j]).price,
        ) by {
            assert(!crosses(taker, limit, m.makers[0].price));
            if j > 0 {
                assert(stays_ahead(opposite, m.makers[0].price, m.makers[j].price));
            }
        }
    }
}

/// Matching an incoming order keeps a book well formed, with no identifier that was
/// not there.
pub proof fn lemma_matching_wf(book: BookView, taker: Side, limit: nat, want: nat, bound: nat)
    requires
        book.wf(),
    ensures
        book.with_side(taker.spec_opposite(), book.matching(taker, limit, want).makers).wf(),
        book.ids_unique_below(bound) ==> book.with_side(
            taker.spec_opposite(),
            book.matching(taker, limit, want).makers,
        ).ids_unique_below(bound),
{
    let opposite = taker.spec_opposite();
    lemma_match_side(book.side(opposite), taker, limit, want, opposite, bound, book.side(taker));
}

/// A submission keeps a market well formed.
pub proof fn lemma_place_order_wf(
    s: MarketView,
    market: Seq<char>,
    owner: Seq<char>,
    side: Side,
    price: nat,
    quantity: nat,
    now: nat,
    fee_bps: nat,
    expire_ts: Option<nat>,
)
    requires
        s.wf(),
    ensures
        s.place_order(market, owner, side, price, quantity, now, fee_bps, expire_ts).0.wf(),
{
    let swept = s.sweep(now, market);
    lemma_evict_wf(s, expired_at(now), EventType::Expire, now, market);
    let id = swept.next_order_id;
    let asset = locked_asset(side);
    let needed = locked_amount(side, price, quantity);
    if quantity == 0 {
        lemma_ids_below_more(swept.book, id);
    } else if swept.clearing.ledger.balance(owner, asset) < needed {
    } else {
        let m = swept.book.matching(side, price, quantity);
        lemma_matching_wf(swept.book, side, price, quantity, id);
        lemma_debit_holds(swept.clearing.ledger, owner, asset, needed);
        let locked = ClearingView {
            ledger: swept.clearing.ledger.debit(owner, asset, needed),
            ..swept.clearing
        };
        lemma_settle(locked, m.fills, owner, side, id, now, fee_bps, market);
        let traded_book = swept.book.with_side(side.spec_opposite(), m.makers);
        let traded = locked.settle(m.fills, owner, side, id, now, fee_bps, market);
        if m.remaining > 0 {
            let residual = OrderView { id, owner, side, price, quantity: m.remaining, expire_ts };
            lemma_remainder_can_rest(swept.book, side, price, quantity);
            lemma_rest_wf(traded_book, residual, id);
            lemma_credit(traded, owner, asset, locked_amount(side, price, m.remaining));
        } else {
            lemma_ids_below_more(traded_book, id);
        }
    }
}

/// Identifiers below a bound are below the next one too.
pub proof fn lemma_ids_below_more(book: BookView, bound: nat)
    requires
        book.ids_unique_below(bound),
    ensures
        book.ids_unique_below(bound + 1),
{
}

/// Submitting orders anew keeps a market well formed.
pub proof fn lemma_replay_wf(
    s: MarketView,
    orders: Seq<OrderView>,
    side: Side,
    now: nat,
    fee_bps: nat,
    market: Seq<char>,
)
    requires
        s.wf(),
    ensures
        s.replay(orders, side, now, fee_bps, market).wf(),
    decreases orders.len(),
{
    if orders.len() > 0 {
        let o = orders[0];
        lemma_place_order_wf(s, market, o.owner, side, o.price, o.quantity, now, fee_bps, o.expire_ts);
        lemma_replay_wf(
            s.place_order(market, o.owner, side, o.price, o.quantity, now, fee_bps, o.expire_ts).0,
            orders.drop_first(),
            side,
            now,
            fee_bps,
            market,
        );
    }
}

/// A batch match keeps a market well formed.
pub proof fn lemma_batch_match_wf(
    s: MarketView,
    side: Side,
    n: nat,
    now: nat,
    fee_bps: nat,
    market: Seq<char>,
)
    requires
        s.wf(),
    ensures
        s.batch_match(side, n, now, fee_bps, market).wf(),
{
    let swept = s.sweep(now, market);
    lemma_evict_wf(s, expired_at(now), EventType::Expire, now, market);
    lemma_replay_wf(swept, swept.batch(side, n), side, now, fee_bps, market);
}

/// A deposit keeps a market well formed.
pub proof fn lemma_deposit_wf(s: MarketView, user: Seq<char>, base: nat, quote: nat)
    requires
        s.wf(),
    ensures
        s.deposit(user, base, quote).wf(),
{
    lemma_credit(s.clearing, user, Asset::Base, base);
    lemma_credit(
        s.clearing.credit(user, Asset::Base, base),
        user,
        Asset::Quote,
        quote,
    );
}

/// A read of the log keeps a market well formed.
pub proof fn lemma_consume_wf(s: MarketView, consumer: Seq<char>, max: nat)
    requires
        s.wf(),
    ensures
        (MarketView {
            clearing: ClearingView { log: s.clearing.log.consume(consumer, max), ..s.clearing },
            ..s
        }).wf(),
{
    let log = s.clearing.log;
    lemma_with_position(log, consumer, log.position(consumer) + log.batch_len(consumer, max));
}

} // verus!
