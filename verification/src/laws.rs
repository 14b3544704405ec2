//! What holds of the engine as a whole, over the states that its operations lead through.
use vstd::prelude::*;

use crate::clock::is_clock_time;
use crate::limits::{MAX_ORDER_PRICE, MAX_ORDER_QTY};
use crate::matching::{
    after_fill, crosses, filled_qty, goes_on, head_fill, lemma_walk, reports, settle, walk,
    Fill,
};
use crate::model::{budget, refusal, EngineView};
use crate::queue::{
    behind, better_price, holds, in_priority_order, lemma_behind, lemma_level_insert,
    lemma_level_remove, lemma_level_update, lemma_order, lemma_rests, position, precedes,
    reduced, slot_free, total_qty, BookView,
};
use crate::types::{
    NewOrder, OrderId, OrderStatus, OrderType, RestingOrder, Side, SubmitResult, Trade,
};
use crate::upkeep::{
    lemma_cancelled_wf, lemma_matched_queue, lemma_matched_records, lemma_matched_rests,
    lemma_new_id, lemma_resting_fits, lemma_submitted_wf, makers_gone, same_place,
};

verus! {

/// The quantity that the trades add up to.
pub open spec fn traded_qty(trades: Seq<Trade>) -> nat
    decreases trades.len(),
{
    if trades.len() == 0 {
        0
    } else {
        trades[0].qty as nat + traded_qty(trades.drop_first())
    }
}

/// No bid reaches an ask.
pub open spec fn uncrossed(book: BookView) -> bool {
    forall|i: int, j: int|
        0 <= i < book.bids.len() && 0 <= j < book.asks.len() ==> (#[trigger] book.bids[i]).price < (
        #[trigger] book.asks[j]).price
}

/// The request touches the resting order with this id.
pub open spec fn touches(state: EngineView, request: NewOrder, id: u64) -> bool {
    exists|i: int|
        0 <= i < state.matching(request).fills.len() && (#[trigger] state.matching(
            request,
        ).fills[i]).maker.0 == id
}

// ---------------------------------------------------------------------------------------------
// Matching
// ---------------------------------------------------------------------------------------------
/// Price-time priority: an order is touched only once every order of its side that precedes it
/// was filled to the last and has left the book.
pub proof fn law_price_time_priority(state: EngineView, request: NewOrder, i: int, j: int)
    requires
        state.wf(),
        refusal(request) is None,
        state.has_room(request),
        0 <= i < state.book.side(request.side.opposite()).len(),
        0 <= j < state.book.side(request.side.opposite()).len(),
        precedes(
            request.side.opposite(),
            state.book.side(request.side.opposite())[i],
            state.book.side(request.side.opposite())[j],
        ),
        touches(state, request, state.book.side(request.side.opposite())[j].id.0),
    ensures
        ({
            let first = state.book.side(request.side.opposite())[i].id.0;
            &&& touches(state, request, first)
            &&& !state.submitted(request).book.rests(first)
            &&& state.submitted(request).orders[first].status == OrderStatus::Filled
        }),
{
    let q = state.book.side(request.side.opposite());
    let w = state.matching(request);
    let other = request.side.opposite();
    lemma_matched_queue(state, request);
    lemma_matched_records(state, request);
    let k = choose|k: int| 0 <= k < w.fills.len() && (#[trigger] w.fills[k]).maker.0 == q[j].id.0;
    assert(w.fills[k].maker == q[k].id);
    assert(j == k);
    if j < i {
        assert(precedes(other, q[j], q[i]));
    }
    assert(i < j);
    assert(w.fills[i].maker == q[i].id);
    lemma_order(state.book, other, i);
    lemma_submitted_rests(state, request, q[i].id.0);
    assert(w.fills[i].qty == q[i].qty_remaining);
    assert(state.backed(state.book.side(other)[i]));
    lemma_new_id(state);
}

/// What rests after a request: what did, but the makers filled to the last, and the request's
/// own order where something of a limit order is left.
pub proof fn lemma_submitted_rests(state: EngineView, request: NewOrder, id: u64)
    requires
        state.wf(),
        refusal(request) is None,
        state.has_room(request),
    ensures
        ({
            let q = state.book.side(request.side.opposite());
            let left = holds(q, id) && position(q, id) < makers_gone(state, request);
            state.submitted(request).book.rests(id) <==> (state.book.rests(id) && !left) || (
            state.will_rest(request) && id == state.new_id().0)
        }),
{
    lemma_matched_rests(state, request, id);
    if state.will_rest(request) {
        lemma_resting_fits(state, request);
        crate::queue::lemma_with_order_rests(
            state.matched_book(request),
            state.submit_resting(request),
            id,
        );
    }
}

/// Matching takes from the head of the queue alone: the makers that leave are the first ones,
/// and every other order keeps its place, its price and its time, also one filled in part.
pub proof fn law_others_keep_their_place(state: EngineView, request: NewOrder, i: int)
    requires
        state.wf(),
        0 <= i < state.submitted(request).book.side(request.side.opposite()).len(),
    ensures
        ({
            let before = state.book.side(request.side.opposite());
            let after = state.submitted(request).book.side(request.side.opposite());
            let gone = before.len() - after.len();
            &&& 0 <= gone <= before.len()
            &&& same_place(after[i], before[i + gone])
            &&& i > 0 ==> after[i] == before[i + gone]
        }),
{
    lemma_matched_queue(state, request);
    let w = state.matching(request);
    let q = state.book.side(request.side.opposite());
    let gone = makers_gone(state, request);
    assert(state.submitted(request).book.side(request.side.opposite()) == w.queue);
    assert(same_place(w.queue[i], q[i + gone]));
}

/// Every trade is at the price of the resting order, and within the limit of the incoming one.
pub proof fn law_trades_within_limit(
    state: EngineView,
    request: NewOrder,
    result: SubmitResult,
    i: int,
)
    requires
        state.submit_reported(request, result),
        0 <= i < result.trades@.len(),
    ensures
        ({
            let maker = state.book.side(request.side.opposite())[i];
            &&& result.trades@[i].maker_order_id == maker.id
            &&& result.trades@[i].price == maker.price
            &&& result.trades@[i].qty <= maker.qty_remaining
            &&& crosses(request.side, request.order_type, result.trades@[i].price)
        }),
{
    let w = state.matching(request);
    lemma_walk(
        request.side,
        request.order_type,
        state.book.side(request.side.opposite()),
        request.qty,
        budget(request),
    );
    assert(w.fills[i].maker == result.trades@[i].maker_order_id);
}

/// Nothing is lost: what was asked for has traded, remains or was cancelled, and the trades add
/// up to what has traded.
pub proof fn law_quantity_conserved(state: EngineView, request: NewOrder, result: SubmitResult)
    requires
        state.submit_reported(request, result),
    ensures
        request.qty == result.filled_qty + result.remaining_qty + result.cancelled_qty,
        traded_qty(result.trades@) == result.filled_qty,
{
    let w = state.matching(request);
    lemma_walk(
        request.side,
        request.order_type,
        state.book.side(request.side.opposite()),
        request.qty,
        budget(request),
    );
    lemma_traded(result.trades@, w.fills, state.new_id(), state.next_trade_id);
}

proof fn lemma_traded(trades: Seq<Trade>, fills: Seq<Fill>, taker: OrderId, first: nat)
    requires
        reports(trades, fills, taker, first),
    ensures
        traded_qty(trades) == filled_qty(fills),
    decreases trades.len(),
{
    if trades.len() > 0 {
        assert(trades[0].qty == fills[0].qty);
        let t = trades.drop_first();
        let f = fills.drop_first();
        assert forall|i: int| 0 <= i < t.len() implies {
            &&& (#[trigger] t[i]).id == first + 1 + i
            &&& t[i].taker_order_id == taker
            &&& t[i].maker_order_id == f[i].maker
            &&& t[i].price == f[i].price
            &&& t[i].qty == f[i].qty
            &&& is_clock_time(t[i].timestamp_ns)
        } by {
            assert(t[i] == trades[i + 1]);
            assert(f[i] == fills[i + 1]);
        }
        lemma_traded(t, f, taker, first + 1);
    }
}

/// A request touches no more makers than it may.
pub proof fn law_matches_bounded(state: EngineView, request: NewOrder, result: SubmitResult)
    requires
        state.submit_reported(request, result),
    ensures
        result.trades@.len() <= budget(request),
{
    lemma_walk(
        request.side,
        request.order_type,
        state.book.side(request.side.opposite()),
        request.qty,
        budget(request),
    );
}

/// Matching goes on for as long as it can: where quantity is left and another maker could have
/// been touched, no order of the other side is within the limit.
pub proof fn law_matching_exhaustive(state: EngineView, request: NewOrder, i: int)
    requires
        state.wf(),
        state.matching(request).remaining > 0,
        state.matching(request).fills.len() < budget(request),
        0 <= i < state.submitted(request).book.side(request.side.opposite()).len(),
    ensures
        !crosses(
            request.side,
            request.order_type,
            state.submitted(request).book.side(request.side.opposite())[i].price,
        ),
{
    let other = request.side.opposite();
    let q = state.book.side(other);
    let r = state.matching(request).queue;
    lemma_walk(request.side, request.order_type, q, request.qty, budget(request));
    lemma_matched_queue(state, request);
    assert(state.submitted(request).book.side(other) == r);
    if i > 0 {
        assert(precedes(other, r[0], r[i]));
    }
}

/// What trades leaves the other side of the book, and what rests joins the order's own side:
/// no other quantity appears or goes.
pub proof fn law_book_conserved(state: EngineView, request: NewOrder)
    requires
        state.wf(),
        refusal(request) is None,
        state.has_room(request),
    ensures
        ({
            let next = state.submitted(request).book;
            let w = state.matching(request);
            let other = request.side.opposite();
            &&& total_qty(next.side(other)) + (request.qty - w.remaining) == total_qty(
                state.book.side(other),
            )
            &&& total_qty(next.side(request.side)) == total_qty(state.book.side(request.side))
                + if state.will_rest(request) {
                w.remaining
            } else {
                0
            }
        }),
{
    let other = request.side.opposite();
    let q = state.book.side(other);
    lemma_walk(request.side, request.order_type, q, request.qty, budget(request));
    lemma_walk_total(request.side, request.order_type, q, request.qty, budget(request));
    if state.will_rest(request) {
        lemma_resting_fits(state, request);
        let o = state.submit_resting(request);
        let own = state.book.side(request.side);
        lemma_level_insert(own, own.len() - behind(request.side, own, o), o, 0);
    }
}

proof fn lemma_walk_total(
    side: Side,
    order_type: OrderType,
    q: Seq<RestingOrder>,
    qty: u64,
    budget: nat,
)
    ensures
        ({
            let w = walk(side, order_type, q, qty, budget);
            total_qty(w.queue) + filled_qty(w.fills) == total_qty(q)
        }),
    decreases budget,
{
    if goes_on(side, order_type, q, qty, budget) {
        let fill = head_fill(q, qty);
        let left = after_fill(q, fill);
        let rest = walk(side, order_type, left, (qty - fill) as u64, (budget - 1) as nat);
        lemma_walk_total(side, order_type, left, (qty - fill) as u64, (budget - 1) as nat);
        assert(walk(side, order_type, q, qty, budget).fills.drop_first() =~= rest.fills);
        if fill == q[0].qty_remaining {
            lemma_level_remove(q, 0, 0);
            assert(q.remove(0) =~= q.drop_first());
        } else {
            lemma_level_update(q, 0, reduced(q[0], fill), 0);
        }
    }
}

/// Whether the request comes to rest against an order that it could have traded with.
pub open spec fn rests_against_better(state: EngineView, request: NewOrder) -> bool {
    let w = state.matching(request);
    state.will_rest(request) && w.queue.len() > 0 && crosses(
        request.side,
        request.order_type,
        w.queue[0].price,
    )
}

/// An uncrossed book stays uncrossed, but where a limit order has touched as many makers as it
/// may and rests though it could trade on.
pub proof fn law_stays_uncrossed(state: EngineView, request: NewOrder)
    requires
        state.wf(),
        refusal(request) is None,
        state.has_room(request),
        uncrossed(state.book),
    ensures
        uncrossed(state.submitted(request).book) <==> !rests_against_better(state, request),
        state.matching(request).fills.len() < budget(request) ==> !rests_against_better(
            state,
            request,
        ),
{
    let other = request.side.opposite();
    let q = state.book.side(other);
    let r = state.matching(request).queue;
    let own = state.book.side(request.side);
    let gone = makers_gone(state, request);
    let next = state.submitted(request).book;
    lemma_walk(request.side, request.order_type, q, request.qty, budget(request));
    lemma_matched_queue(state, request);
    lemma_apart(state.book, request.side);
    lemma_apart(next, request.side);
    lemma_apart_part(request.side, own, q, r, gone);
    if state.will_rest(request) {
        lemma_resting_fits(state, request);
        let o = state.submit_resting(request);
        let k = own.len() - behind(request.side, own, o);
        assert(next.side(request.side) == own.insert(k, o));
        assert(in_priority_order(other, r));
        lemma_apart_insert(request.side, own, k, o, r);
    }
}

/// No order of `own`, of `side`, may trade with one of `others`.
spec fn apart(side: Side, own: Seq<RestingOrder>, others: Seq<RestingOrder>) -> bool {
    forall|i: int, j: int|
        0 <= i < own.len() && 0 <= j < others.len() ==> !may_trade(
            side,
            #[trigger] own[i],
            #[trigger] others[j],
        )
}

/// The limit of `a`, of `side`, is within the price of `b`.
spec fn may_trade(side: Side, a: RestingOrder, b: RestingOrder) -> bool {
    crosses(side, OrderType::Limit { price: a.price }, b.price)
}

proof fn lemma_apart(book: BookView, side: Side)
    ensures
        uncrossed(book) <==> apart(side, book.side(side), book.side(side.opposite())),
{
    if uncrossed(book) {
        assert forall|i: int, j: int|
            0 <= i < book.side(side).len() && 0 <= j < book.side(side.opposite()).len() implies
            !may_trade(
                side,
                #[trigger] book.side(side)[i],
                #[trigger] book.side(side.opposite())[j],
            ) by {
            match side {
                Side::Bid => {
                    assert(book.bids[i].price < book.asks[j].price);
                },
                Side::Ask => {
                    assert(book.bids[j].price < book.asks[i].price);
                },
            }
        }
    }
    if apart(side, book.side(side), book.side(side.opposite())) {
        assert forall|i: int, j: int|
            0 <= i < book.bids.len() && 0 <= j < book.asks.len() implies (
        #[trigger] book.bids[i]).price < (#[trigger] book.asks[j]).price by {
            match side {
                Side::Bid => {
                    assert(!may_trade(
                        side,
                        book.side(side)[i],
                        book.side(side.opposite())[j],
                    ));
                },
                Side::Ask => {
                    assert(!may_trade(
                        side,
                        book.side(side)[j],
                        book.side(side.opposite())[i],
                    ));
                },
            }
        }
    }
}

proof fn lemma_apart_part(
    side: Side,
    own: Seq<RestingOrder>,
    q: Seq<RestingOrder>,
    r: Seq<RestingOrder>,
    gone: int,
)
    requires
        apart(side, own, q),
        0 <= gone,
        r.len() + gone == q.len(),
        forall|i: int| 0 <= i < r.len() ==> same_place(#[trigger] r[i], q[i + gone]),
    ensures
        apart(side, own, r),
{
    assert forall|i: int, j: int| 0 <= i < own.len() && 0 <= j < r.len() implies !may_trade(
        side,
        #[trigger] own[i],
        #[trigger] r[j],
    ) by {
        assert(same_place(r[j], q[j + gone]));
        assert(!may_trade(side, own[i], q[j + gone]));
    }
}

proof fn lemma_apart_insert(
    side: Side,
    own: Seq<RestingOrder>,
    k: int,
    o: RestingOrder,
    r: Seq<RestingOrder>,
)
    requires
        apart(side, own, r),
        0 <= k <= own.len(),
        in_priority_order(side.opposite(), r),
    ensures
        apart(side, own.insert(k, o), r) <==> r.len() == 0 || !may_trade(side, o, r[0]),
{
    let after = own.insert(k, o);
    if r.len() > 0 && may_trade(side, o, r[0]) {
        assert(after[k] == o);
    } else {
        assert forall|i: int, j: int| 0 <= i < after.len() && 0 <= j < r.len() implies !may_trade(
            side,
            #[trigger] after[i],
            #[trigger] r[j],
        ) by {
            if i == k {
                if j > 0 {
                    assert(precedes(side.opposite(), r[0], r[j]));
                }
            } else {
                let z = if i < k {
                    i
                } else {
                    i - 1
                };
                assert(after[i] == own[z]);
            }
        }
    }
}

/// A cancellation keeps an uncrossed book uncrossed.
pub proof fn law_cancel_stays_uncrossed(state: EngineView, id: u64)
    requires
        state.wf(),
        state.book.rests(id),
        uncrossed(state.book),
    ensures
        uncrossed(state.cancelled(id).book),
{
    let side = state.book.order(id).side;
    let p = position(state.book.side(side), id);
    lemma_rests(state.book, id);
    let next = state.cancelled(id).book;
    assert forall|i: int, j: int| 0 <= i < next.bids.len() && 0 <= j < next.asks.len() implies (
    #[trigger] next.bids[i]).price < (#[trigger] next.asks[j]).price by {
        let x = if side == Side::Bid && i >= p {
            i + 1
        } else {
            i
        };
        let y = if side == Side::Ask && j >= p {
            j + 1
        } else {
            j
        };
        assert(next.bids[i] == state.book.bids[x]);
        assert(next.asks[j] == state.book.asks[y]);
    }
}

/// First come, first served: a new order stands behind every order of its side at its price,
/// and no order that was there before changes places.
pub proof fn law_newcomer_goes_last(state: EngineView, request: NewOrder, i: int)
    requires
        state.wf(),
        refusal(request) is None,
        state.has_room(request),
        state.will_rest(request),
        0 <= i < state.book.side(request.side).len(),
    ensures
        ({
            let o = state.submit_resting(request);
            let before = state.book.side(request.side);
            let after = state.submitted(request).book.side(request.side);
            let k = position(after, o.id.0);
            &&& after.remove(k) == before
            &&& after[k] == o
            &&& before[i].price == o.price || better_price(request.side, before[i].price, o.price)
                ==> i < k
            &&& better_price(request.side, o.price, before[i].price) ==> i >= k
        }),
{
    let o = state.submit_resting(request);
    let own = state.book.side(request.side);
    lemma_resting_fits(state, request);
    lemma_behind(request.side, own, o);
    let k = own.len() - behind(request.side, own, o);
    let after = state.submitted(request).book.side(request.side);
    assert(after == own.insert(k, o));
    assert(after[k] == o);
    lemma_submitted_wf(state, request);
    lemma_order(state.submitted(request).book, request.side, k);
    assert(after.remove(k) =~= own);
    assert(state.backed(state.book.side(request.side)[i]));
    assert(precedes(request.side, own[i], o) || precedes(request.side, o, own[i]));
}

/// Taking out an order that was just put in gives that order, and the book as it was before: all
/// that is told of the book is told of these queues.
pub proof fn law_remove_undoes_insert(book: BookView, order: RestingOrder)
    requires
        book.wf(),
        !book.rests(order.id.0),
        slot_free(book.side(order.side), order.price, order.sequence),
    ensures
        book.with_order(order).rests(order.id.0),
        book.with_order(order).order(order.id.0) == order,
        book.with_order(order).without(order.id.0) == book,
{
    let side = order.side;
    let q = book.side(side);
    let k = q.len() - behind(side, q, order);
    let r = q.insert(k, order);
    lemma_behind(side, q, order);
    assert(book.with_order(order).side(side) == r);
    assert(r[k] == order);
    assert forall|i: int| 0 <= i < r.len() && (#[trigger] r[i]).id.0 == order.id.0 implies i == k by {
        if i < k {
            assert(r[i] == q[i]);
        } else if i > k {
            assert(r[i] == q[i - 1]);
        }
    }
    assert(holds(r, order.id.0));
    assert(position(r, order.id.0) == k);
    assert(r.remove(k) =~= q);
}

// ---------------------------------------------------------------------------------------------
// Orders and their records
// ---------------------------------------------------------------------------------------------
/// Cancelling what has just come to rest leaves the book as matching has left it; where nothing
/// has traded, as it was before the request.
pub proof fn law_cancel_undoes_rest(state: EngineView, request: NewOrder)
    requires
        state.wf(),
        refusal(request) is None,
        state.has_room(request),
        state.will_rest(request),
    ensures
        state.submitted(request).book.rests(state.new_id().0),
        state.submitted(request).cancelled(state.new_id().0).book == state.matched_book(request),
        state.matching(request).fills.len() == 0 ==> state.submitted(request).cancelled(
            state.new_id().0,
        ).book == state.book,
{
    let o = state.submit_resting(request);
    let matched = state.matched_book(request);
    let own = matched.side(request.side);
    let next = state.submitted(request);
    lemma_resting_fits(state, request);
    lemma_submitted_wf(state, request);
    let k = own.len() - behind(request.side, own, o);
    assert(next.book.side(request.side) == own.insert(k, o));
    lemma_order(next.book, request.side, k);
    assert(own.insert(k, o).remove(k) =~= own);
    let q = state.book.side(request.side.opposite());
    lemma_walk(request.side, request.order_type, q, request.qty, budget(request));
    assert(q.skip(0) =~= q);
}

/// A cancelled order does not rest, has nothing left, and is not to be cancelled again.
pub proof fn law_cancelled_stays_cancelled(state: EngineView, id: u64)
    requires
        state.wf(),
        state.book.rests(id),
    ensures
        state.cancelled(id).orders.contains_key(id),
        !state.cancelled(id).book.rests(id),
        state.cancelled(id).orders[id].status == OrderStatus::Cancelled,
        state.cancelled(id).orders[id].qty_remaining == 0,
{
    lemma_cancelled_wf(state, id);
}

/// An order rests, and can be cancelled, exactly while it is new or a limit order filled in
/// part. So a filled, cancelled or rejected order is never in the book.
pub proof fn law_resting_iff_live(state: EngineView, id: u64)
    requires
        state.wf(),
        state.orders.contains_key(id),
    ensures
        state.book.rests(id) <==> state.orders[id].status == OrderStatus::New || (
        state.orders[id].status == OrderStatus::PartiallyFilled
            && state.orders[id].order_type is Limit),
        state.book.rests(id) <==> state.orders[id].qty_remaining > 0,
{
    if state.book.rests(id) {
        lemma_rests(state.book, id);
        let side = state.book.order(id).side;
        assert(state.backed(state.book.side(side)[position(state.book.side(side), id)]));
    }
}

/// Whatever rests is known, with the same side, price and quantity left.
pub proof fn law_book_agrees_with_records(state: EngineView, id: u64)
    requires
        state.wf(),
        state.book.rests(id),
    ensures
        state.orders.contains_key(id),
        state.orders[id].side == state.book.order(id).side,
        state.orders[id].order_type == (OrderType::Limit { price: state.book.order(id).price }),
        state.orders[id].qty_remaining == state.book.order(id).qty_remaining,
{
    lemma_rests(state.book, id);
    let side = state.book.order(id).side;
    assert(state.backed(state.book.side(side)[position(state.book.side(side), id)]));
}

/// The id given to an order was never given before, and the next one is another.
pub proof fn law_ids_are_fresh(state: EngineView, request: NewOrder)
    requires
        state.wf(),
        refusal(request) is None,
        state.has_room(request),
    ensures
        !state.orders.contains_key(state.new_id().0),
        state.submitted(request).orders.contains_key(state.new_id().0),
        state.submitted(request).next_order_id == state.next_order_id + 1,
        forall|id: u64| #[trigger]
            state.orders.contains_key(id) ==> state.submitted(request).orders.contains_key(id),
{
    lemma_new_id(state);
    lemma_matched_records(state, request);
    assert forall|id: u64| #[trigger] state.orders.contains_key(id) implies state.submitted(
        request,
    ).orders.contains_key(id) by {
        assert(settle(state.orders, state.matching(request).fills).contains_key(id));
    }
}

/// Trades are numbered one after the other, within a request and from one request to the next,
/// and there are never more of them than orders.
pub proof fn law_trade_ids_run_on(
    state: EngineView,
    request: NewOrder,
    result: SubmitResult,
    i: int,
)
    requires
        state.wf(),
        refusal(request) is None,
        state.has_room(request),
        state.submit_reported(request, result),
        0 <= i < result.trades@.len(),
    ensures
        result.trades@[i].id == state.next_trade_id + i,
        state.submitted(request).next_trade_id == state.next_trade_id + result.trades@.len(),
        state.submitted(request).next_trade_id <= state.submitted(request).next_order_id,
{
    lemma_submitted_wf(state, request);
}

/// A request is in order exactly where its quantity and, for a limit order, its price are
/// positive and within the limits.
pub proof fn law_accepted_within_limits(request: NewOrder)
    ensures
        refusal(request) is None <==> 0 < request.qty <= MAX_ORDER_QTY && (
        request.order_type is Limit ==> 0 < request.order_type->price <= MAX_ORDER_PRICE),
{
}

/// The record of a submitted order repeats the request, with the client's own id, and says of
/// its status and of what is left what the result says. What was cancelled of a market order
/// counts as filled there.
pub proof fn law_record_of_submitted(state: EngineView, request: NewOrder, result: SubmitResult)
    requires
        state.submit_reported(request, result),
    ensures
        ({
            let record = state.submitted(request).record(result.order_id.0);
            &&& record is Some
            &&& record->0.order_id == result.order_id
            &&& record->0.side == request.side
            &&& record->0.order_type == request.order_type
            &&& record->0.qty_original == request.qty
            &&& record->0.client_order_id == request.client_order_id
            &&& record->0.client_order_id == result.client_order_id
            &&& record->0.status == result.status
            &&& record->0.qty_remaining == result.remaining_qty
            &&& record->0.filled_qty == result.filled_qty + result.cancelled_qty
        }),
{
    lemma_walk(
        request.side,
        request.order_type,
        state.book.side(request.side.opposite()),
        request.qty,
        budget(request),
    );
}

/// A request changes no order but its own and those it touches.
pub proof fn law_submit_leaves_others(state: EngineView, request: NewOrder, id: u64)
    requires
        state.wf(),
        refusal(request) is None,
        state.has_room(request),
        id != state.new_id().0,
        !touches(state, request, id),
    ensures
        state.submitted(request).record(id) == state.record(id),
        state.submitted(request).book.rests(id) <==> state.book.rests(id),
        state.book.rests(id) ==> state.submitted(request).book.order(id) == state.book.order(id),
{
    let q = state.book.side(request.side.opposite());
    let w = state.matching(request);
    lemma_matched_queue(state, request);
    lemma_matched_records(state, request);
    lemma_submitted_rests(state, request, id);
    assert(settle(state.orders, w.fills).contains_key(id) <==> state.orders.contains_key(id));
    if holds(q, id) {
        let p = position(q, id);
        assert(q[p].id.0 == id);
        if p < w.fills.len() {
            assert(w.fills[p].maker == q[p].id);
        }
    }
    if state.book.rests(id) {
        lemma_untouched_order(state, request, id);
    }
}

proof fn lemma_untouched_order(state: EngineView, request: NewOrder, id: u64)
    requires
        state.wf(),
        refusal(request) is None,
        state.has_room(request),
        !touches(state, request, id),
        state.book.rests(id),
    ensures
        state.submitted(request).book.order(id) == state.book.order(id),
{
    let other = request.side.opposite();
    let next = state.submitted(request).book;
    let s = state.book.order(id).side;
    let q = state.book.side(s);
    let p = position(q, id);
    lemma_rests(state.book, id);
    lemma_submitted_wf(state, request);
    if s == other {
        let w = state.matching(request);
        let gone = makers_gone(state, request);
        lemma_matched_queue(state, request);
        if p < w.fills.len() {
            assert(w.fills[p].maker == q[p].id);
        }
        assert(w.queue[p - gone] == q[p]);
        assert(next.side(s) == w.queue);
        lemma_order(next, s, p - gone);
    } else if state.will_rest(request) {
        lemma_resting_fits(state, request);
        let o = state.submit_resting(request);
        let k = q.len() - behind(s, q, o);
        let j = if p < k {
            p
        } else {
            p + 1
        };
        assert(next.side(s) == q.insert(k, o));
        assert(next.side(s)[j] == q[p]);
        lemma_order(next, s, j);
    } else {
        assert(next.side(s) == q);
        lemma_order(next, s, p);
    }
}

/// A cancellation changes no other order.
pub proof fn law_cancel_leaves_others(state: EngineView, id: u64, x: u64)
    requires
        state.wf(),
        state.book.rests(id),
        x != id,
    ensures
        state.cancelled(id).record(x) == state.record(x),
        state.cancelled(id).book.rests(x) <==> state.book.rests(x),
        state.book.rests(x) ==> state.cancelled(id).book.order(x) == state.book.order(x),
{
    lemma_cancelled_wf(state, id);
    lemma_rests(state.book, id);
    let next = state.cancelled(id);
    let side = state.book.order(id).side;
    let p = position(state.book.side(side), id);
    if state.book.rests(x) {
        lemma_rests(state.book, x);
        let s = state.book.order(x).side;
        let j = position(state.book.side(s), x);
        let i = if s == side && j > p {
            j - 1
        } else {
            j
        };
        assert(next.book.side(s)[i] == state.book.side(s)[j]);
        lemma_order(next.book, s, i);
    }
}

/// A market order never rests: what it does not trade at once is cancelled, and where it trades
/// nothing it is rejected.
pub proof fn law_market_never_rests(state: EngineView, request: NewOrder, result: SubmitResult)
    requires
        state.wf(),
        refusal(request) is None,
        state.has_room(request),
        request.order_type is Market,
        state.submit_reported(request, result),
    ensures
        !state.submitted(request).book.rests(result.order_id.0),
        result.remaining_qty == 0,
        result.filled_qty + result.cancelled_qty == request.qty,
        result.status == OrderStatus::Rejected <==> result.filled_qty == 0,
        result.reject_reason is Some <==> result.cancelled_qty > 0,
{
    lemma_new_id(state);
    lemma_submitted_rests(state, request, state.new_id().0);
    lemma_walk(
        request.side,
        request.order_type,
        state.book.side(request.side.opposite()),
        request.qty,
        budget(request),
    );
    crate::upkeep::lemma_fill_positive(state, request);
    let w = state.matching(request);
    if w.fills.len() > 0 {
        assert(w.fills[0].qty > 0);
    }
}

} // verus!
