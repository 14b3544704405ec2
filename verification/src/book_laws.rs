//! What a caller of the book can count on, told by what the calls take and give back.
use vstd::prelude::*;

use crate::book::OrderBook;
use crate::engine::{level_delta, level_delta_after_remove, max_matches, trade_with, Engine};
use crate::laws::{law_quantity_conserved, law_remove_undoes_insert};
use crate::matching::price_crosses;
use crate::queue::{
    behind, lemma_behind, lemma_level_insert, lemma_level_remove, lemma_level_update, lemma_order,
    lemma_reduce, lemma_remove, lemma_rests, lemma_with_order, lemma_with_order_rests,
    level_count, level_qty, position, precedes, reduced, slot_free, BookView,
};
use crate::types::{
    BookDelta, BookDeltaKind, BookLevel, NewOrder, OrderBookSnapshot, OrderId, OrderType,
    RestingOrder, Side, SubmitResult, Trade,
};

verus! {

/// The best bid has the highest price, and is the oldest at that price; there is one wherever a
/// bid rests.
pub proof fn law_best_bid(
    book: OrderBook,
    best: Option<OrderId>,
    first: Option<&RestingOrder>,
    id: OrderId,
    order: &RestingOrder,
)
    requires
        book.wf(),
        call_ensures(OrderBook::best_bid_id, (&book,), best),
        best matches Some(b) ==> call_ensures(OrderBook::get, (&book, b), first),
        call_ensures(OrderBook::get, (&book, id), Some(order)),
        order.side == Side::Bid,
    ensures
        best is Some,
        first is Some,
        first->0.id == best->0,
        first->0.side == Side::Bid,
        id == best->0 || first->0.price > order.price || (first->0.price == order.price
            && first->0.sequence < order.sequence),
{
    lemma_best(book, Side::Bid, id);
}

/// The best ask has the lowest price, and is the oldest at that price; there is one wherever an
/// ask rests.
pub proof fn law_best_ask(
    book: OrderBook,
    best: Option<OrderId>,
    first: Option<&RestingOrder>,
    id: OrderId,
    order: &RestingOrder,
)
    requires
        book.wf(),
        call_ensures(OrderBook::best_ask_id, (&book,), best),
        best matches Some(b) ==> call_ensures(OrderBook::get, (&book, b), first),
        call_ensures(OrderBook::get, (&book, id), Some(order)),
        order.side == Side::Ask,
    ensures
        best is Some,
        first is Some,
        first->0.id == best->0,
        first->0.side == Side::Ask,
        id == best->0 || first->0.price < order.price || (first->0.price == order.price
            && first->0.sequence < order.sequence),
{
    lemma_best(book, Side::Ask, id);
}

proof fn lemma_best(book: OrderBook, side: Side, id: OrderId)
    requires
        book.wf(),
        book@.rests(id.0),
        book@.order(id.0).side == side,
    ensures
        ({
            let q = book@.side(side);
            &&& q.len() > 0
            &&& book@.rests(q[0].id.0)
            &&& book@.order(q[0].id.0) == q[0]
            &&& q[0].side == side
            &&& q[0].id.0 == id.0 || precedes(side, q[0], book@.order(id.0))
        }),
{
    let q = book@.side(side);
    book.lemma_wf();
    lemma_rests(book@, id.0);
    lemma_order(book@, side, 0);
    let p = position(q, id.0);
    if p > 0 {
        assert(precedes(side, q[0], q[p]));
    }
}

/// A new book holds nothing.
pub proof fn law_new_book(
    book: OrderBook,
    id: OrderId,
    order: Option<&RestingOrder>,
    bid: Option<OrderId>,
    ask: Option<OrderId>,
)
    requires
        call_ensures(OrderBook::new, (), book),
        call_ensures(OrderBook::get, (&book, id), order),
        call_ensures(OrderBook::best_bid_id, (&book,), bid),
        call_ensures(OrderBook::best_ask_id, (&book,), ask),
    ensures
        book.wf(),
        order is None,
        bid is None,
        ask is None,
{
}

/// An order put in is found as it was put in, its level gains it, and nothing else changes.
pub proof fn law_insert(
    book: &mut OrderBook,
    order: RestingOrder,
    id: OrderId,
    before: Option<&RestingOrder>,
    after: Option<&RestingOrder>,
    side: Side,
    price: u64,
)
    requires
        old(book).wf(),
        !old(book)@.rests(order.id.0),
        slot_free(old(book)@.side(order.side), order.price, order.sequence),
        call_ensures(OrderBook::insert, (book, order), ()),
        call_ensures(OrderBook::get, (&*old(book), id), before),
        call_ensures(OrderBook::get, (&*final(book), id), after),
    ensures
        id == order.id ==> before is None && after == Some(&order),
        id != order.id ==> after == before,
        ({
            let here = side == order.side && price == order.price;
            &&& level_qty(final(book)@.side(side), price) == level_qty(old(book)@.side(side), price)
                + if here {
                order.qty_remaining as nat
            } else {
                0
            }
            &&& level_count(final(book)@.side(side), price) == level_count(
                old(book)@.side(side),
                price,
            ) + if here {
                1nat
            } else {
                0
            }
        }),
{
    let b = old(book)@;
    let q = b.side(order.side);
    let k = q.len() - behind(order.side, q, order);
    old(book).lemma_wf();
    lemma_behind(order.side, q, order);
    lemma_with_order(b, order);
    lemma_with_order_rests(b, order, id.0);
    lemma_level_insert(q, k, order, price);
    let r = b.with_order(order);
    assert(r.side(order.side) == q.insert(k, order));
    if id == order.id {
        lemma_order(r, order.side, k);
    } else if b.rests(id.0) {
        lemma_rests(b, id.0);
        let s = b.order(id.0).side;
        let p = position(b.side(s), id.0);
        let j = if s == order.side && p >= k {
            p + 1
        } else {
            p
        };
        assert(r.side(s)[j] == b.side(s)[p]);
        lemma_order(r, s, j);
    }
}

/// An order taken out is given back and found no more, its level loses it, and nothing else
/// changes; where there is none, nothing changes at all.
pub proof fn law_remove(
    book: &mut OrderBook,
    gone: OrderId,
    removed: Option<RestingOrder>,
    id: OrderId,
    before: Option<&RestingOrder>,
    after: Option<&RestingOrder>,
    side: Side,
    price: u64,
)
    requires
        old(book).wf(),
        call_ensures(OrderBook::remove, (book, gone), removed),
        call_ensures(OrderBook::get, (&*old(book), id), before),
        call_ensures(OrderBook::get, (&*final(book), id), after),
    ensures
        id == gone ==> after is None && (before is Some <==> removed is Some),
        id == gone && removed is Some ==> *before->0 == removed->0,
        id != gone ==> after == before,
        ({
            let here = removed is Some && side == removed->0.side && price == removed->0.price;
            &&& level_qty(old(book)@.side(side), price) == level_qty(final(book)@.side(side), price)
                + if here {
                removed->0.qty_remaining as nat
            } else {
                0
            }
            &&& level_count(old(book)@.side(side), price) == level_count(
                final(book)@.side(side),
                price,
            ) + if here {
                1nat
            } else {
                0
            }
        }),
{
    let b = old(book)@;
    old(book).lemma_wf();
    if removed is Some {
        lemma_rests(b, gone.0);
        let s0 = b.order(gone.0).side;
        let q = b.side(s0);
        let k = position(q, gone.0);
        lemma_remove(b, s0, k);
        lemma_level_remove(q, k, price);
        lemma_left(b, gone.0, id.0);
    }
}

/// What is left in a book without one of its orders: the others, as they were.
proof fn lemma_left(book: BookView, gone: u64, id: u64)
    requires
        book.wf(),
        book.rests(gone),
    ensures
        book.without(gone).rests(id) <==> book.rests(id) && id != gone,
        book.rests(id) && id != gone ==> book.without(gone).order(id) == book.order(id),
{
    lemma_rests(book, gone);
    let side = book.order(gone).side;
    let k = position(book.side(side), gone);
    let r = book.without(gone);
    lemma_remove(book, side, k);
    if book.rests(id) && id != gone {
        lemma_rests(book, id);
        let s = book.order(id).side;
        let p = position(book.side(s), id);
        let j = if s == side && p > k {
            p - 1
        } else {
            p
        };
        assert(r.side(s)[j] == book.side(s)[p]);
        lemma_order(r, s, j);
    }
    if r.rests(id) {
        lemma_rests(r, id);
        let s = r.order(id).side;
        let j = position(r.side(s), id);
        let p = if s == side && j >= k {
            j + 1
        } else {
            j
        };
        assert(r.side(s)[j] == book.side(s)[p]);
        lemma_order(book, s, p);
        lemma_order(book, side, k);
    }
}

/// An order reduced has less left by what was taken, and so has its level; nothing else changes.
pub proof fn law_reduce(
    book: &mut OrderBook,
    less: OrderId,
    by: u64,
    id: OrderId,
    before: Option<&RestingOrder>,
    after: Option<&RestingOrder>,
    side: Side,
    price: u64,
)
    requires
        old(book).wf(),
        old(book)@.rests(less.0),
        by <= old(book)@.order(less.0).qty_remaining,
        call_ensures(OrderBook::reduce, (book, less, by), ()),
        call_ensures(OrderBook::get, (&*old(book), id), before),
        call_ensures(OrderBook::get, (&*final(book), id), after),
    ensures
        id != less ==> after == before,
        id == less ==> {
            &&& before is Some
            &&& after is Some
            &&& after->0.id == id
            &&& after->0.side == before->0.side
            &&& after->0.price == before->0.price
            &&& after->0.sequence == before->0.sequence
            &&& after->0.qty_remaining == before->0.qty_remaining - by
        },
        ({
            let order = old(book)@.order(less.0);
            let here = side == order.side && price == order.price;
            &&& level_qty(old(book)@.side(side), price) == level_qty(final(book)@.side(side), price)
                + if here {
                by as nat
            } else {
                0
            }
            &&& level_count(old(book)@.side(side), price) == level_count(
                final(book)@.side(side),
                price,
            )
        }),
{
    let b = old(book)@;
    old(book).lemma_wf();
    lemma_rests(b, less.0);
    let s0 = b.order(less.0).side;
    let q = b.side(s0);
    let k = position(q, less.0);
    lemma_reduce(b, s0, k, by);
    lemma_level_update(q, k, reduced(q[k], by), price);
    let r = b.reduced(less.0, by);
    assert(r.side(s0) == q.update(k, reduced(q[k], by)));
    if b.rests(id.0) {
        lemma_rests(b, id.0);
        let s = b.order(id.0).side;
        let p = position(b.side(s), id.0);
        lemma_order(r, s, p);
    }
    if r.rests(id.0) {
        lemma_rests(r, id.0);
        let s = r.order(id.0).side;
        let p = position(r.side(s), id.0);
        lemma_order(b, s, p);
    }
}

/// Taking out what was just put in gives it back, and leaves the book as it was.
pub proof fn law_insert_then_remove(
    book: &mut OrderBook,
    later: &mut OrderBook,
    order: RestingOrder,
    removed: Option<RestingOrder>,
)
    requires
        old(book).wf(),
        !old(book)@.rests(order.id.0),
        slot_free(old(book)@.side(order.side), order.price, order.sequence),
        call_ensures(OrderBook::insert, (book, order), ()),
        *old(later) == *final(book),
        call_ensures(OrderBook::remove, (later, order.id), removed),
    ensures
        removed == Some(order),
        final(later)@ == old(book)@,
{
    old(book).lemma_wf();
    law_remove_undoes_insert(old(book)@, order);
}

/// A level is reported with the price asked for, and what rests there.
pub proof fn law_level(book: OrderBook, side: Side, price: u64, level: BookLevel)
    requires
        book.wf(),
        level_qty(book@.side(side), price) <= u64::MAX,
        level_count(book@.side(side), price) <= u32::MAX,
        call_ensures(OrderBook::level_at_price, (&book, side, price), level),
    ensures
        level.price == price,
        level.qty == level_qty(book@.side(side), price),
        level.order_count == level_count(book@.side(side), price),
{
}

/// A change reports the level as the book reports it. What is taken from a level is an update, or
/// a removal where nothing is left.
pub proof fn law_level_deltas(
    book: OrderBook,
    side: Side,
    price: u64,
    kind: BookDeltaKind,
    level: BookLevel,
    any: BookDelta,
    taken: BookDelta,
)
    requires
        book.wf(),
        level_qty(book@.side(side), price) <= u64::MAX,
        level_count(book@.side(side), price) <= u32::MAX,
        call_ensures(OrderBook::level_at_price, (&book, side, price), level),
        call_ensures(level_delta, (side, price, &book, kind), any),
        call_ensures(level_delta_after_remove, (side, price, &book), taken),
    ensures
        any.kind == kind,
        any.side == side && any.price == price,
        any.qty == level.qty && any.order_count == level.order_count,
        taken.kind == BookDeltaKind::Remove <==> level.order_count == 0,
        taken.kind == BookDeltaKind::Update <==> level.order_count > 0,
        taken.side == side && taken.price == price,
        taken.qty == level.qty && taken.order_count == level.order_count,
{
}

/// The levels of the two sides are those of a snapshot of both.
pub proof fn law_aggregates(
    book: OrderBook,
    depth: usize,
    bids: Vec<BookLevel>,
    asks: Vec<BookLevel>,
    snapshot: OrderBookSnapshot,
    engine: Engine,
    shown: OrderBookSnapshot,
)
    requires
        book.wf(),
        book@.fits(),
        engine.wf(),
        engine@.book == book@,
        call_ensures(OrderBook::aggregate_bids, (&book, depth), bids),
        call_ensures(OrderBook::aggregate_asks, (&book, depth), asks),
        call_ensures(OrderBook::snapshot, (&book, depth), snapshot),
        call_ensures(Engine::snapshot, (&engine, depth), shown),
    ensures
        bids@ == snapshot.bids@,
        asks@ == snapshot.asks@,
        shown.bids@ == snapshot.bids@,
        shown.asks@ == snapshot.asks@,
{
}

/// What would be left of an order is what is left of it, resting or cancelled, once it is
/// submitted.
pub proof fn law_preview(
    book: OrderBook,
    engine: &mut Engine,
    request: NewOrder,
    result: SubmitResult,
    deltas: Vec<BookDelta>,
    most: u32,
    left: u64,
)
    requires
        book.wf(),
        old(engine).wf(),
        old(engine)@.has_room(request),
        old(engine)@.book == book@,
        call_ensures(Engine::submit, (engine, request), Ok((result, deltas))),
        call_ensures(max_matches, (&request,), most),
        call_ensures(
            OrderBook::left_after_matching,
            (&book, request.side, request.order_type, request.qty, most),
            left,
        ),
    ensures
        left == result.remaining_qty + result.cancelled_qty,
        left == request.qty - result.filled_qty,
{
    law_quantity_conserved(old(engine)@, request, result);
}

/// A request may trade with as many orders as it says, or with 1024 where it does not say.
pub proof fn law_max_matches(request: NewOrder, most: u32)
    requires
        call_ensures(max_matches, (&request,), most),
    ensures
        request.max_matches is Some ==> request.max_matches == Some(most),
        request.max_matches is None ==> most == 1024,
{
}

/// A bid trades at its limit or below, an ask at its limit or above, a market order at any price.
pub proof fn law_price_crosses(side: Side, order_type: OrderType, price: u64, yes: bool)
    requires
        call_ensures(price_crosses, (side, order_type, price), yes),
    ensures
        order_type is Market ==> yes,
        order_type matches OrderType::Limit { price: limit } ==> {
            &&& side == Side::Bid ==> (yes <==> price <= limit)
            &&& side == Side::Ask ==> (yes <==> price >= limit)
        },
{
}

/// A trade names both orders, and is at the price of the one that rested.
pub proof fn law_trade_with(
    id: u64,
    taker: OrderId,
    maker: RestingOrder,
    qty: u64,
    timestamp_ns: u64,
    trade: Trade,
)
    requires
        call_ensures(trade_with, (id, taker, &maker, qty, timestamp_ns), trade),
    ensures
        trade.id == id,
        trade.taker_order_id == taker,
        trade.maker_order_id == maker.id,
        trade.price == maker.price,
        trade.qty == qty,
        trade.timestamp_ns == timestamp_ns,
{
}

} // verus!
