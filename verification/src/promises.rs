//! What a caller of the engine can count on, told by what the calls take and give back.
use vstd::prelude::*;

use crate::clock::is_clock_time;
use crate::engine::{validate_new_order, Engine};
use crate::laws::{
    law_book_agrees_with_records, law_cancel_leaves_others, law_quantity_conserved,
    law_resting_iff_live, law_submit_leaves_others, touches, traded_qty,
};
use crate::limits::{MAX_ORDER_PRICE, MAX_ORDER_QTY};
use crate::matching::lemma_walk;
use crate::model::{budget, refusal, EngineView};
use crate::queue::{lemma_rests, level_count, position, precedes};
use crate::text::decimal;
use crate::types::{
    BookDelta, EngineError, NewOrder, OrderBookSnapshot, OrderId, OrderRecord, OrderStatus,
    OrderType, Side, SubmitResult,
};
use crate::upkeep::{
    lemma_fill_positive, lemma_matched_queue, lemma_matched_records, lemma_new_id,
    lemma_submitted_wf,
};

verus! {

/// What the contract of a submit that was accepted says, in terms of the model.
proof fn lemma_submit(
    engine: &mut Engine,
    request: NewOrder,
    result: SubmitResult,
    deltas: Vec<BookDelta>,
)
    requires
        old(engine).wf(),
        old(engine)@.has_room(request),
        call_ensures(Engine::submit, (engine, request), Ok((result, deltas))),
    ensures
        refusal(request) is None,
        old(engine)@.wf(),
        old(engine)@.aged(),
        old(engine)@.submit_reported(request, result),
        deltas@ == old(engine)@.submit_deltas(request),
        final(engine)@ == old(engine)@.submitted(request),
        final(engine)@.wf(),
{
    old(engine).lemma_wf();
    lemma_submitted_wf(old(engine)@, request);
}

/// The status tells how much of the order was filled: all of it, some, or nothing, in which case
/// a limit order is new and a market order rejected.
pub proof fn law_submit_status(
    engine: &mut Engine,
    request: NewOrder,
    result: SubmitResult,
    deltas: Vec<BookDelta>,
)
    requires
        old(engine).wf(),
        old(engine)@.has_room(request),
        call_ensures(Engine::submit, (engine, request), Ok((result, deltas))),
    ensures
        result.status == OrderStatus::Filled <==> result.filled_qty == request.qty,
        result.status == OrderStatus::PartiallyFilled <==> 0 < result.filled_qty < request.qty,
        result.status == OrderStatus::New <==> result.filled_qty == 0
            && request.order_type is Limit,
        result.status == OrderStatus::Rejected <==> result.filled_qty == 0
            && request.order_type is Market,
        result.status != OrderStatus::Cancelled,
{
    lemma_submit(engine, request, result, deltas);
    lemma_nothing_traded(old(engine)@, request);
}

proof fn lemma_nothing_traded(state: EngineView, request: NewOrder)
    requires
        state.wf(),
        refusal(request) is None,
    ensures
        ({
            let w = state.matching(request);
            &&& w.remaining <= request.qty
            &&& w.remaining == request.qty <==> w.fills.len() == 0
        }),
{
    let w = state.matching(request);
    lemma_walk(
        request.side,
        request.order_type,
        state.book.side(request.side.opposite()),
        request.qty,
        budget(request),
    );
    lemma_fill_positive(state, request);
    if w.fills.len() > 0 {
        assert(w.fills[0].qty > 0);
    }
}

/// A request that touches a resting order changes of its record the quantity filled, which
/// grows by what was traded with it, and with it what is left and the status.
pub proof fn law_maker_record(
    engine: &mut Engine,
    request: NewOrder,
    result: SubmitResult,
    deltas: Vec<BookDelta>,
    i: int,
    before: Option<OrderRecord>,
    after: Option<OrderRecord>,
)
    requires
        old(engine).wf(),
        old(engine)@.has_room(request),
        call_ensures(Engine::submit, (engine, request), Ok((result, deltas))),
        0 <= i < result.trades@.len(),
        call_ensures(
            Engine::get_order,
            (&*old(engine), result.trades@[i].maker_order_id),
            before,
        ),
        call_ensures(
            Engine::get_order,
            (&*final(engine), result.trades@[i].maker_order_id),
            after,
        ),
    ensures
        before is Some,
        after is Some,
        after->0.order_id == before->0.order_id,
        after->0.side == before->0.side,
        after->0.order_type == before->0.order_type,
        after->0.qty_original == before->0.qty_original,
        after->0.client_order_id == before->0.client_order_id,
        after->0.filled_qty == before->0.filled_qty + result.trades@[i].qty,
        after->0.qty_remaining == before->0.qty_remaining - result.trades@[i].qty,
        after->0.status == OrderStatus::Filled <==> after->0.qty_remaining == 0,
        after->0.status == OrderStatus::PartiallyFilled <==> after->0.qty_remaining > 0,
{
    lemma_submit(engine, request, result, deltas);
    let state = old(engine)@;
    let other = request.side.opposite();
    let q = state.book.side(other);
    let w = state.matching(request);
    lemma_matched_queue(state, request);
    lemma_matched_records(state, request);
    lemma_new_id(state);
    lemma_walk(request.side, request.order_type, q, request.qty, budget(request));
    assert(result.trades@[i].maker_order_id == w.fills[i].maker);
    assert(w.fills[i].maker == q[i].id);
    assert(state.backed(state.book.side(other)[i]));
}

/// A request is accepted exactly where its quantity and, for a limit order, its price are
/// positive and within the limits; and a request that is not changes nothing.
pub proof fn law_submit_accepts(
    engine: &mut Engine,
    request: NewOrder,
    answer: Result<(SubmitResult, Vec<BookDelta>), EngineError>,
)
    requires
        old(engine).wf(),
        call_ensures(Engine::submit, (engine, request), answer),
    ensures
        answer is Ok <==> 0 < request.qty <= 1_000_000_000 && match request.order_type {
            OrderType::Limit { price } => 0 < price <= 1_000_000_000_000,
            OrderType::Market => true,
        },
        answer is Err ==> final(engine)@ == old(engine)@,
{
}

/// The reason for which a request is refused: the quantity comes before the price.
pub proof fn law_refusals(request: NewOrder, checked: Result<(), EngineError>)
    requires
        call_ensures(validate_new_order, (&request,), checked),
    ensures
        checked is Err ==> checked->Err_0 is InvalidOrder,
        request.qty == 0 ==> checked is Err && checked->Err_0->InvalidOrder_0@
            == "quantity must be positive"@,
        request.qty > 1_000_000_000 ==> checked is Err && checked->Err_0->InvalidOrder_0@
            == "quantity exceeds max 1000000000"@,
        0 < request.qty <= 1_000_000_000 ==> match request.order_type {
            OrderType::Limit { price } => {
                &&& price == 0 ==> checked is Err && checked->Err_0->InvalidOrder_0@
                    == "limit price must be positive"@
                &&& price > 1_000_000_000_000 ==> checked is Err
                    && checked->Err_0->InvalidOrder_0@ == "price exceeds max 1000000000000"@
                &&& 0 < price <= 1_000_000_000_000 ==> checked is Ok
            },
            OrderType::Market => checked is Ok,
        },
{
    lemma_limits_in_words();
}

/// A refused request is answered with the reason for which it is refused.
pub proof fn law_submit_refusals(
    engine: &mut Engine,
    request: NewOrder,
    e: EngineError,
    checked: Result<(), EngineError>,
)
    requires
        old(engine).wf(),
        call_ensures(
            Engine::submit,
            (engine, request),
            Err::<(SubmitResult, Vec<BookDelta>), EngineError>(e),
        ),
        call_ensures(validate_new_order, (&request,), checked),
    ensures
        checked is Err,
        e is InvalidOrder,
        checked->Err_0 is InvalidOrder,
        e->InvalidOrder_0@ == checked->Err_0->InvalidOrder_0@,
{
}

proof fn lemma_limits_in_words()
    ensures
        "quantity exceeds max "@ + decimal(MAX_ORDER_QTY as nat)
            == "quantity exceeds max 1000000000"@,
        "price exceeds max "@ + decimal(MAX_ORDER_PRICE as nat)
            == "price exceeds max 1000000000000"@,
{
    reveal_with_fuel(decimal, 14);
    reveal_strlit("quantity exceeds max ");
    reveal_strlit("quantity exceeds max 1000000000");
    reveal_strlit("price exceeds max ");
    reveal_strlit("price exceeds max 1000000000000");
    assert("quantity exceeds max "@ + decimal(1_000_000_000)
        =~= "quantity exceeds max 1000000000"@);
    assert("price exceeds max "@ + decimal(1_000_000_000_000)
        =~= "price exceeds max 1000000000000"@);
}

/// What was asked for is filled, left or cancelled. What is left of a limit order rests and none
/// of it is cancelled; what is left of a market order is cancelled, and the reason is given.
pub proof fn law_submit_quantities(
    engine: &mut Engine,
    request: NewOrder,
    result: SubmitResult,
    deltas: Vec<BookDelta>,
)
    requires
        old(engine).wf(),
        old(engine)@.has_room(request),
        call_ensures(Engine::submit, (engine, request), Ok((result, deltas))),
    ensures
        request.qty == result.filled_qty + result.remaining_qty + result.cancelled_qty,
        traded_qty(result.trades@) == result.filled_qty,
        request.order_type is Limit ==> result.cancelled_qty == 0,
        request.order_type is Market ==> result.remaining_qty == 0,
        result.reject_reason is Some <==> result.cancelled_qty > 0,
        result.reject_reason is Some ==> result.reject_reason->0@
            == "market order unfilled remainder cancelled"@,
        result.client_order_id == request.client_order_id,
{
    lemma_submit(engine, request, result, deltas);
    law_quantity_conserved(old(engine)@, request, result);
}

/// Ids are handed out one after the other, to orders and to trades.
pub proof fn law_submit_ids(
    engine: &mut Engine,
    request: NewOrder,
    result: SubmitResult,
    deltas: Vec<BookDelta>,
)
    requires
        old(engine).wf(),
        old(engine)@.has_room(request),
        call_ensures(Engine::submit, (engine, request), Ok((result, deltas))),
    ensures
        result.order_id.0 == old(engine)@.next_order_id,
        final(engine)@.next_order_id == old(engine)@.next_order_id + 1,
        final(engine)@.next_trade_id == old(engine)@.next_trade_id + result.trades@.len(),
        forall|i: int|
            0 <= i < result.trades@.len() ==> (#[trigger] result.trades@[i]).id
                == old(engine)@.next_trade_id + i,
        forall|i: int|
            0 <= i < result.trades@.len() ==> (#[trigger] result.trades@[i]).taker_order_id
                == result.order_id,
{
    lemma_submit(engine, request, result, deltas);
}

/// A trade is with an order that rests on the other side, at that order's price, which is within
/// the limit of the incoming order, and for no more than it has. Every order traded with gives
/// all that it has, but perhaps the last, where the incoming order wants no more.
pub proof fn law_trade(
    engine: &mut Engine,
    request: NewOrder,
    result: SubmitResult,
    deltas: Vec<BookDelta>,
    i: int,
    maker: Option<OrderRecord>,
)
    requires
        old(engine).wf(),
        old(engine)@.has_room(request),
        call_ensures(Engine::submit, (engine, request), Ok((result, deltas))),
        0 <= i < result.trades@.len(),
        call_ensures(
            Engine::get_order,
            (&*old(engine), result.trades@[i].maker_order_id),
            maker,
        ),
    ensures
        maker is Some,
        maker->0.order_id == result.trades@[i].maker_order_id,
        maker->0.side != request.side,
        maker->0.order_type == (OrderType::Limit { price: result.trades@[i].price }),
        match (request.order_type, request.side) {
            (OrderType::Limit { price }, Side::Bid) => result.trades@[i].price <= price,
            (OrderType::Limit { price }, Side::Ask) => result.trades@[i].price >= price,
            (OrderType::Market, _) => true,
        },
        0 < result.trades@[i].qty <= maker->0.qty_remaining,
        result.trades@[i].qty == maker->0.qty_remaining || (i == result.trades@.len() - 1
            && result.filled_qty == request.qty),
        is_clock_time(result.trades@[i].timestamp_ns),
{
    lemma_submit(engine, request, result, deltas);
    let state = old(engine)@;
    let other = request.side.opposite();
    let q = state.book.side(other);
    let w = state.matching(request);
    lemma_walk(request.side, request.order_type, q, request.qty, budget(request));
    lemma_fill_positive(state, request);
    assert(result.trades@[i].maker_order_id == w.fills[i].maker);
    assert(w.fills[i].qty > 0);
    assert(state.backed(state.book.side(other)[i]));
}

/// Price-time priority: before a request trades with an order, it has taken all that there was
/// of every order of that side with a better price, or with the same price and a lower id.
pub proof fn law_best_first(
    engine: &mut Engine,
    request: NewOrder,
    result: SubmitResult,
    deltas: Vec<BookDelta>,
    i: int,
    id: OrderId,
    first: OrderRecord,
)
    requires
        old(engine).wf(),
        old(engine)@.has_room(request),
        call_ensures(Engine::submit, (engine, request), Ok((result, deltas))),
        0 <= i < result.trades@.len(),
        call_ensures(Engine::get_order, (&*old(engine), id), Some(first)),
        first.side != request.side,
        first.qty_remaining > 0,
        first.order_type matches OrderType::Limit { price } && {
            ||| price == result.trades@[i].price && id.0 < result.trades@[i].maker_order_id.0
            ||| request.side == Side::Bid && price < result.trades@[i].price
            ||| request.side == Side::Ask && price > result.trades@[i].price
        },
    ensures
        exists|j: int|
            0 <= j < i && (#[trigger] result.trades@[j]).maker_order_id == id
                && result.trades@[j].qty == first.qty_remaining,
{
    lemma_submit(engine, request, result, deltas);
    let state = old(engine)@;
    let other = request.side.opposite();
    let q = state.book.side(other);
    let w = state.matching(request);
    lemma_walk(request.side, request.order_type, q, request.qty, budget(request));
    law_resting_iff_live(state, id.0);
    law_book_agrees_with_records(state, id.0);
    lemma_rests(state.book, id.0);
    let p = position(q, id.0);
    assert(result.trades@[i].maker_order_id == w.fills[i].maker);
    assert(w.fills[i].maker == q[i].id);
    assert(q[p].id.0 == id.0);
    if p > i {
        assert(precedes(other, q[i], q[p]));
        assert(q[i].price == q[p].price ==> state.book.side(other)[i].id.0 < state.book.side(
            other,
        )[p].id.0);
    }
    assert(p < i);
    assert(result.trades@[p].maker_order_id == w.fills[p].maker);
}

/// A request trades with as many orders as it may at most; and where it is not filled though it
/// may trade with more, no order that rests on the other side is within its limit.
pub proof fn law_no_match_missed(
    engine: &mut Engine,
    request: NewOrder,
    result: SubmitResult,
    deltas: Vec<BookDelta>,
    id: OrderId,
    left: OrderRecord,
)
    requires
        old(engine).wf(),
        old(engine)@.has_room(request),
        call_ensures(Engine::submit, (engine, request), Ok((result, deltas))),
        call_ensures(Engine::get_order, (&*final(engine), id), Some(left)),
        left.side != request.side,
        left.qty_remaining > 0,
    ensures
        result.trades@.len() <= match request.max_matches {
            Some(n) => n as int,
            None => 1024,
        },
        result.filled_qty < request.qty && result.trades@.len() < match request.max_matches {
            Some(n) => n as int,
            None => 1024,
        } ==> match (request.order_type, left.order_type) {
            (OrderType::Limit { price }, OrderType::Limit { price: p }) => match request.side {
                Side::Bid => p > price,
                Side::Ask => p < price,
            },
            _ => false,
        },
{
    lemma_submit(engine, request, result, deltas);
    let state = old(engine)@;
    let next = final(engine)@;
    let other = request.side.opposite();
    let q = state.book.side(other);
    let w = state.matching(request);
    lemma_walk(request.side, request.order_type, q, request.qty, budget(request));
    law_resting_iff_live(next, id.0);
    law_book_agrees_with_records(next, id.0);
    lemma_rests(next.book, id.0);
    lemma_matched_queue(state, request);
    assert(next.book.side(other) == w.queue);
    let p = position(w.queue, id.0);
    if p > 0 {
        assert(precedes(other, w.queue[0], w.queue[p]));
    }
}

/// A request trades with no more orders than it may.
pub proof fn law_matches_capped(
    engine: &mut Engine,
    request: NewOrder,
    result: SubmitResult,
    deltas: Vec<BookDelta>,
)
    requires
        old(engine).wf(),
        old(engine)@.has_room(request),
        call_ensures(Engine::submit, (engine, request), Ok((result, deltas))),
    ensures
        result.trades@.len() <= match request.max_matches {
            Some(n) => n as int,
            None => 1024,
        },
{
    lemma_submit(engine, request, result, deltas);
    lemma_walk(
        request.side,
        request.order_type,
        old(engine)@.book.side(request.side.opposite()),
        request.qty,
        budget(request),
    );
}

/// The record of a submitted order repeats the request and what was answered to it.
pub proof fn law_own_record(
    engine: &mut Engine,
    request: NewOrder,
    result: SubmitResult,
    deltas: Vec<BookDelta>,
    before: Option<OrderRecord>,
    after: Option<OrderRecord>,
)
    requires
        old(engine).wf(),
        old(engine)@.has_room(request),
        call_ensures(Engine::submit, (engine, request), Ok((result, deltas))),
        call_ensures(Engine::get_order, (&*old(engine), result.order_id), before),
        call_ensures(Engine::get_order, (&*final(engine), result.order_id), after),
    ensures
        before is None,
        after is Some,
        after->0.order_id == result.order_id,
        after->0.side == request.side,
        after->0.order_type == request.order_type,
        after->0.status == result.status,
        after->0.qty_original == request.qty,
        after->0.qty_remaining == result.remaining_qty,
        after->0.filled_qty == result.filled_qty + result.cancelled_qty,
        after->0.client_order_id == request.client_order_id,
{
    lemma_submit(engine, request, result, deltas);
    lemma_new_id(old(engine)@);
    law_quantity_conserved(old(engine)@, request, result);
}

/// A request leaves the record of every order alone that is neither its own nor traded with.
pub proof fn law_other_records(
    engine: &mut Engine,
    request: NewOrder,
    result: SubmitResult,
    deltas: Vec<BookDelta>,
    id: OrderId,
    before: Option<OrderRecord>,
    after: Option<OrderRecord>,
)
    requires
        old(engine).wf(),
        old(engine)@.has_room(request),
        call_ensures(Engine::submit, (engine, request), Ok((result, deltas))),
        id != result.order_id,
        forall|i: int|
            0 <= i < result.trades@.len() ==> (#[trigger] result.trades@[i]).maker_order_id != id,
        call_ensures(Engine::get_order, (&*old(engine), id), before),
        call_ensures(Engine::get_order, (&*final(engine), id), after),
    ensures
        after == before,
{
    lemma_submit(engine, request, result, deltas);
    let state = old(engine)@;
    let w = state.matching(request);
    if touches(state, request, id.0) {
        let i = choose|i: int|
            0 <= i < w.fills.len() && (#[trigger] w.fills[i]).maker.0 == id.0;
        assert(result.trades@[i].maker_order_id == w.fills[i].maker);
    }
    law_submit_leaves_others(state, request, id.0);
}

/// An order can be cancelled exactly while something of it rests; else the answer is that it is
/// not known, or in which status it is.
pub proof fn law_cancel_answer(
    engine: &mut Engine,
    id: OrderId,
    answer: Result<Vec<BookDelta>, EngineError>,
    before: Option<OrderRecord>,
)
    requires
        old(engine).wf(),
        call_ensures(Engine::cancel, (engine, id), answer),
        call_ensures(Engine::get_order, (&*old(engine), id), before),
    ensures
        match before {
            None => answer is Err && answer->Err_0 is OrderNotFound,
            Some(record) => {
                &&& answer is Ok <==> record.qty_remaining > 0
                &&& answer is Ok <==> record.status == OrderStatus::New || (record.status
                    == OrderStatus::PartiallyFilled && record.order_type is Limit)
                &&& answer is Err ==> answer->Err_0 == EngineError::NotCancellable(
                    id.0,
                    record.status,
                )
            },
        },
        answer is Ok ==> answer->Ok_0@.len() == 1,
        answer is Err ==> final(engine)@ == old(engine)@,
{
    old(engine).lemma_wf();
    if before is Some {
        law_resting_iff_live(old(engine)@, id.0);
    }
}

/// A cancelled order has nothing left and is known as cancelled, all else of its record stays;
/// and so does the record of every other order.
pub proof fn law_cancel_records(
    engine: &mut Engine,
    id: OrderId,
    deltas: Vec<BookDelta>,
    other: OrderId,
    before: Option<OrderRecord>,
    after: Option<OrderRecord>,
)
    requires
        old(engine).wf(),
        call_ensures(Engine::cancel, (engine, id), Ok(deltas)),
        call_ensures(Engine::get_order, (&*old(engine), other), before),
        call_ensures(Engine::get_order, (&*final(engine), other), after),
    ensures
        other != id ==> after == before,
        other == id ==> {
            &&& before is Some
            &&& after is Some
            &&& after->0.status == OrderStatus::Cancelled
            &&& after->0.qty_remaining == 0
            &&& after->0.filled_qty == before->0.qty_original
            &&& after->0.order_id == id
            &&& after->0.side == before->0.side
            &&& after->0.order_type == before->0.order_type
            &&& after->0.qty_original == before->0.qty_original
            &&& after->0.client_order_id == before->0.client_order_id
        },
{
    old(engine).lemma_wf();
    if other != id {
        law_cancel_leaves_others(old(engine)@, id.0, other.0);
    }
}

/// What is told of an order adds up.
pub proof fn law_record_adds_up(engine: Engine, id: OrderId, record: OrderRecord)
    requires
        engine.wf(),
        call_ensures(Engine::get_order, (&engine, id), Some(record)),
    ensures
        record.order_id == id,
        record.filled_qty + record.qty_remaining == record.qty_original,
        0 < record.qty_original <= 1_000_000_000,
        record.qty_remaining > 0 <==> record.status == OrderStatus::New || (record.status
            == OrderStatus::PartiallyFilled && record.order_type is Limit),
{
    engine.lemma_wf();
    law_resting_iff_live(engine@, id.0);
}

/// A new engine knows no order, shows no level, and numbers from one on.
pub proof fn law_new_engine(
    engine: Engine,
    id: OrderId,
    record: Option<OrderRecord>,
    depth: usize,
    snapshot: OrderBookSnapshot,
)
    requires
        call_ensures(Engine::new, (), engine) || call_ensures(
            <Engine as Default>::default,
            (),
            engine,
        ),
        call_ensures(Engine::get_order, (&engine, id), record),
        call_ensures(Engine::snapshot, (&engine, depth), snapshot),
    ensures
        engine.wf(),
        record is None,
        snapshot.bids@.len() == 0,
        snapshot.asks@.len() == 0,
        engine@.next_order_id == 1,
        engine@.next_trade_id == 1,
{
}

/// There is room for a request while ids are left and fewer orders than can be counted rest at
/// its price; a market order needs an id only.
pub proof fn law_room(engine: Engine, request: NewOrder, yes: bool)
    requires
        engine.wf(),
        call_ensures(Engine::has_room, (&engine, &request), yes),
    ensures
        yes == engine@.has_room(request),
        yes ==> engine@.next_order_id < u64::MAX,
        engine@.next_order_id < u64::MAX && (match request.order_type {
            OrderType::Limit { price } => level_count(engine@.book.side(request.side), price)
                < u32::MAX,
            OrderType::Market => true,
        }) ==> yes,
{
}

} // verus!
