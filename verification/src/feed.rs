//! What holds of the published levels: snapshots of the book, and the changes between them.
use vstd::prelude::*;

use crate::engine::Engine;
use crate::laws::{law_book_agrees_with_records, law_resting_iff_live};
use crate::matching::{after_fill, goes_on, head_fill, lemma_walk, walk};
use crate::model::{budget, refusal, EngineView};
use crate::queue::{
    behind, best_levels, better_price, in_priority_order, lemma_level_insert, lemma_level_none,
    lemma_level_remove, lemma_level_update, lemma_levels_push, lemma_prices, lemma_rests,
    level_count, level_of, level_qty, levels_fit, position, prices, reduced, shrunk_delta_of,
    total_qty,
};
use crate::sums::{count_at, law_level_is_sum, qty_at};
use crate::types::{
    BookDelta, BookDeltaKind, BookLevel, NewOrder, OrderBookSnapshot, OrderId, OrderRecord,
    OrderType, RestingOrder, Side, SubmitResult,
};
use crate::upkeep::{
    lemma_cancelled_wf, lemma_matched_records, lemma_new_id, lemma_resting_fits,
    lemma_submitted_wf,
};

verus! {

// ---------------------------------------------------------------------------------------------
// Snapshots
// ---------------------------------------------------------------------------------------------
/// The levels of a snapshot come best first, no price twice.
pub proof fn law_levels_best_first(state: EngineView, side: Side, depth: nat, i: int, j: int)
    requires
        state.wf(),
        0 <= i < j < best_levels(state.book.side(side), depth).len(),
    ensures
        ({
            let levels = best_levels(state.book.side(side), depth);
            better_price(side, levels[i].price, levels[j].price)
        }),
{
    lemma_prices(side, state.book.side(side));
}

/// A level of a snapshot tells the whole quantity and number of the orders at its price, of
/// which there is at least one.
pub proof fn law_levels_exact(state: EngineView, side: Side, depth: nat, i: int)
    requires
        state.wf(),
        0 <= i < best_levels(state.book.side(side), depth).len(),
    ensures
        ({
            let q = state.book.side(side);
            let level = best_levels(q, depth)[i];
            &&& level.qty == level_qty(q, level.price)
            &&& level.order_count == level_count(q, level.price)
            &&& level.order_count > 0
        }),
{
    let q = state.book.side(side);
    lemma_prices(side, q);
    assert(prices(q).contains(prices(q)[i]));
    assert(level_qty(q, prices(q)[i]) <= u64::MAX);
}

/// A snapshot shows every price at which an order rests, but those behind its `depth` best; and
/// it shows `depth` of them if there are that many.
pub proof fn law_levels_complete(state: EngineView, side: Side, depth: nat, price: u64)
    requires
        state.wf(),
        level_count(state.book.side(side), price) > 0,
        forall|i: int|
            0 <= i < best_levels(state.book.side(side), depth).len() ==> (#[trigger] best_levels(
                state.book.side(side),
                depth,
            )[i]).price != price,
    ensures
        best_levels(state.book.side(side), depth).len() == depth,
        forall|i: int|
            0 <= i < depth ==> better_price(
                side,
                (#[trigger] best_levels(state.book.side(side), depth)[i]).price,
                price,
            ),
{
    let q = state.book.side(side);
    let levels = best_levels(q, depth);
    lemma_prices(side, q);
    assert(prices(q).contains(price));
    let k = choose|k: int| 0 <= k < prices(q).len() && prices(q)[k] == price;
    if k < levels.len() {
        assert(levels[k].price == price);
    }
    assert forall|i: int| 0 <= i < depth implies better_price(
        side,
        (#[trigger] levels[i]).price,
        price,
    ) by {
        assert(better_price(side, prices(q)[i], prices(q)[k]));
    }
}

/// A shallower snapshot is the beginning of a deeper one.
pub proof fn law_levels_nested(state: EngineView, side: Side, shallow: nat, deep: nat)
    requires
        shallow <= deep,
    ensures
        ({
            let q = state.book.side(side);
            best_levels(q, shallow).is_prefix_of(best_levels(q, deep))
        }),
{
    let q = state.book.side(side);
    assert(best_levels(q, shallow) =~= best_levels(q, deep).subrange(
        0,
        best_levels(q, shallow).len() as int,
    ));
}

/// The quantity on all the levels.
pub open spec fn levels_qty(levels: Seq<BookLevel>) -> nat
    decreases levels.len(),
{
    if levels.len() == 0 {
        0
    } else {
        levels_qty(levels.drop_last()) + levels.last().qty as nat
    }
}

/// The number of orders on all the levels.
pub open spec fn levels_count(levels: Seq<BookLevel>) -> nat
    decreases levels.len(),
{
    if levels.len() == 0 {
        0
    } else {
        levels_count(levels.drop_last()) + levels.last().order_count as nat
    }
}

/// A snapshot deep enough for all the levels adds up to the whole side of the book.
pub proof fn law_levels_add_up(state: EngineView, side: Side, depth: nat)
    requires
        state.wf(),
        depth >= prices(state.book.side(side)).len(),
    ensures
        levels_qty(best_levels(state.book.side(side), depth)) == total_qty(state.book.side(side)),
        levels_count(best_levels(state.book.side(side), depth)) == state.book.side(side).len(),
{
    let q = state.book.side(side);
    assert(best_levels(q, depth) =~= best_levels(q, prices(q).len()));
    lemma_levels_add_up(side, q);
}

proof fn lemma_levels_add_up(side: Side, q: Seq<RestingOrder>)
    requires
        in_priority_order(side, q),
        levels_fit(q),
    ensures
        levels_qty(best_levels(q, prices(q).len())) == total_qty(q),
        levels_count(best_levels(q, prices(q).len())) == q.len(),
    decreases q.len(),
{
    let all = best_levels(q, prices(q).len());
    if q.len() > 0 {
        let r = q.drop_last();
        let price = q.last().price;
        let known = best_levels(r, prices(r).len());
        assert forall|p: u64|
            #![trigger level_qty(r, p)]
            #![trigger level_count(r, p)]
            level_qty(r, p) <= u64::MAX && level_count(r, p) <= u32::MAX by {
            assert(level_qty(q, p) <= u64::MAX && level_count(q, p) <= u32::MAX);
        }
        assert(level_qty(q, price) <= u64::MAX);
        assert(level_qty(r, price) <= u64::MAX);
        lemma_levels_add_up(side, r);
        lemma_levels_push(side, q);
        assert(all.drop_last() =~= if known.len() > 0 && known.last().price == price {
            known.drop_last()
        } else {
            known
        });
        lemma_prices(side, r);
        if known.len() > 0 && known.last().price == price {
            assert(known.last() == level_of(r, price));
        } else {
            crate::queue::lemma_newest_price(side, q);
            assert(!prices(r).contains(price));
            lemma_level_none(r, price);
        }
    }
}

// ---------------------------------------------------------------------------------------------
// Changes
// ---------------------------------------------------------------------------------------------
/// What a reader who follows the changes holds of one level, quantity and order count: the last
/// one reported, or what was there to begin with.
pub open spec fn followed(
    level: (nat, nat),
    deltas: Seq<BookDelta>,
    side: Side,
    price: u64,
) -> (nat, nat)
    decreases deltas.len(),
{
    if deltas.len() == 0 {
        level
    } else {
        let d = deltas[0];
        followed(
            if d.side == side && d.price == price {
                (d.qty as nat, d.order_count as nat)
            } else {
                level
            },
            deltas.drop_first(),
            side,
            price,
        )
    }
}

/// A level of the book.
pub open spec fn level_pair(q: Seq<RestingOrder>, price: u64) -> (nat, nat) {
    (level_qty(q, price), level_count(q, price))
}

/// The changes that a request reports lead from the levels before it to those after it.
pub proof fn law_deltas_lead_on(state: EngineView, request: NewOrder, side: Side, price: u64)
    requires
        state.wf(),
        refusal(request) is None,
        state.has_room(request),
    ensures
        followed(
            level_pair(state.book.side(side), price),
            state.submit_deltas(request),
            side,
            price,
        ) == level_pair(state.submitted(request).book.side(side), price),
{
    let other = request.side.opposite();
    let q = state.book.side(other);
    let w = state.matching(request);
    let next = state.submitted(request).book;
    let start = level_pair(state.book.side(side), price);
    if side == other {
        lemma_walk_deltas(
            request.side,
            request.order_type,
            q,
            request.qty,
            budget(request),
            price,
        );
    } else {
        lemma_walk_other_side(
            request.side,
            request.order_type,
            q,
            request.qty,
            budget(request),
            start,
            side,
            price,
        );
    }
    if state.will_rest(request) {
        lemma_resting_fits(state, request);
        lemma_submitted_wf(state, request);
        let o = state.submit_resting(request);
        let own = state.book.side(request.side);
        let d = state.submit_deltas(request).last();
        lemma_followed_push(start, w.deltas, d, side, price);
        lemma_level_insert(own, own.len() - behind(request.side, own, o), o, price);
        assert(level_qty(next.side(request.side), o.price) <= u64::MAX);
    }
}

proof fn lemma_followed_push(
    level: (nat, nat),
    deltas: Seq<BookDelta>,
    d: BookDelta,
    side: Side,
    price: u64,
)
    ensures
        followed(level, deltas.push(d), side, price) == (if d.side == side && d.price == price {
            (d.qty as nat, d.order_count as nat)
        } else {
            followed(level, deltas, side, price)
        }),
    decreases deltas.len(),
{
    let all = deltas.push(d);
    if deltas.len() == 0 {
        assert(all.drop_first() =~= Seq::empty());
        reveal_with_fuel(followed, 2);
    } else {
        let first = deltas[0];
        let step = if first.side == side && first.price == price {
            (first.qty as nat, first.order_count as nat)
        } else {
            level
        };
        assert(all.drop_first() =~= deltas.drop_first().push(d));
        lemma_followed_push(step, deltas.drop_first(), d, side, price);
    }
}

/// One fill: what becomes of the levels of the queue.
proof fn lemma_after_fill(q: Seq<RestingOrder>, fill: u64, price: u64)
    requires
        q.len() > 0,
        fill <= q[0].qty_remaining,
    ensures
        level_qty(after_fill(q, fill), price) <= level_qty(q, price),
        level_count(after_fill(q, fill), price) <= level_count(q, price),
        price != q[0].price ==> level_pair(after_fill(q, fill), price) == level_pair(q, price),
{
    if fill == q[0].qty_remaining {
        lemma_level_remove(q, 0, price);
        assert(q.remove(0) =~= q.drop_first());
    } else {
        lemma_level_update(q, 0, reduced(q[0], fill), price);
    }
}

proof fn lemma_walk_deltas(
    side: Side,
    order_type: OrderType,
    q: Seq<RestingOrder>,
    qty: u64,
    budget: nat,
    price: u64,
)
    requires
        levels_fit(q),
    ensures
        ({
            let w = walk(side, order_type, q, qty, budget);
            followed(level_pair(q, price), w.deltas, side.opposite(), price) == level_pair(
                w.queue,
                price,
            )
        }),
    decreases budget,
{
    if goes_on(side, order_type, q, qty, budget) {
        let fill = head_fill(q, qty);
        let left = after_fill(q, fill);
        let w = walk(side, order_type, q, qty, budget);
        let rest = walk(side, order_type, left, (qty - fill) as u64, (budget - 1) as nat);
        assert forall|p: u64|
            #![trigger level_qty(left, p)]
            #![trigger level_count(left, p)]
            level_qty(left, p) <= u64::MAX && level_count(left, p) <= u32::MAX by {
            lemma_after_fill(q, fill, p);
            assert(level_qty(q, p) <= u64::MAX);
        }
        lemma_walk_deltas(
            side,
            order_type,
            left,
            (qty - fill) as u64,
            (budget - 1) as nat,
            price,
        );
        lemma_after_fill(q, fill, price);
        assert(level_qty(left, q[0].price) <= u64::MAX);
        assert(w.deltas.drop_first() =~= rest.deltas);
        assert(w.deltas[0] == shrunk_delta_of(side.opposite(), left, q[0].price));
    }
}

proof fn lemma_walk_other_side(
    side: Side,
    order_type: OrderType,
    q: Seq<RestingOrder>,
    qty: u64,
    budget: nat,
    level: (nat, nat),
    s: Side,
    price: u64,
)
    requires
        s != side.opposite(),
    ensures
        followed(level, walk(side, order_type, q, qty, budget).deltas, s, price) == level,
    decreases budget,
{
    if goes_on(side, order_type, q, qty, budget) {
        let fill = head_fill(q, qty);
        let left = after_fill(q, fill);
        let w = walk(side, order_type, q, qty, budget);
        let rest = walk(side, order_type, left, (qty - fill) as u64, (budget - 1) as nat);
        lemma_walk_other_side(
            side,
            order_type,
            left,
            (qty - fill) as u64,
            (budget - 1) as nat,
            level,
            s,
            price,
        );
        assert(w.deltas.drop_first() =~= rest.deltas);
    }
}

/// The change that a cancellation reports leads from the levels before it to those after it.
pub proof fn law_cancel_delta_leads_on(state: EngineView, id: u64, side: Side, price: u64)
    requires
        state.wf(),
        state.book.rests(id),
    ensures
        followed(
            level_pair(state.book.side(side), price),
            seq![state.cancel_delta(id)],
            side,
            price,
        ) == level_pair(state.cancelled(id).book.side(side), price),
{
    let s = state.book.order(id).side;
    let q = state.book.side(s);
    lemma_rests(state.book, id);
    lemma_cancelled_wf(state, id);
    lemma_level_remove(q, position(q, id), price);
    let d = seq![state.cancel_delta(id)];
    assert(d.drop_first() =~= Seq::empty());
    reveal_with_fuel(followed, 2);
    let next = state.cancelled(id).book.side(s);
    assert(level_qty(next, state.book.order(id).price) <= u64::MAX);
}

/// A change is a removal exactly where no order is left at the price, and then no quantity
/// either; it is an addition exactly where the changes before it leave no order at the price.
/// So an update or a removal is of a level that was there.
pub proof fn law_delta_kinds(state: EngineView, request: NewOrder, i: int)
    requires
        state.wf(),
        refusal(request) is None,
        state.has_room(request),
        0 <= i < state.submit_deltas(request).len(),
    ensures
        ({
            let deltas = state.submit_deltas(request);
            let d = deltas[i];
            let held = followed(
                level_pair(state.book.side(d.side), d.price),
                deltas.take(i),
                d.side,
                d.price,
            );
            &&& d.kind == BookDeltaKind::Remove <==> d.order_count == 0
            &&& d.kind == BookDeltaKind::Remove ==> d.qty == 0
            &&& d.kind == BookDeltaKind::Add <==> held.1 == 0
        }),
{
    let q = state.book.side(request.side.opposite());
    let w = state.matching(request);
    let deltas = state.submit_deltas(request);
    lemma_walk(request.side, request.order_type, q, request.qty, budget(request));
    if i < w.deltas.len() {
        lemma_walk_kinds(
            request.side,
            request.order_type,
            q,
            request.qty,
            budget(request),
            i,
        );
        assert(deltas.take(i) =~= w.deltas.take(i));
    } else {
        lemma_resting_fits(state, request);
        lemma_submitted_wf(state, request);
        let o = state.submit_resting(request);
        let own = state.book.side(request.side);
        lemma_level_insert(own, own.len() - behind(request.side, own, o), o, o.price);
        let next = state.submitted(request).book.side(request.side);
        assert(level_count(next, o.price) <= u32::MAX);
        assert(deltas.take(i) =~= w.deltas);
        lemma_walk_other_side(
            request.side,
            request.order_type,
            q,
            request.qty,
            budget(request),
            level_pair(own, o.price),
            request.side,
            o.price,
        );
    }
}

proof fn lemma_walk_kinds(
    side: Side,
    order_type: OrderType,
    q: Seq<RestingOrder>,
    qty: u64,
    budget: nat,
    i: int,
)
    requires
        levels_fit(q),
        0 <= i < walk(side, order_type, q, qty, budget).deltas.len(),
    ensures
        ({
            let fills = walk(side, order_type, q, qty, budget).fills;
            let deltas = walk(side, order_type, q, qty, budget).deltas;
            let d = deltas[i];
            let held = followed(level_pair(q, d.price), deltas.take(i), d.side, d.price);
            &&& fills.len() == deltas.len()
            &&& d.side == side.opposite()
            &&& d.price == fills[i].price
            &&& d.qty == held.0 - fills[i].qty
            &&& d.order_count == held.1 - if fills[i].qty == q[i].qty_remaining {
                1int
            } else {
                0
            }
            &&& d.kind == BookDeltaKind::Remove <==> d.order_count == 0
            &&& d.kind == BookDeltaKind::Remove ==> d.qty == 0
            &&& d.kind != BookDeltaKind::Add
            &&& held.1 > 0
        }),
    decreases budget,
{
    if goes_on(side, order_type, q, qty, budget) {
        let fill = head_fill(q, qty);
        let left = after_fill(q, fill);
        let w = walk(side, order_type, q, qty, budget);
        let rest = walk(side, order_type, left, (qty - fill) as u64, (budget - 1) as nat);
        assert forall|p: u64|
            #![trigger level_qty(left, p)]
            #![trigger level_count(left, p)]
            level_qty(left, p) <= u64::MAX && level_count(left, p) <= u32::MAX by {
            lemma_after_fill(q, fill, p);
            assert(level_qty(q, p) <= u64::MAX);
        }
        let price = q[0].price;
        if i == 0 {
            assert(level_count(left, price) <= u32::MAX);
            if level_count(left, price) == 0 {
                lemma_level_none(left, price);
            }
            lemma_level_remove(q, 0, price);
            if fill == q[0].qty_remaining {
                assert(q.remove(0) =~= q.drop_first());
            } else {
                lemma_level_update(q, 0, reduced(q[0], fill), price);
            }
            lemma_walk(side, order_type, q, qty, budget);
            assert(w.deltas.take(0) =~= Seq::empty());
        } else {
            let d = w.deltas[i];
            assert(d == rest.deltas[i - 1]);
            lemma_walk_kinds(
                side,
                order_type,
                left,
                (qty - fill) as u64,
                (budget - 1) as nat,
                i - 1,
            );
            lemma_after_fill(q, fill, d.price);
            lemma_walk(side, order_type, left, (qty - fill) as u64, (budget - 1) as nat);
            lemma_walk(side, order_type, q, qty, budget);
            assert(w.fills[i] == rest.fills[i - 1]);
            assert(fill == q[0].qty_remaining);
            assert(left[i - 1] == q[i]);
            assert(level_qty(left, price) <= u64::MAX);
            assert(w.deltas.take(i)[0] == shrunk_delta_of(side.opposite(), left, price));
            assert(w.deltas.take(i).drop_first() =~= rest.deltas.take(i - 1));
        }
    }
}

/// There is one change for each trade, and one more where something of the order rests.
pub proof fn law_deltas_counted(state: EngineView, request: NewOrder, result: SubmitResult)
    requires
        state.submit_reported(request, result),
    ensures
        state.submit_deltas(request).len() == result.trades@.len() + if result.remaining_qty > 0 {
            1int
        } else {
            0
        },
{
    lemma_walk(
        request.side,
        request.order_type,
        state.book.side(request.side.opposite()),
        request.qty,
        budget(request),
    );
}

/// The change that a cancellation reports is a removal exactly where no order is left at the
/// price, and then no quantity either; else it is an update. The level was there.
pub proof fn law_cancel_delta_kind(state: EngineView, id: u64)
    requires
        state.wf(),
        state.book.rests(id),
    ensures
        ({
            let d = state.cancel_delta(id);
            &&& d.kind == BookDeltaKind::Remove <==> d.order_count == 0
            &&& d.kind == BookDeltaKind::Remove ==> d.qty == 0
            &&& d.kind != BookDeltaKind::Add
            &&& level_count(state.book.side(d.side), d.price) > 0
        }),
{
    let order = state.book.order(id);
    let q = state.book.side(order.side);
    let next = state.cancelled(id).book.side(order.side);
    lemma_rests(state.book, id);
    lemma_cancelled_wf(state, id);
    lemma_level_remove(q, position(q, id), order.price);
    assert(level_count(next, order.price) <= u32::MAX);
    if level_count(next, order.price) == 0 {
        lemma_level_none(next, order.price);
    }
}

// ---------------------------------------------------------------------------------------------
// Snapshots and the changes between them
// ---------------------------------------------------------------------------------------------
/// Whether the price is among the levels.
pub open spec fn shows(levels: Seq<BookLevel>, price: u64) -> bool {
    exists|i: int| 0 <= i < levels.len() && (#[trigger] levels[i]).price == price
}

/// Where in the levels the price stands.
pub open spec fn place_of(levels: Seq<BookLevel>, price: u64) -> int {
    choose|i: int| 0 <= i < levels.len() && (#[trigger] levels[i]).price == price
}

/// What a snapshot tells: for each side and price that it shows, quantity and order count.
pub open spec fn told(bids: Seq<BookLevel>, asks: Seq<BookLevel>) -> Map<(Side, u64), (nat, nat)> {
    Map::new(
        |k: (Side, u64)|
            shows(
                if k.0 == Side::Bid {
                    bids
                } else {
                    asks
                },
                k.1,
            ),
        |k: (Side, u64)|
            {
                let levels = if k.0 == Side::Bid {
                    bids
                } else {
                    asks
                };
                let level = levels[place_of(levels, k.1)];
                (level.qty as nat, level.order_count as nat)
            },
    )
}

/// What a snapshot of this depth tells of the engine's book.
pub open spec fn told_of(state: EngineView, depth: nat) -> Map<(Side, u64), (nat, nat)> {
    told(best_levels(state.book.bids, depth), best_levels(state.book.asks, depth))
}

/// The snapshot of this depth shows every level.
pub open spec fn deep_enough(state: EngineView, depth: nat) -> bool {
    prices(state.book.bids).len() <= depth && prices(state.book.asks).len() <= depth
}

/// What a reader makes of what they hold and one change: a removal deletes the level, an
/// addition or an update sets it.
pub open spec fn replayed_one(
    held: Map<(Side, u64), (nat, nat)>,
    d: BookDelta,
) -> Map<(Side, u64), (nat, nat)> {
    if d.kind == BookDeltaKind::Remove {
        held.remove((d.side, d.price))
    } else {
        held.insert((d.side, d.price), (d.qty as nat, d.order_count as nat))
    }
}

/// What a reader makes of what they hold and the changes, one after the other.
pub open spec fn replayed(
    held: Map<(Side, u64), (nat, nat)>,
    deltas: Seq<BookDelta>,
) -> Map<(Side, u64), (nat, nat)>
    decreases deltas.len(),
{
    if deltas.len() == 0 {
        held
    } else {
        replayed(replayed_one(held, deltas[0]), deltas.drop_first())
    }
}

/// Replaying the changes that a request reports on the snapshot before it gives the snapshot
/// after it.
pub proof fn law_deltas_replay(state: EngineView, request: NewOrder, depth: nat)
    requires
        state.wf(),
        refusal(request) is None,
        state.has_room(request),
        deep_enough(state, depth),
        deep_enough(state.submitted(request), depth),
    ensures
        replayed(told_of(state, depth), state.submit_deltas(request)) == told_of(
            state.submitted(request),
            depth,
        ),
{
    let next = state.submitted(request);
    let deltas = state.submit_deltas(request);
    let level = |k: (Side, u64)| level_pair(state.book.side(k.0), k.1);
    let after = |k: (Side, u64)| level_pair(next.book.side(k.0), k.1);
    lemma_submitted_wf(state, request);
    lemma_told(state, depth);
    lemma_told(next, depth);
    assert forall|i: int| 0 <= i < deltas.len() implies ((#[trigger] deltas[i]).kind
        == BookDeltaKind::Remove <==> deltas[i].order_count == 0) by {
        law_delta_kinds(state, request, i);
    }
    lemma_replayed(level, deltas);
    assert forall|k: (Side, u64)| #[trigger] after(k) == followed(level(k), deltas, k.0, k.1) by {
        law_deltas_lead_on(state, request, k.0, k.1);
    }
    assert(present(|k: (Side, u64)| followed(level(k), deltas, k.0, k.1)) =~= present(after));
}

/// Replaying the change that a cancellation reports on the snapshot before it gives the
/// snapshot after it.
pub proof fn law_cancel_delta_replay(state: EngineView, id: u64, depth: nat)
    requires
        state.wf(),
        state.book.rests(id),
        deep_enough(state, depth),
        deep_enough(state.cancelled(id), depth),
    ensures
        replayed(told_of(state, depth), seq![state.cancel_delta(id)]) == told_of(
            state.cancelled(id),
            depth,
        ),
{
    let next = state.cancelled(id);
    let deltas = seq![state.cancel_delta(id)];
    let level = |k: (Side, u64)| level_pair(state.book.side(k.0), k.1);
    let after = |k: (Side, u64)| level_pair(next.book.side(k.0), k.1);
    lemma_cancelled_wf(state, id);
    lemma_told(state, depth);
    lemma_told(next, depth);
    law_cancel_delta_kind(state, id);
    lemma_replayed(level, deltas);
    assert forall|k: (Side, u64)| #[trigger] after(k) == followed(level(k), deltas, k.0, k.1) by {
        law_cancel_delta_leads_on(state, id, k.0, k.1);
    }
    assert(present(|k: (Side, u64)| followed(level(k), deltas, k.0, k.1)) =~= present(after));
}

/// The levels at which an order rests.
spec fn present(level: spec_fn((Side, u64)) -> (nat, nat)) -> Map<(Side, u64), (nat, nat)> {
    Map::new(|k: (Side, u64)| level(k).1 > 0, level)
}

/// A snapshot deep enough tells exactly the levels at which an order rests.
proof fn lemma_told(state: EngineView, depth: nat)
    requires
        state.wf(),
        deep_enough(state, depth),
    ensures
        told_of(state, depth) == present(
            |k: (Side, u64)| level_pair(state.book.side(k.0), k.1),
        ),
{
    let shown = told_of(state, depth);
    let level = |k: (Side, u64)| level_pair(state.book.side(k.0), k.1);
    assert forall|k: (Side, u64)| #[trigger] shown.contains_key(k) <==> level(k).1 > 0 by {
        let q = state.book.side(k.0);
        let levels = best_levels(q, depth);
        lemma_prices(k.0, q);
        if level(k).1 > 0 {
            assert(prices(q).contains(k.1));
            let i = choose|i: int| 0 <= i < prices(q).len() && prices(q)[i] == k.1;
            assert(levels[i].price == k.1);
            assert(shows(levels, k.1));
        }
        if shown.contains_key(k) {
            assert(shows(levels, k.1));
            let i = place_of(levels, k.1);
            assert(prices(q)[i] == k.1);
            assert(prices(q).contains(k.1));
        }
    }
    assert forall|k: (Side, u64)| #[trigger] shown.contains_key(k) implies shown[k] == level(
        k,
    ) by {
        let q = state.book.side(k.0);
        let levels = best_levels(q, depth);
        let i = place_of(levels, k.1);
        assert(shows(levels, k.1));
        assert(0 <= i < levels.len() && levels[i].price == k.1);
        law_levels_exact(state, k.0, depth, i);
    }
    assert(shown =~= present(level));
}

/// Replaying changes on the levels present comes to following each level.
proof fn lemma_replayed(level: spec_fn((Side, u64)) -> (nat, nat), deltas: Seq<BookDelta>)
    requires
        forall|i: int|
            0 <= i < deltas.len() ==> ((#[trigger] deltas[i]).kind == BookDeltaKind::Remove
                <==> deltas[i].order_count == 0),
    ensures
        replayed(present(level), deltas) == present(
            |k: (Side, u64)| followed(level(k), deltas, k.0, k.1),
        ),
    decreases deltas.len(),
{
    let end = |k: (Side, u64)| followed(level(k), deltas, k.0, k.1);
    if deltas.len() == 0 {
        assert(present(level) =~= present(end));
    } else {
        let d = deltas[0];
        let rest = deltas.drop_first();
        let step = |k: (Side, u64)|
            if d.side == k.0 && d.price == k.1 {
                (d.qty as nat, d.order_count as nat)
            } else {
                level(k)
            };
        assert forall|i: int| 0 <= i < rest.len() implies ((#[trigger] rest[i]).kind
            == BookDeltaKind::Remove <==> rest[i].order_count == 0) by {
            assert(rest[i] == deltas[i + 1]);
        }
        assert(replayed_one(present(level), d) =~= present(step));
        lemma_replayed(step, rest);
        assert(present(|k: (Side, u64)| followed(step(k), rest, k.0, k.1)) =~= present(end));
    }
}

// ---------------------------------------------------------------------------------------------
// Snapshots and changes, told by the records of the orders
// ---------------------------------------------------------------------------------------------
/// What the records of the orders add up to at a price: quantity and order count.
pub open spec fn summed(state: EngineView, side: Side, price: u64) -> (nat, nat) {
    (
        qty_at(state, side, price, state.next_order_id),
        count_at(state, side, price, state.next_order_id),
    )
}

/// A snapshot shows no more levels than asked for, bids from the highest price down and asks from
/// the lowest up; each level tells what the records of the orders add up to at its price.
pub proof fn law_snapshot(engine: Engine, depth: usize, snapshot: OrderBookSnapshot)
    requires
        engine.wf(),
        call_ensures(Engine::snapshot, (&engine, depth), snapshot),
    ensures
        snapshot.bids@.len() <= depth,
        snapshot.asks@.len() <= depth,
        forall|i: int, j: int|
            0 <= i < j < snapshot.bids@.len() ==> (#[trigger] snapshot.bids@[i]).price > (
            #[trigger] snapshot.bids@[j]).price,
        forall|i: int, j: int|
            0 <= i < j < snapshot.asks@.len() ==> (#[trigger] snapshot.asks@[i]).price < (
            #[trigger] snapshot.asks@[j]).price,
        forall|i: int|
            0 <= i < snapshot.bids@.len() ==> {
                let l = #[trigger] snapshot.bids@[i];
                l.order_count > 0 && (l.qty as nat, l.order_count as nat) == summed(
                    engine@,
                    Side::Bid,
                    l.price,
                )
            },
        forall|i: int|
            0 <= i < snapshot.asks@.len() ==> {
                let l = #[trigger] snapshot.asks@[i];
                l.order_count > 0 && (l.qty as nat, l.order_count as nat) == summed(
                    engine@,
                    Side::Ask,
                    l.price,
                )
            },
{
    let state = engine@;
    engine.lemma_wf();
    let n = depth as nat;
    assert forall|i: int, j: int| 0 <= i < j < snapshot.bids@.len() implies (
    #[trigger] snapshot.bids@[i]).price > (#[trigger] snapshot.bids@[j]).price by {
        law_levels_best_first(state, Side::Bid, n, i, j);
    }
    assert forall|i: int, j: int| 0 <= i < j < snapshot.asks@.len() implies (
    #[trigger] snapshot.asks@[i]).price < (#[trigger] snapshot.asks@[j]).price by {
        law_levels_best_first(state, Side::Ask, n, i, j);
    }
    assert forall|i: int| 0 <= i < snapshot.bids@.len() implies {
        let l = #[trigger] snapshot.bids@[i];
        l.order_count > 0 && (l.qty as nat, l.order_count as nat) == summed(
            state,
            Side::Bid,
            l.price,
        )
    } by {
        law_levels_exact(state, Side::Bid, n, i);
        law_level_is_sum(state, Side::Bid, snapshot.bids@[i].price);
    }
    assert forall|i: int| 0 <= i < snapshot.asks@.len() implies {
        let l = #[trigger] snapshot.asks@[i];
        l.order_count > 0 && (l.qty as nat, l.order_count as nat) == summed(
            state,
            Side::Ask,
            l.price,
        )
    } by {
        law_levels_exact(state, Side::Ask, n, i);
        law_level_is_sum(state, Side::Ask, snapshot.asks@[i].price);
    }
}

/// A snapshot shows the price of every resting order, unless it shows as many levels as were
/// asked for and all of them are better.
pub proof fn law_snapshot_complete(
    engine: Engine,
    depth: usize,
    snapshot: OrderBookSnapshot,
    id: OrderId,
    record: OrderRecord,
)
    requires
        engine.wf(),
        call_ensures(Engine::snapshot, (&engine, depth), snapshot),
        call_ensures(Engine::get_order, (&engine, id), Some(record)),
        record.qty_remaining > 0,
    ensures
        record.order_type is Limit,
        ({
            let price = record.order_type->price;
            match record.side {
                Side::Bid => {
                    ||| exists|i: int|
                        0 <= i < snapshot.bids@.len() && (#[trigger] snapshot.bids@[i]).price
                            == price
                    ||| snapshot.bids@.len() == depth && forall|i: int|
                        0 <= i < depth ==> (#[trigger] snapshot.bids@[i]).price > price
                },
                Side::Ask => {
                    ||| exists|i: int|
                        0 <= i < snapshot.asks@.len() && (#[trigger] snapshot.asks@[i]).price
                            == price
                    ||| snapshot.asks@.len() == depth && forall|i: int|
                        0 <= i < depth ==> (#[trigger] snapshot.asks@[i]).price < price
                },
            }
        }),
{
    let state = engine@;
    engine.lemma_wf();
    law_resting_iff_live(state, id.0);
    law_book_agrees_with_records(state, id.0);
    lemma_rests(state.book, id.0);
    let side = record.side;
    let price = record.order_type->price;
    let q = state.book.side(side);
    lemma_level_remove(q, position(q, id.0), price);
    let levels = best_levels(q, depth as nat);
    if !shows(levels, price) {
        law_levels_complete(state, side, depth as nat, price);
    }
}

/// The change for a trade is of the level of the order traded with: it loses the quantity traded,
/// and the order itself where nothing of it is left.
pub proof fn law_delta_of_trade(
    engine: &mut Engine,
    request: NewOrder,
    result: SubmitResult,
    deltas: Vec<BookDelta>,
    i: int,
    maker: OrderRecord,
)
    requires
        old(engine).wf(),
        old(engine)@.has_room(request),
        call_ensures(Engine::submit, (engine, request), Ok((result, deltas))),
        0 <= i < result.trades@.len(),
        call_ensures(
            Engine::get_order,
            (&*final(engine), result.trades@[i].maker_order_id),
            Some(maker),
        ),
    ensures
        deltas@.len() == result.trades@.len() + if result.remaining_qty > 0 {
            1int
        } else {
            0
        },
        deltas@[i].side != request.side,
        deltas@[i].price == result.trades@[i].price,
        ({
            let d = deltas@[i];
            let held = followed(
                summed(old(engine)@, d.side, d.price),
                deltas@.take(i),
                d.side,
                d.price,
            );
            &&& d.qty == held.0 - result.trades@[i].qty
            &&& d.order_count == held.1 - if maker.qty_remaining == 0 {
                1int
            } else {
                0
            }
            &&& d.kind == if d.order_count == 0 {
                BookDeltaKind::Remove
            } else {
                BookDeltaKind::Update
            }
        }),
{
    let state = old(engine)@;
    let other = request.side.opposite();
    let q = state.book.side(other);
    let w = state.matching(request);
    old(engine).lemma_wf();
    law_deltas_counted(state, request, result);
    lemma_walk(request.side, request.order_type, q, request.qty, budget(request));
    lemma_walk_kinds(request.side, request.order_type, q, request.qty, budget(request), i);
    lemma_matched_records(state, request);
    lemma_new_id(state);
    assert(result.trades@[i].maker_order_id == w.fills[i].maker);
    assert(state.backed(state.book.side(other)[i]));
    assert(deltas@.take(i) =~= w.deltas.take(i));
    law_level_is_sum(state, other, deltas@[i].price);
}

/// The change for what is left of a limit order is of its own level, which gains the quantity
/// and the order.
pub proof fn law_delta_of_rest(
    engine: &mut Engine,
    request: NewOrder,
    result: SubmitResult,
    deltas: Vec<BookDelta>,
)
    requires
        old(engine).wf(),
        old(engine)@.has_room(request),
        call_ensures(Engine::submit, (engine, request), Ok((result, deltas))),
        result.remaining_qty > 0,
    ensures
        deltas@.len() == result.trades@.len() + 1,
        deltas@.last().side == request.side,
        request.order_type == (OrderType::Limit { price: deltas@.last().price }),
        ({
            let d = deltas@.last();
            let held = followed(
                summed(old(engine)@, d.side, d.price),
                deltas@.drop_last(),
                d.side,
                d.price,
            );
            &&& d.qty == held.0 + result.remaining_qty
            &&& d.order_count == held.1 + 1
            &&& d.kind == if held.1 == 0 {
                BookDeltaKind::Add
            } else {
                BookDeltaKind::Update
            }
        }),
{
    let state = old(engine)@;
    let w = state.matching(request);
    let own = state.book.side(request.side);
    old(engine).lemma_wf();
    law_deltas_counted(state, request, result);
    lemma_resting_fits(state, request);
    lemma_submitted_wf(state, request);
    let o = state.submit_resting(request);
    lemma_level_insert(own, own.len() - behind(request.side, own, o), o, o.price);
    let next = state.submitted(request).book.side(request.side);
    assert(level_count(next, o.price) <= u32::MAX);
    assert(level_qty(next, o.price) <= u64::MAX);
    assert(deltas@.drop_last() =~= w.deltas);
    law_level_is_sum(state, request.side, o.price);
    lemma_walk_other_side(
        request.side,
        request.order_type,
        state.book.side(request.side.opposite()),
        request.qty,
        budget(request),
        level_pair(own, o.price),
        request.side,
        o.price,
    );
}

/// The change for a cancellation is of the level of the cancelled order, which loses the order
/// and what was left of it.
pub proof fn law_delta_of_cancel(
    engine: &mut Engine,
    id: OrderId,
    deltas: Vec<BookDelta>,
    before: OrderRecord,
)
    requires
        old(engine).wf(),
        call_ensures(Engine::cancel, (engine, id), Ok(deltas)),
        call_ensures(Engine::get_order, (&*old(engine), id), Some(before)),
    ensures
        deltas@.len() == 1,
        deltas@[0].side == before.side,
        before.order_type == (OrderType::Limit { price: deltas@[0].price }),
        ({
            let d = deltas@[0];
            let held = summed(old(engine)@, d.side, d.price);
            &&& d.qty == held.0 - before.qty_remaining
            &&& d.order_count == held.1 - 1
            &&& d.kind == if d.order_count == 0 {
                BookDeltaKind::Remove
            } else {
                BookDeltaKind::Update
            }
        }),
{
    let state = old(engine)@;
    old(engine).lemma_wf();
    let order = state.book.order(id.0);
    let q = state.book.side(order.side);
    let next = state.cancelled(id.0).book.side(order.side);
    law_book_agrees_with_records(state, id.0);
    lemma_rests(state.book, id.0);
    lemma_cancelled_wf(state, id.0);
    lemma_level_remove(q, position(q, id.0), order.price);
    law_level_is_sum(state, order.side, order.price);
    assert(level_count(next, order.price) <= u32::MAX);
    assert(level_qty(next, order.price) <= u64::MAX);
}

} // verus!
