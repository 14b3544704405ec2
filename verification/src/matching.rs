//! The model of matching: how an incoming order walks down the queue of the other side.
use vstd::prelude::*;

use crate::clock::is_clock_time;
use crate::queue::{lemma_reduce, lemma_skip, reduced, shrunk_delta_of, BookView};
use crate::types::{BookDelta, OrderId, OrderMeta, OrderStatus, OrderType, RestingOrder, Side, Trade};

verus! {

/// Whether an incoming order may trade at `price`.
pub open spec fn crosses(side: Side, order_type: OrderType, price: u64) -> bool {
    match order_type {
        OrderType::Market => true,
        OrderType::Limit { price: limit } => match side {
            Side::Bid => limit >= price,
            Side::Ask => limit <= price,
        },
    }
}

/// Whether an incoming order may trade at `price`, computed.
pub fn price_crosses(side: Side, order_type: OrderType, price: u64) -> (yes: bool)
    ensures
        yes == crosses(side, order_type, price),
{
    match order_type {
        OrderType::Market => true,
        OrderType::Limit { price: limit } => match side {
            Side::Bid => limit >= price,
            Side::Ask => limit <= price,
        },
    }
}

/// One maker touched: which, at what price, for how much.
pub struct Fill {
    pub maker: OrderId,
    pub price: u64,
    pub qty: u64,
}

/// What matching an incoming order comes to.
pub struct Walk {
    /// The makers touched, in the order in which they were.
    pub fills: Seq<Fill>,
    /// The queue that is left.
    pub queue: Seq<RestingOrder>,
    /// The quantity of the incoming order that is left.
    pub remaining: u64,
    /// The report of the maker's level after each fill.
    pub deltas: Seq<BookDelta>,
}

/// Whether matching goes on with the head of the queue.
pub open spec fn goes_on(
    side: Side,
    order_type: OrderType,
    q: Seq<RestingOrder>,
    qty: u64,
    budget: nat,
) -> bool {
    budget > 0 && qty > 0 && q.len() > 0 && crosses(side, order_type, q[0].price)
}

/// How much trades with the head of the queue.
pub open spec fn head_fill(q: Seq<RestingOrder>, qty: u64) -> u64 {
    if qty < q[0].qty_remaining {
        qty
    } else {
        q[0].qty_remaining
    }
}

/// The queue after `qty` of its head has traded: a maker with nothing left leaves.
pub open spec fn after_fill(q: Seq<RestingOrder>, qty: u64) -> Seq<RestingOrder> {
    if qty == q[0].qty_remaining {
        q.drop_first()
    } else {
        q.update(0, reduced(q[0], qty))
    }
}

/// An order of `side` for `qty` takes from the head of the opposite queue `q` for as long as
/// it has quantity left, the head's price is within its limit, and fewer than `budget` makers
/// were touched.
pub open spec fn walk(
    side: Side,
    order_type: OrderType,
    q: Seq<RestingOrder>,
    qty: u64,
    budget: nat,
) -> Walk
    decreases budget,
{
    if goes_on(side, order_type, q, qty, budget) {
        let fill = head_fill(q, qty);
        let left = after_fill(q, fill);
        let rest = walk(side, order_type, left, (qty - fill) as u64, (budget - 1) as nat);
        Walk {
            fills: seq![Fill { maker: q[0].id, price: q[0].price, qty: fill }] + rest.fills,
            queue: rest.queue,
            remaining: rest.remaining,
            deltas: seq![shrunk_delta_of(side.opposite(), left, q[0].price)] + rest.deltas,
        }
    } else {
        Walk { fills: Seq::empty(), queue: q, remaining: qty, deltas: Seq::empty() }
    }
}

/// The quantity that the fills add up to.
pub open spec fn filled_qty(fills: Seq<Fill>) -> nat
    decreases fills.len(),
{
    if fills.len() == 0 {
        0
    } else {
        fills[0].qty as nat + filled_qty(fills.drop_first())
    }
}

/// A maker's record after `qty` of it has traded.
pub open spec fn filled_by(meta: OrderMeta, qty: u64) -> OrderMeta {
    let left = (meta.qty_remaining - qty) as u64;
    OrderMeta {
        qty_remaining: left,
        status: if left == 0 {
            OrderStatus::Filled
        } else {
            OrderStatus::PartiallyFilled
        },
        ..meta
    }
}

/// The records of the orders after the makers were filled.
pub open spec fn settle(orders: Map<u64, OrderMeta>, fills: Seq<Fill>) -> Map<u64, OrderMeta>
    decreases fills.len(),
{
    if fills.len() == 0 {
        orders
    } else {
        let maker = fills[0].maker.0;
        settle(
            orders.insert(maker, filled_by(orders[maker], fills[0].qty)),
            fills.drop_first(),
        )
    }
}

/// `trades` reports `fills` of the order `taker`, with consecutive ids from `first` on, each with
/// the time that the clock showed.
pub open spec fn reports(trades: Seq<Trade>, fills: Seq<Fill>, taker: OrderId, first: nat) -> bool {
    &&& trades.len() == fills.len()
    &&& forall|i: int|
        0 <= i < trades.len() ==> {
            &&& (#[trigger] trades[i]).id == first + i
            &&& trades[i].taker_order_id == taker
            &&& trades[i].maker_order_id == fills[i].maker
            &&& trades[i].price == fills[i].price
            &&& trades[i].qty == fills[i].qty
            &&& is_clock_time(trades[i].timestamp_ns)
        }
}

/// Matching touches the makers in the order of the queue, each for all it has but perhaps the
/// last, and stops only where it has to.
pub proof fn lemma_walk(
    side: Side,
    order_type: OrderType,
    q: Seq<RestingOrder>,
    qty: u64,
    budget: nat,
)
    ensures
        ({
            let w = walk(side, order_type, q, qty, budget);
            let n = w.fills.len() as int;
            let whole = w.queue == q.skip(n);
            let parted = n > 0 && w.remaining == 0 && w.fills[n - 1].qty < q[n - 1].qty_remaining
                && w.queue == q.skip(n - 1).update(0, reduced(q[n - 1], w.fills[n - 1].qty));
            &&& n <= q.len()
            &&& n <= budget
            &&& w.deltas.len() == n
            &&& w.remaining <= qty
            &&& filled_qty(w.fills) + w.remaining == qty
            &&& forall|i: int|
                0 <= i < n ==> {
                    &&& (#[trigger] w.fills[i]).maker == q[i].id
                    &&& w.fills[i].price == q[i].price
                    &&& crosses(side, order_type, q[i].price)
                    &&& w.fills[i].qty <= q[i].qty_remaining
                    &&& i < n - 1 || whole ==> w.fills[i].qty == q[i].qty_remaining
                }
            &&& whole || parted
            &&& !goes_on(side, order_type, w.queue, w.remaining, (budget - n) as nat)
        }),
    decreases budget,
{
    let w = walk(side, order_type, q, qty, budget);
    if goes_on(side, order_type, q, qty, budget) {
        let fill = head_fill(q, qty);
        let left = after_fill(q, fill);
        let rest = walk(side, order_type, left, (qty - fill) as u64, (budget - 1) as nat);
        lemma_walk(side, order_type, left, (qty - fill) as u64, (budget - 1) as nat);
        let n = w.fills.len() as int;
        let m = rest.fills.len() as int;
        assert(w.fills.drop_first() =~= rest.fills);
        if fill == q[0].qty_remaining {
            assert(left.skip(m) =~= q.skip(n));
            assert forall|i: int| 0 <= i < m implies left[i] == q[i + 1] by {}
            if m > 0 {
                assert(left.skip(m - 1) =~= q.skip(n - 1));
                assert(w.fills[n - 1] == rest.fills[m - 1]);
            }
            assert forall|i: int|
                #![trigger w.fills[i]]
                #![trigger q[i]]
                0 < i < n implies w.fills[i] == rest.fills[i - 1] && q[i] == left[i - 1] by {}
        } else {
            assert(qty - fill == 0);
            assert(m == 0);
            assert(q.skip(0) =~= q);
            assert(left.skip(0) =~= left);
            assert(w.queue =~= q.skip(n - 1).update(0, reduced(q[n - 1], w.fills[n - 1].qty)));
        }
    } else {
        assert(q.skip(0) =~= q);
    }
}

/// Matching keeps the book well formed.
pub proof fn lemma_walk_wf(
    side: Side,
    order_type: OrderType,
    book: BookView,
    qty: u64,
    budget: nat,
)
    requires
        book.wf(),
    ensures
        book.with_side(
            side.opposite(),
            walk(side, order_type, book.side(side.opposite()), qty, budget).queue,
        ).wf(),
        book.fits() ==> book.with_side(
            side.opposite(),
            walk(side, order_type, book.side(side.opposite()), qty, budget).queue,
        ).fits(),
{
    let other = side.opposite();
    let q = book.side(other);
    let w = walk(side, order_type, q, qty, budget);
    let n = w.fills.len() as int;
    lemma_walk(side, order_type, q, qty, budget);
    if w.queue == q.skip(n) {
        lemma_skip(book, other, n);
    } else {
        lemma_skip(book, other, n - 1);
        let b = book.with_side(other, q.skip(n - 1));
        lemma_reduce(b, other, 0, w.fills[n - 1].qty);
        assert(q.skip(n - 1)[0] == q[n - 1]);
        assert(b.with_side(other, w.queue) == book.with_side(other, w.queue));
    }
}

/// The records after fills of distinct makers: each maker's is filled once, no other changes.
pub proof fn lemma_settle(orders: Map<u64, OrderMeta>, fills: Seq<Fill>)
    requires
        forall|i: int| 0 <= i < fills.len() ==> orders.contains_key((#[trigger] fills[i]).maker.0),
        forall|i: int, j: int|
            0 <= i < j < fills.len() ==> (#[trigger] fills[i]).maker.0 != (
            #[trigger] fills[j]).maker.0,
    ensures
        settle(orders, fills).dom() == orders.dom(),
        forall|i: int|
            0 <= i < fills.len() ==> settle(orders, fills)[(#[trigger] fills[i]).maker.0]
                == filled_by(orders[fills[i].maker.0], fills[i].qty),
        forall|id: u64|
            (forall|i: int| 0 <= i < fills.len() ==> (#[trigger] fills[i]).maker.0 != id)
                ==> #[trigger] settle(orders, fills)[id] == orders[id],
    decreases fills.len(),
{
    if fills.len() > 0 {
        let rest = fills.drop_first();
        let maker = fills[0].maker.0;
        let step = orders.insert(maker, filled_by(orders[maker], fills[0].qty));
        assert forall|i: int| 0 <= i < rest.len() implies step.contains_key(
            (#[trigger] rest[i]).maker.0,
        ) by {
            assert(rest[i] == fills[i + 1]);
        }
        assert forall|i: int, j: int| 0 <= i < j < rest.len() implies (#[trigger] rest[i]).maker.0
            != (#[trigger] rest[j]).maker.0 by {
            assert(rest[i] == fills[i + 1] && rest[j] == fills[j + 1]);
        }
        lemma_settle(step, rest);
        assert(step.dom() =~= orders.dom());
        assert forall|i: int| 0 <= i < rest.len() implies (#[trigger] rest[i]).maker.0 != maker by {
            assert(rest[i] == fills[i + 1]);
            assert(fills[0].maker.0 != fills[i + 1].maker.0);
        }
        assert forall|i: int| 0 <= i < fills.len() implies settle(orders, fills)[(
        #[trigger] fills[i]).maker.0] == filled_by(orders[fills[i].maker.0], fills[i].qty) by {
            if i > 0 {
                assert(fills[i] == rest[i - 1]);
            } else {
                assert(settle(step, rest)[maker] == step[maker]);
            }
        }
        assert forall|id: u64|
            (forall|i: int| 0 <= i < fills.len() ==> (#[trigger] fills[i]).maker.0 != id) implies
            #[trigger] settle(orders, fills)[id] == orders[id] by {
            assert(fills[0].maker.0 != id);
            assert forall|i: int| 0 <= i < rest.len() implies (#[trigger] rest[i]).maker.0 != id by {
                assert(rest[i] == fills[i + 1]);
            }
            assert(settle(step, rest)[id] == step[id]);
        }
    }
}

/// Makers with something left are filled with something.
pub proof fn lemma_fills_positive(
    side: Side,
    order_type: OrderType,
    q: Seq<RestingOrder>,
    qty: u64,
    budget: nat,
)
    requires
        forall|i: int| 0 <= i < q.len() ==> (#[trigger] q[i]).qty_remaining > 0,
    ensures
        forall|i: int|
            0 <= i < walk(side, order_type, q, qty, budget).fills.len() ==> (#[trigger] walk(
                side,
                order_type,
                q,
                qty,
                budget,
            ).fills[i]).qty > 0,
    decreases budget,
{
    if goes_on(side, order_type, q, qty, budget) {
        let fill = head_fill(q, qty);
        let left = after_fill(q, fill);
        assert forall|i: int| 0 <= i < left.len() implies (#[trigger] left[i]).qty_remaining > 0 by {
            if fill == q[0].qty_remaining {
                assert(left[i] == q[i + 1]);
            } else if i > 0 {
                assert(left[i] == q[i]);
            }
        }
        lemma_fills_positive(side, order_type, left, (qty - fill) as u64, (budget - 1) as nat);
        let rest = walk(side, order_type, left, (qty - fill) as u64, (budget - 1) as nat);
        let w = walk(side, order_type, q, qty, budget);
        assert forall|i: int| 0 <= i < w.fills.len() implies (#[trigger] w.fills[i]).qty > 0 by {
            if i > 0 {
                assert(w.fills[i] == rest.fills[i - 1]);
            }
        }
    }
}

} // verus!
