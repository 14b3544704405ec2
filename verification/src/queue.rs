//! The model of one side of the book: the resting orders in the order in which they trade.
use vstd::prelude::*;

use crate::limits::MAX_ORDER_QTY;
use crate::types::{BookDelta, BookDeltaKind, BookLevel, RestingOrder, Side};

verus! {

/// Whether an order of `side` at price `p` trades before one at price `q`.
pub open spec fn better_price(side: Side, p: u64, q: u64) -> bool {
    match side {
        Side::Bid => p > q,
        Side::Ask => p < q,
    }
}

/// Price-time priority: the better price first, and the older order first at one price.
pub open spec fn precedes(side: Side, a: RestingOrder, b: RestingOrder) -> bool {
    better_price(side, a.price, b.price) || (a.price == b.price && a.sequence < b.sequence)
}

/// A queue of `side`: orders of that side only, each before the ones behind it.
pub open spec fn in_priority_order(side: Side, q: Seq<RestingOrder>) -> bool {
    &&& forall|i: int| 0 <= i < q.len() ==> (#[trigger] q[i]).side == side
    &&& forall|i: int, j: int| 0 <= i < j < q.len() ==> precedes(side, #[trigger] q[i], #[trigger] q[j])
}

/// Whether the order with this id is in the queue.
pub open spec fn holds(q: Seq<RestingOrder>, id: u64) -> bool {
    exists|i: int| 0 <= i < q.len() && (#[trigger] q[i]).id.0 == id
}

/// Where in the queue the order with this id stands.
pub open spec fn position(q: Seq<RestingOrder>, id: u64) -> int {
    choose|i: int| 0 <= i < q.len() && (#[trigger] q[i]).id.0 == id
}

/// The queue without the order with this id.
pub open spec fn without(q: Seq<RestingOrder>, id: u64) -> Seq<RestingOrder> {
    q.remove(position(q, id))
}

/// No order of the queue has this price and this sequence number.
pub open spec fn slot_free(q: Seq<RestingOrder>, price: u64, sequence: u64) -> bool {
    forall|i: int|
        0 <= i < q.len() ==> (#[trigger] q[i]).price != price || q[i].sequence != sequence
}

/// The order after `by` of it was taken.
pub open spec fn reduced(order: RestingOrder, by: u64) -> RestingOrder {
    RestingOrder { qty_remaining: (order.qty_remaining - by) as u64, ..order }
}

/// How many orders at the end of the queue stand behind `order`.
pub open spec fn behind(side: Side, q: Seq<RestingOrder>, order: RestingOrder) -> nat
    decreases q.len(),
{
    if q.len() > 0 && precedes(side, order, q.last()) {
        behind(side, q.drop_last(), order) + 1
    } else {
        0
    }
}

/// The queue with `order` put in at its place in the priority.
pub open spec fn enqueue(side: Side, q: Seq<RestingOrder>, order: RestingOrder) -> Seq<RestingOrder> {
    q.insert(q.len() - behind(side, q, order), order)
}

/// The quantity that rests at `price`.
pub open spec fn level_qty(q: Seq<RestingOrder>, price: u64) -> nat
    decreases q.len(),
{
    if q.len() == 0 {
        0
    } else {
        level_qty(q.drop_last(), price) + if q.last().price == price {
            q.last().qty_remaining as nat
        } else {
            0
        }
    }
}

/// The number of orders that rest at `price`.
pub open spec fn level_count(q: Seq<RestingOrder>, price: u64) -> nat
    decreases q.len(),
{
    if q.len() == 0 {
        0
    } else {
        level_count(q.drop_last(), price) + if q.last().price == price {
            1nat
        } else {
            0
        }
    }
}

/// The quantity that rests in the whole queue.
pub open spec fn total_qty(q: Seq<RestingOrder>) -> nat
    decreases q.len(),
{
    if q.len() == 0 {
        0
    } else {
        total_qty(q.drop_last()) + q.last().qty_remaining as nat
    }
}

/// Every level of the queue fits in the integers that report it.
pub open spec fn levels_fit(q: Seq<RestingOrder>) -> bool {
    forall|price: u64|
        #![trigger level_qty(q, price)]
        #![trigger level_count(q, price)]
        level_qty(q, price) <= u64::MAX && level_count(q, price) <= u32::MAX
}

/// What is reported of the level at `price`.
pub open spec fn level_of(q: Seq<RestingOrder>, price: u64) -> BookLevel {
    BookLevel {
        price,
        qty: level_qty(q, price) as u64,
        order_count: level_count(q, price) as u32,
    }
}

/// The report that the level at `price` has changed to what `q` holds there.
pub open spec fn delta_of(
    side: Side,
    q: Seq<RestingOrder>,
    price: u64,
    kind: BookDeltaKind,
) -> BookDelta {
    BookDelta {
        side,
        price,
        qty: level_qty(q, price) as u64,
        order_count: level_count(q, price) as u32,
        kind,
    }
}

/// The report after orders at `price` were reduced or taken out.
pub open spec fn shrunk_delta_of(side: Side, q: Seq<RestingOrder>, price: u64) -> BookDelta {
    delta_of(
        side,
        q,
        price,
        if level_count(q, price) == 0 {
            BookDeltaKind::Remove
        } else {
            BookDeltaKind::Update
        },
    )
}

/// The report after one order was put in at `price`.
pub open spec fn grown_delta_of(side: Side, q: Seq<RestingOrder>, price: u64) -> BookDelta {
    delta_of(
        side,
        q,
        price,
        if level_count(q, price) == 1 {
            BookDeltaKind::Add
        } else {
            BookDeltaKind::Update
        },
    )
}

/// The prices of the queue, each once, in the order in which they first occur.
pub open spec fn prices(q: Seq<RestingOrder>) -> Seq<u64>
    decreases q.len(),
{
    if q.len() == 0 {
        Seq::empty()
    } else {
        let before = prices(q.drop_last());
        if before.contains(q.last().price) {
            before
        } else {
            before.push(q.last().price)
        }
    }
}

/// The best `depth` levels of the queue, best first.
pub open spec fn best_levels(q: Seq<RestingOrder>, depth: nat) -> Seq<BookLevel> {
    let all = prices(q);
    Seq::new(
        if depth < all.len() {
            depth
        } else {
            all.len()
        },
        |i: int| level_of(q, all[i]),
    )
}

/// The orders that both sides hold.
pub struct BookView {
    pub bids: Seq<RestingOrder>,
    pub asks: Seq<RestingOrder>,
}

impl BookView {
    pub open spec fn empty() -> BookView {
        BookView { bids: Seq::empty(), asks: Seq::empty() }
    }

    /// The queue of one side.
    pub open spec fn side(self, side: Side) -> Seq<RestingOrder> {
        match side {
            Side::Bid => self.bids,
            Side::Ask => self.asks,
        }
    }

    /// The book with the queue of one side replaced.
    pub open spec fn with_side(self, side: Side, q: Seq<RestingOrder>) -> BookView {
        match side {
            Side::Bid => BookView { bids: q, asks: self.asks },
            Side::Ask => BookView { bids: self.bids, asks: q },
        }
    }

    /// Whether the order with this id rests on either side.
    pub open spec fn rests(self, id: u64) -> bool {
        holds(self.bids, id) || holds(self.asks, id)
    }

    /// The resting order with this id.
    pub open spec fn order(self, id: u64) -> RestingOrder {
        if holds(self.bids, id) {
            self.bids[position(self.bids, id)]
        } else {
            self.asks[position(self.asks, id)]
        }
    }

    /// The book without the order with this id.
    pub open spec fn without(self, id: u64) -> BookView {
        let side = self.order(id).side;
        self.with_side(side, without(self.side(side), id))
    }

    /// The book with one more order.
    pub open spec fn with_order(self, order: RestingOrder) -> BookView {
        self.with_side(order.side, enqueue(order.side, self.side(order.side), order))
    }

    /// The book after `by` of the order with this id was taken.
    pub open spec fn reduced(self, id: u64, by: u64) -> BookView {
        let side = self.order(id).side;
        let q = self.side(side);
        let i = position(q, id);
        self.with_side(side, q.update(i, reduced(q[i], by)))
    }

    /// Both sides are queues, and no id rests twice.
    pub open spec fn wf(self) -> bool {
        &&& in_priority_order(Side::Bid, self.bids)
        &&& in_priority_order(Side::Ask, self.asks)
        &&& ids_distinct(self.bids)
        &&& ids_distinct(self.asks)
        &&& forall|i: int, j: int|
            0 <= i < self.bids.len() && 0 <= j < self.asks.len() ==> (#[trigger] self.bids[i]).id.0
                != (#[trigger] self.asks[j]).id.0
    }

    /// Every level of both sides fits in the integers that report it.
    pub open spec fn fits(self) -> bool {
        levels_fit(self.bids) && levels_fit(self.asks)
    }

    /// There is room for the order in the integers that report its level.
    pub open spec fn has_room(self, order: RestingOrder) -> bool {
        &&& level_qty(self.side(order.side), order.price) + order.qty_remaining <= u64::MAX
        &&& level_count(self.side(order.side), order.price) < u32::MAX
    }

    /// The number of resting orders.
    pub open spec fn len(self) -> nat {
        self.bids.len() + self.asks.len()
    }
}

/// No id occurs twice in the queue.
pub open spec fn ids_distinct(q: Seq<RestingOrder>) -> bool {
    forall|i: int, j: int|
        0 <= i < q.len() && 0 <= j < q.len() && i != j ==> (#[trigger] q[i]).id.0 != (
        #[trigger] q[j]).id.0
}

// ---------------------------------------------------------------------------------------------
// Positions
// ---------------------------------------------------------------------------------------------

/// `position` finds the order, and in a queue with distinct ids there is no other.
pub proof fn lemma_position(q: Seq<RestingOrder>, i: int)
    requires
        0 <= i < q.len(),
        ids_distinct(q),
    ensures
        holds(q, q[i].id.0),
        position(q, q[i].id.0) == i,
{
    let p = position(q, q[i].id.0);
    assert(0 <= p < q.len() && q[p].id.0 == q[i].id.0);
}

/// Where a new order goes: behind all that precede it, before all that it precedes.
pub proof fn lemma_behind(side: Side, q: Seq<RestingOrder>, order: RestingOrder)
    requires
        in_priority_order(side, q),
        slot_free(q, order.price, order.sequence),
    ensures
        behind(side, q, order) <= q.len(),
        forall|i: int|
            0 <= i < q.len() - behind(side, q, order) ==> precedes(side, #[trigger] q[i], order),
        forall|i: int|
            q.len() - behind(side, q, order) <= i < q.len() ==> precedes(
                side,
                order,
                #[trigger] q[i],
            ),
    decreases q.len(),
{
    if q.len() > 0 {
        if precedes(side, order, q.last()) {
            let r = q.drop_last();
            assert forall|i: int| 0 <= i < r.len() implies (#[trigger] r[i]).price != order.price
                || r[i].sequence != order.sequence by {
                assert(r[i] == q[i]);
            }
            lemma_behind(side, r, order);
            assert forall|i: int| 0 <= i < q.len() - behind(side, q, order) implies precedes(
                side,
                #[trigger] q[i],
                order,
            ) by {
                assert(r[i] == q[i]);
            }
            assert forall|i: int|
                q.len() - behind(side, q, order) <= i < q.len() implies precedes(
                side,
                order,
                #[trigger] q[i],
            ) by {
                if i < r.len() {
                    assert(r[i] == q[i]);
                }
            }
        } else {
            assert(precedes(side, q.last(), order));
            assert forall|i: int| 0 <= i < q.len() implies precedes(side, #[trigger] q[i], order) by {
                if i < q.len() - 1 {
                    assert(precedes(side, q[i], q[q.len() - 1]));
                }
            }
        }
    }
}

// ---------------------------------------------------------------------------------------------
// Levels
// ---------------------------------------------------------------------------------------------

/// The level of a concatenation is the sum of the levels.
pub proof fn lemma_level_concat(a: Seq<RestingOrder>, b: Seq<RestingOrder>, price: u64)
    ensures
        level_qty(a + b, price) == level_qty(a, price) + level_qty(b, price),
        level_count(a + b, price) == level_count(a, price) + level_count(b, price),
        total_qty(a + b) == total_qty(a) + total_qty(b),
    decreases b.len(),
{
    if b.len() == 0 {
        assert(a + b =~= a);
    } else {
        assert((a + b).drop_last() =~= a + b.drop_last());
        lemma_level_concat(a, b.drop_last(), price);
    }
}

/// A single order is its level.
pub proof fn lemma_level_single(o: RestingOrder, price: u64)
    ensures
        level_qty(seq![o], price) == (if o.price == price {
            o.qty_remaining as nat
        } else {
            0
        }),
        level_count(seq![o], price) == (if o.price == price {
            1nat
        } else {
            0
        }),
        total_qty(seq![o]) == o.qty_remaining,
{
    let s = seq![o];
    assert(s.drop_last() =~= Seq::empty());
    assert(level_qty(s.drop_last(), price) == 0);
    assert(level_count(s.drop_last(), price) == 0);
    assert(total_qty(s.drop_last()) == 0);
}

/// A prefix holds no more at a price than the whole queue.
pub proof fn lemma_level_prefix(q: Seq<RestingOrder>, n: int, price: u64)
    requires
        0 <= n <= q.len(),
    ensures
        level_qty(q.take(n), price) <= level_qty(q, price),
        level_count(q.take(n), price) <= level_count(q, price),
{
    lemma_level_concat(q.take(n), q.skip(n), price);
    assert(q =~= q.take(n) + q.skip(n));
}

/// Where no order rests, no quantity does.
pub proof fn lemma_level_none(q: Seq<RestingOrder>, price: u64)
    requires
        level_count(q, price) == 0,
    ensures
        level_qty(q, price) == 0,
    decreases q.len(),
{
    if q.len() > 0 {
        lemma_level_none(q.drop_last(), price);
    }
}

/// A level of orders within the limit holds no more than its count allows.
pub proof fn lemma_level_bound(q: Seq<RestingOrder>, price: u64)
    requires
        forall|i: int| 0 <= i < q.len() ==> (#[trigger] q[i]).qty_remaining <= MAX_ORDER_QTY,
    ensures
        level_qty(q, price) <= level_count(q, price) * MAX_ORDER_QTY,
    decreases q.len(),
{
    if q.len() > 0 {
        let r = q.drop_last();
        assert forall|i: int| 0 <= i < r.len() implies (#[trigger] r[i]).qty_remaining
            <= MAX_ORDER_QTY by {
            assert(r[i] == q[i]);
        }
        lemma_level_bound(r, price);
    }
}

/// What a level loses with the order at `i`.
pub proof fn lemma_level_remove(q: Seq<RestingOrder>, i: int, price: u64)
    requires
        0 <= i < q.len(),
    ensures
        level_qty(q, price) == level_qty(q.remove(i), price) + if q[i].price == price {
            q[i].qty_remaining as nat
        } else {
            0
        },
        level_count(q, price) == level_count(q.remove(i), price) + if q[i].price == price {
            1nat
        } else {
            0
        },
        total_qty(q) == total_qty(q.remove(i)) + q[i].qty_remaining,
{
    let a = q.take(i);
    let b = q.skip(i + 1);
    let o = seq![q[i]];
    assert(q =~= (a + o) + b);
    assert(q.remove(i) =~= a + b);
    lemma_level_concat(a + o, b, price);
    lemma_level_concat(a, o, price);
    lemma_level_concat(a, b, price);
    lemma_level_single(q[i], price);
}

/// What a level gains with an order put in at `i`.
pub proof fn lemma_level_insert(q: Seq<RestingOrder>, i: int, o: RestingOrder, price: u64)
    requires
        0 <= i <= q.len(),
    ensures
        level_qty(q.insert(i, o), price) == level_qty(q, price) + if o.price == price {
            o.qty_remaining as nat
        } else {
            0
        },
        level_count(q.insert(i, o), price) == level_count(q, price) + if o.price == price {
            1nat
        } else {
            0
        },
        total_qty(q.insert(i, o)) == total_qty(q) + o.qty_remaining,
{
    lemma_level_remove(q.insert(i, o), i, price);
    assert(q.insert(i, o).remove(i) =~= q);
}

/// What becomes of a level when the order at `i` is replaced.
pub proof fn lemma_level_update(q: Seq<RestingOrder>, i: int, o: RestingOrder, price: u64)
    requires
        0 <= i < q.len(),
        o.price == q[i].price,
    ensures
        level_qty(q.update(i, o), price) == level_qty(q, price) + if o.price == price {
            o.qty_remaining - q[i].qty_remaining
        } else {
            0
        },
        level_count(q.update(i, o), price) == level_count(q, price),
        total_qty(q.update(i, o)) == total_qty(q) + o.qty_remaining - q[i].qty_remaining,
{
    lemma_level_remove(q, i, price);
    lemma_level_remove(q.update(i, o), i, price);
    assert(q.update(i, o).remove(i) =~= q.remove(i));
}

/// The prices of a queue: best first, each once, and exactly those at which an order rests.
pub proof fn lemma_prices(side: Side, q: Seq<RestingOrder>)
    requires
        in_priority_order(side, q),
    ensures
        q.len() > 0 ==> prices(q).len() > 0 && prices(q).last() == q.last().price,
        forall|i: int, j: int|
            0 <= i < j < prices(q).len() ==> better_price(
                side,
                #[trigger] prices(q)[i],
                #[trigger] prices(q)[j],
            ),
        forall|p: u64| #[trigger] prices(q).contains(p) <==> level_count(q, p) > 0,
    decreases q.len(),
{
    if q.len() > 0 {
        let r = q.drop_last();
        let last = q.last().price;
        lemma_prices(side, r);
        lemma_newest_price(side, q);
        assert forall|p: u64| #[trigger] prices(q).contains(p) <==> level_count(q, p) > 0 by {
            assert(prices(r).contains(p) <==> level_count(r, p) > 0);
            if !prices(r).contains(last) {
                if prices(r).contains(p) {
                    let i = choose|i: int| 0 <= i < prices(r).len() && prices(r)[i] == p;
                    assert(prices(q)[i] == p);
                }
                assert(prices(q)[prices(q).len() - 1] == last);
            }
        }
    }
}

/// In a queue the price of the last order is known already only if it is the last price.
pub proof fn lemma_newest_price(side: Side, q: Seq<RestingOrder>)
    requires
        in_priority_order(side, q),
        q.len() > 0,
        q.len() > 1 ==> prices(q.drop_last()).len() > 0 && prices(q.drop_last()).last()
            == q[q.len() - 2].price,
        forall|i: int, j: int|
            0 <= i < j < prices(q.drop_last()).len() ==> better_price(
                side,
                #[trigger] prices(q.drop_last())[i],
                #[trigger] prices(q.drop_last())[j],
            ),
    ensures
        prices(q.drop_last()).contains(q.last().price) <==> prices(q.drop_last()).len() > 0
            && prices(q.drop_last()).last() == q.last().price,
        forall|i: int|
            0 <= i < prices(q.drop_last()).len() && prices(q.drop_last())[i] != q.last().price
                ==> better_price(side, #[trigger] prices(q.drop_last())[i], q.last().price),
{
    let before = prices(q.drop_last());
    let n = before.len() - 1;
    if q.len() > 1 {
        assert(precedes(side, q[q.len() - 2], q[q.len() - 1]));
        assert(before.contains(before[n]));
        assert forall|i: int| 0 <= i < before.len() && before[i] != q.last().price implies
            better_price(side, #[trigger] before[i], q.last().price) by {
            if i < n {
                assert(better_price(side, before[i], before[n]));
            }
        }
        if before.contains(q.last().price) {
            let i = choose|i: int| 0 <= i < before.len() && before[i] == q.last().price;
            if i < n {
                assert(better_price(side, before[i], before[n]));
            }
        }
    }
}

/// The levels with one order more at the end of the queue.
pub proof fn lemma_levels_push(side: Side, q: Seq<RestingOrder>)
    requires
        in_priority_order(side, q),
        q.len() > 0,
    ensures
        ({
            let r = q.drop_last();
            let price = q.last().price;
            let known = best_levels(r, prices(r).len());
            best_levels(q, prices(q).len()) == (if known.len() > 0 && known.last().price == price {
                known.update(known.len() - 1, level_of(q, price))
            } else {
                known.push(level_of(q, price))
            })
        }),
{
    let r = q.drop_last();
    let price = q.last().price;
    let known = best_levels(r, prices(r).len());
    let all = best_levels(q, prices(q).len());
    lemma_prices(side, r);
    lemma_newest_price(side, q);
    assert forall|p: u64| p != price implies #[trigger] level_of(q, p) == level_of(r, p) by {}
    if known.len() > 0 && known.last().price == price {
        assert(prices(r).contains(price));
        assert forall|i: int| 0 <= i < known.len() - 1 implies all[i] == known[i] by {
            assert(better_price(side, prices(r)[i], prices(r)[known.len() - 1]));
            assert(level_of(q, prices(r)[i]) == level_of(r, prices(r)[i]));
        }
        assert(all =~= known.update(known.len() - 1, level_of(q, price)));
    } else {
        assert(!prices(r).contains(price));
        assert forall|i: int| 0 <= i < known.len() implies all[i] == known[i] by {
            assert(prices(r)[i] != price) by {
                if prices(r)[i] == price {
                    assert(prices(r).contains(price));
                }
            }
            assert(level_of(q, prices(r)[i]) == level_of(r, prices(r)[i]));
        }
        assert(all =~= known.push(level_of(q, price)));
    }
}

// ---------------------------------------------------------------------------------------------
// Books
// ---------------------------------------------------------------------------------------------

/// In a well-formed book an id leads to one order.
pub proof fn lemma_order(book: BookView, side: Side, i: int)
    requires
        book.wf(),
        0 <= i < book.side(side).len(),
    ensures
        book.rests(book.side(side)[i].id.0),
        book.order(book.side(side)[i].id.0) == book.side(side)[i],
        book.side(side)[i].side == side,
        position(book.side(side), book.side(side)[i].id.0) == i,
{
    let q = book.side(side);
    lemma_position(q, i);
    if side == Side::Ask && holds(book.bids, q[i].id.0) {
        let j = position(book.bids, q[i].id.0);
        assert(0 <= j < book.bids.len() && book.bids[j].id.0 == q[i].id.0);
    }
}

/// A resting id stands in the queue of its order's side.
pub proof fn lemma_rests(book: BookView, id: u64)
    requires
        book.wf(),
        book.rests(id),
    ensures
        0 <= position(book.side(book.order(id).side), id) < book.side(book.order(id).side).len(),
        book.side(book.order(id).side)[position(book.side(book.order(id).side), id)]
            == book.order(id),
        book.order(id).id.0 == id,
{
    let side = if holds(book.bids, id) {
        Side::Bid
    } else {
        Side::Ask
    };
    let i = position(book.side(side), id);
    assert(0 <= i < book.side(side).len() && book.side(side)[i].id.0 == id);
    lemma_order(book, side, i);
}

/// An order put in keeps the book well formed.
pub proof fn lemma_with_order(book: BookView, order: RestingOrder)
    requires
        book.wf(),
        !book.rests(order.id.0),
        slot_free(book.side(order.side), order.price, order.sequence),
    ensures
        book.with_order(order).wf(),
        book.fits() && book.has_room(order) ==> book.with_order(order).fits(),
        book.side(order.side).len() >= behind(order.side, book.side(order.side), order),
{
    let q = book.side(order.side);
    let k = q.len() - behind(order.side, q, order);
    let r = enqueue(order.side, q, order);
    lemma_behind(order.side, q, order);
    assert(r == q.insert(k, order));
    assert forall|i: int, j: int| 0 <= i < j < r.len() implies precedes(
        order.side,
        #[trigger] r[i],
        #[trigger] r[j],
    ) by {
        let a = if i < k {
            i
        } else {
            i - 1
        };
        let b = if j < k {
            j
        } else {
            j - 1
        };
        if i != k {
            assert(r[i] == q[a]);
        }
        if j != k {
            assert(r[j] == q[b]);
        }
    }
    if book.fits() && book.has_room(order) {
        assert forall|price: u64|
            #![trigger level_qty(r, price)]
            #![trigger level_count(r, price)]
            level_qty(r, price) <= u64::MAX && level_count(r, price) <= u32::MAX by {
            lemma_level_insert(q, k, order, price);
            assert(level_qty(q, price) <= u64::MAX);
        }
    }
    assert forall|i: int| 0 <= i < q.len() implies (#[trigger] q[i]).id.0 != order.id.0 by {
        if q[i].id.0 == order.id.0 {
            assert(holds(q, order.id.0));
        }
    }
    let o = book.side(order.side.opposite());
    assert forall|i: int| 0 <= i < o.len() implies (#[trigger] o[i]).id.0 != order.id.0 by {
        if o[i].id.0 == order.id.0 {
            assert(holds(o, order.id.0));
        }
    }
    assert(ids_distinct(r)) by {
        assert forall|i: int, j: int| 0 <= i < r.len() && 0 <= j < r.len() && i != j implies (
        #[trigger] r[i]).id.0 != (#[trigger] r[j]).id.0 by {
            let a = if i < k {
                i
            } else {
                i - 1
            };
            let b = if j < k {
                j
            } else {
                j - 1
            };
            if i != k {
                assert(r[i] == q[a]);
            }
            if j != k {
                assert(r[j] == q[b]);
            }
        }
    }
    let after = book.with_order(order);
    assert forall|i: int, j: int|
        0 <= i < after.bids.len() && 0 <= j < after.asks.len() implies (
    #[trigger] after.bids[i]).id.0 != (#[trigger] after.asks[j]).id.0 by {
        let x = match order.side {
            Side::Bid => i,
            Side::Ask => j,
        };
        if x != k {
            assert(r[x] == q[if x < k {
                x
            } else {
                x - 1
            }]);
        }
    }
}

/// An order taken out keeps the book well formed.
pub proof fn lemma_remove(book: BookView, side: Side, i: int)
    requires
        book.wf(),
        0 <= i < book.side(side).len(),
    ensures
        book.with_side(side, book.side(side).remove(i)).wf(),
        book.fits() ==> book.with_side(side, book.side(side).remove(i)).fits(),
{
    let q = book.side(side);
    let r = q.remove(i);
    if book.fits() {
        assert forall|price: u64|
            #![trigger level_qty(r, price)]
            #![trigger level_count(r, price)]
            level_qty(r, price) <= u64::MAX && level_count(r, price) <= u32::MAX by {
            lemma_level_remove(q, i, price);
            assert(level_qty(q, price) <= u64::MAX);
        }
    }
}

/// An order reduced keeps the book well formed.
pub proof fn lemma_reduce(book: BookView, side: Side, i: int, by: u64)
    requires
        book.wf(),
        0 <= i < book.side(side).len(),
        by <= book.side(side)[i].qty_remaining,
    ensures
        book.with_side(
            side,
            book.side(side).update(i, reduced(book.side(side)[i], by)),
        ).wf(),
        book.fits() ==> book.with_side(
            side,
            book.side(side).update(i, reduced(book.side(side)[i], by)),
        ).fits(),
{
    let q = book.side(side);
    let r = q.update(i, reduced(q[i], by));
    if book.fits() {
        assert forall|price: u64|
            #![trigger level_qty(r, price)]
            #![trigger level_count(r, price)]
            level_qty(r, price) <= u64::MAX && level_count(r, price) <= u32::MAX by {
            lemma_level_update(q, i, reduced(q[i], by), price);
            assert(level_qty(q, price) <= u64::MAX);
        }
    }
}

/// What rests once an order was put in.
pub proof fn lemma_with_order_rests(book: BookView, order: RestingOrder, id: u64)
    requires
        behind(order.side, book.side(order.side), order) <= book.side(order.side).len(),
    ensures
        book.with_order(order).rests(id) <==> book.rests(id) || id == order.id.0,
{
    let q = book.side(order.side);
    let k = q.len() - behind(order.side, q, order);
    let r = enqueue(order.side, q, order);
    assert(r[k] == order);
    assert forall|i: int| 0 <= i < q.len() implies #[trigger] q[i] == r[if i < k {
        i
    } else {
        i + 1
    }] by {}
    if holds(r, id) && id != order.id.0 {
        let i = position(r, id);
        assert(q[if i < k {
            i
        } else {
            i - 1
        }].id.0 == id);
    }
    if holds(q, id) {
        let i = position(q, id);
        assert(r[if i < k {
            i
        } else {
            i + 1
        }].id.0 == id);
    }
}

/// Taking orders from the head of a queue keeps the book well formed.
pub proof fn lemma_skip(book: BookView, side: Side, n: int)
    requires
        book.wf(),
        0 <= n <= book.side(side).len(),
    ensures
        book.with_side(side, book.side(side).skip(n)).wf(),
        book.fits() ==> book.with_side(side, book.side(side).skip(n)).fits(),
    decreases n,
{
    let q = book.side(side);
    if n == 0 {
        assert(q.skip(0) =~= q);
        assert(book.with_side(side, q) == book);
    } else {
        lemma_skip(book, side, n - 1);
        let b = book.with_side(side, q.skip(n - 1));
        lemma_remove(b, side, 0);
        assert(b.side(side).remove(0) =~= q.skip(n));
        assert(b.with_side(side, q.skip(n)) == book.with_side(side, q.skip(n)));
    }
}

} // verus!
