//! The levels of the book as sums over the records of the orders.
use vstd::prelude::*;

use crate::laws::{law_book_agrees_with_records, law_resting_iff_live};
use crate::model::EngineView;
use crate::queue::{
    holds, ids_distinct, lemma_order, lemma_position, lemma_rests, level_count, level_qty,
    position,
};
use crate::types::{OrderRecord, OrderType, RestingOrder, Side};

verus! {

/// What an order of which this is told has resting on this side at this price.
pub open spec fn resting_at(record: Option<OrderRecord>, side: Side, price: u64) -> nat {
    match record {
        Some(r) => if r.side == side && r.order_type == (OrderType::Limit { price }) {
            r.qty_remaining as nat
        } else {
            0
        },
        None => 0,
    }
}

/// The quantity that the orders with ids below `n` have resting on this side at this price.
pub open spec fn qty_at(state: EngineView, side: Side, price: u64, n: nat) -> nat
    decreases n,
{
    if n == 0 {
        0
    } else {
        qty_at(state, side, price, (n - 1) as nat) + resting_at(
            state.record((n - 1) as u64),
            side,
            price,
        )
    }
}

/// The number of orders with ids below `n` that have something resting on this side at this
/// price.
pub open spec fn count_at(state: EngineView, side: Side, price: u64, n: nat) -> nat
    decreases n,
{
    if n == 0 {
        0
    } else {
        count_at(state, side, price, (n - 1) as nat) + if resting_at(
            state.record((n - 1) as u64),
            side,
            price,
        ) > 0 {
            1nat
        } else {
            0
        }
    }
}

/// The orders of the queue with ids below `n`, added up by id.
spec fn by_id(q: Seq<RestingOrder>, price: u64, n: nat) -> (nat, nat)
    decreases n,
{
    if n == 0 {
        (0, 0)
    } else {
        let before = by_id(q, price, (n - 1) as nat);
        let this = share(q, price, (n - 1) as u64);
        (before.0 + this.0, before.1 + this.1)
    }
}

/// What the order with this id adds to the level.
spec fn share(q: Seq<RestingOrder>, price: u64, id: u64) -> (nat, nat) {
    if holds(q, id) && q[position(q, id)].price == price {
        (q[position(q, id)].qty_remaining as nat, 1)
    } else {
        (0, 0)
    }
}

/// One order more at the end of the queue adds its share and no other.
proof fn lemma_one_more(q: Seq<RestingOrder>, price: u64, n: nat)
    requires
        q.len() > 0,
        ids_distinct(q),
        n <= u64::MAX,
    ensures
        ({
            let r = q.drop_last();
            let o = q.last();
            let counts = o.id.0 < n && o.price == price;
            &&& by_id(q, price, n).0 == by_id(r, price, n).0 + if counts {
                o.qty_remaining as nat
            } else {
                0
            }
            &&& by_id(q, price, n).1 == by_id(r, price, n).1 + if counts {
                1nat
            } else {
                0
            }
        }),
    decreases n,
{
    let r = q.drop_last();
    let last = q.len() - 1;
    if n > 0 {
        let id = (n - 1) as u64;
        lemma_one_more(q, price, (n - 1) as nat);
        lemma_position(q, last);
        if holds(q, id) {
            let p = position(q, id);
            assert(0 <= p < q.len() && q[p].id.0 == id);
            if p < last {
                assert(r[p] == q[p]);
                assert(ids_distinct(r)) by {
                    assert forall|i: int, j: int|
                        0 <= i < r.len() && 0 <= j < r.len() && i != j implies (
                    #[trigger] r[i]).id.0 != (#[trigger] r[j]).id.0 by {
                        assert(r[i] == q[i] && r[j] == q[j]);
                    }
                }
                lemma_position(r, p);
            } else if holds(r, id) {
                let k = position(r, id);
                assert(0 <= k < r.len() && r[k].id.0 == id);
                assert(r[k] == q[k]);
            }
        } else if holds(r, id) {
            let k = position(r, id);
            assert(0 <= k < r.len() && r[k].id.0 == id);
            assert(q[k].id.0 == id);
        }
    }
}

/// Added up by id or by place, a level is the same.
proof fn lemma_by_id(q: Seq<RestingOrder>, price: u64, n: nat)
    requires
        ids_distinct(q),
        n <= u64::MAX,
        forall|i: int| 0 <= i < q.len() ==> (#[trigger] q[i]).id.0 < n,
    ensures
        by_id(q, price, n) == (level_qty(q, price), level_count(q, price)),
    decreases q.len(),
{
    if q.len() == 0 {
        lemma_none_by_id(q, price, n);
    } else {
        let r = q.drop_last();
        assert forall|i: int| 0 <= i < r.len() implies (#[trigger] r[i]).id.0 < n by {
            assert(r[i] == q[i]);
        }
        assert forall|i: int, j: int| 0 <= i < r.len() && 0 <= j < r.len() && i != j implies (
        #[trigger] r[i]).id.0 != (#[trigger] r[j]).id.0 by {
            assert(r[i] == q[i] && r[j] == q[j]);
        }
        lemma_by_id(r, price, n);
        lemma_one_more(q, price, n);
        assert(q[q.len() - 1].id.0 < n);
    }
}

proof fn lemma_none_by_id(q: Seq<RestingOrder>, price: u64, n: nat)
    requires
        q.len() == 0,
    ensures
        by_id(q, price, n) == (0nat, 0nat),
    decreases n,
{
    if n > 0 {
        lemma_none_by_id(q, price, (n - 1) as nat);
    }
}

/// The records add up to what the queue adds up to by id.
proof fn lemma_records_by_id(state: EngineView, side: Side, price: u64, n: nat)
    requires
        state.wf(),
        n <= state.next_order_id,
    ensures
        by_id(state.book.side(side), price, n) == (
            qty_at(state, side, price, n),
            count_at(state, side, price, n),
        ),
    decreases n,
{
    if n > 0 {
        let id = (n - 1) as u64;
        let q = state.book.side(side);
        lemma_records_by_id(state, side, price, (n - 1) as nat);
        if holds(q, id) {
            let p = position(q, id);
            assert(0 <= p < q.len() && q[p].id.0 == id);
            lemma_order(state.book, side, p);
            assert(state.backed(state.book.side(side)[p]));
        } else if state.orders.contains_key(id) {
            law_resting_iff_live(state, id);
            if state.book.rests(id) {
                law_book_agrees_with_records(state, id);
                lemma_rests(state.book, id);
                assert(state.book.order(id).side != side);
            }
        }
    }
}

/// The quantity and the number of orders that rest at a price are what the records of the orders
/// add up to.
pub proof fn law_level_is_sum(state: EngineView, side: Side, price: u64)
    requires
        state.wf(),
    ensures
        level_qty(state.book.side(side), price) == qty_at(state, side, price, state.next_order_id),
        level_count(state.book.side(side), price) == count_at(
            state,
            side,
            price,
            state.next_order_id,
        ),
{
    let q = state.book.side(side);
    assert forall|i: int| 0 <= i < q.len() implies (#[trigger] q[i]).id.0
        < state.next_order_id by {
        assert(state.backed(state.book.side(side)[i]));
        assert(state.orders.contains_key(q[i].id.0));
    }
    lemma_by_id(q, price, state.next_order_id);
    lemma_records_by_id(state, side, price, state.next_order_id);
}

} // verus!
