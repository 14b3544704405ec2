//! Every request keeps the invariant of the engine.
use vstd::prelude::*;

use crate::limits::MAX_ORDER_QTY;
use crate::matching::{filled_by, lemma_settle, lemma_walk, lemma_walk_wf, settle};
use crate::model::{budget, refusal, EngineView};
use crate::queue::{
    behind, holds, lemma_behind, lemma_level_bound, lemma_order, lemma_remove, lemma_rests,
    lemma_with_order, lemma_with_order_rests, position, precedes, slot_free,
};
use crate::types::{NewOrder, RestingOrder, Side};

verus! {

/// How many makers the request takes from the head of the opposite queue for good.
pub open spec fn makers_gone(state: EngineView, request: NewOrder) -> int {
    state.book.side(request.side.opposite()).len() - state.matching(request).queue.len()
}

/// The order `now` is what is left of `before`.
pub open spec fn same_place(now: RestingOrder, before: RestingOrder) -> bool {
    &&& now.id == before.id
    &&& now.side == before.side
    &&& now.price == before.price
    &&& now.sequence == before.sequence
    &&& 0 < now.qty_remaining <= before.qty_remaining
}

/// What matching does to the queue: the makers at its head leave, wholly filled, the next one
/// may have been filled in part, and the others stand as before.
pub proof fn lemma_matched_queue(state: EngineView, request: NewOrder)
    requires
        state.wf(),
    ensures
        ({
            let q = state.book.side(request.side.opposite());
            let w = state.matching(request);
            let r = w.queue;
            let gone = makers_gone(state, request);
            let n = w.fills.len();
            &&& state.matched_book(request).wf()
            &&& state.matched_book(request).fits()
            &&& 0 <= gone <= q.len()
            &&& gone <= n <= q.len()
            &&& n <= gone + (if w.remaining == 0 {
                1int
            } else {
                0
            })
            &&& forall|i: int| 0 <= i < r.len() ==> same_place(#[trigger] r[i], q[i + gone])
            &&& forall|i: int|
                0 <= i < r.len() && i + gone >= n ==> (#[trigger] r[i]) == q[i + gone]
            &&& forall|i: int| 0 <= i < n ==> (#[trigger] w.fills[i]).maker == q[i].id
            &&& forall|i: int|
                0 <= i < gone ==> (#[trigger] w.fills[i]).qty == q[i].qty_remaining
            &&& n > gone ==> r.len() > 0 && r[0].qty_remaining == q[gone].qty_remaining
                - w.fills[gone].qty && r[0].qty_remaining < q[gone].qty_remaining
        }),
{
    let other = request.side.opposite();
    let q = state.book.side(other);
    let w = state.matching(request);
    let r = w.queue;
    let gone = makers_gone(state, request);
    lemma_walk(request.side, request.order_type, q, request.qty, budget(request));
    lemma_walk_wf(request.side, request.order_type, state.book, request.qty, budget(request));
    lemma_fill_positive(state, request);
    assert forall|i: int| 0 <= i < r.len() implies same_place(#[trigger] r[i], q[i + gone]) by {
        assert(state.backed(state.book.side(other)[i + gone]));
    }
}

/// What matching does to the records: those of the makers that leave close as filled, that of
/// a maker filled in part shows what is left, and the others stay.
pub proof fn lemma_matched_records(state: EngineView, request: NewOrder)
    requires
        state.wf(),
    ensures
        ({
            let q = state.book.side(request.side.opposite());
            let w = state.matching(request);
            let after = settle(state.orders, w.fills);
            let gone = makers_gone(state, request);
            let n = w.fills.len();
            &&& after.dom() == state.orders.dom()
            &&& forall|i: int|
                0 <= i < n ==> after[(#[trigger] q[i]).id.0] == filled_by(
                    state.orders[q[i].id.0],
                    w.fills[i].qty,
                )
            &&& forall|i: int|
                n <= i < q.len() ==> after[(#[trigger] q[i]).id.0] == state.orders[q[i].id.0]
            &&& forall|id: u64|
                !holds(q, id) ==> #[trigger] after[id] == state.orders[id]
        }),
{
    let other = request.side.opposite();
    let q = state.book.side(other);
    let w = state.matching(request);
    let n = w.fills.len();
    let after = settle(state.orders, w.fills);
    lemma_matched_queue(state, request);
    assert forall|i: int| 0 <= i < n implies state.orders.contains_key(
        (#[trigger] w.fills[i]).maker.0,
    ) by {
        assert(state.backed(state.book.side(other)[i]));
    }
    assert forall|i: int, j: int| 0 <= i < j < n implies (#[trigger] w.fills[i]).maker.0 != (
    #[trigger] w.fills[j]).maker.0 by {
        assert(q[i].id.0 != q[j].id.0);
    }
    lemma_settle(state.orders, w.fills);
    assert forall|i: int| 0 <= i < n implies after[(#[trigger] q[i]).id.0] == filled_by(
        state.orders[q[i].id.0],
        w.fills[i].qty,
    ) by {
        assert(w.fills[i].maker == q[i].id);
    }
    assert forall|i: int| n <= i < q.len() implies after[(#[trigger] q[i]).id.0]
        == state.orders[q[i].id.0] by {
        assert forall|k: int| 0 <= k < n implies (#[trigger] w.fills[k]).maker.0 != q[i].id.0 by {
            assert(q[k].id.0 != q[i].id.0);
        }
    }
    assert forall|id: u64| !holds(q, id) implies #[trigger] after[id] == state.orders[id] by {
        assert forall|k: int| 0 <= k < n implies (#[trigger] w.fills[k]).maker.0 != id by {
            if w.fills[k].maker.0 == id {
                assert(q[k].id.0 == id);
            }
        }
    }
}

/// What rests once the request is matched: all that did, but the makers that have left.
pub proof fn lemma_matched_rests(state: EngineView, request: NewOrder, id: u64)
    requires
        state.wf(),
    ensures
        ({
            let q = state.book.side(request.side.opposite());
            let gone = makers_gone(state, request);
            let left = holds(q, id) && position(q, id) < gone;
            state.matched_book(request).rests(id) <==> state.book.rests(id) && !left
        }),
{
    let other = request.side.opposite();
    let q = state.book.side(other);
    let r = state.matching(request).queue;
    let gone = makers_gone(state, request);
    let matched = state.matched_book(request);
    lemma_matched_queue(state, request);
    if matched.rests(id) {
        lemma_rests(matched, id);
        let s = matched.order(id).side;
        let p = position(matched.side(s), id);
        if s == other {
            assert(same_place(r[p], q[p + gone]));
            lemma_order(state.book, other, p + gone);
        } else {
            assert(matched.side(s) == state.book.side(s));
            lemma_order(state.book, s, p);
            if holds(q, id) {
                lemma_order(state.book, other, position(q, id));
            }
        }
    }
    if state.book.rests(id) {
        lemma_rests(state.book, id);
        let s = state.book.order(id).side;
        let p = position(state.book.side(s), id);
        if s == other {
            if p >= gone {
                assert(same_place(r[p - gone], q[p]));
                assert(holds(r, id));
            }
        } else {
            assert(matched.side(s)[p].id.0 == id);
            assert(holds(matched.side(s), id));
        }
    }
}

/// A fill is never for nothing.
pub proof fn lemma_fill_positive(state: EngineView, request: NewOrder)
    requires
        state.wf(),
    ensures
        forall|i: int|
            0 <= i < state.matching(request).fills.len() ==> (#[trigger] state.matching(
                request,
            ).fills[i]).qty > 0,
{
    let q = state.book.side(request.side.opposite());
    assert forall|i: int| 0 <= i < q.len() implies (#[trigger] q[i]).qty_remaining > 0 by {
        assert(state.backed(state.book.side(request.side.opposite())[i]));
    }
    crate::matching::lemma_fills_positive(
        request.side,
        request.order_type,
        q,
        request.qty,
        budget(request),
    );
}

/// After matching, the orders in the book are still backed by their records.
proof fn lemma_matched_backed(state: EngineView, request: NewOrder, side: Side, i: int)
    requires
        state.wf(),
        state.next_order_id < u64::MAX,
        0 <= i < state.matched_book(request).side(side).len(),
    ensures
        state.submitted(request).backed(state.matched_book(request).side(side)[i]),
{
    let next = state.submitted(request);
    let w = state.matching(request);
    let other = request.side.opposite();
    let q = state.book.side(other);
    let gone = makers_gone(state, request);
    let o = state.matched_book(request).side(side)[i];
    lemma_matched_queue(state, request);
    lemma_matched_records(state, request);
    assert(!state.orders.contains_key(state.new_id().0));
    if side == other {
        let j = i + gone;
        assert(state.backed(state.book.side(other)[j]));
        assert(same_place(w.queue[i], q[j]));
        assert(next.orders[o.id.0] == settle(state.orders, w.fills)[q[j].id.0]);
        assert(state.orders.contains_key(q[j].id.0));
    } else {
        assert(o == state.book.side(side)[i]);
        assert(state.backed(state.book.side(side)[i]));
        if holds(q, o.id.0) {
            lemma_order(state.book, other, position(q, o.id.0));
            lemma_order(state.book, side, i);
        }
        assert(settle(state.orders, w.fills)[o.id.0] == state.orders[o.id.0]);
    }
}

/// The records after an accepted request: those of orders that do not rest are closed.
proof fn lemma_submitted_record(state: EngineView, request: NewOrder, id: u64)
    requires
        state.wf(),
        refusal(request) is None,
        state.next_order_id < u64::MAX,
        state.orders.contains_key(id),
    ensures
        ({
            let meta = settle(state.orders, state.matching(request).fills)[id];
            &&& 0 < meta.qty_original <= MAX_ORDER_QTY
            &&& meta.qty_remaining <= meta.qty_original
            &&& !state.matched_book(request).rests(id) ==> EngineView::closed_record(meta)
        }),
{
    let other = request.side.opposite();
    let q = state.book.side(other);
    let w = state.matching(request);
    let gone = makers_gone(state, request);
    lemma_matched_queue(state, request);
    lemma_matched_records(state, request);
    lemma_matched_rests(state, request, id);
    if holds(q, id) {
        let p = position(q, id);
        assert(q[p].id.0 == id);
        assert(state.backed(state.book.side(other)[p]));
        if p < gone {
            assert(w.fills[p].qty == q[p].qty_remaining);
        } else {
            lemma_order(state.book, other, p);
        }
    }
}

/// An accepted request keeps the invariant.
pub proof fn lemma_submitted_wf(state: EngineView, request: NewOrder)
    requires
        state.wf(),
        refusal(request) is None,
        state.has_room(request),
    ensures
        state.submitted(request).wf(),
        state.matched_book(request).wf(),
{
    let next = state.submitted(request);
    let w = state.matching(request);
    let matched = state.matched_book(request);
    let settled = settle(state.orders, w.fills);
    let id = state.new_id().0;
    lemma_matched_queue(state, request);
    lemma_matched_records(state, request);
    lemma_walk(
        request.side,
        request.order_type,
        state.book.side(request.side.opposite()),
        request.qty,
        budget(request),
    );
    lemma_new_id(state);
    lemma_matched_rests(state, request, id);
    assert forall|s: Side, i: int| 0 <= i < matched.side(s).len() implies next.backed(
        #[trigger] matched.side(s)[i],
    ) by {
        lemma_matched_backed(state, request, s, i);
    }
    if state.will_rest(request) {
        lemma_resting_fits(state, request);
        let o = state.submit_resting(request);
        let own = matched.side(request.side);
        let k = own.len() - behind(o.side, own, o);
        assert(next.book.side(request.side) == own.insert(k, o));
        assert(next.backed(o));
        assert forall|s: Side, i: int| 0 <= i < next.book.side(s).len() implies next.backed(
            #[trigger] next.book.side(s)[i],
        ) by {
            if s == request.side {
                if i < k {
                    assert(next.book.side(s)[i] == matched.side(s)[i]);
                } else if i > k {
                    assert(next.book.side(s)[i] == matched.side(s)[i - 1]);
                }
            } else {
                assert(next.book.side(s)[i] == matched.side(s)[i]);
            }
        }
        assert forall|x: u64| #[trigger] next.book.rests(x) <==> matched.rests(x) || x == id by {
            lemma_with_order_rests(matched, o, x);
        }
    }
    assert forall|x: u64| #[trigger] next.orders.contains_key(x) <==> 1 <= x
        < next.next_order_id by {
        assert(settled.contains_key(x) <==> state.orders.contains_key(x));
    }
    assert forall|x: u64| #[trigger] next.orders.contains_key(x) implies {
        &&& 0 < next.orders[x].qty_original <= MAX_ORDER_QTY
        &&& next.orders[x].qty_remaining <= next.orders[x].qty_original
        &&& !next.book.rests(x) ==> EngineView::closed_record(next.orders[x])
    } by {
        if x != id {
            assert(state.orders.contains_key(x));
            lemma_submitted_record(state, request, x);
        }
    }
}

/// The id of the next order is in use nowhere.
pub proof fn lemma_new_id(state: EngineView)
    requires
        state.wf(),
        state.next_order_id < u64::MAX,
    ensures
        !state.orders.contains_key(state.new_id().0),
        !state.book.rests(state.new_id().0),
{
    let id = state.new_id().0;
    if state.book.rests(id) {
        lemma_rests(state.book, id);
        let s = state.book.order(id).side;
        assert(state.backed(state.book.side(s)[position(state.book.side(s), id)]));
    }
}

/// What is left of a limit order can be put in the book.
pub proof fn lemma_resting_fits(state: EngineView, request: NewOrder)
    requires
        state.wf(),
        refusal(request) is None,
        state.has_room(request),
        state.will_rest(request),
    ensures
        ({
            let matched = state.matched_book(request);
            let o = state.submit_resting(request);
            let own = matched.side(request.side);
            &&& matched.wf()
            &&& matched.fits()
            &&& own == state.book.side(request.side)
            &&& !matched.rests(o.id.0)
            &&& slot_free(own, o.price, o.sequence)
            &&& matched.has_room(o)
            &&& matched.with_order(o).wf()
            &&& matched.with_order(o).fits()
            &&& behind(o.side, own, o) <= own.len()
        }),
{
    let matched = state.matched_book(request);
    let o = state.submit_resting(request);
    let own = matched.side(request.side);
    lemma_matched_queue(state, request);
    lemma_new_id(state);
    lemma_matched_rests(state, request, o.id.0);
    lemma_walk(
        request.side,
        request.order_type,
        state.book.side(request.side.opposite()),
        request.qty,
        budget(request),
    );
    assert forall|i: int| 0 <= i < own.len() implies (#[trigger] own[i]).qty_remaining
        <= MAX_ORDER_QTY && own[i].sequence < state.next_sequence by {
        assert(state.backed(state.book.side(request.side)[i]));
    }
    lemma_level_bound(own, o.price);
    lemma_with_order(matched, o);
}

/// A cancellation keeps the invariant.
pub proof fn lemma_cancelled_wf(state: EngineView, id: u64)
    requires
        state.wf(),
        state.book.rests(id),
    ensures
        state.cancelled(id).wf(),
        !state.cancelled(id).book.rests(id),
        forall|x: u64| x != id ==> (#[trigger] state.cancelled(id).book.rests(x)
            <==> state.book.rests(x)),
{
    let next = state.cancelled(id);
    let side = state.book.order(id).side;
    let q = state.book.side(side);
    let p = position(q, id);
    lemma_rests(state.book, id);
    lemma_remove(state.book, side, p);
    assert(state.backed(state.book.side(side)[p]));
    assert forall|x: u64| next.book.rests(x) implies x != id && state.book.rests(x) by {
        lemma_rests(next.book, x);
        let s = next.book.order(x).side;
        let i = position(next.book.side(s), x);
        let j = if s == side && i >= p {
            i + 1
        } else {
            i
        };
        assert(next.book.side(s)[i] == state.book.side(s)[j]);
        lemma_order(state.book, s, j);
        lemma_order(state.book, side, p);
    }
    assert forall|x: u64| x != id && state.book.rests(x) implies #[trigger] next.book.rests(x) by {
        lemma_rests(state.book, x);
        let s = state.book.order(x).side;
        let j = position(state.book.side(s), x);
        let i = if s == side && j > p {
            j - 1
        } else {
            j
        };
        assert(next.book.side(s)[i] == state.book.side(s)[j]);
        assert(holds(next.book.side(s), x));
    }
    assert forall|s: Side, i: int| 0 <= i < next.book.side(s).len() implies next.backed(
        #[trigger] next.book.side(s)[i],
    ) by {
        let j = if s == side && i >= p {
            i + 1
        } else {
            i
        };
        assert(next.book.side(s)[i] == state.book.side(s)[j]);
        assert(state.backed(state.book.side(s)[j]));
        lemma_order(next.book, s, i);
        assert(next.book.side(s)[i].id.0 != id);
    }
}

/// An accepted request keeps the ids in the order of age.
pub proof fn lemma_submitted_aged(state: EngineView, request: NewOrder)
    requires
        state.wf(),
        state.aged(),
        refusal(request) is None,
        state.has_room(request),
    ensures
        state.submitted(request).aged(),
{
    let next = state.submitted(request);
    let matched = state.matched_book(request);
    let other = request.side.opposite();
    let w = state.matching(request);
    let gone = makers_gone(state, request);
    lemma_matched_queue(state, request);
    lemma_new_id(state);
    assert forall|s: Side, i: int, j: int|
        0 <= i < j < next.book.side(s).len() && next.book.side(s)[i].price
            == next.book.side(s)[j].price implies (#[trigger] next.book.side(s)[i]).id.0 < (
    #[trigger] next.book.side(s)[j]).id.0 by {
        let q = state.book.side(s);
        if s == other {
            assert(next.book.side(s) == w.queue);
            assert(same_place(w.queue[i], q[i + gone]));
            assert(same_place(w.queue[j], q[j + gone]));
        } else if state.will_rest(request) {
            lemma_resting_fits(state, request);
            let o = state.submit_resting(request);
            let k = q.len() - behind(s, q, o);
            let r = next.book.side(s);
            lemma_behind(s, q, o);
            assert(r == q.insert(k, o));
            let a = if i < k {
                i
            } else {
                i - 1
            };
            let b = if j < k {
                j
            } else {
                j - 1
            };
            if i != k {
                assert(r[i] == q[a]);
            }
            if j != k {
                assert(r[j] == q[b]);
            }
            if i == k {
                assert(precedes(s, o, q[b]));
                assert(state.backed(state.book.side(s)[b]));
            } else if j == k {
                assert(state.backed(state.book.side(s)[a]));
                assert(state.orders.contains_key(q[a].id.0));
            }
        } else {
            assert(next.book.side(s) == q);
        }
    }
}

/// A cancellation keeps the ids in the order of age.
pub proof fn lemma_cancelled_aged(state: EngineView, id: u64)
    requires
        state.wf(),
        state.aged(),
        state.book.rests(id),
    ensures
        state.cancelled(id).aged(),
{
    let next = state.cancelled(id);
    let side = state.book.order(id).side;
    let p = position(state.book.side(side), id);
    lemma_rests(state.book, id);
    assert forall|s: Side, i: int, j: int|
        0 <= i < j < next.book.side(s).len() && next.book.side(s)[i].price
            == next.book.side(s)[j].price implies (#[trigger] next.book.side(s)[i]).id.0 < (
    #[trigger] next.book.side(s)[j]).id.0 by {
        let a = if s == side && i >= p {
            i + 1
        } else {
            i
        };
        let b = if s == side && j >= p {
            j + 1
        } else {
            j
        };
        assert(next.book.side(s)[i] == state.book.side(s)[a]);
        assert(next.book.side(s)[j] == state.book.side(s)[b]);
    }
}

} // verus!
