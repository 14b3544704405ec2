//! The orders with which a load test feeds the engine.
use vstd::prelude::*;

use crate::engine::Engine;
use crate::matching::settle;
use crate::model::EngineView;
use crate::queue::{holds, level_count, position};
use crate::types::{
    BookDelta, EngineError, NewOrder, OrderId, OrderRecord, OrderType, Side, SubmitResult,
};
use crate::upkeep::{lemma_matched_records, lemma_new_id};

verus! {

/// Orders are spread over this many prices.
pub const LOAD_PRICES: u64 = 50;

/// The lowest of these prices.
pub const LOAD_BASE_PRICE: u64 = 100;

/// A limit order of a load test, the `n`th in a row.
pub open spec fn load_order(side: Side, n: u64, qty: u64) -> NewOrder {
    NewOrder {
        side,
        order_type: OrderType::Limit { price: (LOAD_BASE_PRICE + n % LOAD_PRICES) as u64 },
        qty,
        client_order_id: None,
        max_matches: None,
    }
}

/// The `n`th order with which one side of the book is filled before the test.
pub fn seed_order(side: Side, n: u64) -> (order: NewOrder)
    ensures
        order == load_order(side, n, 10),
{
    NewOrder {
        side,
        order_type: OrderType::Limit { price: LOAD_BASE_PRICE + n % LOAD_PRICES },
        qty: 10,
        client_order_id: None,
        max_matches: None,
    }
}

/// The `n`th order of a worker: the even ones buy, the odd ones sell.
pub fn worker_order(worker: usize, n: u64) -> (order: NewOrder)
    ensures
        order == load_order(
            if worker % 2 == 0 {
                Side::Bid
            } else {
                Side::Ask
            },
            n,
            1,
        ),
{
    let side = if worker % 2 == 0 {
        Side::Bid
    } else {
        Side::Ask
    };
    NewOrder {
        side,
        order_type: OrderType::Limit { price: LOAD_BASE_PRICE + n % LOAD_PRICES },
        qty: 1,
        client_order_id: None,
        max_matches: None,
    }
}

/// The `n`th order of the seeding: an ask and then a bid at each price in turn.
pub open spec fn seeding_order(n: nat) -> NewOrder {
    load_order(
        if n % 2 == 0 {
            Side::Ask
        } else {
            Side::Bid
        },
        (n / 2) as u64,
        10,
    )
}

/// The state once the first `n` orders of the seeding are submitted.
pub open spec fn seeded(state: EngineView, n: nat) -> EngineView
    decreases n,
{
    if n == 0 {
        state
    } else {
        seeded(state, (n - 1) as nat).submitted(seeding_order((n - 1) as nat))
    }
}

/// Fills the book before the test with `levels` asks and as many bids, in turn, and tells how
/// many orders were submitted: all of them, or those before the first for which the engine has
/// no room.
pub fn seed(engine: &mut Engine, levels: u64) -> (done: u128)
    requires
        old(engine).wf(),
    ensures
        final(engine).wf(),
        done <= 2 * levels,
        final(engine)@ == seeded(old(engine)@, done as nat),
        done < 2 * levels ==> !final(engine)@.has_room(seeding_order(done as nat)),
        forall|j: nat|
            j < done ==> (#[trigger] seeded(old(engine)@, j)).wf() && seeded(
                old(engine)@,
                j,
            ).has_room(seeding_order(j)),
{
    let total: u128 = 2 * (levels as u128);
    let mut done: u128 = 0;
    while done < total
        invariant
            engine.wf(),
            total == 2 * levels,
            done <= total,
            engine@ == seeded(old(engine)@, done as nat),
            forall|j: nat|
                j < done ==> (#[trigger] seeded(old(engine)@, j)).wf() && seeded(
                    old(engine)@,
                    j,
                ).has_room(seeding_order(j)),
        decreases total - done,
    {
        let side = if done % 2 == 0 {
            Side::Ask
        } else {
            Side::Bid
        };
        let order = seed_order(side, (done / 2) as u64);
        assert(order == seeding_order(done as nat));
        if !engine.has_room(&order) {
            return done;
        }
        proof {
            engine.lemma_wf();
        }
        let _ = engine.submit(order);
        done = done + 1;
    }
    done
}

/// An order of the seeding is for ten, at one of fifty prices from a hundred up, which come round
/// in turn.
pub proof fn law_seed_order(side: Side, n: u64, order: NewOrder)
    requires
        call_ensures(seed_order, (side, n), order),
    ensures
        order.side == side,
        order.qty == 10,
        order.order_type matches OrderType::Limit { price } && 100 <= price < 150 && (price - 100
            - n) % 50 == 0,
        order.client_order_id is None,
        order.max_matches is None,
{
}

/// An order of a worker is for one, at the price that comes in turn; every other worker buys.
pub proof fn law_worker_order(worker: usize, n: u64, order: NewOrder)
    requires
        call_ensures(worker_order, (worker, n), order),
    ensures
        order.side == Side::Bid <==> worker % 2 == 0,
        order.qty == 1,
        order.order_type matches OrderType::Limit { price } && 100 <= price < 150 && (price - 100
            - n) % 50 == 0,
        order.client_order_id is None,
        order.max_matches is None,
{
}

/// After the seeding each order of it is known, an ask and a bid in turn, with the price that
/// comes in turn.
pub proof fn law_seed(
    engine: &mut Engine,
    levels: u64,
    done: u128,
    k: nat,
    record: Option<OrderRecord>,
)
    requires
        old(engine).wf(),
        call_ensures(seed, (engine, levels), done),
        k < done,
        call_ensures(
            Engine::get_order,
            (&*final(engine), OrderId((old(engine)@.next_order_id + k) as u64)),
            record,
        ),
    ensures
        done <= 2 * levels,
        final(engine)@.next_order_id == old(engine)@.next_order_id + done,
        record is Some,
        record->0.side == Side::Ask <==> k % 2 == 0,
        record->0.qty_original == 10,
        record->0.order_type matches OrderType::Limit { price } && 100 <= price < 150 && (price
            - 100 - k / 2) % 50 == 0,
{
    old(engine).lemma_wf();
    lemma_seeded(old(engine)@, done as nat, k);
}

proof fn lemma_seeded(state: EngineView, n: nat, k: nat)
    requires
        state.wf(),
        k < n,
        forall|j: nat|
            j < n ==> (#[trigger] seeded(state, j)).wf() && seeded(state, j).has_room(
                seeding_order(j),
            ),
        n <= 2 * u64::MAX,
    ensures
        seeded(state, n).next_order_id == state.next_order_id + n,
        ({
            let id = (state.next_order_id + k) as u64;
            let meta = seeded(state, n).orders[id];
            &&& state.next_order_id + k < u64::MAX
            &&& seeded(state, n).orders.contains_key(id)
            &&& meta.side == seeding_order(k).side
            &&& meta.order_type == seeding_order(k).order_type
            &&& meta.qty_original == 10
        }),
    decreases n,
{
    let m = (n - 1) as nat;
    let before = seeded(state, m);
    let order = seeding_order(m);
    let id = (state.next_order_id + k) as u64;
    assert(seeded(state, m).wf());
    if m > 0 {
        lemma_seeded(
            state,
            m,
            if k < m {
                k
            } else {
                0
            },
        );
    } else {
        assert(seeded(state, 0) == state);
    }
    lemma_new_id(before);
    lemma_matched_records(before, order);
    if k < m {
        let q = before.book.side(order.side.opposite());
        if holds(q, id) {
            let p = position(q, id);
            assert(0 <= p < q.len() && q[p].id.0 == id);
        }
        assert(settle(before.orders, before.matching(order).fills).contains_key(id));
    }
}

/// The seeding stops early only where ids have run out, or a price has as many orders as can be
/// counted.
pub proof fn law_seed_whole(engine: &mut Engine, levels: u64, done: u128)
    requires
        old(engine).wf(),
        call_ensures(seed, (engine, levels), done),
        final(engine)@.next_order_id < u64::MAX,
        forall|side: Side, price: u64|
            #[trigger] level_count(final(engine)@.book.side(side), price) < u32::MAX,
    ensures
        done == 2 * levels,
{
}

/// Seeding one level more comes to the seeding and then the ask and the bid of that level; and
/// seeding no level changes nothing.
pub proof fn law_seed_steps(
    engine: &mut Engine,
    asked: &mut Engine,
    bid: &mut Engine,
    twin: &mut Engine,
    levels: u64,
    ask_order: NewOrder,
    bid_order: NewOrder,
    first: Result<(SubmitResult, Vec<BookDelta>), EngineError>,
    second: Result<(SubmitResult, Vec<BookDelta>), EngineError>,
    done: u128,
    whole: u128,
)
    requires
        levels < u64::MAX,
        old(engine).wf(),
        call_ensures(seed, (engine, levels), done),
        done == 2 * levels,
        call_ensures(seed_order, (Side::Ask, levels), ask_order),
        *old(asked) == *final(engine),
        call_ensures(Engine::submit, (asked, ask_order), first),
        call_ensures(seed_order, (Side::Bid, levels), bid_order),
        *old(bid) == *final(asked),
        call_ensures(Engine::submit, (bid, bid_order), second),
        *old(twin) == *old(engine),
        call_ensures(seed, (twin, (levels + 1) as u64), whole),
        whole == 2 * levels + 2,
    ensures
        levels == 0 ==> final(engine)@ == old(engine)@,
        final(bid)@ == final(twin)@,
{
    let n = (2 * levels) as nat;
    let state = old(engine)@;
    assert(n % 2 == 0 && n / 2 == levels);
    assert((n + 1) % 2 == 1 && (n + 1) / 2 == levels);
    assert(ask_order == seeding_order(n));
    assert(bid_order == seeding_order(n + 1));
    assert(seeded(state, n + 1) == seeded(state, n).submitted(seeding_order(n)));
    assert(seeded(state, n + 2) == seeded(state, n + 1).submitted(seeding_order(n + 1)));
}

} // verus!
