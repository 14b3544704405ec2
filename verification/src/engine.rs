//! The matching engine.
use std::collections::HashMap;
use vstd::prelude::*;
use vstd::string::*;

use crate::book::OrderBook;
use crate::clock::now_ns;
use crate::limits::{DEFAULT_MAX_MATCHES, MAX_ORDER_PRICE, MAX_ORDER_QTY};
use crate::matching::{
    after_fill, filled_by, goes_on, lemma_walk, price_crosses, reports, settle, walk, Fill,
};
use crate::model::{budget, refusal, EngineView};
use crate::queue::{
    best_levels, delta_of, grown_delta_of, lemma_order, lemma_reduce, lemma_remove, lemma_rests,
    lemma_with_order, level_count, level_qty, position, shrunk_delta_of, slot_free,
};
use crate::text::decimal_text;
use crate::types::{
    BookDelta, BookDeltaKind, EngineError, NewOrder, OrderBookSnapshot, OrderId, OrderMeta,
    OrderRecord, OrderStatus, OrderType, RestingOrder, Side, SubmitResult, Trade,
};
use crate::upkeep::{
    lemma_cancelled_aged, lemma_cancelled_wf, lemma_resting_fits, lemma_submitted_aged,
    lemma_submitted_wf,
};

verus! {

/// `e` refuses a request for the reason given.
pub open spec fn refused_for(e: EngineError, reason: Seq<char>) -> bool {
    e matches EngineError::InvalidOrder(text) && text@ == reason
}

/// Checks a request against the limits.
pub fn validate_new_order(request: &NewOrder) -> (checked: Result<(), EngineError>)
    ensures
        match refusal(*request) {
            None => checked is Ok,
            Some(reason) => checked is Err && refused_for(checked->Err_0, reason),
        },
{
    if request.qty == 0 {
        return Err(EngineError::InvalidOrder("quantity must be positive".to_string()));
    }
    if request.qty > MAX_ORDER_QTY {
        return Err(
            EngineError::InvalidOrder(
                "quantity exceeds max ".to_string().concat(decimal_text(MAX_ORDER_QTY).as_str()),
            ),
        );
    }
    if let OrderType::Limit { price } = request.order_type {
        if price == 0 {
            return Err(EngineError::InvalidOrder("limit price must be positive".to_string()));
        }
        if price > MAX_ORDER_PRICE {
            return Err(
                EngineError::InvalidOrder(
                    "price exceeds max ".to_string().concat(decimal_text(MAX_ORDER_PRICE).as_str()),
                ),
            );
        }
    }
    Ok(())
}

/// How many makers a request may touch.
pub fn max_matches(request: &NewOrder) -> (n: u32)
    ensures
        n == budget(*request),
{
    match request.max_matches {
        Some(n) => n,
        None => DEFAULT_MAX_MATCHES,
    }
}

/// The report of a level as it stands in the book.
pub fn level_delta(side: Side, price: u64, book: &OrderBook, kind: BookDeltaKind) -> (delta:
    BookDelta)
    requires
        book.wf(),
        level_qty(book@.side(side), price) <= u64::MAX,
        level_count(book@.side(side), price) <= u32::MAX,
    ensures
        delta == delta_of(side, book@.side(side), price, kind),
{
    let level = book.level_at_price(side, price);
    BookDelta { side, price, qty: level.qty, order_count: level.order_count, kind }
}

/// The report of a level from which something was taken.
pub fn level_delta_after_remove(side: Side, price: u64, book: &OrderBook) -> (delta: BookDelta)
    requires
        book.wf(),
        level_qty(book@.side(side), price) <= u64::MAX,
        level_count(book@.side(side), price) <= u32::MAX,
    ensures
        delta == shrunk_delta_of(side, book@.side(side), price),
{
    let level = book.level_at_price(side, price);
    let kind = if level.order_count == 0 {
        BookDeltaKind::Remove
    } else {
        BookDeltaKind::Update
    };
    BookDelta { side, price, qty: level.qty, order_count: level.order_count, kind }
}

/// The trade of `qty` between an incoming order and a resting one, at the resting one's price.
pub fn trade_with(
    id: u64,
    taker_id: OrderId,
    maker: &RestingOrder,
    qty: u64,
    timestamp_ns: u64,
) -> (trade: Trade)
    ensures
        trade == (Trade {
            id,
            taker_order_id: taker_id,
            maker_order_id: maker.id,
            price: maker.price,
            qty,
            timestamp_ns,
        }),
{
    Trade {
        id,
        taker_order_id: taker_id,
        maker_order_id: maker.id,
        price: maker.price,
        qty,
        timestamp_ns,
    }
}

#[derive(Debug)]
pub struct Engine {
    book: OrderBook,
    orders: HashMap<u64, OrderMeta>,
    next_order_id: u64,
    next_trade_id: u64,
    next_sequence: u64,
}

impl View for Engine {
    type V = EngineView;

    closed spec fn view(&self) -> EngineView {
        EngineView {
            book: self.book@,
            orders: self.orders@,
            next_order_id: self.next_order_id as nat,
            next_trade_id: self.next_trade_id as nat,
            next_sequence: self.next_sequence as nat,
        }
    }
}

impl Engine {
    /// The invariant that every operation keeps.
    pub closed spec fn wf(&self) -> bool {
        &&& self.book.wf()
        &&& self@.wf()
        &&& self@.aged()
    }

    /// What a sound engine shows satisfies the invariant of the model.
    pub proof fn lemma_wf(&self)
        requires
            self.wf(),
        ensures
            self@.wf(),
            self@.aged(),
    {
    }

    /// The book itself is sound.
    closed spec fn book_wf(&self) -> bool {
        self.book.wf()
    }

    pub fn new() -> (engine: Engine)
        ensures
            engine.wf(),
            engine@ == EngineView::initial(),
    {
        let engine = Engine {
            book: OrderBook::new(),
            orders: HashMap::new(),
            next_order_id: 1,
            next_trade_id: 1,
            next_sequence: 1,
        };
        assert(engine@.orders =~= Map::empty());
        engine
    }

    /// Matches a request against the book, maker by maker, best price and oldest first.
    fn match_order(
        &mut self,
        taker_id: OrderId,
        request: &NewOrder,
        trades: &mut Vec<Trade>,
        deltas: &mut Vec<BookDelta>,
    ) -> (remaining: u64)
        requires
            old(self).wf(),
            old(self)@.next_order_id < u64::MAX,
            taker_id == old(self)@.new_id(),
            old(trades)@.len() == 0,
            old(deltas)@.len() == 0,
        ensures
            ({
                let before = old(self)@;
                let w = before.matching(*request);
                &&& remaining == w.remaining
                &&& final(self)@ == EngineView {
                    book: before.matched_book(*request),
                    orders: settle(before.orders, w.fills),
                    next_trade_id: before.next_trade_id + w.fills.len(),
                    ..before
                }
                &&& final(self).book_wf()
                &&& reports(final(trades)@, w.fills, taker_id, before.next_trade_id)
                &&& final(deltas)@ == w.deltas
            }),
    {
        let max_matches = max_matches(request);
        let ghost before = self@;
        let ghost other = request.side.opposite();
        let ghost q0 = before.book.side(other);
        let ghost all = before.matching(*request);
        let ghost mut done: Seq<Fill> = Seq::empty();
        let mut remaining: u64 = request.qty;
        let mut matches: u32 = 0;
        proof {
            assert(all.fills =~= done + all.fills);
            assert(all.deltas =~= deltas@ + all.deltas);
            assert forall|i: int| 0 <= i < q0.len() implies self.orders@.contains_key(
                (#[trigger] q0[i]).id.0,
            ) && self.orders@[q0[i].id.0].qty_remaining == q0[i].qty_remaining by {
                assert(before.backed(before.book.side(other)[i]));
            }
        }
        while matches < max_matches && remaining > 0
            invariant
                self.book.wf(),
                self.book@.fits(),
                before.wf(),
                before.next_order_id < u64::MAX,
                other == request.side.opposite(),
                max_matches == budget(*request),
                matches <= max_matches,
                taker_id == before.new_id(),
                all == before.matching(*request),
                self.book@ == before.book.with_side(other, self.book@.side(other)),
                self.next_order_id == before.next_order_id,
                self.next_sequence == before.next_sequence,
                self.next_trade_id == before.next_trade_id + done.len(),
                self.next_trade_id + self.book@.side(other).len() + (if remaining > 0 {
                    1int
                } else {
                    0
                }) <= before.next_trade_id + before.book.side(other).len() + 1,
                forall|i: int|
                    0 <= i < self.book@.side(other).len() ==> self.orders@.contains_key(
                        (#[trigger] self.book@.side(other)[i]).id.0,
                    ) && self.orders@[self.book@.side(other)[i].id.0].qty_remaining
                        == self.book@.side(other)[i].qty_remaining,
                ({
                    let rest = walk(
                        request.side,
                        request.order_type,
                        self.book@.side(other),
                        remaining,
                        (max_matches - matches) as nat,
                    );
                    &&& all.fills == done + rest.fills
                    &&& all.queue == rest.queue
                    &&& all.remaining == rest.remaining
                    &&& all.deltas == deltas@ + rest.deltas
                    &&& settle(before.orders, all.fills) == settle(self.orders@, rest.fills)
                }),
                reports(trades@, done, taker_id, before.next_trade_id),
            ensures
                !goes_on(
                    request.side,
                    request.order_type,
                    self.book@.side(other),
                    remaining,
                    (max_matches - matches) as nat,
                ),
            decreases max_matches - matches,
        {
            let best = match request.side {
                Side::Bid => self.book.best_ask_id(),
                Side::Ask => self.book.best_bid_id(),
            };
            let maker_id = match best {
                Some(id) => id,
                None => break ,
            };
            let ghost q = self.book@.side(other);
            let ghost book = self.book@;
            let ghost orders = self.orders@;
            proof {
                self.book.lemma_wf();
                lemma_order(book, other, 0);
            }
            let maker: RestingOrder = match self.book.get(maker_id) {
                Some(maker) => *maker,
                None => {
                    assert(false);
                    break ;
                },
            };
            if !price_crosses(request.side, request.order_type, maker.price) {
                break ;
            }
            let fill = if remaining < maker.qty_remaining {
                remaining
            } else {
                maker.qty_remaining
            };
            proof {
                lemma_remove(book, other, 0);
                lemma_reduce(book, other, 0, fill);
            }
            let ghost left = after_fill(q, fill);
            let ghost rest = walk(
                request.side,
                request.order_type,
                left,
                (remaining - fill) as u64,
                (max_matches - matches - 1) as nat,
            );
            trades.push(trade_with(self.next_trade_id, taker_id, &maker, fill, now_ns()));
            self.next_trade_id = self.next_trade_id + 1;
            matches = matches + 1;
            remaining = remaining - fill;
            let maker_remaining = maker.qty_remaining - fill;
            if maker_remaining == 0 {
                self.book.remove(maker_id);
                assert(q.remove(0) =~= q.drop_first());
            } else {
                self.book.reduce(maker_id, fill);
            }
            assert(self.book@ == book.with_side(other, left));
            if let Some(meta) = self.orders.get(&maker_id.0) {
                let mut filled: OrderMeta = *meta;
                filled.qty_remaining = maker_remaining;
                filled.status = if maker_remaining == 0 {
                    OrderStatus::Filled
                } else {
                    OrderStatus::PartiallyFilled
                };
                self.orders.insert(maker_id.0, filled);
            }
            deltas.push(level_delta_after_remove(maker.side, maker.price, &self.book));
            proof {
                let this = Fill { maker: maker.id, price: maker.price, qty: fill };
                assert(self.orders@ == orders.insert(maker.id.0, filled_by(orders[maker.id.0], fill)));
                assert(all.fills =~= done.push(this) + rest.fills);
                assert((seq![this] + rest.fills).drop_first() =~= rest.fills);
                assert(all.deltas =~= deltas@ + rest.deltas);
                done = done.push(this);
                assert forall|i: int| 0 <= i < left.len() implies self.orders@.contains_key(
                    (#[trigger] left[i]).id.0,
                ) && self.orders@[left[i].id.0].qty_remaining == left[i].qty_remaining by {
                    if maker_remaining == 0 {
                        assert(left[i] == q[i + 1]);
                        assert(q[0].id.0 != q[i + 1].id.0);
                    } else if i > 0 {
                        assert(left[i] == q[i]);
                        assert(q[0].id.0 != q[i].id.0);
                    }
                }
            }
        }
        remaining
    }

    /// Puts what is left of a limit order in the book.
    fn rest_limit(&mut self, order: RestingOrder) -> (delta: BookDelta)
        requires
            old(self).book_wf(),
            old(self)@.next_sequence < u64::MAX,
            order.sequence == old(self)@.next_sequence,
            !old(self)@.book.rests(order.id.0),
            slot_free(old(self)@.book.side(order.side), order.price, order.sequence),
            old(self)@.book.fits(),
            old(self)@.book.has_room(order),
        ensures
            final(self)@ == (EngineView {
                book: old(self)@.book.with_order(order),
                next_sequence: old(self)@.next_sequence + 1,
                ..old(self)@
            }),
            final(self).book_wf(),
            delta == grown_delta_of(
                order.side,
                final(self)@.book.side(order.side),
                order.price,
            ),
    {
        proof {
            self.book.lemma_wf();
            lemma_with_order(self.book@, order);
        }
        self.next_sequence = self.next_sequence + 1;
        self.book.insert(order);
        let level = self.book.level_at_price(order.side, order.price);
        let kind = if level.order_count == 1 {
            BookDeltaKind::Add
        } else {
            BookDeltaKind::Update
        };
        level_delta(order.side, order.price, &self.book, kind)
    }

    /// Whether the engine's integers have room for a request: an order id, and, where it would
    /// come to rest, a place in the order count of its level.
    pub fn has_room(&self, request: &NewOrder) -> (yes: bool)
        requires
            self.wf(),
        ensures
            yes == self@.has_room(*request),
    {
        if self.next_order_id == u64::MAX {
            return false;
        }
        match request.order_type {
            OrderType::Limit { price } => {
                self.book.level_at_price(request.side, price).order_count < u32::MAX
                    || self.book.left_after_matching(
                    request.side,
                    request.order_type,
                    request.qty,
                    max_matches(request),
                ) == 0
            },
            OrderType::Market => true,
        }
    }

    /// Accepts an order: matches it against the other side, and puts what is left of a limit
    /// order in the book; what is left of a market order is cancelled. A request outside the
    /// limits is refused and changes nothing.
    pub fn submit(&mut self, request: NewOrder) -> (result: Result<
        (SubmitResult, Vec<BookDelta>),
        EngineError,
    >)
        requires
            old(self).wf(),
            refusal(request) is None ==> old(self)@.has_room(request),
        ensures
            final(self).wf(),
            match refusal(request) {
                Some(reason) => {
                    &&& result is Err
                    &&& refused_for(result->Err_0, reason)
                    &&& final(self)@ == old(self)@
                },
                None => {
                    &&& result is Ok
                    &&& old(self)@.submit_reported(request, result->Ok_0.0)
                    &&& result->Ok_0.1@ == old(self)@.submit_deltas(request)
                    &&& final(self)@ == old(self)@.submitted(request)
                },
            },
    {
        if let Err(e) = validate_new_order(&request) {
            return Err(e);
        }
        let ghost before = self@;
        proof {
            lemma_submitted_wf(before, request);
            lemma_submitted_aged(before, request);
        }
        let order_id = OrderId(self.next_order_id);
        let mut trades: Vec<Trade> = Vec::new();
        let mut deltas: Vec<BookDelta> = Vec::new();
        let remaining = self.match_order(order_id, &request, &mut trades, &mut deltas);
        self.next_order_id = self.next_order_id + 1;
        let mut status = if remaining == 0 {
            OrderStatus::Filled
        } else if trades.len() > 0 {
            OrderStatus::PartiallyFilled
        } else {
            OrderStatus::New
        };
        let mut resting_qty: u64 = remaining;
        let mut cancelled_qty: u64 = 0;
        let mut reject_reason: Option<String> = None;
        if remaining > 0 {
            match request.order_type {
                OrderType::Market => {
                    cancelled_qty = remaining;
                    resting_qty = 0;
                    if trades.len() == 0 {
                        status = OrderStatus::Rejected;
                    }
                    reject_reason = Some("market order unfilled remainder cancelled".to_string());
                },
                OrderType::Limit { price } => {
                    proof {
                        lemma_resting_fits(before, request);
                    }
                    let delta = self.rest_limit(
                        RestingOrder {
                            id: order_id,
                            side: request.side,
                            price,
                            qty_remaining: remaining,
                            sequence: self.next_sequence,
                        },
                    );
                    deltas.push(delta);
                },
            }
        }
        self.orders.insert(
            order_id.0,
            OrderMeta {
                status,
                side: request.side,
                order_type: request.order_type,
                qty_original: request.qty,
                qty_remaining: resting_qty,
                client_order_id: request.client_order_id,
            },
        );
        proof {
            lemma_walk(
                request.side,
                request.order_type,
                before.book.side(request.side.opposite()),
                request.qty,
                budget(request),
            );
        }
        let result = SubmitResult {
            order_id,
            status,
            filled_qty: request.qty - remaining,
            remaining_qty: resting_qty,
            cancelled_qty,
            trades,
            reject_reason,
            client_order_id: request.client_order_id,
        };
        Ok((result, deltas))
    }

    /// Takes a resting order out of the book. An order that rests no more, or never did, cannot
    /// be cancelled.
    pub fn cancel(&mut self, order_id: OrderId) -> (result: Result<Vec<BookDelta>, EngineError>)
        requires
            old(self).wf(),
        ensures
            final(self).wf(),
            if !old(self)@.orders.contains_key(order_id.0) {
                &&& result == Err::<Vec<BookDelta>, EngineError>(EngineError::OrderNotFound)
                &&& final(self)@ == old(self)@
            } else if !old(self)@.book.rests(order_id.0) {
                &&& result == Err::<Vec<BookDelta>, EngineError>(
                    EngineError::NotCancellable(
                        order_id.0,
                        old(self)@.orders[order_id.0].status,
                    ),
                )
                &&& final(self)@ == old(self)@
            } else {
                &&& result is Ok
                &&& result->Ok_0@ == seq![old(self)@.cancel_delta(order_id.0)]
                &&& final(self)@ == old(self)@.cancelled(order_id.0)
            },
    {
        let ghost before = self@;
        let meta: OrderMeta = match self.orders.get(&order_id.0) {
            Some(meta) => *meta,
            None => {
                return Err(EngineError::OrderNotFound);
            },
        };
        proof {
            if before.book.rests(order_id.0) {
                lemma_rests(before.book, order_id.0);
                let side = before.book.order(order_id.0).side;
                assert(before.backed(
                    before.book.side(side)[position(before.book.side(side), order_id.0)],
                ));
                lemma_cancelled_wf(before, order_id.0);
                lemma_cancelled_aged(before, order_id.0);
            }
        }
        match meta.status {
            OrderStatus::Filled | OrderStatus::Cancelled | OrderStatus::Rejected => {
                return Err(EngineError::NotCancellable(order_id.0, meta.status));
            },
            OrderStatus::New | OrderStatus::PartiallyFilled => {},
        }
        let removed = match self.book.remove(order_id) {
            Some(removed) => removed,
            None => {
                return Err(EngineError::NotCancellable(order_id.0, meta.status));
            },
        };
        self.orders.insert(
            order_id.0,
            OrderMeta { status: OrderStatus::Cancelled, qty_remaining: 0, ..meta },
        );
        let mut deltas: Vec<BookDelta> = Vec::new();
        deltas.push(level_delta_after_remove(removed.side, removed.price, &self.book));
        assert(deltas@ =~= seq![before.cancel_delta(order_id.0)]);
        Ok(deltas)
    }

    /// What the engine knows of an order.
    pub fn get_order(&self, order_id: OrderId) -> (record: Option<OrderRecord>)
        requires
            self.wf(),
        ensures
            record == self@.record(order_id.0),
    {
        match self.orders.get(&order_id.0) {
            Some(m) => Some(
                OrderRecord {
                    order_id,
                    side: m.side,
                    order_type: m.order_type,
                    status: m.status,
                    qty_original: m.qty_original,
                    qty_remaining: m.qty_remaining,
                    filled_qty: m.qty_original - m.qty_remaining,
                    client_order_id: m.client_order_id,
                },
            ),
            None => None,
        }
    }

    /// The best `depth` levels of both sides.
    pub fn snapshot(&self, depth: usize) -> (snapshot: OrderBookSnapshot)
        requires
            self.wf(),
        ensures
            snapshot.bids@ == best_levels(self@.book.bids, depth as nat),
            snapshot.asks@ == best_levels(self@.book.asks, depth as nat),
    {
        self.book.snapshot(depth)
    }
}

impl Default for Engine {
    fn default() -> (engine: Engine)
        ensures
            engine.wf(),
            engine@ == EngineView::initial(),
    {
        Engine::new()
    }
}

} // verus!
