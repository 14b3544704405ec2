//! The model of the engine: its state, and what each request does to it.
use vstd::prelude::*;

use crate::limits::{DEFAULT_MAX_MATCHES, MAX_ORDER_PRICE, MAX_ORDER_QTY};
use crate::matching::{reports, settle, walk, Walk};
use crate::queue::{grown_delta_of, level_count, shrunk_delta_of, BookView};
use crate::text::decimal;
use crate::types::{
    BookDelta, NewOrder, OrderId, OrderMeta, OrderRecord, OrderStatus, OrderType, RestingOrder,
    Side, SubmitResult,
};

verus! {

/// Why a request is refused, in words; `None` where it is in order.
pub open spec fn refusal(request: NewOrder) -> Option<Seq<char>> {
    if request.qty == 0 {
        Some("quantity must be positive"@)
    } else if request.qty > MAX_ORDER_QTY {
        Some("quantity exceeds max "@ + decimal(MAX_ORDER_QTY as nat))
    } else {
        match request.order_type {
            OrderType::Limit { price } => if price == 0 {
                Some("limit price must be positive"@)
            } else if price > MAX_ORDER_PRICE {
                Some("price exceeds max "@ + decimal(MAX_ORDER_PRICE as nat))
            } else {
                None
            },
            OrderType::Market => None,
        }
    }
}

/// How many makers a request may touch.
pub open spec fn budget(request: NewOrder) -> nat {
    match request.max_matches {
        Some(n) => n as nat,
        None => DEFAULT_MAX_MATCHES as nat,
    }
}

/// The state of an engine: the book, the records of all orders ever accepted, and the numbers
/// that the next order, trade and resting order get.
pub struct EngineView {
    pub book: BookView,
    pub orders: Map<u64, OrderMeta>,
    pub next_order_id: nat,
    pub next_trade_id: nat,
    pub next_sequence: nat,
}

impl EngineView {
    /// The state of a new engine.
    pub open spec fn initial() -> EngineView {
        EngineView {
            book: BookView::empty(),
            orders: Map::empty(),
            next_order_id: 1,
            next_trade_id: 1,
            next_sequence: 1,
        }
    }

    // -----------------------------------------------------------------------------------------
    // The invariant
    // -----------------------------------------------------------------------------------------
    /// A resting order is within the limits, and its record says the same of it.
    pub open spec fn backed(self, order: RestingOrder) -> bool {
        let meta = self.orders[order.id.0];
        &&& 0 < order.qty_remaining <= MAX_ORDER_QTY
        &&& 0 < order.price <= MAX_ORDER_PRICE
        &&& order.sequence < self.next_sequence
        &&& self.orders.contains_key(order.id.0)
        &&& meta.side == order.side
        &&& meta.order_type == OrderType::Limit { price: order.price }
        &&& meta.qty_remaining == order.qty_remaining
        &&& meta.status == (if meta.qty_remaining == meta.qty_original {
            OrderStatus::New
        } else {
            OrderStatus::PartiallyFilled
        })
    }

    /// An order that does not rest has nothing left, and has come to its end: filled in any
    /// case, cancelled only as a limit order, and cut short only as a market order.
    pub open spec fn closed_record(meta: OrderMeta) -> bool {
        &&& meta.qty_remaining == 0
        &&& match meta.order_type {
            OrderType::Limit { price } => meta.status == OrderStatus::Filled || meta.status
                == OrderStatus::Cancelled,
            OrderType::Market => meta.status == OrderStatus::Filled || meta.status
                == OrderStatus::PartiallyFilled || meta.status == OrderStatus::Rejected,
        }
    }

    /// Book and records agree, the levels fit their reports, ids were handed out one after the
    /// other, and there were no more trades than orders that have left the book.
    pub open spec fn wf(self) -> bool {
        &&& self.book.wf()
        &&& self.book.fits()
        &&& 1 <= self.next_order_id <= u64::MAX
        &&& 1 <= self.next_trade_id
        &&& 1 <= self.next_sequence <= self.next_order_id
        &&& self.next_trade_id + self.book.len() <= self.next_order_id
        &&& forall|id: u64| #[trigger]
            self.orders.contains_key(id) <==> 1 <= id < self.next_order_id
        &&& forall|side: Side, i: int|
            0 <= i < self.book.side(side).len() ==> self.backed(
                #[trigger] self.book.side(side)[i],
            )
        &&& forall|id: u64| #[trigger]
            self.orders.contains_key(id) ==> {
                &&& 0 < self.orders[id].qty_original <= MAX_ORDER_QTY
                &&& self.orders[id].qty_remaining <= self.orders[id].qty_original
                &&& !self.book.rests(id) ==> Self::closed_record(self.orders[id])
            }
    }

    /// Among the orders that rest on one side at one price, the older has the lower id.
    pub open spec fn aged(self) -> bool {
        forall|side: Side, i: int, j: int|
            0 <= i < j < self.book.side(side).len() && self.book.side(side)[i].price
                == self.book.side(side)[j].price ==> (#[trigger] self.book.side(side)[i]).id.0 < (
            #[trigger] self.book.side(side)[j]).id.0
    }

    // -----------------------------------------------------------------------------------------
    // Submitting an order
    // -----------------------------------------------------------------------------------------
    /// How the request matches against the book.
    pub open spec fn matching(self, request: NewOrder) -> Walk {
        walk(
            request.side,
            request.order_type,
            self.book.side(request.side.opposite()),
            request.qty,
            budget(request),
        )
    }

    /// Whether what is left of the request goes to the book.
    pub open spec fn will_rest(self, request: NewOrder) -> bool {
        request.order_type is Limit && self.matching(request).remaining > 0
    }

    /// The integers of the engine have room for the request: an order id, and, where it comes
    /// to rest, a place in its level's order count.
    pub open spec fn has_room(self, request: NewOrder) -> bool {
        &&& self.next_order_id < u64::MAX
        &&& self.will_rest(request) ==> level_count(
            self.book.side(request.side),
            request.order_type->price,
        ) < u32::MAX
    }

    /// The id that the next order gets.
    pub open spec fn new_id(self) -> OrderId {
        OrderId(self.next_order_id as u64)
    }

    /// The status in which the submitted order ends.
    pub open spec fn submit_status(self, request: NewOrder) -> OrderStatus {
        let w = self.matching(request);
        if w.remaining == 0 {
            OrderStatus::Filled
        } else if w.fills.len() > 0 {
            OrderStatus::PartiallyFilled
        } else {
            match request.order_type {
                OrderType::Limit { price } => OrderStatus::New,
                OrderType::Market => OrderStatus::Rejected,
            }
        }
    }

    /// The record of the submitted order. What is left of a market order is cancelled.
    pub open spec fn submit_meta(self, request: NewOrder) -> OrderMeta {
        OrderMeta {
            status: self.submit_status(request),
            side: request.side,
            order_type: request.order_type,
            qty_original: request.qty,
            qty_remaining: match request.order_type {
                OrderType::Limit { price } => self.matching(request).remaining,
                OrderType::Market => 0,
            },
            client_order_id: request.client_order_id,
        }
    }

    /// What is left of a limit order, as it rests.
    pub open spec fn submit_resting(self, request: NewOrder) -> RestingOrder {
        RestingOrder {
            id: self.new_id(),
            side: request.side,
            price: request.order_type->price,
            qty_remaining: self.matching(request).remaining,
            sequence: self.next_sequence as u64,
        }
    }

    /// The book once the request is matched.
    pub open spec fn matched_book(self, request: NewOrder) -> BookView {
        self.book.with_side(request.side.opposite(), self.matching(request).queue)
    }

    /// The state once the request is accepted and done with.
    pub open spec fn submitted(self, request: NewOrder) -> EngineView {
        let w = self.matching(request);
        let rests = self.will_rest(request);
        EngineView {
            book: if rests {
                self.matched_book(request).with_order(self.submit_resting(request))
            } else {
                self.matched_book(request)
            },
            orders: settle(self.orders, w.fills).insert(
                self.new_id().0,
                self.submit_meta(request),
            ),
            next_order_id: self.next_order_id + 1,
            next_trade_id: self.next_trade_id + w.fills.len(),
            next_sequence: if rests {
                self.next_sequence + 1
            } else {
                self.next_sequence
            },
        }
    }

    /// The changes of the book's levels, in the order in which they happened.
    pub open spec fn submit_deltas(self, request: NewOrder) -> Seq<BookDelta> {
        let w = self.matching(request);
        if self.will_rest(request) {
            w.deltas.push(
                grown_delta_of(
                    request.side,
                    self.submitted(request).book.side(request.side),
                    request.order_type->price,
                ),
            )
        } else {
            w.deltas
        }
    }

    /// `result` tells what became of the request.
    pub open spec fn submit_reported(self, request: NewOrder, result: SubmitResult) -> bool {
        let w = self.matching(request);
        let cut = request.order_type is Market && w.remaining > 0;
        &&& result.order_id == self.new_id()
        &&& result.status == self.submit_status(request)
        &&& result.filled_qty == request.qty - w.remaining
        &&& result.remaining_qty == self.submit_meta(request).qty_remaining
        &&& result.cancelled_qty == if cut {
            w.remaining
        } else {
            0
        }
        &&& reports(result.trades@, w.fills, self.new_id(), self.next_trade_id)
        &&& match result.reject_reason {
            Some(reason) => cut && reason@ == "market order unfilled remainder cancelled"@,
            None => !cut,
        }
        &&& result.client_order_id == request.client_order_id
    }

    // -----------------------------------------------------------------------------------------
    // Cancelling an order
    // -----------------------------------------------------------------------------------------
    /// The state once the resting order with this id is cancelled.
    pub open spec fn cancelled(self, id: u64) -> EngineView {
        EngineView {
            book: self.book.without(id),
            orders: self.orders.insert(
                id,
                OrderMeta { status: OrderStatus::Cancelled, qty_remaining: 0, ..self.orders[id] },
            ),
            ..self
        }
    }

    /// The change of the level that the cancelled order has left.
    pub open spec fn cancel_delta(self, id: u64) -> BookDelta {
        let order = self.book.order(id);
        shrunk_delta_of(order.side, self.book.without(id).side(order.side), order.price)
    }

    // -----------------------------------------------------------------------------------------
    // Looking up an order
    // -----------------------------------------------------------------------------------------
    /// What is told of the order with this id.
    pub open spec fn record(self, id: u64) -> Option<OrderRecord> {
        if self.orders.contains_key(id) {
            let meta = self.orders[id];
            Some(
                OrderRecord {
                    order_id: OrderId(id),
                    side: meta.side,
                    order_type: meta.order_type,
                    status: meta.status,
                    qty_original: meta.qty_original,
                    qty_remaining: meta.qty_remaining,
                    filled_qty: (meta.qty_original - meta.qty_remaining) as u64,
                    client_order_id: meta.client_order_id,
                },
            )
        } else {
            None
        }
    }
}

} // verus!
