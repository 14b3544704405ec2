//! The values that cross the boundary of the engine.
use vstd::prelude::*;

verus! {

#[derive(Debug, Clone, Copy, PartialEq, Eq, Structural)]
pub enum Side {
    Bid,
    Ask,
}

#[derive(Debug, Clone, Copy, PartialEq, Eq, Structural)]
pub enum OrderType {
    Limit { price: u64 },
    Market,
}

#[derive(Debug, Clone, Copy, PartialEq, Eq, Structural)]
pub enum OrderStatus {
    New,
    PartiallyFilled,
    Filled,
    Cancelled,
    Rejected,
}

#[derive(Debug, Clone, Copy, PartialEq, Eq, Hash, Structural)]
pub struct OrderId(pub u64);

#[derive(Debug, Clone, Copy)]
pub struct Trade {
    pub id: u64,
    pub taker_order_id: OrderId,
    pub maker_order_id: OrderId,
    pub price: u64,
    pub qty: u64,
    pub timestamp_ns: u64,
}

#[derive(Debug, Clone, Copy)]
pub struct BookLevel {
    pub price: u64,
    pub qty: u64,
    pub order_count: u32,
}

#[derive(Debug, Clone)]
pub struct OrderBookSnapshot {
    pub bids: Vec<BookLevel>,
    pub asks: Vec<BookLevel>,
}

#[derive(Debug, Clone, Copy)]
pub struct OrderRecord {
    pub order_id: OrderId,
    pub side: Side,
    pub order_type: OrderType,
    pub status: OrderStatus,
    pub qty_original: u64,
    pub qty_remaining: u64,
    pub filled_qty: u64,
    pub client_order_id: Option<u64>,
}

#[derive(Debug, Clone, Copy)]
pub struct NewOrder {
    pub side: Side,
    pub order_type: OrderType,
    pub qty: u64,
    pub client_order_id: Option<u64>,
    /// Max maker touches per submit; defaults to `limits::DEFAULT_MAX_MATCHES`.
    pub max_matches: Option<u32>,
}

#[derive(Debug, Clone)]
pub struct SubmitResult {
    pub order_id: OrderId,
    pub status: OrderStatus,
    pub filled_qty: u64,
    pub remaining_qty: u64,
    pub cancelled_qty: u64,
    pub trades: Vec<Trade>,
    pub reject_reason: Option<String>,
    pub client_order_id: Option<u64>,
}

#[derive(Debug, Clone, Copy, PartialEq, Eq, Structural)]
pub enum BookDeltaKind {
    Add,
    Update,
    Remove,
}

#[derive(Debug, Clone, Copy)]
pub struct BookDelta {
    pub side: Side,
    pub price: u64,
    pub qty: u64,
    pub order_count: u32,
    pub kind: BookDeltaKind,
}

#[derive(Debug, Clone, PartialEq, Eq)]
pub enum EngineError {
    OrderNotFound,
    NotCancellable(u64, OrderStatus),
    InvalidOrder(String),
}

/// An order resting in the book, with its place in the time priority.
#[derive(Debug, Clone, Copy)]
pub struct RestingOrder {
    pub id: OrderId,
    pub side: Side,
    pub price: u64,
    pub qty_remaining: u64,
    pub sequence: u64,
}

/// What the engine remembers of an order for as long as it lives.
#[derive(Debug, Clone, Copy)]
pub struct OrderMeta {
    pub status: OrderStatus,
    pub side: Side,
    pub order_type: OrderType,
    pub qty_original: u64,
    pub qty_remaining: u64,
    pub client_order_id: Option<u64>,
}

impl Side {
    /// The side that an order of this side trades against.
    pub open spec fn opposite(self) -> Side {
        match self {
            Side::Bid => Side::Ask,
            Side::Ask => Side::Bid,
        }
    }
}

} // verus!
