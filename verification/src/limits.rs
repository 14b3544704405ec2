use vstd::prelude::*;

verus! {

/// Maximum base quantity per order (inclusive).
pub const MAX_ORDER_QTY: u64 = 1_000_000_000;

/// Maximum price tick (inclusive).
pub const MAX_ORDER_PRICE: u64 = 1_000_000_000_000;

/// Cap on the makers touched by one submit, which bounds the work of a request.
pub const DEFAULT_MAX_MATCHES: u32 = 1_024;

} // verus!
