use orderly::engine::Engine;
use orderly::types::{EngineError, NewOrder, OrderStatus, OrderType, Side};

fn limit(side: Side, price: u64, qty: u64) -> NewOrder {
    NewOrder {
        side,
        order_type: OrderType::Limit { price },
        qty,
        client_order_id: None,
        max_matches: None,
    }
}

fn market(side: Side, qty: u64) -> NewOrder {
    NewOrder {
        side,
        order_type: OrderType::Market,
        qty,
        client_order_id: None,
        max_matches: None,
    }
}

#[test]
fn fifo_at_same_price() {
    let mut engine = Engine::new();
    let (a, _) = engine.submit(limit(Side::Ask, 100, 10)).unwrap();
    let (b, _) = engine.submit(limit(Side::Ask, 100, 20)).unwrap();
    let (taker, _) = engine.submit(limit(Side::Bid, 100, 15)).unwrap();

    assert_eq!(taker.trades.len(), 2);
    assert_eq!(taker.trades[0].maker_order_id, a.order_id);
    assert_eq!(taker.trades[0].qty, 10);
    assert_eq!(taker.trades[1].maker_order_id, b.order_id);
    assert_eq!(taker.trades[1].qty, 5);
}

#[test]
fn partial_fill_across_levels() {
    let mut engine = Engine::new();
    engine.submit(limit(Side::Bid, 99, 5)).unwrap();
    engine.submit(limit(Side::Bid, 98, 5)).unwrap();
    let (res, _) = engine.submit(limit(Side::Ask, 97, 12)).unwrap();

    assert_eq!(res.trades.len(), 2);
    assert_eq!(res.filled_qty, 10);
    assert_eq!(res.status, OrderStatus::PartiallyFilled);
    assert_eq!(res.remaining_qty, 2);
}

#[test]
fn resting_limit_then_match() {
    let mut engine = Engine::new();
    let (bid, _) = engine.submit(limit(Side::Bid, 100, 50)).unwrap();
    assert_eq!(bid.status, OrderStatus::New);

    let (ask, _) = engine.submit(limit(Side::Ask, 100, 30)).unwrap();
    assert_eq!(ask.status, OrderStatus::Filled);
    assert_eq!(
        engine.get_order(bid.order_id).unwrap().status,
        OrderStatus::PartiallyFilled
    );
}

#[test]
fn market_cancels_unfilled_remainder() {
    let mut engine = Engine::new();
    engine.submit(limit(Side::Ask, 100, 5)).unwrap();
    let (res, _) = engine.submit(market(Side::Bid, 20)).unwrap();
    assert_eq!(res.filled_qty, 5);
    assert_eq!(res.cancelled_qty, 15);
    assert_eq!(res.status, OrderStatus::PartiallyFilled);
    assert!(res.reject_reason.is_some());
}

#[test]
fn market_empty_book_rejected() {
    let mut engine = Engine::new();
    let (res, _) = engine.submit(market(Side::Bid, 10)).unwrap();
    assert_eq!(res.status, OrderStatus::Rejected);
    assert_eq!(res.filled_qty, 0);
}

#[test]
fn cancel_resting() {
    let mut engine = Engine::new();
    let (o, _) = engine.submit(limit(Side::Bid, 100, 10)).unwrap();
    engine.cancel(o.order_id).unwrap();
    assert_eq!(
        engine.get_order(o.order_id).unwrap().status,
        OrderStatus::Cancelled
    );
}

#[test]
fn cancel_filled_fails() {
    let mut engine = Engine::new();
    engine.submit(limit(Side::Ask, 100, 10)).unwrap();
    let (bid, _) = engine.submit(limit(Side::Bid, 100, 10)).unwrap();
    let err = engine.cancel(bid.order_id).unwrap_err();
    assert_eq!(
        err,
        EngineError::NotCancellable(bid.order_id.0, OrderStatus::Filled)
    );
}

#[test]
fn client_order_id_round_trip() {
    let mut engine = Engine::new();
    let order = NewOrder {
        side: Side::Bid,
        order_type: OrderType::Limit { price: 50 },
        qty: 1,
        client_order_id: Some(42),
        max_matches: None,
    };
    let (res, _) = engine.submit(order).unwrap();
    assert_eq!(res.client_order_id, Some(42));
    assert_eq!(
        engine.get_order(res.order_id).unwrap().client_order_id,
        Some(42)
    );
}
