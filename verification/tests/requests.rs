use orderly::clock::timestamp_ns;
use orderly::engine::{max_matches, validate_new_order, Engine};
use orderly::limits::{DEFAULT_MAX_MATCHES, MAX_ORDER_PRICE, MAX_ORDER_QTY};
use orderly::matching::price_crosses;
use orderly::types::{
    BookDelta, BookDeltaKind, EngineError, NewOrder, OrderId, OrderStatus, OrderType, Side,
};

fn limit(side: Side, price: u64, qty: u64) -> NewOrder {
    NewOrder {
        side,
        order_type: OrderType::Limit { price },
        qty,
        client_order_id: None,
        max_matches: None,
    }
}

fn market(side: Side, qty: u64) -> NewOrder {
    NewOrder {
        side,
        order_type: OrderType::Market,
        qty,
        client_order_id: None,
        max_matches: None,
    }
}

fn rows(deltas: &[BookDelta]) -> Vec<(Side, u64, u64, u32, BookDeltaKind)> {
    deltas.iter().map(|d| (d.side, d.price, d.qty, d.order_count, d.kind)).collect()
}

fn refused(request: NewOrder) -> EngineError {
    let mut engine = Engine::new();
    let err = engine.submit(request).unwrap_err();
    assert!(engine.get_order(OrderId(1)).is_none());
    let (next, _) = engine.submit(limit(Side::Bid, 1, 1)).unwrap();
    assert_eq!(next.order_id, OrderId(1));
    err
}

#[test]
fn refuses_what_is_outside_the_limits() {
    assert_eq!(
        refused(limit(Side::Bid, 100, 0)),
        EngineError::InvalidOrder("quantity must be positive".to_string())
    );
    assert_eq!(
        refused(market(Side::Ask, MAX_ORDER_QTY + 1)),
        EngineError::InvalidOrder("quantity exceeds max 1000000000".to_string())
    );
    assert_eq!(
        refused(limit(Side::Bid, 0, 1)),
        EngineError::InvalidOrder("limit price must be positive".to_string())
    );
    assert_eq!(
        refused(limit(Side::Ask, MAX_ORDER_PRICE + 1, 1)),
        EngineError::InvalidOrder("price exceeds max 1000000000000".to_string())
    );
}

#[test]
fn accepts_the_limits_themselves() {
    assert!(validate_new_order(&limit(Side::Bid, MAX_ORDER_PRICE, MAX_ORDER_QTY)).is_ok());
    assert!(validate_new_order(&limit(Side::Bid, 1, 1)).is_ok());
    assert!(validate_new_order(&market(Side::Ask, MAX_ORDER_QTY)).is_ok());
}

#[test]
fn default_cap_of_matches() {
    assert_eq!(max_matches(&market(Side::Bid, 1)), DEFAULT_MAX_MATCHES);
    assert_eq!(DEFAULT_MAX_MATCHES, 1024);
    let capped = NewOrder { max_matches: Some(0), ..market(Side::Bid, 1) };
    assert_eq!(max_matches(&capped), 0);
}

#[test]
fn crossing_prices() {
    let at = |price| OrderType::Limit { price };
    assert!(price_crosses(Side::Bid, at(100), 100));
    assert!(price_crosses(Side::Bid, at(100), 99));
    assert!(!price_crosses(Side::Bid, at(100), 101));
    assert!(price_crosses(Side::Ask, at(100), 100));
    assert!(price_crosses(Side::Ask, at(100), 101));
    assert!(!price_crosses(Side::Ask, at(100), 99));
    assert!(price_crosses(Side::Bid, OrderType::Market, u64::MAX));
    assert!(price_crosses(Side::Ask, OrderType::Market, 0));
}

#[test]
fn trades_at_the_makers_better_price() {
    let mut engine = Engine::new();
    engine.submit(limit(Side::Ask, 90, 5)).unwrap();
    let (res, _) = engine.submit(limit(Side::Bid, 100, 5)).unwrap();
    assert_eq!(res.trades[0].price, 90);
    assert_eq!(res.trades[0].taker_order_id, res.order_id);
    assert_eq!(res.status, OrderStatus::Filled);
}

#[test]
fn best_price_trades_first() {
    let mut engine = Engine::new();
    let (worse, _) = engine.submit(limit(Side::Ask, 102, 5)).unwrap();
    let (better, _) = engine.submit(limit(Side::Ask, 101, 5)).unwrap();
    let (res, _) = engine.submit(market(Side::Bid, 7)).unwrap();
    assert_eq!(res.trades[0].maker_order_id, better.order_id);
    assert_eq!((res.trades[0].price, res.trades[0].qty), (101, 5));
    assert_eq!(res.trades[1].maker_order_id, worse.order_id);
    assert_eq!((res.trades[1].price, res.trades[1].qty), (102, 2));
    assert_eq!(engine.get_order(better.order_id).unwrap().status, OrderStatus::Filled);
    assert_eq!(engine.get_order(worse.order_id).unwrap().qty_remaining, 3);
}

#[test]
fn partly_filled_maker_keeps_its_place() {
    let mut engine = Engine::new();
    let (first, _) = engine.submit(limit(Side::Ask, 100, 10)).unwrap();
    engine.submit(limit(Side::Ask, 100, 10)).unwrap();
    engine.submit(limit(Side::Bid, 100, 4)).unwrap();
    let (res, _) = engine.submit(limit(Side::Bid, 100, 6)).unwrap();
    assert_eq!(res.trades.len(), 1);
    assert_eq!(res.trades[0].maker_order_id, first.order_id);
}

#[test]
fn deltas_of_a_request() {
    let mut engine = Engine::new();
    let (_, d) = engine.submit(limit(Side::Ask, 100, 10)).unwrap();
    assert_eq!(rows(&d), vec![(Side::Ask, 100, 10, 1, BookDeltaKind::Add)]);
    let (_, d) = engine.submit(limit(Side::Ask, 100, 20)).unwrap();
    assert_eq!(rows(&d), vec![(Side::Ask, 100, 30, 2, BookDeltaKind::Update)]);
    engine.submit(limit(Side::Ask, 101, 1)).unwrap();
    let (_, d) = engine.submit(limit(Side::Bid, 101, 40)).unwrap();
    assert_eq!(
        rows(&d),
        vec![
            (Side::Ask, 100, 20, 1, BookDeltaKind::Update),
            (Side::Ask, 100, 0, 0, BookDeltaKind::Remove),
            (Side::Ask, 101, 0, 0, BookDeltaKind::Remove),
            (Side::Bid, 101, 9, 1, BookDeltaKind::Add),
        ]
    );
}

#[test]
fn delta_of_a_partly_filled_maker() {
    let mut engine = Engine::new();
    engine.submit(limit(Side::Bid, 100, 10)).unwrap();
    let (_, d) = engine.submit(market(Side::Ask, 4)).unwrap();
    assert_eq!(rows(&d), vec![(Side::Bid, 100, 6, 1, BookDeltaKind::Update)]);
}

#[test]
fn quantities_of_a_request_add_up() {
    let mut engine = Engine::new();
    engine.submit(limit(Side::Bid, 100, 3)).unwrap();
    engine.submit(limit(Side::Bid, 99, 4)).unwrap();
    let (res, _) = engine.submit(market(Side::Ask, 10)).unwrap();
    let traded: u64 = res.trades.iter().map(|t| t.qty).sum();
    assert_eq!((traded, res.filled_qty, res.remaining_qty, res.cancelled_qty), (7, 7, 0, 3));
    assert_eq!(
        res.reject_reason.as_deref(),
        Some("market order unfilled remainder cancelled")
    );
    let record = engine.get_order(res.order_id).unwrap();
    assert_eq!(record.status, OrderStatus::PartiallyFilled);
    assert_eq!((record.qty_original, record.qty_remaining, record.filled_qty), (10, 0, 10));
}

#[test]
fn filled_market_order_has_no_reject_reason() {
    let mut engine = Engine::new();
    engine.submit(limit(Side::Ask, 100, 10)).unwrap();
    let (res, _) = engine.submit(market(Side::Bid, 10)).unwrap();
    assert_eq!(res.status, OrderStatus::Filled);
    assert_eq!(res.cancelled_qty, 0);
    assert!(res.reject_reason.is_none());
}

#[test]
fn cap_of_matches_leaves_a_crossed_book() {
    let mut engine = Engine::new();
    engine.submit(limit(Side::Ask, 100, 1)).unwrap();
    engine.submit(limit(Side::Ask, 100, 1)).unwrap();
    let order = NewOrder { max_matches: Some(1), ..limit(Side::Bid, 105, 5) };
    let (res, _) = engine.submit(order).unwrap();
    assert_eq!(res.trades.len(), 1);
    assert_eq!((res.status, res.remaining_qty), (OrderStatus::PartiallyFilled, 4));
    let snapshot = engine.snapshot(5);
    assert_eq!(snapshot.bids[0].price, 105);
    assert_eq!(snapshot.asks[0].price, 100);
}

#[test]
fn no_match_allowed_rests_as_new() {
    let mut engine = Engine::new();
    engine.submit(limit(Side::Ask, 100, 1)).unwrap();
    let order = NewOrder { max_matches: Some(0), ..limit(Side::Bid, 100, 1) };
    let (res, _) = engine.submit(order).unwrap();
    assert_eq!(res.status, OrderStatus::New);
    let order = NewOrder { max_matches: Some(0), ..market(Side::Bid, 1) };
    let (res, _) = engine.submit(order).unwrap();
    assert_eq!(res.status, OrderStatus::Rejected);
}

#[test]
fn book_stays_uncrossed_without_a_cap() {
    let mut engine = Engine::new();
    for i in 0..40u64 {
        let side = if i % 3 == 0 { Side::Bid } else { Side::Ask };
        engine.submit(limit(side, 100 + (i * 7) % 11, 1 + i % 5)).unwrap();
        let snapshot = engine.snapshot(1);
        if let (Some(bid), Some(ask)) = (snapshot.bids.first(), snapshot.asks.first()) {
            assert!(bid.price < ask.price);
        }
    }
}

#[test]
fn cancel_undoes_a_resting_order() {
    let mut engine = Engine::new();
    engine.submit(limit(Side::Bid, 99, 5)).unwrap();
    engine.submit(limit(Side::Bid, 98, 6)).unwrap();
    let before: Vec<(u64, u64, u32)> =
        engine.snapshot(9).bids.iter().map(|l| (l.price, l.qty, l.order_count)).collect();
    let (res, _) = engine.submit(limit(Side::Bid, 99, 7)).unwrap();
    let d = engine.cancel(res.order_id).unwrap();
    assert_eq!(rows(&d), vec![(Side::Bid, 99, 5, 1, BookDeltaKind::Update)]);
    let after: Vec<(u64, u64, u32)> =
        engine.snapshot(9).bids.iter().map(|l| (l.price, l.qty, l.order_count)).collect();
    assert_eq!(before, after);
}

#[test]
fn cancel_last_order_of_a_level_removes_it() {
    let mut engine = Engine::new();
    let (res, _) = engine.submit(limit(Side::Ask, 70, 7)).unwrap();
    let d = engine.cancel(res.order_id).unwrap();
    assert_eq!(rows(&d), vec![(Side::Ask, 70, 0, 0, BookDeltaKind::Remove)]);
}

#[test]
fn cancel_errors() {
    let mut engine = Engine::new();
    assert_eq!(engine.cancel(OrderId(1)).unwrap_err(), EngineError::OrderNotFound);
    let (o, _) = engine.submit(limit(Side::Bid, 100, 10)).unwrap();
    engine.cancel(o.order_id).unwrap();
    assert_eq!(
        engine.cancel(o.order_id).unwrap_err(),
        EngineError::NotCancellable(o.order_id.0, OrderStatus::Cancelled)
    );
    let (m, _) = engine.submit(market(Side::Bid, 10)).unwrap();
    assert_eq!(
        engine.cancel(m.order_id).unwrap_err(),
        EngineError::NotCancellable(m.order_id.0, OrderStatus::Rejected)
    );
    engine.submit(limit(Side::Ask, 100, 1)).unwrap();
    let (p, _) = engine.submit(market(Side::Bid, 10)).unwrap();
    assert_eq!(
        engine.cancel(p.order_id).unwrap_err(),
        EngineError::NotCancellable(p.order_id.0, OrderStatus::PartiallyFilled)
    );
}

#[test]
fn partly_filled_order_can_be_cancelled() {
    let mut engine = Engine::new();
    let (ask, _) = engine.submit(limit(Side::Ask, 100, 10)).unwrap();
    engine.submit(market(Side::Bid, 4)).unwrap();
    engine.cancel(ask.order_id).unwrap();
    let record = engine.get_order(ask.order_id).unwrap();
    assert_eq!((record.status, record.qty_remaining), (OrderStatus::Cancelled, 0));
    let (res, _) = engine.submit(market(Side::Bid, 1)).unwrap();
    assert_eq!(res.status, OrderStatus::Rejected);
}

#[test]
fn ids_count_up() {
    let mut engine = Engine::default();
    for i in 1..=3u64 {
        let (res, _) = engine.submit(limit(Side::Ask, 100, 1)).unwrap();
        assert_eq!(res.order_id, OrderId(i));
    }
    let (a, _) = engine.submit(market(Side::Bid, 2)).unwrap();
    let (b, _) = engine.submit(market(Side::Bid, 1)).unwrap();
    assert_eq!((a.trades[0].id, a.trades[1].id, b.trades[0].id), (1, 2, 3));
}

#[test]
fn record_of_a_resting_order() {
    let mut engine = Engine::new();
    let (ask, _) = engine.submit(limit(Side::Ask, 100, 10)).unwrap();
    engine.submit(market(Side::Bid, 4)).unwrap();
    let r = engine.get_order(ask.order_id).unwrap();
    assert_eq!(r.order_id, ask.order_id);
    assert_eq!((r.side, r.order_type), (Side::Ask, OrderType::Limit { price: 100 }));
    assert_eq!((r.qty_original, r.qty_remaining, r.filled_qty), (10, 6, 4));
    assert_eq!(r.status, OrderStatus::PartiallyFilled);
    assert!(engine.get_order(OrderId(99)).is_none());
}

#[test]
fn room_for_requests() {
    let mut engine = Engine::new();
    assert!(engine.has_room(&limit(Side::Bid, 100, 1)));
    engine.submit(limit(Side::Bid, 100, 1)).unwrap();
    assert!(engine.has_room(&limit(Side::Bid, 100, 1)));
    assert!(engine.has_room(&market(Side::Ask, 1)));
}

#[test]
fn trades_carry_the_time() {
    let mut engine = Engine::new();
    engine.submit(limit(Side::Ask, 100, 1)).unwrap();
    let (res, _) = engine.submit(market(Side::Bid, 1)).unwrap();
    // The year 2020 has begun.
    assert!(res.trades[0].timestamp_ns > 1_577_836_800_000_000_000);
}

#[test]
fn timestamps_are_cut_to_64_bits() {
    assert_eq!(timestamp_ns(None), 0);
    assert_eq!(timestamp_ns(Some(5)), 5);
    assert_eq!(timestamp_ns(Some(u64::MAX as u128)), u64::MAX);
    assert_eq!(timestamp_ns(Some(u64::MAX as u128 + 8)), 7);
}

fn replay(levels: &mut Vec<(Side, u64, u64, u32)>, deltas: &[BookDelta]) {
    for d in deltas {
        let at = levels.iter().position(|l| l.0 == d.side && l.1 == d.price);
        match d.kind {
            BookDeltaKind::Add => assert!(at.is_none()),
            BookDeltaKind::Update => assert!(at.is_some()),
            BookDeltaKind::Remove => {
                assert!(at.is_some());
                assert_eq!((d.qty, d.order_count), (0, 0));
            }
        }
        if let Some(i) = at {
            levels.remove(i);
        }
        if d.kind != BookDeltaKind::Remove {
            levels.push((d.side, d.price, d.qty, d.order_count));
        }
    }
}

#[test]
fn replayed_changes_give_the_next_snapshot() {
    let mut engine = Engine::new();
    let mut levels: Vec<(Side, u64, u64, u32)> = Vec::new();
    for i in 0..60u64 {
        let side = if i % 3 == 0 { Side::Bid } else { Side::Ask };
        let mut order = limit(side, 100 + (i * 7) % 13, 1 + i % 5);
        if i % 11 == 10 {
            order.order_type = OrderType::Market;
        }
        let (res, deltas) = engine.submit(order).unwrap();
        let rests = if res.remaining_qty > 0 { 1 } else { 0 };
        assert_eq!(deltas.len(), res.trades.len() + rests);
        replay(&mut levels, &deltas);
        if i % 7 == 6 {
            if let Ok(deltas) = engine.cancel(OrderId(i - 2)) {
                replay(&mut levels, &deltas);
            }
        }
        let snapshot = engine.snapshot(usize::MAX);
        let mut shown: Vec<(Side, u64, u64, u32)> = Vec::new();
        shown.extend(snapshot.bids.iter().map(|l| (Side::Bid, l.price, l.qty, l.order_count)));
        shown.extend(snapshot.asks.iter().map(|l| (Side::Ask, l.price, l.qty, l.order_count)));
        shown.sort_by_key(|l| (l.0 == Side::Ask, l.1));
        levels.sort_by_key(|l| (l.0 == Side::Ask, l.1));
        assert_eq!(levels, shown);
    }
}
