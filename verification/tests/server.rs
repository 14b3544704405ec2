use orderly::api::{
    order_of, ApiError, PlaceOrderRequest, PlaceOrderResponse, BAD_REQUEST, CONFLICT, NOT_FOUND,
};
use orderly::config::{book_depth, dev_cors_setting, trades_limit};
use orderly::engine::Engine;
use orderly::load::{seed, seed_order, worker_order};
use orderly::service::{
    publish_book, run_cancel, run_submit, undelivered, MarketEvent, TradeHistory, Undelivered,
    PUBLISHED_DEPTH, TRADE_HISTORY,
};
use orderly::session::{
    SessionAction, SessionEvent, Subscription, WsClientMessage, WsServerMessage,
};
use orderly::text::{decimal_text, same_text};
use orderly::types::{
    EngineError, NewOrder, OrderBookSnapshot, OrderId, OrderStatus, OrderType, Side, Trade,
};

fn limit(side: Side, price: u64, qty: u64) -> NewOrder {
    NewOrder {
        side,
        order_type: OrderType::Limit { price },
        qty,
        client_order_id: None,
        max_matches: None,
    }
}

fn trade(id: u64) -> Trade {
    Trade {
        id,
        taker_order_id: OrderId(2),
        maker_order_id: OrderId(1),
        price: 100,
        qty: 1,
        timestamp_ns: 0,
    }
}

fn request(order_type: &str, price: Option<u64>) -> PlaceOrderRequest {
    PlaceOrderRequest {
        side: Side::Ask,
        order_type: order_type.to_string(),
        price,
        qty: 3,
        client_order_id: Some(8),
    }
}

#[test]
fn numbers_in_decimal() {
    assert_eq!(decimal_text(0), "0");
    assert_eq!(decimal_text(9), "9");
    assert_eq!(decimal_text(10), "10");
    assert_eq!(decimal_text(1_234_567_890), "1234567890");
    assert_eq!(decimal_text(u64::MAX), u64::MAX.to_string());
    assert!(same_text(&"abc".to_string(), "abc"));
    assert!(!same_text(&"abc".to_string(), "abC"));
}

#[test]
fn error_messages() {
    assert_eq!(EngineError::OrderNotFound.message(), "order not found");
    for status in [
        OrderStatus::New,
        OrderStatus::PartiallyFilled,
        OrderStatus::Filled,
        OrderStatus::Cancelled,
        OrderStatus::Rejected,
    ] {
        assert_eq!(
            EngineError::NotCancellable(17, status).message(),
            format!("order 17 is not cancellable in status {:?}", status)
        );
    }
    assert_eq!(
        EngineError::InvalidOrder("no".to_string()).message(),
        "invalid order: no"
    );
}

#[test]
fn errors_have_their_status() {
    let e = ApiError::from(EngineError::OrderNotFound);
    assert_eq!((e.status, e.message.as_str()), (NOT_FOUND, "order not found"));
    let e = ApiError::from(EngineError::NotCancellable(3, OrderStatus::Filled));
    assert_eq!(e.status, CONFLICT);
    assert_eq!(e.message, "order 3 is not cancellable in status Filled");
    let e = ApiError::from(EngineError::InvalidOrder("x".to_string()));
    assert_eq!((e.status, e.message.as_str()), (BAD_REQUEST, "invalid order: x"));
    assert_eq!((NOT_FOUND, CONFLICT, BAD_REQUEST), (404, 409, 400));
    assert_eq!(ApiError::bad_request("y".to_string()).status, 400);
}

#[test]
fn requests_become_orders() {
    let order = order_of(request("limit", Some(70))).unwrap();
    assert_eq!(order.order_type, OrderType::Limit { price: 70 });
    assert_eq!((order.side, order.qty, order.client_order_id), (Side::Ask, 3, Some(8)));
    assert_eq!(order.max_matches, None);
    let order = order_of(request("market", Some(70))).unwrap();
    assert_eq!(order.order_type, OrderType::Market);
    let e = order_of(request("limit", None)).unwrap_err();
    assert_eq!((e.status, e.message.as_str()), (400, "limit orders require price"));
    let e = order_of(request("Limit", Some(70))).unwrap_err();
    assert_eq!((e.status, e.message.as_str()), (400, "unknown order type: Limit"));
}

#[test]
fn response_repeats_the_result() {
    let mut engine = Engine::new();
    engine.submit(limit(Side::Ask, 100, 5)).unwrap();
    let (result, _) = engine.submit(limit(Side::Bid, 100, 8)).unwrap();
    let r = PlaceOrderResponse::from(result);
    assert_eq!((r.order_id, r.status), (2, OrderStatus::PartiallyFilled));
    assert_eq!((r.filled_qty, r.remaining_qty, r.trades.len()), (5, 3, 1));
    assert!(r.reject_reason.is_none());
}

#[test]
fn asked_for_is_capped() {
    assert_eq!(book_depth(None), 20);
    assert_eq!(book_depth(Some(0)), 0);
    assert_eq!(book_depth(Some(99)), 99);
    assert_eq!(book_depth(Some(101)), 100);
    assert_eq!(trades_limit(None), 100);
    assert_eq!(trades_limit(Some(7)), 7);
    assert_eq!(trades_limit(Some(5000)), 1000);
}

#[test]
fn cors_setting() {
    let on = |v: &str| dev_cors_setting(Some(v.to_string()));
    assert!(on("1"));
    assert!(on("true"));
    assert!(on("TrUe"));
    assert!(!on("11"));
    assert!(!on("yes"));
    assert!(!on("tru"));
    assert!(!on("trueh"));
    assert!(!on("\u{54}RU\u{c9}"));
    assert!(!on("t\u{12}ue"));
    assert!(!dev_cors_setting(None));
}

#[test]
fn submit_publishes_trades_and_then_the_book() {
    let mut engine = Engine::new();
    let (reply, events) = run_submit(&mut engine, limit(Side::Ask, 100, 10));
    assert_eq!(reply.unwrap().status, OrderStatus::New);
    assert_eq!(events.len(), 1);
    let (reply, events) = run_submit(&mut engine, limit(Side::Bid, 100, 10));
    let reply = reply.unwrap();
    assert_eq!(reply.status, OrderStatus::Filled);
    assert_eq!(events.len(), 2);
    match &events[0] {
        MarketEvent::Trade(t) => assert_eq!((t.id, t.qty), (reply.trades[0].id, 10)),
        MarketEvent::BookUpdate { .. } => panic!("trade first"),
    }
    match &events[1] {
        MarketEvent::BookUpdate { snapshot } => assert!(snapshot.asks.is_empty()),
        MarketEvent::Trade(_) => panic!("book last"),
    }
}

#[test]
fn refused_submit_publishes_nothing() {
    let mut engine = Engine::new();
    let (reply, events) = run_submit(&mut engine, limit(Side::Ask, 100, 0));
    assert_eq!(
        reply.unwrap_err(),
        EngineError::InvalidOrder("quantity must be positive".to_string())
    );
    assert!(events.is_empty());
}

#[test]
fn cancel_publishes_the_book() {
    let mut engine = Engine::new();
    let (reply, _) = run_submit(&mut engine, limit(Side::Ask, 100, 10));
    let id = reply.unwrap().order_id;
    let (reply, events) = run_cancel(&mut engine, id);
    assert!(reply.is_ok());
    assert_eq!(events.len(), 1);
    let (reply, events) = run_cancel(&mut engine, id);
    assert_eq!(
        reply.unwrap_err(),
        EngineError::NotCancellable(id.0, OrderStatus::Cancelled)
    );
    assert!(events.is_empty());
    let (reply, _) = run_cancel(&mut engine, OrderId(40));
    assert_eq!(reply.unwrap_err(), EngineError::OrderNotFound);
}

#[test]
fn published_book_is_cut() {
    let mut engine = Engine::new();
    for i in 0..60u64 {
        engine.submit(limit(Side::Bid, 1000 + i, 1)).unwrap();
    }
    match publish_book(&engine) {
        MarketEvent::BookUpdate { snapshot } => {
            assert_eq!(snapshot.bids.len(), PUBLISHED_DEPTH);
            assert_eq!(snapshot.bids[0].price, 1059);
            assert_eq!(snapshot.bids[49].price, 1010);
        }
        MarketEvent::Trade(_) => panic!("a book"),
    }
}

#[test]
fn undelivered_commands() {
    assert_eq!(
        undelivered(Undelivered::Stopped),
        EngineError::InvalidOrder("engine stopped".to_string())
    );
    assert_eq!(
        undelivered(Undelivered::Dropped),
        EngineError::InvalidOrder("engine dropped response".to_string())
    );
}

#[test]
fn history_keeps_the_last_trades() {
    let mut history = TradeHistory::new();
    assert!(history.recent(5).is_empty());
    for id in 1..=(TRADE_HISTORY as u64 + 3) {
        history.push_trade(trade(id));
    }
    let all = history.recent(TRADE_HISTORY + 100);
    assert_eq!(all.len(), TRADE_HISTORY);
    assert_eq!((all[0].id, all[TRADE_HISTORY - 1].id), (4, 10_003));
    let two: Vec<u64> = history.recent(2).iter().map(|t| t.id).collect();
    assert_eq!(two, vec![10_002, 10_003]);
    assert!(history.recent(0).is_empty());
}

fn message(op: &str, channels: Option<Vec<&str>>) -> SessionEvent {
    SessionEvent::Text(Some(WsClientMessage {
        op: op.to_string(),
        channels: channels.map(|c| c.iter().map(|s| s.to_string()).collect()),
    }))
}

fn book_event() -> SessionEvent {
    SessionEvent::Market(MarketEvent::BookUpdate {
        snapshot: OrderBookSnapshot { bids: vec![], asks: vec![] },
    })
}

#[test]
fn new_subscriber_gets_everything() {
    let mut s = Subscription::new();
    let a = s.step(SessionEvent::Market(MarketEvent::Trade(trade(5))));
    assert!(matches!(a, SessionAction::Send(WsServerMessage::Trade { data }) if data.id == 5));
    assert!(matches!(
        s.step(book_event()),
        SessionAction::Send(WsServerMessage::Book { .. })
    ));
}

#[test]
fn subscription_chooses_channels() {
    let mut s = Subscription::new();
    assert!(matches!(s.step(message("subscribe", Some(vec!["trades"]))), SessionAction::Wait));
    assert_eq!(s, Subscription { want_trades: true, want_book: false });
    assert!(matches!(s.step(book_event()), SessionAction::Wait));
    s.step(message("subscribe", Some(vec!["x", "book"])));
    assert_eq!(s, Subscription { want_trades: false, want_book: true });
    let a = s.step(SessionEvent::Market(MarketEvent::Trade(trade(5))));
    assert!(matches!(a, SessionAction::Wait));
    s.step(message("subscribe", Some(vec!["x"])));
    assert_eq!(s, Subscription { want_trades: false, want_book: false });
}

#[test]
fn other_messages_change_nothing() {
    let mut s = Subscription { want_trades: true, want_book: false };
    let before = s;
    s.step(message("subscribe", Some(vec![])));
    s.step(message("subscribe", None));
    s.step(message("unsubscribe", Some(vec!["book"])));
    s.step(SessionEvent::Text(None));
    assert!(matches!(s.step(SessionEvent::Other), SessionAction::Wait));
    assert!(matches!(s.step(SessionEvent::Lagged), SessionAction::Wait));
    assert_eq!(s, before);
}

#[test]
fn session_ends() {
    let mut s = Subscription::new();
    assert!(matches!(s.step(SessionEvent::Gone), SessionAction::Stop));
    assert!(matches!(s.step(SessionEvent::MarketClosed), SessionAction::Stop));
}

#[test]
fn load_orders() {
    let o = seed_order(Side::Ask, 53);
    assert_eq!((o.side, o.order_type, o.qty), (Side::Ask, OrderType::Limit { price: 103 }, 10));
    let o = worker_order(3, 49);
    assert_eq!((o.side, o.order_type, o.qty), (Side::Ask, OrderType::Limit { price: 149 }, 1));
    let o = worker_order(4, 50);
    assert_eq!((o.side, o.order_type, o.qty), (Side::Bid, OrderType::Limit { price: 100 }, 1));
    assert_eq!((o.client_order_id, o.max_matches), (None, None));
}

#[test]
fn seeding_fills_the_book() {
    let mut engine = Engine::new();
    assert_eq!(seed(&mut engine, 0), 0);
    assert!(engine.get_order(OrderId(1)).is_none());
    assert_eq!(seed(&mut engine, 3), 6);
    // Ask and bid meet at each price in turn.
    for id in 1..=6u64 {
        let r = engine.get_order(OrderId(id)).unwrap();
        let side = if id % 2 == 1 { Side::Ask } else { Side::Bid };
        assert_eq!((r.side, r.order_type), (side, OrderType::Limit { price: 100 + (id - 1) / 2 }));
        assert_eq!((r.qty_original, r.status), (10, OrderStatus::Filled));
    }
    assert!(engine.get_order(OrderId(7)).is_none());
    assert!(engine.snapshot(5).asks.is_empty() && engine.snapshot(5).bids.is_empty());
}
