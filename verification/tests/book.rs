use orderly::book::OrderBook;
use orderly::engine::{level_delta, level_delta_after_remove, trade_with};
use orderly::types::{BookDeltaKind, BookLevel, OrderId, OrderType, RestingOrder, Side};

fn resting(id: u64, side: Side, price: u64, qty: u64, sequence: u64) -> RestingOrder {
    RestingOrder { id: OrderId(id), side, price, qty_remaining: qty, sequence }
}

fn rows(levels: &[BookLevel]) -> Vec<(u64, u64, u32)> {
    levels.iter().map(|l| (l.price, l.qty, l.order_count)).collect()
}

fn sample() -> OrderBook {
    let mut book = OrderBook::new();
    book.insert(resting(1, Side::Bid, 99, 5, 1));
    book.insert(resting(2, Side::Bid, 101, 7, 2));
    book.insert(resting(3, Side::Bid, 99, 11, 3));
    book.insert(resting(4, Side::Ask, 110, 2, 4));
    book.insert(resting(5, Side::Ask, 105, 3, 5));
    book.insert(resting(6, Side::Ask, 105, 4, 6));
    book
}

#[test]
fn empty_book_has_no_best_order() {
    let book = OrderBook::new();
    assert_eq!(book.best_bid_id(), None);
    assert_eq!(book.best_ask_id(), None);
    assert!(book.get(OrderId(1)).is_none());
    assert!(book.snapshot(10).bids.is_empty());
}

#[test]
fn best_bid_is_highest_best_ask_is_lowest() {
    let book = sample();
    assert_eq!(book.best_bid_id(), Some(OrderId(2)));
    assert_eq!(book.best_ask_id(), Some(OrderId(5)));
}

#[test]
fn older_order_comes_first_at_one_price() {
    let mut book = sample();
    assert_eq!(book.remove(OrderId(5)).unwrap().id, OrderId(5));
    assert_eq!(book.best_ask_id(), Some(OrderId(6)));
    assert_eq!(book.remove(OrderId(2)).unwrap().price, 101);
    assert_eq!(book.best_bid_id(), Some(OrderId(1)));
    book.remove(OrderId(1));
    assert_eq!(book.best_bid_id(), Some(OrderId(3)));
}

#[test]
fn lower_sequence_goes_before_orders_that_are_there() {
    let mut book = OrderBook::new();
    book.insert(resting(1, Side::Ask, 100, 1, 9));
    book.insert(resting(2, Side::Ask, 100, 1, 4));
    assert_eq!(book.best_ask_id(), Some(OrderId(2)));
}

#[test]
fn extreme_prices_keep_their_order() {
    let mut book = OrderBook::new();
    book.insert(resting(1, Side::Bid, 0, 1, 1));
    book.insert(resting(2, Side::Bid, u64::MAX, 1, 2));
    book.insert(resting(3, Side::Ask, u64::MAX, 1, 3));
    book.insert(resting(4, Side::Ask, 0, 1, 4));
    assert_eq!(book.best_bid_id(), Some(OrderId(2)));
    assert_eq!(book.best_ask_id(), Some(OrderId(4)));
}

#[test]
fn remove_unknown_changes_nothing() {
    let mut book = sample();
    assert!(book.remove(OrderId(77)).is_none());
    assert_eq!(rows(&book.snapshot(10).bids), vec![(101, 7, 1), (99, 16, 2)]);
}

#[test]
fn reduce_keeps_the_place() {
    let mut book = sample();
    book.reduce(OrderId(5), 2);
    assert_eq!(book.get(OrderId(5)).unwrap().qty_remaining, 1);
    assert_eq!(book.best_ask_id(), Some(OrderId(5)));
    let level = book.level_at_price(Side::Ask, 105);
    assert_eq!((level.qty, level.order_count), (5, 2));
}

#[test]
fn level_counts_one_side_only() {
    let mut book = sample();
    book.insert(resting(7, Side::Ask, 99, 100, 7));
    let level = book.level_at_price(Side::Bid, 99);
    assert_eq!((level.price, level.qty, level.order_count), (99, 16, 2));
    let none = book.level_at_price(Side::Bid, 100);
    assert_eq!((none.price, none.qty, none.order_count), (100, 0, 0));
}

#[test]
fn snapshot_is_best_first_and_cut_at_depth() {
    let book = sample();
    let all = book.snapshot(10);
    assert_eq!(rows(&all.bids), vec![(101, 7, 1), (99, 16, 2)]);
    assert_eq!(rows(&all.asks), vec![(105, 7, 2), (110, 2, 1)]);
    let one = book.snapshot(1);
    assert_eq!(rows(&one.bids), vec![(101, 7, 1)]);
    assert_eq!(rows(&one.asks), vec![(105, 7, 2)]);
    assert!(book.snapshot(0).asks.is_empty());
    assert_eq!(rows(&book.aggregate_bids(1)), rows(&one.bids));
    assert_eq!(rows(&book.aggregate_asks(2)), rows(&all.asks));
}

#[test]
fn deltas_show_the_level() {
    let mut book = sample();
    let d = level_delta(Side::Bid, 99, &book, BookDeltaKind::Add);
    assert_eq!((d.price, d.qty, d.order_count, d.kind), (99, 16, 2, BookDeltaKind::Add));
    book.remove(OrderId(1));
    let d = level_delta_after_remove(Side::Bid, 99, &book);
    assert_eq!((d.qty, d.order_count, d.kind), (11, 1, BookDeltaKind::Update));
    book.remove(OrderId(3));
    let d = level_delta_after_remove(Side::Bid, 99, &book);
    assert_eq!((d.qty, d.order_count, d.kind), (0, 0, BookDeltaKind::Remove));
}

#[test]
fn trade_is_at_the_makers_price() {
    let t = trade_with(7, OrderId(9), &resting(4, Side::Ask, 110, 2, 4), 1, 1234);
    assert_eq!((t.id, t.taker_order_id, t.maker_order_id), (7, OrderId(9), OrderId(4)));
    assert_eq!((t.price, t.qty, t.timestamp_ns), (110, 1, 1234));
}

#[test]
fn preview_of_matching() {
    let book = sample();
    let limit = OrderType::Limit { price: 105 };
    assert_eq!(book.left_after_matching(Side::Bid, limit, 20, 100), 13);
    assert_eq!(book.left_after_matching(Side::Bid, limit, 5, 100), 0);
    assert_eq!(book.left_after_matching(Side::Bid, OrderType::Market, 20, 100), 11);
    assert_eq!(book.left_after_matching(Side::Bid, OrderType::Market, 20, 1), 17);
    assert_eq!(book.left_after_matching(Side::Bid, OrderType::Market, 20, 0), 20);
    assert_eq!(
        book.left_after_matching(Side::Ask, OrderType::Limit { price: 100 }, 9, 100),
        2
    );
}

#[test]
fn remove_undoes_insert() {
    for side in [Side::Bid, Side::Ask] {
        for price in [98, 99, 101, 105, 120] {
            let mut book = sample();
            let order = resting(7, side, price, 6, 7);
            book.insert(order);
            let level = book.level_at_price(side, price);
            assert!(level.order_count >= 1 && level.qty >= 6);
            let removed = book.remove(OrderId(7)).unwrap();
            assert_eq!(removed.id, OrderId(7));
            assert_eq!((removed.side, removed.price), (side, price));
            assert_eq!((removed.qty_remaining, removed.sequence), (6, 7));
            assert!(book.get(OrderId(7)).is_none());
            assert_eq!(book.best_bid_id(), sample().best_bid_id());
            assert_eq!(book.best_ask_id(), sample().best_ask_id());
            assert_eq!(rows(&book.snapshot(10).bids), rows(&sample().snapshot(10).bids));
            assert_eq!(rows(&book.snapshot(10).asks), rows(&sample().snapshot(10).asks));
            assert_eq!(book.get(OrderId(3)).unwrap().qty_remaining, 11);
        }
    }
}

#[test]
fn orders_beyond_what_a_level_reports_can_be_put_in_and_taken_out() {
    let mut book = OrderBook::new();
    book.insert(resting(1, Side::Bid, 100, u64::MAX, 1));
    book.insert(resting(2, Side::Bid, 100, u64::MAX, 2));
    assert_eq!(book.best_bid_id(), Some(OrderId(1)));
    assert_eq!(book.remove(OrderId(2)).unwrap().qty_remaining, u64::MAX);
    let level = book.level_at_price(Side::Bid, 100);
    assert_eq!((level.qty, level.order_count), (u64::MAX, 1));
}
