use std::cmp::Reverse;
use exchange::book::OrderBook;
use exchange::order::{Order, Side};
use uuid::Uuid;

fn make_order(side: Side, price: u64, qty: u64) -> Order {
    Order {
        id: Uuid::new_v4(),
        trader_id: Uuid::new_v4(),
        side,
        ticker: "TEST".into(),
        qty,
        timestamp: 0,
        limit_price: price,
    }
}

#[test]
fn no_cross_rests_order() {
    let mut book = OrderBook::new();
    let bid = make_order(Side::Buy, 100, 10);

    let trades = book.match_order(bid);

    assert!(trades.is_empty());
    assert_eq!(book.ltp, 0);
    assert_eq!(book.bids.get(&Reverse(100)).unwrap().len(), 1);
}

#[test]
fn exact_full_match() {
    let mut book = OrderBook::new();
    book.rest(make_order(Side::Sell, 100, 10));

    let trades = book.match_order(make_order(Side::Buy, 100, 10));

    assert_eq!(trades.len(), 1);
    assert_eq!(trades[0].qty, 10);
    assert_eq!(trades[0].price, 100);
    assert_eq!(book.ltp, 100);
    assert!(book.asks.is_empty());
    assert!(book.bids.is_empty());
}

#[test]
fn partial_fill_incoming_bigger_rests_remainder() {
    let mut book = OrderBook::new();
    book.rest(make_order(Side::Sell, 100, 5));

    let trades = book.match_order(make_order(Side::Buy, 100, 8));

    assert_eq!(trades.len(), 1);
    assert_eq!(trades[0].qty, 5);
    assert!(book.asks.is_empty());

    let resting_bid = book.bids.get(&Reverse(100)).unwrap();
    assert_eq!(resting_bid.len(), 1);
    assert_eq!(resting_bid[0].qty, 3);
}

#[test]
fn partial_fill_resting_bigger_keeps_resting_order_at_front() {
    let mut book = OrderBook::new();
    book.rest(make_order(Side::Sell, 100, 10));

    let trades = book.match_order(make_order(Side::Buy, 100, 4));

    assert_eq!(trades.len(), 1);
    assert_eq!(trades[0].qty, 4);
    assert!(book.bids.is_empty());

    let resting_ask = book.asks.get(&100).unwrap();
    assert_eq!(resting_ask.len(), 1);
    assert_eq!(resting_ask[0].qty, 6);
}

#[test]
fn price_time_priority_same_level_fifo() {
    let mut book = OrderBook::new();
    let first = make_order(Side::Sell, 100, 5);
    let first_id = first.id;
    book.rest(first);
    book.rest(make_order(Side::Sell, 100, 5));

    let trades = book.match_order(make_order(Side::Buy, 100, 5));

    assert_eq!(trades.len(), 1);
    assert_eq!(trades[0].sell_order_id, first_id);
    assert_eq!(book.asks.get(&100).unwrap().len(), 1);
}

#[test]
fn multi_level_sweep() {
    let mut book = OrderBook::new();
    book.rest(make_order(Side::Sell, 100, 5));
    book.rest(make_order(Side::Sell, 101, 5));

    let trades = book.match_order(make_order(Side::Buy, 101, 10));

    assert_eq!(trades.len(), 2);
    assert_eq!(trades[0].price, 100);
    assert_eq!(trades[1].price, 101);
    assert!(book.asks.is_empty());
    assert!(book.bids.is_empty());
    assert_eq!(book.ltp, 101);
}

#[test]
fn no_cross_when_price_does_not_reach() {
    let mut book = OrderBook::new();
    book.rest(make_order(Side::Sell, 105, 10));

    let trades = book.match_order(make_order(Side::Buy, 100, 10));

    assert!(trades.is_empty());
    assert_eq!(book.ltp, 0);
    assert_eq!(book.asks.get(&105).unwrap().len(), 1);
    assert_eq!(book.bids.get(&Reverse(100)).unwrap().len(), 1);
}

#[test]
fn ltp_uses_resting_order_price_not_incoming_price() {
    let mut book = OrderBook::new();
    book.rest(make_order(Side::Sell, 95, 10));

    // incoming bid crosses at a higher limit_price than the resting ask
    book.match_order(make_order(Side::Buy, 100, 10));

    assert_eq!(book.ltp, 95);
}
