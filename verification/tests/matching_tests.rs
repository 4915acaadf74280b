use std::cmp::Reverse;
use exchange::book::OrderBook;
use exchange::engine;
use exchange::order::{Order, Side};
use uuid::Uuid;

fn order(side: Side, price: u64, qty: u64) -> Order {
    Order {
        id: Uuid::new_v4(),
        trader_id: Uuid::new_v4(),
        side,
        ticker: "T".into(),
        qty,
        timestamp: 0,
        limit_price: price,
    }
}

#[test]
fn new_book_is_empty() {
    let book = OrderBook::new();
    assert!(book.bids.is_empty());
    assert!(book.asks.is_empty());
    assert_eq!(book.ltp, 0);
    assert_eq!(book.best_bid(), None);
    assert_eq!(book.best_ask(), None);
    assert_eq!(book.spread(), None);
    assert_eq!(book.best_bid_qty(), None);
    assert_eq!(book.best_ask_qty(), None);
}

#[test]
fn top_of_book_prices_and_quantities() {
    let mut book = OrderBook::new();
    book.rest(order(Side::Buy, 98, 3));
    book.rest(order(Side::Buy, 99, 4));
    book.rest(order(Side::Buy, 99, 6));
    book.rest(order(Side::Sell, 102, 7));
    book.rest(order(Side::Sell, 101, 1));
    book.rest(order(Side::Sell, 101, 2));

    assert_eq!(book.best_bid(), Some(99));
    assert_eq!(book.best_ask(), Some(101));
    assert_eq!(book.spread(), Some(2));
    assert_eq!(book.best_bid_qty(), Some(10));
    assert_eq!(book.best_ask_qty(), Some(3));
}

#[test]
fn spread_is_none_when_book_is_crossed() {
    let mut book = OrderBook::new();
    book.rest_bid(order(Side::Buy, 105, 1));
    book.rest_ask(order(Side::Sell, 100, 1));

    assert_eq!(book.spread(), None);
    assert_eq!(book.best_bid(), Some(105));
    assert_eq!(book.best_ask(), Some(100));
}

#[test]
fn spread_is_zero_at_equal_prices() {
    let mut book = OrderBook::new();
    book.rest_bid(order(Side::Buy, 100, 1));
    book.rest_ask(order(Side::Sell, 100, 1));
    assert_eq!(book.spread(), Some(0));
}

#[test]
fn sell_sweeps_bids_highest_first() {
    let mut book = OrderBook::new();
    let low = order(Side::Buy, 98, 5);
    let high = order(Side::Buy, 100, 5);
    let (low_id, high_id) = (low.id, high.id);
    book.rest(low);
    book.rest(high);
    let sell = order(Side::Sell, 97, 12);
    let sell_id = sell.id;

    let trades = book.match_order(sell);

    assert_eq!(trades.len(), 2);
    assert_eq!(trades[0].price, 100);
    assert_eq!(trades[0].buy_order_id, high_id);
    assert_eq!(trades[0].sell_order_id, sell_id);
    assert_eq!(trades[1].price, 98);
    assert_eq!(trades[1].buy_order_id, low_id);
    assert_eq!(trades[0].ticker, "T");
    assert_eq!(book.ltp, 98);
    assert!(book.bids.is_empty());
    assert_eq!(book.asks.get(&97).unwrap()[0].qty, 2);
}

#[test]
fn sell_stops_at_bids_below_its_limit() {
    let mut book = OrderBook::new();
    book.rest(order(Side::Buy, 100, 5));
    book.rest(order(Side::Buy, 95, 5));

    let trades = book.match_order(order(Side::Sell, 99, 20));

    assert_eq!(trades.len(), 1);
    assert_eq!(trades[0].qty, 5);
    assert_eq!(book.best_bid(), Some(95));
    assert_eq!(book.best_ask(), Some(99));
    assert_eq!(book.best_ask_qty(), Some(15));
}

#[test]
fn fills_walk_a_queue_in_arrival_order() {
    let mut book = OrderBook::new();
    let a = order(Side::Sell, 100, 2);
    let b = order(Side::Sell, 100, 3);
    let c = order(Side::Sell, 100, 4);
    let (a_id, b_id, c_id) = (a.id, b.id, c.id);
    book.rest(a);
    book.rest(b);
    book.rest(c);

    let trades = book.match_order(order(Side::Buy, 100, 6));

    assert_eq!(trades.len(), 3);
    assert_eq!((trades[0].sell_order_id, trades[0].qty), (a_id, 2));
    assert_eq!((trades[1].sell_order_id, trades[1].qty), (b_id, 3));
    assert_eq!((trades[2].sell_order_id, trades[2].qty), (c_id, 1));
    let queue = book.asks.get(&100).unwrap();
    assert_eq!(queue.len(), 1);
    assert_eq!(queue[0].id, c_id);
    assert_eq!(queue[0].qty, 3);
}

#[test]
fn quantity_traded_plus_rested_equals_order() {
    let mut book = OrderBook::new();
    book.rest(order(Side::Sell, 100, 4));
    book.rest(order(Side::Sell, 103, 4));
    book.rest(order(Side::Buy, 101, 2));

    let trades = book.match_order(order(Side::Buy, 101, 9));

    let traded: u64 = trades.iter().map(|t| t.qty).sum();
    assert_eq!(traded, 4);
    assert_eq!(book.best_bid_qty(), Some(2 + 5));
    assert!(trades.iter().all(|t| t.price <= 101));
    assert!(book.best_bid().unwrap() < book.best_ask().unwrap());
}

#[test]
fn match_against_asks_leaves_remaining_quantity_in_order() {
    let mut book = OrderBook::new();
    book.rest(order(Side::Sell, 100, 3));
    let mut incoming = order(Side::Buy, 100, 5);
    let mut trades = Vec::new();

    book.match_against_asks(&mut incoming, &mut trades);

    assert_eq!(incoming.qty, 2);
    assert_eq!(trades.len(), 1);
    assert!(book.asks.is_empty());
    assert!(book.bids.is_empty());
}

#[test]
fn match_against_bids_appends_to_existing_trades() {
    let mut book = OrderBook::new();
    book.rest(order(Side::Buy, 100, 3));
    let mut trades = book.match_order(order(Side::Sell, 200, 1));
    assert!(trades.is_empty());
    let mut incoming = order(Side::Sell, 90, 2);

    book.match_against_bids(&mut incoming, &mut trades);

    assert_eq!(incoming.qty, 0);
    assert_eq!(trades.len(), 1);
    assert_eq!(trades[0].price, 100);
    assert_eq!(book.bids.get(&Reverse(100)).unwrap()[0].qty, 1);
}

#[test]
fn zero_quantity_order_against_crossing_book_makes_empty_trade() {
    let mut book = OrderBook::new();
    book.rest(order(Side::Sell, 100, 5));

    let trades = book.match_order(order(Side::Buy, 100, 0));

    assert_eq!(trades.len(), 1);
    assert_eq!(trades[0].qty, 0);
    assert_eq!(book.ltp, 100);
    assert_eq!(book.best_ask_qty(), Some(5));
    assert!(book.bids.is_empty());
}

#[test]
fn rest_queues_orders_behind_earlier_ones() {
    let mut book = OrderBook::new();
    let first = order(Side::Buy, 50, 1);
    let first_id = first.id;
    book.rest(first);
    book.rest(order(Side::Buy, 50, 2));
    let queue = book.bids.get(&Reverse(50)).unwrap();
    assert_eq!(queue.len(), 2);
    assert_eq!(queue[0].id, first_id);
    assert!(book.asks.is_empty());
}

#[test]
fn engine_rests_against_empty_side() {
    let mut book = OrderBook::new();
    engine::match_order(order(Side::Buy, 100, 0), &mut book);
    engine::match_order(order(Side::Sell, 110, 3), &mut book);

    assert_eq!(book.bids.get(&Reverse(100)).unwrap()[0].qty, 0);
    assert_eq!(book.asks.get(&110).unwrap()[0].qty, 3);
}

#[test]
fn engine_matches_and_rests_remainder() {
    let mut book = OrderBook::new();
    engine::match_order(order(Side::Sell, 100, 5), &mut book);
    engine::match_order(order(Side::Sell, 101, 5), &mut book);

    engine::match_order(order(Side::Buy, 101, 12), &mut book);

    assert_eq!(book.ltp, 101);
    assert!(book.asks.is_empty());
    assert_eq!(book.bids.get(&Reverse(101)).unwrap()[0].qty, 2);
}

#[test]
fn engine_keeps_level_drained_by_exact_fill() {
    let mut book = OrderBook::new();
    engine::match_order(order(Side::Buy, 100, 5), &mut book);

    engine::match_order(order(Side::Sell, 100, 5), &mut book);

    assert_eq!(book.ltp, 100);
    assert_eq!(book.bids.get(&Reverse(100)).unwrap().len(), 0);
    assert!(book.asks.is_empty());
}

fn side_total<K>(levels: &std::collections::BTreeMap<K, std::collections::VecDeque<Order>>) -> u64 {
    levels.values().flat_map(|q| q.iter()).map(|o| o.qty).sum()
}

#[test]
fn trades_take_exactly_the_filled_quantity_from_the_other_side() {
    let mut book = OrderBook::new();
    book.rest(order(Side::Buy, 100, 4));
    book.rest(order(Side::Buy, 100, 4));
    book.rest(order(Side::Buy, 99, 7));
    book.rest(order(Side::Buy, 90, 1));
    let before = side_total(&book.bids);

    let trades = book.match_order(order(Side::Sell, 99, 10));

    let traded: u64 = trades.iter().map(|t| t.qty).sum();
    assert_eq!(traded, 10);
    assert_eq!(side_total(&book.bids), before - traded);
    assert!(trades.iter().all(|t| t.price >= 99));
    assert!(trades.windows(2).all(|w| w[0].price >= w[1].price));
    assert!(book.asks.is_empty());
}

#[test]
fn rest_bid_does_not_look_at_the_side() {
    let mut book = OrderBook::new();
    book.rest_bid(order(Side::Sell, 70, 2));
    book.rest_ask(order(Side::Buy, 80, 3));

    assert_eq!(book.best_bid(), Some(70));
    assert_eq!(book.best_ask(), Some(80));
    assert_eq!(book.best_bid_qty(), Some(2));
    assert_eq!(book.best_ask_qty(), Some(3));
}

#[test]
fn uncrossed_book_stays_uncrossed() {
    let mut book = OrderBook::new();
    book.rest(order(Side::Buy, 99, 5));
    book.rest(order(Side::Sell, 101, 5));
    book.rest(order(Side::Sell, 103, 5));

    book.match_order(order(Side::Buy, 102, 8));

    assert_eq!(book.best_bid(), Some(102));
    assert_eq!(book.best_ask(), Some(103));
    assert_eq!(book.spread(), Some(1));
    assert_eq!(book.ltp, 101);
}

#[test]
fn bids_map_puts_the_highest_price_first() {
    let mut book = OrderBook::new();
    book.rest(order(Side::Buy, 97, 1));
    book.rest(order(Side::Buy, 103, 2));
    book.rest(order(Side::Buy, 100, 3));

    let (first, queue) = book.bids.first_key_value().unwrap();
    assert_eq!(first.0, 103);
    assert_eq!(queue[0].qty, 2);
    let prices: Vec<u64> = book.bids.keys().map(|k| k.0).collect();
    assert_eq!(prices, vec![103, 100, 97]);
    assert_eq!(book.best_bid(), Some(103));
}
