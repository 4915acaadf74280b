use std::cmp::Reverse;
use exchange::exchange::Exchange;
use exchange::order::{Order, Side};
use uuid::Uuid;

fn make_order(side: Side, ticker: &str, price: u64, qty: u64) -> Order {
    Order {
        id: Uuid::new_v4(),
        trader_id: Uuid::new_v4(),
        side,
        ticker: ticker.into(),
        qty,
        timestamp: 0,
        limit_price: price,
    }
}

#[test]
fn rejects_zero_qty() {
    let mut exchange = Exchange::with_tickers(vec!["AAPL".into()]);
    let order = make_order(Side::Buy, "AAPL", 100, 0);

    let result = exchange.process(order);

    assert!(result.is_err());
    assert_eq!(result.unwrap_err().reason, "Order cannot be empty!");
}

#[test]
fn rejects_zero_price() {
    let mut exchange = Exchange::with_tickers(vec!["AAPL".into()]);
    let order = make_order(Side::Buy, "AAPL", 0, 10);

    let result = exchange.process(order);

    assert!(result.is_err());
    assert_eq!(result.unwrap_err().reason, "Price cannot be zero!");
}

#[test]
fn rejects_unknown_ticker() {
    let mut exchange = Exchange::with_tickers(vec!["AAPL".into()]);
    let order = make_order(Side::Buy, "MSFT", 100, 10);

    let result = exchange.process(order);

    assert!(result.is_err());
    assert_eq!(result.unwrap_err().reason, "Ticker does not exist!");
}

#[test]
fn routes_valid_order_to_correct_book() {
    let mut exchange = Exchange::with_tickers(vec!["AAPL".into(), "MSFT".into()]);

    let result = exchange.process(make_order(Side::Buy, "AAPL", 100, 10));

    assert!(result.is_ok());
    assert_eq!(result.unwrap().len(), 0); // no cross, just rests
    assert_eq!(exchange.book("AAPL").unwrap().bids.len(), 1);
    assert_eq!(exchange.book("MSFT").unwrap().bids.len(), 0);
}

#[test]
fn valid_crossing_orders_produce_trade() {
    let mut exchange = Exchange::with_tickers(vec!["AAPL".into()]);
    exchange.process(make_order(Side::Sell, "AAPL", 100, 10)).unwrap();

    let trades = exchange.process(make_order(Side::Buy, "AAPL", 100, 10)).unwrap();

    assert_eq!(trades.len(), 1);
    assert_eq!(trades[0].qty, 10);
}

#[test]
fn rejection_checks_quantity_before_price_and_ticker() {
    let mut exchange = Exchange::with_tickers(vec!["AAPL".into()]);
    let order = make_order(Side::Sell, "NOPE", 0, 0);
    let id = order.id;

    let report = exchange.process(order).unwrap_err();

    assert_eq!(report.reason, "Order cannot be empty!");
    assert_eq!(report.order_id, id);
    assert_eq!(report.ticker, "NOPE");
    let report = exchange.process(make_order(Side::Sell, "NOPE", 0, 5)).unwrap_err();
    assert_eq!(report.reason, "Price cannot be zero!");
}

#[test]
fn rejected_order_leaves_books_unchanged() {
    let mut exchange = Exchange::with_tickers(vec!["AAPL".into()]);
    exchange.process(make_order(Side::Sell, "AAPL", 100, 10)).unwrap();

    assert!(exchange.process(make_order(Side::Buy, "AAPL", 0, 10)).is_err());
    assert!(exchange.process(make_order(Side::Buy, "AAPL", 100, 0)).is_err());

    let book = exchange.book("AAPL").unwrap();
    assert_eq!(book.asks.get(&100).unwrap()[0].qty, 10);
    assert!(book.bids.is_empty());
    assert_eq!(book.ltp, 0);
}

#[test]
fn duplicate_tickers_get_one_book() {
    let exchange = Exchange::with_tickers(vec!["AAPL".into(), "AAPL".into(), "MSFT".into()]);

    assert!(exchange.book("AAPL").is_some());
    assert!(exchange.book("MSFT").is_some());
    assert!(exchange.book("GOOG").is_none());
}

#[test]
fn empty_exchange_rejects_every_ticker() {
    let mut exchange = Exchange::new();

    let report = exchange.process(make_order(Side::Buy, "AAPL", 100, 10)).unwrap_err();

    assert_eq!(report.reason, "Ticker does not exist!");
    assert!(exchange.book("AAPL").is_none());
}

#[test]
fn orders_in_one_ticker_do_not_touch_another() {
    let mut exchange = Exchange::with_tickers(vec!["AAPL".into(), "MSFT".into()]);
    exchange.process(make_order(Side::Sell, "MSFT", 100, 10)).unwrap();

    let trades = exchange.process(make_order(Side::Buy, "AAPL", 100, 10)).unwrap();

    assert!(trades.is_empty());
    assert_eq!(exchange.book("MSFT").unwrap().asks.get(&100).unwrap()[0].qty, 10);
    assert_eq!(exchange.book("AAPL").unwrap().bids.get(&Reverse(100)).unwrap()[0].qty, 10);
}
