//! Matching as a free function: an incoming limit order is matched against
//! a book and what is left of it rests, without reporting trades; a level
//! emptied by the fill that completes the order stays in the book.

use crate::book::{rest_at, sweep_side, OrderBook};
use crate::levels::PriceLevels;
use crate::model::engine_matched;
use crate::order::{Order, Side, Trade};
use vstd::prelude::*;

verus! {

/// Matches `lo` against `order_book`, best opposite price first and oldest
/// order first within a price, and rests the unfilled remainder on its own
/// side. An order that meets an empty opposite side rests whole.
pub fn match_order(lo: Order, order_book: &mut OrderBook)
    requires
        old(order_book).finite_levels(),
    ensures
        final(order_book)@ == engine_matched(old(order_book)@, lo),
        old(order_book).wf() ==> final(order_book).wf(),
        final(order_book).finite_levels(),
{
    let mut lo = lo;
    match lo.side {
        Side::Buy => {
            if order_book.asks.no_levels() {
                rest_at(&mut order_book.bids, lo);
                return;
            }
            let mut trades = Vec::<Trade>::new();
            let left = sweep_side(&mut order_book.asks, true, false, &lo, &mut order_book.ltp, &mut trades);
            if left > 0 {
                lo.qty = left;
                rest_at(&mut order_book.bids, lo);
            }
        },
        Side::Sell => {
            if order_book.bids.no_levels() {
                rest_at(&mut order_book.asks, lo);
                return;
            }
            let mut trades = Vec::<Trade>::new();
            let left = sweep_side(&mut order_book.bids, false, false, &lo, &mut order_book.ltp, &mut trades);
            if left > 0 {
                lo.qty = left;
                rest_at(&mut order_book.asks, lo);
            }
        },
    }
}

} // verus!
