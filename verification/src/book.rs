//! The order book of one ticker: resting bids and asks by price level, and
//! the matching of incoming orders with price-time priority.

use crate::levels::{new_bid_map, PriceLevels};
use crate::model::{
    best_price, fill_level, lemma_best_price, lemma_fill_level, lemma_records_fills_append,
    lemma_sweep_step, lemma_sweep_stop, lemma_total_qty_prefix, matched, nonempty_levels, records_fill,
    records_fills, rest_into, rest_order, sweep, total_qty, wf_levels, with_qty, BookState, Fill,
};
use crate::order::{Order, Side, Trade};
use crate::utils::get_system_time;
use std::cmp::Reverse;
use std::collections::{BTreeMap, VecDeque};
use vstd::prelude::*;

verus! {

/// The resting orders of one ticker. Bids are matched highest price first,
/// asks lowest price first; each price level is a FIFO queue.
pub struct OrderBook {
    /// Keyed by `Reverse(price)`: the highest bid comes first.
    pub bids: BTreeMap<Reverse<u64>, VecDeque<Order>>,
    pub asks: BTreeMap<u64, VecDeque<Order>>,
    /// Last traded price.
    pub ltp: u64,
}

/// Fills up to `qty` of `order` (of side `side`) against the FIFO queue of
/// the level at `price`, appending a trade for every fill and setting `ltp`
/// to `price` when anything fills. Returns the quantity left unfilled.
fn fill_queue(
    queue: &mut VecDeque<Order>,
    price: u64,
    qty: u64,
    order: &Order,
    side: Side,
    ltp: &mut u64,
    trades: &mut Vec<Trade>,
) -> (left: u64)
    ensures
        ({
            let f = fill_level(old(queue)@, price, qty);
            &&& final(queue)@ == f.1
            &&& left == f.2
            &&& records_fills(old(trades)@, final(trades)@, *order, side, f.0)
            &&& *final(ltp) == (if f.0.len() > 0 { price } else { *old(ltp) })
        }),
{
    let ghost q0 = queue@;
    let ghost t0 = trades@;
    let ghost ltp0 = *ltp;
    let ghost mut lvl: Seq<Fill> = seq![];
    let mut remaining = qty;
    #[verifier::loop_isolation(false)]
    loop
        invariant
            fill_level(q0, price, qty) == ({
                let f = fill_level(queue@, price, remaining);
                (lvl + f.0, f.1, f.2)
            }),
            records_fills(t0, trades@, *order, side, lvl),
            *ltp == (if lvl.len() > 0 { price } else { ltp0 }),
        decreases queue@.len(),
    {
        let ghost qb = queue@;
        let ghost tb = trades@;
        match queue.pop_front() {
            None => {
                assert(lvl + seq![] =~= lvl);
                break;
            },
            Some(mut resting) => {
                let ghost o = resting;
                let fill = if resting.qty < remaining {
                    resting.qty
                } else {
                    remaining
                };
                resting.qty = resting.qty - fill;
                remaining = remaining - fill;
                *ltp = price;
                let trade = Trade {
                    buy_order_id: if side == Side::Buy { order.id } else { resting.id },
                    sell_order_id: if side == Side::Buy { resting.id } else { order.id },
                    ticker: order.ticker.clone(),
                    price,
                    qty: fill,
                    timestamp: get_system_time(),
                };
                let ghost f = Fill { resting: o, price, qty: fill };
                assert(records_fill(trade, *order, side, f));
                trades.push(trade);
                proof {
                    assert(records_fills(tb, trades@, *order, side, seq![f])) by {
                        assert(trades@[tb.len() + 0int] == trades@.last());
                    }
                    lemma_records_fills_append(t0, tb, trades@, *order, side, lvl, seq![f]);
                    lvl = lvl + seq![f];
                    assert(queue@ =~= qb.drop_first());
                }
                if remaining == 0 {
                    if resting.qty > 0 {
                        queue.push_front(resting);
                        assert(queue@ =~= seq![with_qty(o, resting.qty)] + qb.drop_first());
                    }
                    break;
                }
                assert(lvl.drop_last() + (seq![f] + fill_level(queue@, price, remaining).0)
                    =~= lvl + fill_level(queue@, price, remaining).0);
            },
        }
    }
    remaining
}

/// Matches `order` against one side of a book (the asks when `lowest`, else
/// the bids), appending a trade for every fill and setting `ltp` to the
/// price of the last one. Returns the quantity left unfilled.
pub(crate) fn sweep_side<M: PriceLevels>(
    levels: &mut M,
    lowest: bool,
    prune: bool,
    order: &Order,
    ltp: &mut u64,
    trades: &mut Vec<Trade>,
) -> (left: u64)
    requires
        lowest == M::lowest_first(),
        old(levels).levels().dom().finite(),
    ensures
        ({
            let r = sweep(old(levels).levels(), lowest, order.limit_price, order.qty, prune);
            &&& final(levels).levels() == r.0
            &&& left == r.2
            &&& *final(ltp) == (if r.1.len() > 0 { r.1.last().price } else { *old(ltp) })
            &&& records_fills(
                old(trades)@,
                final(trades)@,
                *order,
                if lowest { Side::Buy } else { Side::Sell },
                r.1,
            )
        }),
        final(levels).levels().dom().finite(),
        wf_levels(old(levels).levels()) ==> wf_levels(final(levels).levels()),
        prune && nonempty_levels(old(levels).levels()) ==> nonempty_levels(final(levels).levels()),
{
    let side = if lowest { Side::Buy } else { Side::Sell };
    let limit = order.limit_price;
    let ghost total = sweep(levels.levels(), lowest, limit, order.qty, prune);
    let ghost start = levels.levels();
    let ghost trades0 = trades@;
    let ghost ltp0 = *ltp;
    let ghost mut done: Seq<Fill> = seq![];
    let mut remaining = order.qty;
    #[verifier::loop_isolation(false)]
    loop
        invariant
            lowest == M::lowest_first(),
            levels.levels().dom().finite(),
            wf_levels(start) ==> wf_levels(levels.levels()),
            prune && nonempty_levels(start) ==> nonempty_levels(levels.levels()),
            ({
                let r = sweep(levels.levels(), lowest, limit, remaining, prune);
                total == (r.0, done + r.1, r.2)
            }),
            records_fills(trades0, trades@, *order, side, done),
            *ltp == (if done.len() > 0 { done.last().price } else { ltp0 }),
        decreases levels.levels().dom().len(),
    {
        let ghost cur = levels.levels();
        let p = match levels.best() {
            None => {
                proof {
                    lemma_sweep_stop(cur, lowest, limit, remaining, prune);
                }
                assert(done + seq![] =~= done);
                break;
            },
            Some(p) => p,
        };
        let crossing = if lowest {
            p <= limit
        } else {
            limit <= p
        };
        if !crossing {
            proof {
                lemma_sweep_stop(cur, lowest, limit, remaining, prune);
            }
            assert(done + seq![] =~= done);
            break;
        }
        proof {
            lemma_best_price(cur, lowest);
            lemma_sweep_step(cur, lowest, limit, remaining, prune, p);
        }
        let mut queue = levels.take_level(p).unwrap();
        proof {
            lemma_fill_level(queue@, p, remaining);
        }
        let ghost tb = trades@;
        let ghost lvl = fill_level(queue@, p, remaining).0;
        remaining = fill_queue(&mut queue, p, remaining, order, side, ltp, trades);
        proof {
            lemma_records_fills_append(trades0, tb, trades@, *order, side, done, lvl);
            done = done + lvl;
        }
        if queue.len() > 0 || (!prune && remaining == 0) {
            levels.put_level(p, queue);
        }
        if remaining == 0 {
            break;
        }
        proof {
            let r2 = sweep(cur.remove(p), lowest, limit, remaining, prune);
            assert(done.subrange(0, done.len() - lvl.len()) + (lvl + r2.1) =~= done + r2.1);
        }
    }
    remaining
}

/// The quantity resting in one FIFO queue.
fn level_qty(queue: &VecDeque<Order>) -> (r: u64)
    requires
        total_qty(queue@) <= u64::MAX,
    ensures
        r == total_qty(queue@),
{
    let mut sum: u64 = 0;
    let mut i: usize = 0;
    while i < queue.len()
        invariant
            i <= queue@.len(),
            sum == total_qty(queue@.take(i as int)),
            total_qty(queue@) <= u64::MAX,
        decreases queue@.len() - i,
    {
        proof {
            assert(queue@.take(i + 1).drop_last() =~= queue@.take(i as int));
            lemma_total_qty_prefix(queue@, i + 1);
        }
        sum = sum + queue[i].qty;
        i = i + 1;
    }
    assert(queue@.take(i as int) =~= queue@);
    sum
}

/// Appends `order` to the queue of its limit price, opening the level if
/// needed.
pub(crate) fn rest_at<M: PriceLevels>(levels: &mut M, order: Order)
    ensures
        final(levels).levels() == rest_into(old(levels).levels(), order),
{
    let ghost start = levels.levels();
    let price = order.limit_price;
    let ghost o = order;
    let mut queue = match levels.take_level(price) {
        Some(q) => q,
        None => VecDeque::new(),
    };
    queue.push_back(order);
    levels.put_level(price, queue);
    proof {
        assert(levels.levels() =~= rest_into(start, o));
    }
}

impl View for OrderBook {
    type V = BookState;

    open spec fn view(&self) -> BookState {
        BookState { bids: self.bids.levels(), asks: self.asks.levels(), ltp: self.ltp }
    }
}

impl OrderBook {
    /// Every resting order sits at the level of its own limit price.
    pub open spec fn wf(&self) -> bool {
        wf_levels(self@.bids) && wf_levels(self@.asks)
    }

    /// Both sides hold finitely many price levels, as every map does.
    pub open spec fn finite_levels(&self) -> bool {
        self@.bids.dom().finite() && self@.asks.dom().finite()
    }

    /// No price level of the book is empty.
    pub open spec fn levels_nonempty(&self) -> bool {
        nonempty_levels(self@.bids) && nonempty_levels(self@.asks)
    }

    /// An empty book whose last traded price is 0.
    pub fn new() -> (book: Self)
        ensures
            book.wf(),
            book.levels_nonempty(),
            book.finite_levels(),
            book@.bids == Map::<u64, Seq<Order>>::empty(),
            book@.asks == Map::<u64, Seq<Order>>::empty(),
            book@.ltp == 0,
    {
        let book = OrderBook { bids: new_bid_map(), asks: BTreeMap::new(), ltp: 0 };
        assert(book@.bids =~= Map::<u64, Seq<Order>>::empty());
        assert(book@.asks =~= Map::<u64, Seq<Order>>::empty());
        book
    }

    /// The highest resting bid price.
    pub fn best_bid(&self) -> (r: Option<u64>)
        ensures
            r == best_price(self@.bids, false),
    {
        self.bids.best()
    }

    /// The lowest resting ask price.
    pub fn best_ask(&self) -> (r: Option<u64>)
        ensures
            r == best_price(self@.asks, true),
    {
        self.asks.best()
    }

    /// Best ask minus best bid; `None` when a side is empty or the book is
    /// crossed (best bid above best ask).
    pub fn spread(&self) -> (r: Option<u64>)
        ensures
            r == match (best_price(self@.asks, true), best_price(self@.bids, false)) {
                (Some(a), Some(b)) => if b <= a {
                    Some((a - b) as u64)
                } else {
                    None
                },
                _ => None,
            },
    {
        let ask = self.best_ask()?;
        let bid = self.best_bid()?;
        ask.checked_sub(bid)
    }

    /// Rests `order` on its own side without matching it: a buy among the
    /// bids, a sell among the asks, last in the queue of its limit price.
    pub fn rest(&mut self, order: Order)
        ensures
            final(self)@ == rest_order(old(self)@, order),
            old(self).wf() ==> final(self).wf(),
            old(self).levels_nonempty() ==> final(self).levels_nonempty(),
            old(self).finite_levels() ==> final(self).finite_levels(),
    {
        match order.side {
            Side::Buy => self.rest_bid(order),
            Side::Sell => self.rest_ask(order),
        }
    }

    /// Rests `order` among the bids, last in the queue of its limit price.
    pub fn rest_bid(&mut self, order: Order)
        ensures
            final(self)@ == (BookState { bids: rest_into(old(self)@.bids, order), ..old(self)@ }),
            old(self).wf() ==> final(self).wf(),
            old(self).levels_nonempty() ==> final(self).levels_nonempty(),
            old(self).finite_levels() ==> final(self).finite_levels(),
    {
        rest_at(&mut self.bids, order);
    }

    /// Rests `order` among the asks, last in the queue of its limit price.
    pub fn rest_ask(&mut self, order: Order)
        ensures
            final(self)@ == (BookState { asks: rest_into(old(self)@.asks, order), ..old(self)@ }),
            old(self).wf() ==> final(self).wf(),
            old(self).levels_nonempty() ==> final(self).levels_nonempty(),
            old(self).finite_levels() ==> final(self).finite_levels(),
    {
        rest_at(&mut self.asks, order);
    }

    /// Matches an incoming order against the book with price-time priority
    /// and rests what is left of it. Returns the trades, in the order they
    /// happened.
    pub fn match_order(&mut self, order: Order) -> (trades: Vec<Trade>)
        requires
            old(self).finite_levels(),
        ensures
            final(self)@ == matched(old(self)@, order, true).0,
            records_fills(Seq::empty(), trades@, order, order.side, matched(old(self)@, order, true).1),
            trades@.len() > 0 ==> final(self).ltp == trades@.last().price,
            trades@.len() == 0 ==> final(self).ltp == old(self).ltp,
            old(self).wf() ==> final(self).wf(),
            old(self).levels_nonempty() ==> final(self).levels_nonempty(),
            final(self).finite_levels(),
    {
        let mut trades = Vec::<Trade>::new();
        let mut order = order;
        let ghost incoming = order;
        match order.side {
            Side::Buy => self.match_against_asks(&mut order, &mut trades),
            Side::Sell => self.match_against_bids(&mut order, &mut trades),
        }
        if order.qty > 0 {
            self.rest(order);
        }
        proof {
            if trades@.len() > 0 {
                assert(trades@[0 + (trades@.len() - 1)] == trades@.last());
            }
        }
        trades
    }

    /// Matches `order`, taken as a buy, against the asks: lowest price
    /// first, oldest order first within a price; appends a trade for every
    /// fill and leaves in `order` the quantity that is still unfilled.
    pub fn match_against_asks(&mut self, order: &mut Order, trades: &mut Vec<Trade>)
        ensures
            ({
                let r = sweep(old(self)@.asks, true, old(order).limit_price, old(order).qty, true);
                &&& final(self)@ == (BookState {
                    asks: r.0,
                    ltp: if r.1.len() > 0 { r.1.last().price } else { old(self)@.ltp },
                    ..old(self)@
                })
                &&& *final(order) == with_qty(*old(order), r.2)
                &&& records_fills(old(trades)@, final(trades)@, *old(order), Side::Buy, r.1)
            }),
            final(trades)@.len() > old(trades)@.len() ==> final(self).ltp == final(trades)@.last().price,
            final(trades)@.len() == old(trades)@.len() ==> final(self).ltp == old(self).ltp,
            old(self).wf() ==> final(self).wf(),
            old(self).levels_nonempty() ==> final(self).levels_nonempty(),
            old(self).finite_levels() ==> final(self).finite_levels(),
    {
        assert(self.asks.levels().dom() =~= self.asks@.dom());
        let left = sweep_side(&mut self.asks, true, true, order, &mut self.ltp, trades);
        order.qty = left;
        proof {
            if trades@.len() > old(trades)@.len() {
                assert(trades@[old(trades)@.len() + (trades@.len() - old(trades)@.len() - 1)] == trades@.last());
            }
        }
    }

    /// Matches `order`, taken as a sell, against the bids: highest price
    /// first, oldest order first within a price; appends a trade for every
    /// fill and leaves in `order` the quantity that is still unfilled.
    pub fn match_against_bids(&mut self, order: &mut Order, trades: &mut Vec<Trade>)
        requires
            old(self).finite_levels(),
        ensures
            ({
                let r = sweep(old(self)@.bids, false, old(order).limit_price, old(order).qty, true);
                &&& final(self)@ == (BookState {
                    bids: r.0,
                    ltp: if r.1.len() > 0 { r.1.last().price } else { old(self)@.ltp },
                    ..old(self)@
                })
                &&& *final(order) == with_qty(*old(order), r.2)
                &&& records_fills(old(trades)@, final(trades)@, *old(order), Side::Sell, r.1)
            }),
            final(trades)@.len() > old(trades)@.len() ==> final(self).ltp == final(trades)@.last().price,
            final(trades)@.len() == old(trades)@.len() ==> final(self).ltp == old(self).ltp,
            old(self).wf() ==> final(self).wf(),
            old(self).levels_nonempty() ==> final(self).levels_nonempty(),
            final(self).finite_levels(),
    {
        let left = sweep_side(&mut self.bids, false, true, order, &mut self.ltp, trades);
        order.qty = left;
        proof {
            if trades@.len() > old(trades)@.len() {
                assert(trades@[old(trades)@.len() + (trades@.len() - old(trades)@.len() - 1)] == trades@.last());
            }
        }
    }

    /// Total resting quantity at the best bid price.
    pub fn best_bid_qty(&self) -> (r: Option<u64>)
        requires
            best_price(self@.bids, false) matches Some(p) ==> total_qty(self@.bids[p]) <= u64::MAX,
        ensures
            r == match best_price(self@.bids, false) {
                Some(p) => Some(total_qty(self@.bids[p]) as u64),
                None => None,
            },
    {
        let p = self.best_bid()?;
        let queue = self.bids.level(p).unwrap();
        Some(level_qty(queue))
    }

    /// Total resting quantity at the best ask price.
    pub fn best_ask_qty(&self) -> (r: Option<u64>)
        requires
            best_price(self@.asks, true) matches Some(p) ==> total_qty(self@.asks[p]) <= u64::MAX,
        ensures
            r == match best_price(self@.asks, true) {
                Some(p) => Some(total_qty(self@.asks[p]) as u64),
                None => None,
            },
    {
        let p = self.best_ask()?;
        let queue = self.asks.level(p).unwrap();
        Some(level_qty(queue))
    }
}

} // verus!
