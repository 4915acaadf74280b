//! The mathematical model of one side of an order book and of matching an
//! incoming order against it.
//!
//! One side of a book is a map from price to the FIFO queue of orders that
//! rest at that price. The asks are matched lowest price first, the bids
//! highest price first; within a price level the oldest order fills first.

use crate::order::{Order, Side, Trade};
use std::collections::VecDeque;
use vstd::prelude::*;

verus! {

/// One fill: `qty` taken at `price` from the resting order `resting`, as it
/// stood before the fill.
pub struct Fill {
    pub resting: Order,
    pub price: u64,
    pub qty: u64,
}

/// The price levels of a book side, each queue taken by its contents.
pub open spec fn levels_of(m: Map<u64, VecDeque<Order>>) -> Map<u64, Seq<Order>> {
    m.map_values(|q: VecDeque<Order>| q@)
}

/// `p` is the best price of the set `prices`: the lowest one when `lowest`,
/// else the highest one.
pub open spec fn is_best(prices: Set<u64>, p: u64, lowest: bool) -> bool {
    &&& prices.contains(p)
    &&& forall|q: u64| #[trigger] prices.contains(q) ==> if lowest { p <= q } else { q <= p }
}

/// The best price of a book side, `None` when the side is empty.
pub open spec fn best_price(levels: Map<u64, Seq<Order>>, lowest: bool) -> Option<u64> {
    if exists|p: u64| is_best(levels.dom(), p, lowest) {
        Some(choose|p: u64| is_best(levels.dom(), p, lowest))
    } else {
        None
    }
}

/// A resting price `p` is reachable by an incoming order with limit `limit`:
/// an ask at or below a buy's limit, a bid at or above a sell's limit.
pub open spec fn crosses(p: u64, lowest: bool, limit: u64) -> bool {
    if lowest {
        p <= limit
    } else {
        limit <= p
    }
}

/// The sum of the quantities of a queue of orders.
pub open spec fn total_qty(queue: Seq<Order>) -> nat
    decreases queue.len(),
{
    if queue.len() == 0 {
        0
    } else {
        total_qty(queue.drop_last()) + queue.last().qty as nat
    }
}

/// The sum of the quantities of a sequence of fills.
pub open spec fn filled_qty(fills: Seq<Fill>) -> nat
    decreases fills.len(),
{
    if fills.len() == 0 {
        0
    } else {
        fills[0].qty as nat + filled_qty(fills.drop_first())
    }
}

/// `o` with its quantity replaced by `qty`.
pub open spec fn with_qty(o: Order, qty: u64) -> Order {
    Order { qty, ..o }
}

/// Filling up to `qty` against the FIFO `queue` at `price`: the fills, the
/// queue that is left, and the quantity that is left unfilled. The front
/// order fills first; a front order that is only partly filled keeps its
/// place at the front with what remains of it.
pub open spec fn fill_level(queue: Seq<Order>, price: u64, qty: u64) -> (Seq<Fill>, Seq<Order>, u64)
    decreases queue.len(),
{
    if queue.len() == 0 {
        (seq![], queue, qty)
    } else {
        let o = queue[0];
        if qty <= o.qty {
            let fill = Fill { resting: o, price, qty };
            let kept = (o.qty - qty) as u64;
            if kept > 0 {
                (seq![fill], seq![with_qty(o, kept)] + queue.drop_first(), 0)
            } else {
                (seq![fill], queue.drop_first(), 0)
            }
        } else {
            let fill = Fill { resting: o, price, qty: o.qty };
            let r = fill_level(queue.drop_first(), price, (qty - o.qty) as u64);
            (seq![fill] + r.0, r.1, r.2)
        }
    }
}

/// Matching `qty` of an incoming order with limit `limit` against one side
/// of a book (the asks when `lowest`, else the bids): price levels are taken
/// best first while they cross the limit, each one by `fill_level`, until the
/// quantity is used up. A level that is emptied is taken out of the side,
/// except that with `prune` false the level at which the quantity ran out is
/// kept even when it was emptied. The result is the side that is left, the
/// fills in the order they happened, and the quantity left unfilled.
pub open spec fn sweep(
    levels: Map<u64, Seq<Order>>,
    lowest: bool,
    limit: u64,
    qty: u64,
    prune: bool,
) -> (
    Map<u64, Seq<Order>>,
    Seq<Fill>,
    u64,
)
    decreases levels.dom().len(),
{
    if !levels.dom().finite() {
        (levels, seq![], qty)
    } else {
        match best_price(levels, lowest) {
            None => (levels, seq![], qty),
            Some(p) => {
                if !crosses(p, lowest, limit) {
                    (levels, seq![], qty)
                } else {
                    let lv = fill_level(levels[p], p, qty);
                    if lv.2 == 0 {
                        let side = if prune && lv.1.len() == 0 {
                            levels.remove(p)
                        } else {
                            levels.insert(p, lv.1)
                        };
                        (side, lv.0, 0)
                    } else {
                        proof {
                            assert(is_best(levels.dom(), p, lowest));
                        }
                        let r = sweep(levels.remove(p), lowest, limit, lv.2, prune);
                        (r.0, lv.0 + r.1, r.2)
                    }
                }
            },
        }
    }
}

/// The side `levels` with `o` queued last at its limit price.
pub open spec fn rest_into(levels: Map<u64, Seq<Order>>, o: Order) -> Map<u64, Seq<Order>> {
    let queue = if levels.contains_key(o.limit_price) {
        levels[o.limit_price]
    } else {
        seq![]
    };
    levels.insert(o.limit_price, queue.push(o))
}

/// Every order rests at the level of its own limit price.
pub open spec fn wf_levels(levels: Map<u64, Seq<Order>>) -> bool {
    forall|p: u64, i: int| #![trigger levels[p][i]]
        levels.contains_key(p) && 0 <= i < levels[p].len() ==> levels[p][i].limit_price == p
}

/// Every price level holds at least one order.
pub open spec fn nonempty_levels(levels: Map<u64, Seq<Order>>) -> bool {
    forall|p: u64| #[trigger] levels.contains_key(p) ==> levels[p].len() > 0
}

/// `t` records the fill `f` of the incoming order `incoming` of side `side`:
/// the buyer and seller, the ticker, the price and the quantity (its
/// timestamp is the clock's).
pub open spec fn records_fill(t: Trade, incoming: Order, side: Side, f: Fill) -> bool {
    &&& t.buy_order_id == (if side == Side::Buy { incoming.id } else { f.resting.id })
    &&& t.sell_order_id == (if side == Side::Buy { f.resting.id } else { incoming.id })
    &&& t.ticker@ == incoming.ticker@
    &&& t.price == f.price
    &&& t.qty == f.qty
}

/// `after` is `before` with one trade appended for each of `fills`, in order.
pub open spec fn records_fills(
    before: Seq<Trade>,
    after: Seq<Trade>,
    incoming: Order,
    side: Side,
    fills: Seq<Fill>,
) -> bool {
    &&& after.len() == before.len() + fills.len()
    &&& forall|i: int| 0 <= i < before.len() ==> after[i] == before[i]
    &&& forall|i: int|
        0 <= i < fills.len() ==> records_fill(#[trigger] after[before.len() + i], incoming, side, fills[i])
}

/// Appending trades for two runs of fills appends them for both, in order.
pub proof fn lemma_records_fills_append(
    t0: Seq<Trade>,
    t1: Seq<Trade>,
    t2: Seq<Trade>,
    incoming: Order,
    side: Side,
    f1: Seq<Fill>,
    f2: Seq<Fill>,
)
    requires
        records_fills(t0, t1, incoming, side, f1),
        records_fills(t1, t2, incoming, side, f2),
    ensures
        records_fills(t0, t2, incoming, side, f1 + f2),
{
    let f = f1 + f2;
    assert forall|i: int| 0 <= i < f.len() implies records_fill(
        #[trigger] t2[t0.len() + i],
        incoming,
        side,
        f[i],
    ) by {
        if i < f1.len() {
            assert(t2[t0.len() + i] == t1[t0.len() + i]);
        } else {
            assert(t2[t1.len() + (i - f1.len())] == t2[t0.len() + i]);
        }
    }
}

/// The quantity of a prefix of a queue is at most that of the queue.
pub proof fn lemma_total_qty_prefix(queue: Seq<Order>, i: int)
    requires
        0 <= i <= queue.len(),
    ensures
        total_qty(queue.take(i)) <= total_qty(queue),
    decreases queue.len(),
{
    if i < queue.len() {
        assert(queue.drop_last().take(i) =~= queue.take(i));
        lemma_total_qty_prefix(queue.drop_last(), i);
    } else {
        assert(queue.take(i) =~= queue);
    }
}

/// A whole book: both sides by price level, and the last traded price.
pub struct BookState {
    pub bids: Map<u64, Seq<Order>>,
    pub asks: Map<u64, Seq<Order>>,
    pub ltp: u64,
}

/// The book `s` with `order` resting last at its limit price, among the
/// bids for a buy and among the asks for a sell.
pub open spec fn rest_order(s: BookState, order: Order) -> BookState {
    if order.side == Side::Buy {
        BookState { bids: rest_into(s.bids, order), ..s }
    } else {
        BookState { asks: rest_into(s.asks, order), ..s }
    }
}

/// The book `s` after `order` is matched against it with price-time
/// priority, and the fills in the order they happened: a buy sweeps the
/// asks, a sell the bids; what is left of the order rests on its own side.
/// With `prune` false, the level at which the order runs out stays in the
/// book even when it was emptied.
pub open spec fn matched(s: BookState, order: Order, prune: bool) -> (BookState, Seq<Fill>) {
    if order.side == Side::Buy {
        let r = sweep(s.asks, true, order.limit_price, order.qty, prune);
        let swept = BookState {
            asks: r.0,
            ltp: if r.1.len() > 0 { r.1.last().price } else { s.ltp },
            ..s
        };
        (if r.2 > 0 { rest_order(swept, with_qty(order, r.2)) } else { swept }, r.1)
    } else {
        let r = sweep(s.bids, false, order.limit_price, order.qty, prune);
        let swept = BookState {
            bids: r.0,
            ltp: if r.1.len() > 0 { r.1.last().price } else { s.ltp },
            ..s
        };
        (if r.2 > 0 { rest_order(swept, with_qty(order, r.2)) } else { swept }, r.1)
    }
}

/// A finite non-empty set of prices has a best price.
pub proof fn lemma_best_exists(prices: Set<u64>, lowest: bool)
    requires
        prices.finite(),
        prices.len() > 0,
    ensures
        exists|p: u64| is_best(prices, p, lowest),
    decreases prices.len(),
{
    let x = prices.choose();
    let r = prices.remove(x);
    if r.len() == 0 {
        assert forall|q: u64| #[trigger] prices.contains(q) implies q == x by {
            if q != x {
                assert(r.contains(q));
            }
        }
        assert(is_best(prices, x, lowest));
    } else {
        lemma_best_exists(r, lowest);
        let m = choose|p: u64| is_best(r, p, lowest);
        if (lowest && x <= m) || (!lowest && m <= x) {
            assert forall|q: u64| #[trigger] prices.contains(q) implies (if lowest { x <= q } else { q <= x }) by {
                if q != x {
                    assert(r.contains(q));
                }
            }
            assert(is_best(prices, x, lowest));
        } else {
            assert forall|q: u64| #[trigger] prices.contains(q) implies (if lowest { m <= q } else { q <= m }) by {
                if q != x {
                    assert(r.contains(q));
                }
            }
            assert(is_best(prices, m, lowest));
        }
    }
}

/// The best price, where there is one, is the only price that is best.
pub proof fn lemma_best_price(levels: Map<u64, Seq<Order>>, lowest: bool)
    requires
        levels.dom().finite(),
    ensures
        levels.dom().len() == 0 <==> best_price(levels, lowest) is None,
        forall|p: u64| is_best(levels.dom(), p, lowest) ==> best_price(levels, lowest) == Some(p),
{
    if levels.dom().len() > 0 {
        lemma_best_exists(levels.dom(), lowest);
    } else {
        if exists|p: u64| is_best(levels.dom(), p, lowest) {
            let p = choose|p: u64| is_best(levels.dom(), p, lowest);
            assert(levels.dom().contains(p));
        }
    }
    assert forall|p: u64| is_best(levels.dom(), p, lowest) implies best_price(levels, lowest) == Some(p) by {
        let c = choose|q: u64| is_best(levels.dom(), q, lowest);
        assert(levels.dom().contains(c));
        assert(levels.dom().contains(p));
    }
}

/// One step of `sweep`: the best level `p` crosses the limit and is filled.
pub proof fn lemma_sweep_step(
    levels: Map<u64, Seq<Order>>,
    lowest: bool,
    limit: u64,
    qty: u64,
    prune: bool,
    p: u64,
)
    requires
        levels.dom().finite(),
        is_best(levels.dom(), p, lowest),
        crosses(p, lowest, limit),
    ensures
        ({
            let lv = fill_level(levels[p], p, qty);
            sweep(levels, lowest, limit, qty, prune) == if lv.2 == 0 {
                (
                    if prune && lv.1.len() == 0 {
                        levels.remove(p)
                    } else {
                        levels.insert(p, lv.1)
                    },
                    lv.0,
                    0u64,
                )
            } else {
                let r = sweep(levels.remove(p), lowest, limit, lv.2, prune);
                (r.0, lv.0 + r.1, r.2)
            }
        }),
{
    lemma_best_price(levels, lowest);
}

/// `sweep` stops at once where the side is empty or its best level does not
/// cross the limit.
pub proof fn lemma_sweep_stop(levels: Map<u64, Seq<Order>>, lowest: bool, limit: u64, qty: u64, prune: bool)
    requires
        levels.dom().finite(),
        match best_price(levels, lowest) {
            None => true,
            Some(p) => !crosses(p, lowest, limit),
        },
    ensures
        sweep(levels, lowest, limit, qty, prune) == (levels, Seq::<Fill>::empty(), qty),
{
}

/// What `fill_level` leaves: a queue of orders taken from `queue` at the
/// same limit price, which is empty where quantity is left unfilled.
pub proof fn lemma_fill_level(queue: Seq<Order>, price: u64, qty: u64)
    ensures
        fill_level(queue, price, qty).2 > 0 ==> fill_level(queue, price, qty).1.len() == 0,
        fill_level(queue, price, qty).1.len() <= queue.len(),
        (forall|i: int| 0 <= i < queue.len() ==> (#[trigger] queue[i]).limit_price == price) ==> (
        forall|i: int|
            0 <= i < fill_level(queue, price, qty).1.len() ==> (#[trigger] fill_level(
                queue,
                price,
                qty,
            ).1[i]).limit_price == price),
        fill_level(queue, price, qty).2 <= qty,
        filled_qty(fill_level(queue, price, qty).0) + fill_level(queue, price, qty).2 == qty,
        forall|i: int|
            0 <= i < fill_level(queue, price, qty).0.len() ==> (#[trigger] fill_level(
                queue,
                price,
                qty,
            ).0[i]).price == price,
        fill_level(queue, price, qty).0.len() <= queue.len(),
        queue.len() > 0 ==> fill_level(queue, price, qty).0.len() > 0,
        forall|i: int|
            0 <= i < fill_level(queue, price, qty).0.len() ==> (#[trigger] fill_level(
                queue,
                price,
                qty,
            ).0[i]).resting == queue[i],
    decreases queue.len(),
{
    reveal_with_fuel(filled_qty, 2);
    if queue.len() > 0 {
        let o = queue[0];
        lemma_fill_level(queue.drop_first(), price, (qty - o.qty) as u64);
        if qty <= o.qty {
            let kept = (o.qty - qty) as u64;
            let r = fill_level(queue, price, qty);
            if forall|i: int| 0 <= i < queue.len() ==> (#[trigger] queue[i]).limit_price == price {
                assert forall|i: int| 0 <= i < r.1.len() implies (#[trigger] r.1[i]).limit_price == price by {
                    if kept > 0 {
                        if i > 0 {
                            assert(r.1[i] == queue[i]);
                        } else {
                            assert(queue[0].limit_price == price);
                        }
                    } else {
                        assert(r.1[i] == queue[i + 1]);
                    }
                }
            }
        } else {
            let r = fill_level(queue.drop_first(), price, (qty - o.qty) as u64);
            let fill = Fill { resting: o, price, qty: o.qty };
            assert((seq![fill] + r.0).drop_first() =~= r.0);
            if forall|i: int| 0 <= i < queue.len() ==> (#[trigger] queue[i]).limit_price == price {
                assert forall|i: int| 0 <= i < queue.drop_first().len() implies (#[trigger] queue.drop_first()[i]).limit_price == price by {
                    assert(queue.drop_first()[i] == queue[i + 1]);
                }
            }
        }
    }
}

/// The book `s` after `order` is matched by `engine::match_order`: where
/// the opposite side is empty the order rests whole; otherwise it is
/// matched as by `matched`, keeping the level at which it ran out.
pub open spec fn engine_matched(s: BookState, order: Order) -> BookState {
    let opposite = if order.side == Side::Buy {
        s.asks
    } else {
        s.bids
    };
    if opposite.dom().is_empty() {
        rest_order(s, order)
    } else {
        matched(s, order, false).0
    }
}

/// `a` is at least as good a price as `b` for the side that is matched
/// lowest first when `lowest`, highest first otherwise.
pub open spec fn at_least_as_good(a: u64, b: u64, lowest: bool) -> bool {
    if lowest {
        a <= b
    } else {
        b <= a
    }
}

/// The filled quantity of two runs of fills is the sum of theirs.
pub proof fn lemma_filled_qty_append(f1: Seq<Fill>, f2: Seq<Fill>)
    ensures
        filled_qty(f1 + f2) == filled_qty(f1) + filled_qty(f2),
    decreases f1.len(),
{
    if f1.len() > 0 {
        assert((f1 + f2).drop_first() =~= f1.drop_first() + f2);
        lemma_filled_qty_append(f1.drop_first(), f2);
    } else {
        assert(f1 + f2 =~= f2);
    }
}

/// What every `sweep` guarantees: fills only at prices of the side that
/// cross the limit, best price first; the first fill is against the oldest
/// order at the best price; no price is added to the side; where quantity
/// is left, no remaining price crosses the limit; the filled and the
/// unfilled quantities add up to the order's; and orders keep resting at
/// their own limit price, which is the price they fill at.
pub proof fn lemma_sweep(levels: Map<u64, Seq<Order>>, lowest: bool, limit: u64, qty: u64, prune: bool)
    requires
        levels.dom().finite(),
    ensures
        ({
            let r = sweep(levels, lowest, limit, qty, prune);
            &&& forall|i: int|
                0 <= i < r.1.len() ==> crosses(#[trigger] r.1[i].price, lowest, limit) && levels.contains_key(
                    r.1[i].price,
                )
            &&& forall|i: int, j: int|
                0 <= i < j < r.1.len() ==> at_least_as_good(#[trigger] r.1[i].price, #[trigger] r.1[j].price, lowest)
            &&& forall|q: u64| #[trigger] r.0.contains_key(q) ==> levels.contains_key(q)
            &&& r.2 > 0 ==> forall|q: u64| #[trigger] r.0.contains_key(q) ==> !crosses(q, lowest, limit)
            &&& filled_qty(r.1) + r.2 == qty
            &&& wf_levels(levels) ==> wf_levels(r.0)
            &&& wf_levels(levels) ==> forall|i: int|
                0 <= i < r.1.len() ==> (#[trigger] r.1[i]).resting.limit_price == r.1[i].price
            &&& nonempty_levels(levels) && r.1.len() > 0 ==> best_price(levels, lowest) == Some(r.1[0].price)
                && r.1[0].resting == levels[r.1[0].price][0]
            &&& nonempty_levels(levels) && (best_price(levels, lowest) matches Some(p) && crosses(
                p,
                lowest,
                limit,
            )) ==> r.1.len() > 0
        }),
    decreases levels.dom().len(),
{
    reveal_with_fuel(filled_qty, 1);
    lemma_best_price(levels, lowest);
    match best_price(levels, lowest) {
        None => {},
        Some(p) => {
            assert(is_best(levels.dom(), p, lowest));
            if crosses(p, lowest, limit) {
                lemma_sweep_step(levels, lowest, limit, qty, prune, p);
                lemma_fill_level(levels[p], p, qty);
                let lv = fill_level(levels[p], p, qty);
                if wf_levels(levels) {
                    assert forall|i: int| 0 <= i < levels[p].len() implies (#[trigger] levels[p][i]).limit_price == p by {
                    }
                }
                if lv.2 != 0 {
                    let rest = levels.remove(p);
                    lemma_sweep(rest, lowest, limit, lv.2, prune);
                    let r = sweep(rest, lowest, limit, lv.2, prune);
                    lemma_filled_qty_append(lv.0, r.1);
                    let all = lv.0 + r.1;
                    assert forall|i: int, j: int| 0 <= i < j < all.len() implies at_least_as_good(
                        #[trigger] all[i].price,
                        #[trigger] all[j].price,
                        lowest,
                    ) by {
                        if j >= lv.0.len() {
                            assert(all[j] == r.1[j - lv.0.len()]);
                            if i >= lv.0.len() {
                                assert(all[i] == r.1[i - lv.0.len()]);
                            } else {
                                assert(levels.contains_key(all[j].price));
                            }
                        }
                    }
                    assert forall|i: int| 0 <= i < all.len() implies crosses(#[trigger] all[i].price, lowest, limit)
                        && levels.contains_key(all[i].price) by {
                        if i >= lv.0.len() {
                            assert(all[i] == r.1[i - lv.0.len()]);
                        }
                    }
                    if wf_levels(levels) {
                        assert(wf_levels(rest));
                        assert forall|i: int| 0 <= i < all.len() implies (#[trigger] all[i]).resting.limit_price
                            == all[i].price by {
                            if i >= lv.0.len() {
                                assert(all[i] == r.1[i - lv.0.len()]);
                            }
                        }
                    }
                    if nonempty_levels(levels) && all.len() > 0 {
                        assert(all[0] == lv.0[0]);
                    }
                } else {
                    if lv.0.len() > 0 {
                        assert(lv.0[0].resting == levels[p][0]);
                    } else {
                        if levels[p].len() > 0 {
                            assert(false);
                        }
                    }
                }
            } else {
                assert forall|q: u64| #[trigger] levels.contains_key(q) implies !crosses(q, lowest, limit) by {
                    assert(levels.dom().contains(q));
                }
            }
        },
    }
}

/// The total quantity resting on a side, over all its price levels.
pub open spec fn side_qty(levels: Map<u64, Seq<Order>>) -> nat
    decreases levels.dom().len(),
{
    if levels.dom().finite() && levels.dom().len() > 0 {
        let p = levels.dom().choose();
        total_qty(levels[p]) + side_qty(levels.remove(p))
    } else {
        0
    }
}

/// The quantity of a side is that of any one of its levels plus that of
/// the others.
pub proof fn lemma_side_qty_remove(levels: Map<u64, Seq<Order>>, p: u64)
    requires
        levels.dom().finite(),
        levels.contains_key(p),
    ensures
        side_qty(levels) == total_qty(levels[p]) + side_qty(levels.remove(p)),
    decreases levels.dom().len(),
{
    let c = levels.dom().choose();
    if c != p {
        lemma_side_qty_remove(levels.remove(c), p);
        lemma_side_qty_remove(levels.remove(p), c);
        assert(levels.remove(c).remove(p) =~= levels.remove(p).remove(c));
    }
}

/// The quantity of a queue, taken from its front.
pub proof fn lemma_total_qty_front(queue: Seq<Order>)
    requires
        queue.len() > 0,
    ensures
        total_qty(queue) == queue[0].qty + total_qty(queue.drop_first()),
    decreases queue.len(),
{
    if queue.len() > 1 {
        lemma_total_qty_front(queue.drop_last());
        assert(queue.drop_last().drop_first() =~= queue.drop_first().drop_last());
        assert(queue.drop_first().last() == queue.last());
        assert(total_qty(queue.drop_first()) == total_qty(queue.drop_first().drop_last())
            + queue.drop_first().last().qty);
    } else {
        assert(total_qty(queue.drop_first()) == 0);
        assert(total_qty(queue.drop_last()) == 0);
    }
}

/// Filling a queue moves quantity from the queue into the fills, no more
/// and no less.
pub proof fn lemma_fill_level_qty(queue: Seq<Order>, price: u64, qty: u64)
    ensures
        total_qty(queue) == filled_qty(fill_level(queue, price, qty).0) + total_qty(fill_level(queue, price, qty).1),
    decreases queue.len(),
{
    reveal_with_fuel(filled_qty, 2);
    if queue.len() > 0 {
        let o = queue[0];
        lemma_total_qty_front(queue);
        if qty <= o.qty {
            let kept = (o.qty - qty) as u64;
            if kept > 0 {
                let rest = seq![with_qty(o, kept)] + queue.drop_first();
                lemma_total_qty_front(rest);
                assert(rest.drop_first() =~= queue.drop_first());
            }
        } else {
            lemma_fill_level_qty(queue.drop_first(), price, (qty - o.qty) as u64);
            let r = fill_level(queue.drop_first(), price, (qty - o.qty) as u64);
            let fill = Fill { resting: o, price, qty: o.qty };
            assert((seq![fill] + r.0).drop_first() =~= r.0);
        }
    }
}

/// Matching takes from a side exactly the quantity that fills.
pub proof fn lemma_sweep_qty(levels: Map<u64, Seq<Order>>, lowest: bool, limit: u64, qty: u64, prune: bool)
    requires
        levels.dom().finite(),
    ensures
        side_qty(levels) == side_qty(sweep(levels, lowest, limit, qty, prune).0) + filled_qty(
            sweep(levels, lowest, limit, qty, prune).1,
        ),
    decreases levels.dom().len(),
{
    reveal_with_fuel(filled_qty, 1);
    lemma_best_price(levels, lowest);
    match best_price(levels, lowest) {
        None => {},
        Some(p) => {
            assert(is_best(levels.dom(), p, lowest));
            if crosses(p, lowest, limit) {
                lemma_sweep_step(levels, lowest, limit, qty, prune, p);
                lemma_fill_level(levels[p], p, qty);
                lemma_fill_level_qty(levels[p], p, qty);
                lemma_side_qty_remove(levels, p);
                let lv = fill_level(levels[p], p, qty);
                if lv.2 != 0 {
                    lemma_sweep_qty(levels.remove(p), lowest, limit, lv.2, prune);
                    lemma_filled_qty_append(lv.0, sweep(levels.remove(p), lowest, limit, lv.2, prune).1);
                } else if !(prune && lv.1.len() == 0) {
                    lemma_side_qty_remove(levels.insert(p, lv.1), p);
                    assert(levels.insert(p, lv.1).remove(p) =~= levels.remove(p));
                }
            }
        },
    }
}

} // verus!
