//! Properties of matching that hold for every book and every order.

use crate::exchange::{processed, rejection_reason};
use crate::model::{
    engine_matched,
    at_least_as_good, best_price, crosses, filled_qty, lemma_sweep, lemma_sweep_qty, matched,
    nonempty_levels, side_qty,
    rest_into, total_qty, wf_levels, with_qty, BookState,
};
use crate::order::{Order, Side};
use vstd::prelude::*;

verus! {

/// The side of `s` that an order of side `side` trades against.
pub open spec fn opposite_side(s: BookState, side: Side) -> Map<u64, Seq<Order>> {
    if side == Side::Buy {
        s.asks
    } else {
        s.bids
    }
}

/// The side of `s` on which an order of side `side` rests.
pub open spec fn own_side(s: BookState, side: Side) -> Map<u64, Seq<Order>> {
    if side == Side::Buy {
        s.bids
    } else {
        s.asks
    }
}

/// The quantity resting at price `p` of a side.
pub open spec fn qty_at(levels: Map<u64, Seq<Order>>, p: u64) -> nat {
    if levels.contains_key(p) {
        total_qty(levels[p])
    } else {
        0
    }
}

/// Every bid price is below every ask price.
pub open spec fn uncrossed(s: BookState) -> bool {
    forall|b: u64, a: u64| #[trigger] s.bids.contains_key(b) && #[trigger] s.asks.contains_key(a) ==> b < a
}

/// The sides of a book state held by an `OrderBook` are finite maps.
pub open spec fn finite_sides(s: BookState) -> bool {
    s.bids.dom().finite() && s.asks.dom().finite()
}

proof fn lemma_matched_sweep(s: BookState, order: Order, prune: bool)
    requires
        finite_sides(s),
    ensures
        ({
            let lowest = order.side == Side::Buy;
            let r = crate::model::sweep(opposite_side(s, order.side), lowest, order.limit_price, order.qty, prune);
            &&& matched(s, order, prune).1 == r.1
            &&& opposite_side(matched(s, order, prune).0, order.side) == r.0
            &&& own_side(matched(s, order, prune).0, order.side) == if r.2 > 0 {
                rest_into(own_side(s, order.side), with_qty(order, r.2))
            } else {
                own_side(s, order.side)
            }
            &&& matched(s, order, prune).0.ltp == if r.1.len() > 0 { r.1.last().price } else { s.ltp }
        }),
{
    lemma_sweep(opposite_side(s, order.side), order.side == Side::Buy, order.limit_price, order.qty, prune);
}

/// A buy never trades above its limit price and a sell never below it.
pub proof fn law_fills_within_limit(s: BookState, order: Order)
    requires
        finite_sides(s),
    ensures
        forall|i: int|
            0 <= i < matched(s, order, true).1.len() ==> if order.side == Side::Buy {
                (#[trigger] matched(s, order, true).1[i]).price <= order.limit_price
            } else {
                matched(s, order, true).1[i].price >= order.limit_price
            },
{
    lemma_matched_sweep(s, order, true);
    lemma_sweep(opposite_side(s, order.side), order.side == Side::Buy, order.limit_price, order.qty, true);
}

/// Price priority: the fills of an order come best price first, lowest ask
/// first for a buy and highest bid first for a sell.
pub proof fn law_price_priority(s: BookState, order: Order)
    requires
        finite_sides(s),
    ensures
        forall|i: int, j: int|
            0 <= i < j < matched(s, order, true).1.len() ==> if order.side == Side::Buy {
                (#[trigger] matched(s, order, true).1[i]).price <= (#[trigger] matched(s, order, true).1[j]).price
            } else {
                matched(s, order, true).1[i].price >= matched(s, order, true).1[j].price
            },
{
    lemma_matched_sweep(s, order, true);
    let lowest = order.side == Side::Buy;
    lemma_sweep(opposite_side(s, order.side), lowest, order.limit_price, order.qty, true);
    let f = matched(s, order, true).1;
    assert forall|i: int, j: int| 0 <= i < j < f.len() implies if order.side == Side::Buy {
        (#[trigger] f[i]).price <= (#[trigger] f[j]).price
    } else {
        f[i].price >= f[j].price
    } by {
        assert(at_least_as_good(f[i].price, f[j].price, lowest));
    }
}

/// Time priority: where the best opposite price crosses the limit, the
/// order trades, and its first fill is at that price against the oldest
/// order resting there. Where it does not cross, nothing trades.
pub proof fn law_time_priority(s: BookState, order: Order)
    requires
        finite_sides(s),
        nonempty_levels(opposite_side(s, order.side)),
    ensures
        ({
            let lowest = order.side == Side::Buy;
            let opp = opposite_side(s, order.side);
            let f = matched(s, order, true).1;
            match best_price(opp, lowest) {
                Some(p) => if crosses(p, lowest, order.limit_price) {
                    &&& f.len() > 0
                    &&& f[0].price == p
                    &&& f[0].resting == opp[p][0]
                } else {
                    f.len() == 0
                },
                None => f.len() == 0,
            }
        }),
{
    lemma_matched_sweep(s, order, true);
    let lowest = order.side == Side::Buy;
    let opp = opposite_side(s, order.side);
    lemma_sweep(opp, lowest, order.limit_price, order.qty, true);
    crate::model::lemma_best_price(opp, lowest);
    let f = matched(s, order, true).1;
    if f.len() > 0 {
        assert(opp.contains_key(f[0].price));
        match best_price(opp, lowest) {
            Some(p) => {
                assert(crate::model::is_best(opp.dom(), p, lowest));
                assert(opp.dom().contains(f[0].price));
            },
            None => {
                assert(opp.dom().contains(f[0].price));
            },
        }
    }
}

/// What trades of an order and what rests of it add up to its quantity:
/// the quantity resting at its limit price on its own side grows by
/// exactly the quantity that did not trade.
pub proof fn law_quantity_conserved(s: BookState, order: Order)
    requires
        finite_sides(s),
    ensures
        filled_qty(matched(s, order, true).1) <= order.qty,
        qty_at(own_side(matched(s, order, true).0, order.side), order.limit_price) == qty_at(
            own_side(s, order.side),
            order.limit_price,
        ) + (order.qty - filled_qty(matched(s, order, true).1)),
{
    lemma_matched_sweep(s, order, true);
    let lowest = order.side == Side::Buy;
    let r = crate::model::sweep(opposite_side(s, order.side), lowest, order.limit_price, order.qty, true);
    lemma_sweep(opposite_side(s, order.side), lowest, order.limit_price, order.qty, true);
    if r.2 > 0 {
        let own = own_side(s, order.side);
        let o = with_qty(order, r.2);
        let q = if own.contains_key(order.limit_price) {
            own[order.limit_price]
        } else {
            seq![]
        };
        assert(q.push(o).drop_last() =~= q);
        assert(total_qty(q.push(o)) == total_qty(q) + r.2);
        assert(qty_at(own, order.limit_price) == total_qty(q));
    }
}

/// Trades take from the opposite side exactly the quantity they fill: its
/// total resting quantity falls by the filled quantity.
pub proof fn law_opposite_side_conserved(s: BookState, order: Order)
    requires
        finite_sides(s),
    ensures
        side_qty(opposite_side(matched(s, order, true).0, order.side)) + filled_qty(matched(s, order, true).1)
            == side_qty(opposite_side(s, order.side)),
{
    lemma_matched_sweep(s, order, true);
    lemma_sweep_qty(opposite_side(s, order.side), order.side == Side::Buy, order.limit_price, order.qty, true);
}

/// Matching never crosses a book that is not crossed: after it every bid
/// price is still below every ask price.
pub proof fn law_uncrossed_preserved(s: BookState, order: Order)
    requires
        finite_sides(s),
        uncrossed(s),
    ensures
        uncrossed(matched(s, order, true).0),
{
    lemma_matched_sweep(s, order, true);
    let lowest = order.side == Side::Buy;
    let r = crate::model::sweep(opposite_side(s, order.side), lowest, order.limit_price, order.qty, true);
    lemma_sweep(opposite_side(s, order.side), lowest, order.limit_price, order.qty, true);
    let s2 = matched(s, order, true).0;
    assert forall|b: u64, a: u64| #[trigger] s2.bids.contains_key(b) && #[trigger] s2.asks.contains_key(a) implies b < a by {
        if lowest {
            assert(s.asks.contains_key(a));
            if !s.bids.contains_key(b) {
                assert(b == order.limit_price);
            }
        } else {
            assert(s.bids.contains_key(b));
            if !s.asks.contains_key(a) {
                assert(a == order.limit_price);
            }
        }
    }
}

/// In a well-formed book every trade happens at the limit price of the
/// resting order, never at the incoming order's own limit unless they are
/// equal.
pub proof fn law_fill_at_resting_price(s: BookState, order: Order)
    requires
        finite_sides(s),
        wf_levels(s.bids),
        wf_levels(s.asks),
    ensures
        forall|i: int|
            0 <= i < matched(s, order, true).1.len() ==> (#[trigger] matched(s, order, true).1[i]).price
                == matched(s, order, true).1[i].resting.limit_price,
{
    lemma_matched_sweep(s, order, true);
    lemma_sweep(opposite_side(s, order.side), order.side == Side::Buy, order.limit_price, order.qty, true);
}

/// An accepted order changes the book of its own ticker only, and the
/// exchange keeps the same tickers.
pub proof fn law_process_routes_to_ticker(ex: Map<Seq<char>, BookState>, order: Order, t: Seq<char>)
    requires
        rejection_reason(ex, order) is None,
        t != order.ticker@,
    ensures
        processed(ex, order).0.dom() == ex.dom(),
        processed(ex, order).0.contains_key(t) ==> processed(ex, order).0[t] == ex[t],
{
    assert(processed(ex, order).0.dom() =~= ex.dom());
}

/// Time priority survives a partial fill: where an order is smaller than
/// the oldest order at the best opposite price, and that price crosses its
/// limit, it trades once, against that oldest order, which keeps its place
/// at the front of its queue with its quantity reduced by the fill; the
/// rest of the queue is unchanged and in the same order.
pub proof fn law_partial_fill_keeps_time_priority(s: BookState, order: Order, prune: bool, p: u64)
    requires
        finite_sides(s),
        best_price(opposite_side(s, order.side), order.side == Side::Buy) == Some(p),
        crosses(p, order.side == Side::Buy, order.limit_price),
        opposite_side(s, order.side)[p].len() > 0,
        order.qty < opposite_side(s, order.side)[p][0].qty,
    ensures
        ({
            let queue = opposite_side(s, order.side)[p];
            let front = queue[0];
            let after = opposite_side(matched(s, order, prune).0, order.side);
            let fills = matched(s, order, prune).1;
            &&& after.contains_key(p)
            &&& after[p] == seq![Order { qty: (front.qty - order.qty) as u64, ..front }] + queue.drop_first()
            &&& after[p][0].id == front.id
            &&& after[p].len() == queue.len()
            &&& fills.len() == 1
            &&& fills[0].resting == front
            &&& fills[0].qty == order.qty
            &&& fills[0].price == p
        }),
{
    let lowest = order.side == Side::Buy;
    let opp = opposite_side(s, order.side);
    lemma_matched_sweep(s, order, prune);
    crate::model::lemma_best_price(opp, lowest);
    assert(crate::model::is_best(opp.dom(), p, lowest));
    crate::model::lemma_sweep_step(opp, lowest, order.limit_price, order.qty, prune, p);
}

/// Matching neither creates nor destroys quantity: what leaves the opposite
/// side (the filled quantity) plus what comes to rest at the order's limit
/// price on its own side is exactly the order's quantity.
pub proof fn law_matching_conserves_quantity(s: BookState, order: Order, prune: bool)
    requires
        finite_sides(s),
    ensures
        ({
            let s2 = matched(s, order, prune).0;
            side_qty(opposite_side(s, order.side)) - side_qty(opposite_side(s2, order.side)) + qty_at(
                own_side(s2, order.side),
                order.limit_price,
            ) - qty_at(own_side(s, order.side), order.limit_price) == order.qty
        }),
{
    lemma_matched_sweep(s, order, prune);
    let lowest = order.side == Side::Buy;
    let opp = opposite_side(s, order.side);
    lemma_sweep(opp, lowest, order.limit_price, order.qty, prune);
    lemma_sweep_qty(opp, lowest, order.limit_price, order.qty, prune);
    let r = crate::model::sweep(opp, lowest, order.limit_price, order.qty, prune);
    lemma_rest_qty(own_side(s, order.side), with_qty(order, r.2));
}

proof fn lemma_rest_qty(levels: Map<u64, Seq<Order>>, o: Order)
    ensures
        qty_at(rest_into(levels, o), o.limit_price) == qty_at(levels, o.limit_price) + o.qty,
{
    let q = if levels.contains_key(o.limit_price) {
        levels[o.limit_price]
    } else {
        seq![]
    };
    assert(q.push(o).drop_last() =~= q);
    assert(total_qty(q.push(o)) == total_qty(q) + o.qty);
}

/// `engine::match_order` neither creates nor destroys quantity: what leaves
/// the opposite side plus what comes to rest at the order's limit price on
/// its own side is exactly the order's quantity, for a buy as for a sell.
pub proof fn law_engine_conserves_quantity(s: BookState, order: Order)
    requires
        finite_sides(s),
    ensures
        ({
            let s2 = engine_matched(s, order);
            side_qty(opposite_side(s, order.side)) - side_qty(opposite_side(s2, order.side)) + qty_at(
                own_side(s2, order.side),
                order.limit_price,
            ) - qty_at(own_side(s, order.side), order.limit_price) == order.qty
        }),
{
    let opp = opposite_side(s, order.side);
    if opp.dom().is_empty() {
        lemma_rest_qty(own_side(s, order.side), order);
    } else {
        law_matching_conserves_quantity(s, order, false);
    }
}

/// The last traded price is the price of the last trade: after a match with
/// fills, whatever it was before; after one without, unchanged.
pub proof fn law_ltp_is_last_trade(s: BookState, order: Order, prune: bool)
    requires
        finite_sides(s),
    ensures
        matched(s, order, prune).1.len() > 0 ==> matched(s, order, prune).0.ltp == matched(
            s,
            order,
            prune,
        ).1.last().price,
        matched(s, order, prune).1.len() == 0 ==> matched(s, order, prune).0.ltp == s.ltp,
{
    lemma_matched_sweep(s, order, prune);
}

/// The exchange accepts exactly the orders with a positive quantity, a
/// positive price and a listed ticker, and names the first failing check
/// otherwise.
pub proof fn law_acceptance(ex: Map<Seq<char>, BookState>, order: Order)
    ensures
        rejection_reason(ex, order) is None <==> (order.qty > 0 && order.limit_price > 0 && ex.contains_key(
            order.ticker@,
        )),
        order.qty == 0 ==> rejection_reason(ex, order) == Some("Order cannot be empty!"@),
        order.qty > 0 && order.limit_price == 0 ==> rejection_reason(ex, order) == Some(
            "Price cannot be zero!"@,
        ),
        order.qty > 0 && order.limit_price > 0 && !ex.contains_key(order.ticker@) ==> rejection_reason(
            ex,
            order,
        ) == Some("Ticker does not exist!"@),
{
}

/// An accepted order neither creates nor destroys quantity in the book of
/// its ticker: the quantity its trades report, plus what comes to rest at
/// its limit price, is its quantity, and the opposite side of that book
/// loses exactly the quantity its trades report.
pub proof fn law_process_conserves_quantity(ex: Map<Seq<char>, BookState>, order: Order)
    requires
        rejection_reason(ex, order) is None,
        finite_sides(ex[order.ticker@]),
    ensures
        ({
            let b = ex[order.ticker@];
            let b2 = processed(ex, order).0[order.ticker@];
            let traded = filled_qty(processed(ex, order).1);
            &&& side_qty(opposite_side(b, order.side)) == side_qty(opposite_side(b2, order.side)) + traded
            &&& qty_at(own_side(b2, order.side), order.limit_price) + traded == qty_at(
                own_side(b, order.side),
                order.limit_price,
            ) + order.qty
        }),
{
    let b = ex[order.ticker@];
    lemma_matched_sweep(b, order, true);
    let lowest = order.side == Side::Buy;
    let opp = opposite_side(b, order.side);
    lemma_sweep(opp, lowest, order.limit_price, order.qty, true);
    lemma_sweep_qty(opp, lowest, order.limit_price, order.qty, true);
    let r = crate::model::sweep(opp, lowest, order.limit_price, order.qty, true);
    lemma_rest_qty(own_side(b, order.side), with_qty(order, r.2));
}

} // verus!
