//! The two kinds of price-level maps of a book: the asks, keyed by price in
//! ascending order, and the bids, keyed by `Reverse(price)` so that the map's
//! own order puts the highest bid first.

use crate::model::{best_price, is_best, lemma_best_price, levels_of};
use crate::order::Order;
use std::cmp::Reverse;
use std::collections::{BTreeMap, VecDeque};
use vstd::prelude::*;

verus! {

/// `std::cmp::Reverse` is carried as an opaque key.
#[verifier::external_type_specification]
#[verifier::external_body]
#[verifier::reject_recursive_types(T)]
pub struct ExReverse<T>(Reverse<T>);

/// What a bid map holds: each price `p`, stored under the key `Reverse(p)`,
/// to the contents of its queue.
pub uninterp spec fn bid_levels_of(m: BTreeMap<Reverse<u64>, VecDeque<Order>>) -> Map<u64, Seq<Order>>;

/// `BTreeMap::new` for bids: a map with no price level.
#[verifier::external_body]
pub(crate) fn new_bid_map() -> (bids: BTreeMap<Reverse<u64>, VecDeque<Order>>)
    ensures
        bid_levels_of(bids).dom().is_empty(),
{
    BTreeMap::new()
}

/// `BTreeMap::first_key_value` on bids, keeping the price: under `Reverse`
/// the first key is that of the highest price; `None` when the map is empty.
#[verifier::external_body]
fn first_bid_price(m: &BTreeMap<Reverse<u64>, VecDeque<Order>>) -> (r: Option<u64>)
    ensures
        r is None ==> bid_levels_of(*m).dom() == Set::<u64>::empty(),
        r matches Some(p) ==> bid_levels_of(*m).contains_key(p) && forall|q: u64| #[trigger]
            bid_levels_of(*m).contains_key(q) ==> q <= p,
{
    match m.first_key_value() {
        Some((k, _)) => Some(k.0),
        None => None,
    }
}

/// `BTreeMap::get` at `Reverse(price)`: the queue at that price, if any.
#[verifier::external_body]
fn get_bid_level(m: &BTreeMap<Reverse<u64>, VecDeque<Order>>, price: u64) -> (r: Option<&VecDeque<Order>>)
    ensures
        match r {
            Some(q) => bid_levels_of(*m).contains_key(price) && q@ == bid_levels_of(*m)[price],
            None => !bid_levels_of(*m).contains_key(price),
        },
{
    m.get(&Reverse(price))
}

/// `BTreeMap::remove` at `Reverse(price)`: takes the queue at that price out
/// of the map.
#[verifier::external_body]
fn remove_bid_level(m: &mut BTreeMap<Reverse<u64>, VecDeque<Order>>, price: u64) -> (r: Option<VecDeque<Order>>)
    ensures
        bid_levels_of(*final(m)) == bid_levels_of(*old(m)).remove(price),
        match r {
            Some(q) => bid_levels_of(*old(m)).contains_key(price) && q@ == bid_levels_of(*old(m))[price],
            None => !bid_levels_of(*old(m)).contains_key(price),
        },
{
    m.remove(&Reverse(price))
}

/// `BTreeMap::insert` at `Reverse(price)`: sets the queue at that price.
#[verifier::external_body]
fn insert_bid_level(m: &mut BTreeMap<Reverse<u64>, VecDeque<Order>>, price: u64, q: VecDeque<Order>)
    ensures
        bid_levels_of(*final(m)) == bid_levels_of(*old(m)).insert(price, q@),
{
    m.insert(Reverse(price), q);
}

/// `BTreeMap::is_empty` on bids.
#[verifier::external_body]
fn bid_map_is_empty(m: &BTreeMap<Reverse<u64>, VecDeque<Order>>) -> (r: bool)
    ensures
        r == bid_levels_of(*m).dom().is_empty(),
{
    m.is_empty()
}

/// `BTreeMap::first_key_value` on asks, keeping the key: the lowest price;
/// `None` when the map is empty.
#[verifier::external_body]
fn first_ask_price(m: &BTreeMap<u64, VecDeque<Order>>) -> (r: Option<u64>)
    ensures
        r is None ==> m@.dom() == Set::<u64>::empty(),
        r matches Some(k) ==> m@.contains_key(k) && forall|j: u64| #[trigger] m@.contains_key(j) ==> k <= j,
{
    match m.first_key_value() {
        Some((k, _)) => Some(*k),
        None => None,
    }
}

/// One side of a book: a map from price to the FIFO queue at that price,
/// whose best price comes first in the map's own order.
pub trait PriceLevels: Sized {
    /// Each price of the side to the contents of its queue.
    spec fn levels(&self) -> Map<u64, Seq<Order>>;

    /// The best price is the lowest one (asks) rather than the highest (bids).
    spec fn lowest_first() -> bool;

    /// The best price of the side.
    fn best(&self) -> (r: Option<u64>)
        ensures
            r == best_price(self.levels(), Self::lowest_first()),
    ;

    /// The queue at `price`, if the side has that price.
    fn level(&self, price: u64) -> (r: Option<&VecDeque<Order>>)
        ensures
            match r {
                Some(q) => self.levels().contains_key(price) && q@ == self.levels()[price],
                None => !self.levels().contains_key(price),
            },
    ;

    /// Takes the queue at `price` out of the side.
    fn take_level(&mut self, price: u64) -> (r: Option<VecDeque<Order>>)
        ensures
            final(self).levels() == old(self).levels().remove(price),
            match r {
                Some(q) => old(self).levels().contains_key(price) && q@ == old(self).levels()[price],
                None => !old(self).levels().contains_key(price),
            },
    ;

    /// Sets the queue at `price`.
    fn put_level(&mut self, price: u64, q: VecDeque<Order>)
        ensures
            final(self).levels() == old(self).levels().insert(price, q@),
    ;

    /// The side has no price level.
    fn no_levels(&self) -> (r: bool)
        ensures
            r == self.levels().dom().is_empty(),
    ;
}

proof fn lemma_levels_remove(m: Map<u64, VecDeque<Order>>, p: u64)
    ensures
        levels_of(m.remove(p)) == levels_of(m).remove(p),
{
    assert(levels_of(m.remove(p)) =~= levels_of(m).remove(p));
}

proof fn lemma_levels_insert(m: Map<u64, VecDeque<Order>>, p: u64, q: VecDeque<Order>)
    ensures
        levels_of(m.insert(p, q)) == levels_of(m).insert(p, q@),
{
    assert(levels_of(m.insert(p, q)) =~= levels_of(m).insert(p, q@));
}

impl PriceLevels for BTreeMap<u64, VecDeque<Order>> {
    open spec fn levels(&self) -> Map<u64, Seq<Order>> {
        levels_of(self@)
    }

    open spec fn lowest_first() -> bool {
        true
    }

    fn best(&self) -> (r: Option<u64>) {
        let r = first_ask_price(self);
        proof {
            let lv = levels_of(self@);
            assert(lv.dom() =~= self@.dom());
            lemma_best_price(lv, true);
            if let Some(k) = r {
                assert(is_best(lv.dom(), k, true));
            }
        }
        r
    }

    fn level(&self, price: u64) -> (r: Option<&VecDeque<Order>>) {
        self.get(&price)
    }

    fn take_level(&mut self, price: u64) -> (r: Option<VecDeque<Order>>) {
        let ghost start = self@;
        let r = self.remove(&price);
        proof {
            lemma_levels_remove(start, price);
        }
        r
    }

    fn put_level(&mut self, price: u64, q: VecDeque<Order>) {
        let ghost start = self@;
        let ghost qd = q;
        self.insert(price, q);
        proof {
            lemma_levels_insert(start, price, qd);
        }
    }

    fn no_levels(&self) -> (r: bool) {
        assert(levels_of(self@).dom() =~= self@.dom());
        self.is_empty()
    }
}

impl PriceLevels for BTreeMap<Reverse<u64>, VecDeque<Order>> {
    open spec fn levels(&self) -> Map<u64, Seq<Order>> {
        bid_levels_of(*self)
    }

    open spec fn lowest_first() -> bool {
        false
    }

    fn best(&self) -> (r: Option<u64>) {
        let r = first_bid_price(self);
        proof {
            let lv = bid_levels_of(*self);
            if lv.dom().finite() {
                lemma_best_price(lv, false);
            }
            if let Some(k) = r {
                assert(is_best(lv.dom(), k, false));
                assert(best_price(lv, false) == Some(k)) by {
                    let c = choose|q: u64| is_best(lv.dom(), q, false);
                    assert(lv.dom().contains(c));
                }
            } else {
                if exists|q: u64| is_best(lv.dom(), q, false) {
                    let c = choose|q: u64| is_best(lv.dom(), q, false);
                    assert(lv.dom().contains(c));
                }
            }
        }
        r
    }

    fn level(&self, price: u64) -> (r: Option<&VecDeque<Order>>) {
        get_bid_level(self, price)
    }

    fn take_level(&mut self, price: u64) -> (r: Option<VecDeque<Order>>) {
        remove_bid_level(self, price)
    }

    fn put_level(&mut self, price: u64, q: VecDeque<Order>) {
        insert_bid_level(self, price, q)
    }

    fn no_levels(&self) -> (r: bool) {
        bid_map_is_empty(self)
    }
}

} // verus!
