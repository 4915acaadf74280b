//! Orders, sides and trades.

use uuid::Uuid;
use vstd::prelude::*;

verus! {

/// `uuid::Uuid` is carried through the engine as an opaque identifier.
#[verifier::external_type_specification]
#[verifier::external_body]
pub struct ExUuid(Uuid);

/// Buy- or sell-side limit order.
#[derive(Debug, PartialEq, Eq, Structural, Clone, Copy)]
pub enum Side {
    Buy,
    Sell,
}

/// A limit order; `limit_price` is in cents.
#[derive(Debug, PartialEq)]
pub struct Order {
    pub id: Uuid,
    pub trader_id: Uuid,
    pub side: Side,
    pub ticker: String,
    pub qty: u64,
    pub timestamp: u64,
    pub limit_price: u64,
}

/// A trade between a buy order and a sell order; `price` is the price of
/// the resting order and acts as the last traded price of the ticker.
#[derive(Debug)]
pub struct Trade {
    pub buy_order_id: Uuid,
    pub sell_order_id: Uuid,
    pub ticker: String,
    pub price: u64,
    pub qty: u64,
    pub timestamp: u64,
}

} // verus!
