//! Messages between clients and the exchange, and the reports it emits.

use crate::order::{Side, Trade};
use uuid::Uuid;
use vstd::prelude::*;

verus! {

/// Status of a limit order in the exchange.
#[derive(Debug, PartialEq, Eq, Structural, Clone, Copy)]
pub enum ExecutionStatus {
    Fill,
    PartialFill,
    Resting,
}

/// An order as a client submits it.
pub struct SubmitOrder {
    pub side: Side,
    pub ticker: String,
    pub limit_price: u64,
    pub qty: u64,
}

/// What the exchange reports to the client of an order.
pub struct ExecutionReport {
    pub ticker: String,
    pub status: ExecutionStatus,
    pub filled_qty: u64,
    pub remaining_qty: u64,
    pub fill_price: u64,
}

/// Why the exchange refused an order.
#[derive(Debug)]
pub struct RejectionReport {
    pub order_id: Uuid,
    pub ticker: String,
    /// Free text.
    pub reason: String,
}

/// Messages from a client to the exchange.
pub enum ClientMessage {
    SubmitOrder(SubmitOrder),
}

/// Messages from the exchange to its clients.
pub enum ServerMessage {
    Trade(Trade),
    RejectionReport(RejectionReport),
}

/// Events that the matching engine emits.
pub enum EngineEvent {
    Trade(Trade),
    ExecutionReport(ExecutionReport),
}

} // verus!
