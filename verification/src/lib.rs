//! A limit-order matching engine: order books with price-time priority and
//! an exchange that routes orders to the book of their ticker.

pub mod order;
pub mod model;
pub mod levels;
mod utils;
pub mod book;
pub mod engine;
pub mod event_types;
pub mod exchange;
pub mod laws;
