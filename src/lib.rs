//! A limit order book for one venue and symbol: resting bids and asks kept in
//! price levels keyed by fixed-point integer prices.

pub mod book;
mod clock;
pub mod price;
pub mod quantity;
