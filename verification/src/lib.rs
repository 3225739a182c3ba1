//! A deterministic continuous limit order book: price-time priority matching
//! driven by aggressor orders, with explicit time-in-force semantics.

pub mod types;
pub mod book;
pub mod state;
pub mod liquidity;
pub mod book_ops;
pub mod invariants;
pub mod apply;
pub mod matching;
pub mod market_data;
pub mod engine;
pub mod units;
pub mod laws;
pub mod crossing;
pub mod resting;
