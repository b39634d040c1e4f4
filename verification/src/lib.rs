//! A single-instrument central limit order book with price-time-priority
//! matching, a two-asset balance ledger, and an order-status registry.
//!
//! The book keeps two price-indexed sides of FIFO levels and matches an
//! incoming order against the opposite side before resting the remainder.
//! Every operation carries a contract that pins down the resulting book,
//! ledger, and registry state.

pub mod addr;
pub mod engine;
pub mod ledger;
pub mod order;
pub mod orderbook;
