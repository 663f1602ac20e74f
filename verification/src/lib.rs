//! A price/time-priority order-matching core.
//!
//! The crate keeps a book of resting limit orders, two sides ordered by
//! price, and matches incoming market and limit orders against it. Prices
//! and quantities are integer ticks; every operation carries a contract
//! that pins down how the book and the emitted trades change.

pub mod engine;
pub mod order;
pub mod order_book;
