//! A continuous double-auction order-matching engine for one instrument.
//!
//! Prices and volumes are fixed-scale decimals. Each side of the market is a
//! price-ordered book of first-in first-out price levels, and matching pairs
//! the best ask with the best bid until the two sides no longer cross.

pub mod decimal;
pub mod price;
pub mod level;
pub mod book;
pub mod matching;
pub mod order_book;
pub mod registry;

pub use decimal::{OrderError, Rank, Scaled};
pub use book::Direction;
pub use order_book::{Fixed, OrderBook};
pub use price::{Price, Volume};
pub use registry::OrderBookMap;
