//! A limit order book for one instrument, aggregated by price level.
//!
//! Prices are integer ticks and sizes integer units, so that level lookup
//! uses exact equality and a total order.

pub mod book;
pub mod level;
pub mod side;
pub mod laws;
