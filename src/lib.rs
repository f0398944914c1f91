//! A single-symbol limit order book: price levels kept in price-time
//! priority, a matching engine, an order-id location index, depth analytics
//! and checksummed snapshots.

pub mod types;
pub mod level;
pub mod store;
pub mod keys;
pub mod consistency;
pub mod error;
pub mod book;
pub mod depth;
pub mod walk;
pub mod analytics;
pub mod lookup;
pub mod snapshot;
pub mod laws;
pub mod options;
