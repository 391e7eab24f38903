//! Verified core of a market-data replay and order-record toolkit.
pub mod text;
pub mod symbols;
pub mod ipc;
pub mod decimal;
pub mod records;
pub mod recv_stats;
pub mod buckets;
pub mod factor;
pub mod stream;
pub mod rolling;
pub mod book;
pub mod queue;
pub mod clock;
