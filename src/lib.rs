//! Order-book aggregation: merges the top-of-book snapshots of several
//! exchanges into one bounded, ordered book with its spread.
pub mod aggregator;
pub mod common;
pub mod configuration;
pub mod merge;
pub mod orderbook;
pub mod supervisor;
pub mod session;
