//! A limit-order matching core: per-instrument order books matched under
//! price-time priority, and a registry of markets.
pub mod engine;
pub mod orderbook;
