//! Liquidity-routing engine: a concurrently queryable registry of trading
//! pools and a best-first search that, for a source token, destination token
//! and input amount, finds the path through the pool graph that maximizes the
//! output amount.

pub mod chain_monitor;
pub mod execution;
pub mod market_data;
pub mod optimizer;
pub mod pool;
pub mod pricing;
pub mod registry;
pub mod transaction;
