//! Streaming statistics over a sequence of ledger blocks: miner diversity in a
//! sliding window, logarithmic histograms of transaction values, time-bucketed
//! volumes and counts, and counts of wallets holding large cumulative balances.
pub mod ledger;
pub mod rates;
pub mod binning;
pub mod histogram;
pub mod buckets;
pub mod time_series;
pub mod miners;
pub mod balances;
