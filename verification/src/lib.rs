//! Fleet benchmarking core: aggregates per-endpoint hardware snapshots and
//! benchmark samples into cluster-wide views — a dense global core index and
//! deterministic cross-endpoint rankings and extrema.

#![verifier::loop_isolation(false)]

pub mod addr_defs;
pub mod benchmarking_defs;
pub mod endpoints_defs;
pub mod score_defs;
pub mod sysinfo_defs;
pub mod tweet_defs;
