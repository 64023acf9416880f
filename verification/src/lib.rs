//! A self-healing JSON-RPC gateway core: an endpoint pool for one chain,
//! with bootstrap-time chain validation, latency-ranked selection,
//! overload-triggered rotation, bounded retry, a per-method TTL response
//! cache, and a durable snapshot codec.
//!
//! All network, clock and file work stays outside the library: callers probe
//! endpoints and perform transport attempts themselves, and hand the timed
//! results in as plain values.

pub mod chain_id;
pub mod errors;
pub mod pool;
pub mod snapshot;
mod strutil;
pub mod types;
