//! An adaptive RPC load balancer core: backends report a requests-in-flight
//! count and a streaming median of their service latencies; the balancer
//! probes backends in the background, normalizes load against the highest
//! count ever observed, and routes each request to the backend judged best
//! by a two-tier hot/cold policy.
//!
//! This crate holds the verified model: the streaming median, the per-backend
//! metric aggregator, the backend registry, the probe pool and the selection
//! policy. Transport, timers and process wiring live outside the library and
//! drive it through the functions exported here.

pub mod agent;
pub mod balancer;
pub mod medianfinder;
pub mod metric;
pub mod rng;
