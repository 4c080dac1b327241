//! The metric record a backend reports when probed: its requests-in-flight
//! count and the median of its per-request service latencies in nanoseconds.

use vstd::prelude::*;

verus! {

/// A probe answer: requests-in-flight and median latency in nanoseconds.
#[derive(Clone, Copy, Debug, PartialEq, Eq, Structural)]
pub struct Metric {
    pub rif: u32,
    pub latency: u64,
}

} // verus!
