//! The per-backend metric aggregator: a requests-in-flight counter and a
//! streaming median of per-request service latencies.
//!
//! A backend increments the counter when a request arrives, performs its
//! work, then records the elapsed nanoseconds and decrements the counter.
//! A probe reads the counter and the latency median without itself being
//! counted.

use vstd::prelude::*;
use vstd::string::StringExecFns;
use crate::medianfinder::MedianFinder;
use crate::medianfinder::median_of;
use crate::metric::Metric;

verus! {

/// The greeting a backend composes for a request: the caller's name framed
/// so that the serving backend's identifier can be read back out.
pub open spec fn greeting_of(name: Seq<char>, server_id: Seq<char>) -> Seq<char> {
    "Hello "@ + name + "! from server "@ + server_id
}

/// What a probe of this aggregator reports: the current requests-in-flight
/// count, and the latency median truncated to nanoseconds in 64 bits, or 0
/// when no request has completed yet.
pub open spec fn spec_metrics(g: MyGreeter) -> Metric {
    Metric {
        rif: g.rif,
        latency: if g.latencies@.len() == 0 {
            0
        } else {
            median_of(g.latencies@) as u64
        },
    }
}

/// The state a backend keeps to answer probes: how many requests it is
/// serving right now, and the latencies of the requests it has finished.
pub struct MyGreeter {
    pub rif: u32,
    pub latencies: MedianFinder,
}

impl MyGreeter {
    pub closed spec fn wf(self) -> bool {
        self.latencies.wf()
    }

    pub fn new() -> (r: Self)
        ensures
            r.wf(),
            r.rif == 0,
            r.latencies@ == Seq::<u128>::empty(),
    {
        MyGreeter { rif: 0, latencies: MedianFinder::new() }
    }

    /// A request has arrived: count it as in flight.
    pub fn start_request(&mut self)
        requires
            old(self).wf(),
            old(self).rif < u32::MAX,
        ensures
            final(self).wf(),
            final(self).rif == old(self).rif + 1,
            final(self).latencies == old(self).latencies,
    {
        self.rif = self.rif + 1;
    }

    /// A request has finished after `elapsed_nanos`: record its latency and
    /// stop counting it as in flight.
    pub fn finish_request(&mut self, elapsed_nanos: u128)
        requires
            old(self).wf(),
            old(self).rif > 0,
        ensures
            final(self).wf(),
            final(self).rif == old(self).rif - 1,
            final(self).latencies@.to_multiset() == old(self).latencies@.to_multiset().insert(
                elapsed_nanos,
            ),
    {
        self.rif = self.rif - 1;
        self.latencies.add_latency(elapsed_nanos);
    }

    /// Answer a probe. The probe itself is not counted in `rif`.
    pub fn get_metrics(&self) -> (r: Metric)
        requires
            self.wf(),
        ensures
            r == spec_metrics(*self),
    {
        let lat: u64 = match self.latencies.find_median() {
            Some(m) => {
                proof {
                    self.latencies.lemma_view_sorted();
                }
                #[verifier::truncate] (m as u64)
            },
            None => 0,
        };
        Metric { rif: self.rif, latency: lat }
    }
}

/// Over a request's whole lifetime the in-flight counter is incremented
/// exactly once and decremented exactly once, so a completed request leaves
/// the counter as it found it and adds exactly its own latency to the record.
pub proof fn lemma_request_lifecycle(
    g0: MyGreeter,
    g1: MyGreeter,
    g2: MyGreeter,
    elapsed_nanos: u128,
)
    requires
        g0.rif < u32::MAX,
        g1.rif == g0.rif + 1,
        g1.latencies == g0.latencies,
        g2.rif == g1.rif - 1,
        g2.latencies@.to_multiset() == g1.latencies@.to_multiset().insert(elapsed_nanos),
    ensures
        g2.rif == g0.rif,
        g2.latencies@.to_multiset() == g0.latencies@.to_multiset().insert(elapsed_nanos),
{
}

/// Two probes with no request in between read the same state and therefore
/// report the same counter and the same median.
pub proof fn lemma_metrics_repeatable(g: MyGreeter, r1: Metric, r2: Metric)
    requires
        r1 == spec_metrics(g),
        r2 == spec_metrics(g),
    ensures
        r1.rif == r2.rif,
        r1.latency == r2.latency,
{
}

/// Compose the reply for a request: the greeting embeds the identifier of
/// the backend that served it.
pub fn make_greeting(name: &str, server_id: &str) -> (r: String)
    ensures
        r@ == greeting_of(name@, server_id@),
{
    let mut s = String::from_str("Hello ");
    s.append(name);
    s.append("! from server ");
    s.append(server_id);
    proof {
        assert(s@ =~= greeting_of(name@, server_id@));
    }
    s
}

} // verus!
