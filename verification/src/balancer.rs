//! The balancer core: the registry of backends, the probe pool with its
//! fleet-wide load normalization, and the two-tier selection policy.
//!
//! Load is normalized exactly: a sample's normalized requests-in-flight is
//! the ratio of its `rif` to the `max_rif` recorded in `norm_max_rif`, and
//! the hot threshold `q_rif_ppm` is that ratio expressed in parts per
//! million. Whenever `max_rif` rises, every sample is renormalized before
//! the triggering sample is inserted, so at every stable point each sample's
//! ratio is taken against the current `max_rif`.

use vstd::prelude::*;
use crate::medianfinder::MedianFinder;
use crate::medianfinder::lemma_median_of_multiset;
use crate::medianfinder::median_of;
use crate::medianfinder::sorted;
use crate::metric::Metric;

verus! {

/// Scale of the hot/cold threshold: a normalized load of 1.0 is this many
/// parts per million.
pub const PPM_SCALE: u64 = 1_000_000;

/// How many backends one probe tick samples.
pub const PROBE_POOL_SIZE: usize = 2;

/// Ways the balancer can fail its caller.
#[derive(Debug)]
pub enum LoadBalancerError {
    RouteNotFoundToDelete(String),
    UnableToEstablishConnectivity(String),
    NoProbeFound,
}

/// A registered backend: its address and whether it is believed live. The
/// connection handle itself lives with the transport, keyed by this address.
pub struct Client {
    pub client_add: String,
    pub is_active: bool,
}

/// Mathematical image of a registered backend.
pub struct ClientV {
    pub client_add: Seq<char>,
    pub is_active: bool,
}

impl View for Client {
    type V = ClientV;

    open spec fn view(&self) -> ClientV {
        ClientV { client_add: self.client_add@, is_active: self.is_active }
    }
}

/// One probe sample: what a backend reported, and the `max_rif` in force
/// when the sample was inserted or last renormalized. The sample's
/// normalized load is `rif / norm_max_rif` (0 when `norm_max_rif` is 0).
pub struct Probe {
    pub server: String,
    pub rif: u32,
    pub latency: u64,
    pub times_used: u32,
    pub norm_max_rif: u32,
}

/// Mathematical image of a probe sample.
pub struct ProbeV {
    pub server: Seq<char>,
    pub rif: u32,
    pub latency: u64,
    pub times_used: u32,
    pub norm_max_rif: u32,
}

impl View for Probe {
    type V = ProbeV;

    open spec fn view(&self) -> ProbeV {
        ProbeV {
            server: self.server@,
            rif: self.rif,
            latency: self.latency,
            times_used: self.times_used,
            norm_max_rif: self.norm_max_rif,
        }
    }
}

/// The mathematical image of a backend list.
pub open spec fn clients_view(s: Seq<Client>) -> Seq<ClientV> {
    s.map_values(|c: Client| c@)
}

/// The mathematical image of a sample list.
pub open spec fn pool_view(s: Seq<Probe>) -> Seq<ProbeV> {
    s.map_values(|p: Probe| p@)
}

/// Mathematical image of the whole balancer state.
pub struct LoadBalancerV {
    pub clients: Seq<ClientV>,
    pub probe_pool: Seq<ProbeV>,
    pub max_rif: u32,
    pub q_rif_ppm: u32,
}

/// The balancer: registered backends, the probe pool, the highest `rif`
/// ever observed, and the hot/cold threshold in parts per million.
pub struct LoadBalancer {
    pub clients: Vec<Client>,
    pub probe_pool: Vec<Probe>,
    pub max_rif: u32,
    pub q_rif_ppm: u32,
}

impl View for LoadBalancer {
    type V = LoadBalancerV;

    open spec fn view(&self) -> LoadBalancerV {
        LoadBalancerV {
            clients: clients_view(self.clients@),
            probe_pool: pool_view(self.probe_pool@),
            max_rif: self.max_rif,
            q_rif_ppm: self.q_rif_ppm,
        }
    }
}

/// The balancer's invariant:
/// - the pool holds at most one sample per backend address;
/// - every sample was normalized against the current `max_rif`, so its
///   normalized load is exactly `rif / max_rif`;
/// - no sample's `rif` exceeds `max_rif`, so normalized loads lie in [0, 1];
/// - the threshold is a ratio in [0, 1].
pub open spec fn lb_wf(v: LoadBalancerV) -> bool {
    &&& forall|i: int, j: int|
        0 <= i < j < v.probe_pool.len() ==> v.probe_pool[i].server != v.probe_pool[j].server
    &&& forall|i: int|
        0 <= i < v.probe_pool.len() ==> #[trigger] v.probe_pool[i].norm_max_rif == v.max_rif
    &&& forall|i: int| 0 <= i < v.probe_pool.len() ==> #[trigger] v.probe_pool[i].rif <= v.max_rif
    &&& v.q_rif_ppm <= PPM_SCALE
}

/// A sample is hot when its normalized load reaches the threshold:
/// `rif / norm_max_rif >= q_rif_ppm / PPM_SCALE`, compared exactly over the
/// integers. A sample normalized while `max_rif` was still 0 is cold.
pub open spec fn probe_is_hot(p: ProbeV, q_rif_ppm: u32) -> bool {
    p.norm_max_rif > 0 && p.rif * PPM_SCALE >= q_rif_ppm * p.norm_max_rif
}

/// A sample's normalized requests-in-flight, scaled to parts per million:
/// the floor of `rif / norm_max_rif * PPM_SCALE`, and 0 when the recorded
/// maximum is 0.
pub open spec fn normalized_rif_ppm(p: ProbeV) -> int {
    if p.norm_max_rif == 0 {
        0
    } else {
        p.rif * PPM_SCALE / (p.norm_max_rif as int)
    }
}

/// The cross-multiplied hot test decides exactly the comparison of the
/// normalized load against the threshold: a sample is hot precisely when
/// its normalized requests-in-flight reaches `q_rif_ppm` parts per million
/// and it was normalized against a positive maximum.
pub proof fn lemma_hot_is_normalized_threshold(p: ProbeV, q_rif_ppm: u32)
    ensures
        probe_is_hot(p, q_rif_ppm) <==> (p.norm_max_rif > 0 && normalized_rif_ppm(p)
            >= q_rif_ppm),
{
    if p.norm_max_rif > 0 {
        let x = p.rif * PPM_SCALE;
        let b = p.norm_max_rif as int;
        let q = q_rif_ppm as int;
        if x >= q * b {
            vstd::arithmetic::div_mod::lemma_div_is_ordered(q * b, x as int, b);
            vstd::arithmetic::div_mod::lemma_div_multiples_vanish(q, b);
            assert(b * q == q * b) by (nonlinear_arith);
            assert(x as int / b >= q);
        }
        if x as int / b >= q {
            vstd::arithmetic::div_mod::lemma_fundamental_div_mod(x as int, b);
            vstd::arithmetic::div_mod::lemma_remainder_lower(x as int, b);
            vstd::arithmetic::mul::lemma_mul_inequality(q, x as int / b, b);
            assert(x as int >= b * (x as int / b));
            assert(q * b <= (x as int / b) * b);
            assert((x as int / b) * b == b * (x as int / b)) by (nonlinear_arith);
            assert(x >= q * b);
        }
    }
}

/// At every stable point each sample was normalized against the current
/// fleet maximum, so its normalized load is exactly `rif / max_rif` and
/// lies in [0, 1] — between 0 and `PPM_SCALE` parts per million.
pub proof fn lemma_pool_normalization(v: LoadBalancerV, i: int)
    requires
        lb_wf(v),
        0 <= i < v.probe_pool.len(),
    ensures
        v.probe_pool[i].norm_max_rif == v.max_rif,
        0 <= normalized_rif_ppm(v.probe_pool[i]) <= PPM_SCALE,
{
    let p = v.probe_pool[i];
    if p.norm_max_rif > 0 {
        let x = p.rif * PPM_SCALE;
        let b = p.norm_max_rif as int;
        vstd::arithmetic::div_mod::lemma_div_pos_is_pos(x as int, b);
        assert(x <= b * PPM_SCALE) by (nonlinear_arith)
            requires
                x == p.rif * PPM_SCALE,
                0 <= p.rif as int <= b,
        ;
        vstd::arithmetic::div_mod::lemma_div_is_ordered(x as int, b * PPM_SCALE, b);
        vstd::arithmetic::div_mod::lemma_div_multiples_vanish(PPM_SCALE as int, b);
    }
}

impl LoadBalancer {
    pub open spec fn wf(self) -> bool {
        lb_wf(self@)
    }

    /// A fresh balancer: no backends, no samples, no load observed yet.
    pub fn new(q_rif_ppm: u32) -> (r: Self)
        requires
            q_rif_ppm <= PPM_SCALE,
        ensures
            r.wf(),
            r@.clients == Seq::<ClientV>::empty(),
            r@.probe_pool == Seq::<ProbeV>::empty(),
            r@.max_rif == 0,
            r@.q_rif_ppm == q_rif_ppm,
    {
        let r = LoadBalancer {
            clients: Vec::new(),
            probe_pool: Vec::new(),
            max_rif: 0,
            q_rif_ppm,
        };
        proof {
            assert(r@.clients =~= Seq::<ClientV>::empty());
            assert(r@.probe_pool =~= Seq::<ProbeV>::empty());
        }
        r
    }

    /// Decide whether a sample counts as hot under this balancer's
    /// threshold.
    pub fn is_probe_hot(&self, probe: &Probe) -> (r: bool)
        ensures
            r == probe_is_hot(probe@, self@.q_rif_ppm),
    {
        let rifn: u128 = probe.rif as u128;
        let scale: u128 = PPM_SCALE as u128;
        let q: u128 = self.q_rif_ppm as u128;
        let base: u128 = probe.norm_max_rif as u128;
        proof {
            vstd::arithmetic::mul::lemma_mul_upper_bound(
                rifn as int,
                u32::MAX as int,
                scale as int,
                PPM_SCALE as int,
            );
            vstd::arithmetic::mul::lemma_mul_upper_bound(
                q as int,
                u32::MAX as int,
                base as int,
                u32::MAX as int,
            );
        }
        probe.norm_max_rif > 0 && rifn * scale >= q * base
    }

    /// Register a backend once the transport has tried to connect to its
    /// address: on success the backend joins the registry live; on failure
    /// nothing is inserted and the cause is reported.
    pub fn add_client(&mut self, addr: String, connect_outcome: Result<(), String>) -> (r: Result<
        (),
        LoadBalancerError,
    >)
        requires
            old(self).wf(),
        ensures
            final(self).wf(),
            final(self)@.probe_pool == old(self)@.probe_pool,
            final(self)@.max_rif == old(self)@.max_rif,
            final(self)@.q_rif_ppm == old(self)@.q_rif_ppm,
            connect_outcome is Ok ==> final(self)@.clients == old(self)@.clients.push(
                ClientV { client_add: addr@, is_active: true },
            ) && r is Ok,
            connect_outcome matches Err(m) ==> final(self)@.clients == old(self)@.clients && (
            r matches Err(LoadBalancerError::UnableToEstablishConnectivity(c)) && c@ == m@),
    {
        match connect_outcome {
            Ok(_) => {
                let c = Client { client_add: addr, is_active: true };
                let ghost cv = c@;
                self.clients.push(c);
                proof {
                    assert(self@.clients =~= old(self)@.clients.push(cv));
                    assert(self@.probe_pool =~= old(self)@.probe_pool);
                }
                Ok(())
            },
            Err(cause) => Err(LoadBalancerError::UnableToEstablishConnectivity(cause)),
        }
    }
}

/// The registry after removing the last entry for `addr`, or unchanged when
/// no entry matches.
pub open spec fn remove_last_match(cs: Seq<ClientV>, addr: Seq<char>) -> Seq<ClientV>
    decreases cs.len(),
{
    if cs.len() == 0 {
        cs
    } else if cs.last().client_add == addr {
        cs.drop_last()
    } else {
        remove_last_match(cs.drop_last(), addr).push(cs.last())
    }
}

/// When nothing matches, removal changes nothing.
proof fn lemma_remove_last_match_none(cs: Seq<ClientV>, addr: Seq<char>)
    requires
        forall|k: int| 0 <= k < cs.len() ==> cs[k].client_add != addr,
    ensures
        remove_last_match(cs, addr) == cs,
    decreases cs.len(),
{
    if cs.len() > 0 {
        lemma_remove_last_match_none(cs.drop_last(), addr);
        assert(remove_last_match(cs.drop_last(), addr).push(cs.last()) =~= cs);
    }
}

/// When `i` is the last matching index, removal removes exactly index `i`.
proof fn lemma_remove_last_match_at(cs: Seq<ClientV>, addr: Seq<char>, i: int)
    requires
        0 <= i < cs.len(),
        cs[i].client_add == addr,
        forall|j: int| i < j < cs.len() ==> cs[j].client_add != addr,
    ensures
        remove_last_match(cs, addr) == cs.remove(i),
    decreases cs.len(),
{
    if i == cs.len() - 1 {
        assert(cs.drop_last() =~= cs.remove(i));
    } else {
        lemma_remove_last_match_at(cs.drop_last(), addr, i);
        assert(cs.drop_last().remove(i).push(cs.last()) =~= cs.remove(i));
    }
}

/// Registering a backend and then removing the same address restores the
/// registry exactly.
pub proof fn lemma_add_remove_roundtrip(cs: Seq<ClientV>, addr: Seq<char>)
    ensures
        remove_last_match(cs.push(ClientV { client_add: addr, is_active: true }), addr) == cs,
{
    let pushed = cs.push(ClientV { client_add: addr, is_active: true });
    assert(pushed.last().client_add == addr);
    assert(pushed.drop_last() =~= cs);
}

impl LoadBalancer {
    /// Drop the last registry entry for `addr`; a no-op when the address is
    /// unknown.
    pub fn remove_client(&mut self, addr: String) -> (r: Result<(), LoadBalancerError>)
        requires
            old(self).wf(),
        ensures
            final(self).wf(),
            final(self)@.probe_pool == old(self)@.probe_pool,
            final(self)@.max_rif == old(self)@.max_rif,
            final(self)@.q_rif_ppm == old(self)@.q_rif_ppm,
            final(self)@.clients == remove_last_match(old(self)@.clients, addr@),
            r is Ok,
    {
        let mut idx: Option<usize> = None;
        let n = self.clients.len();
        let mut i: usize = 0;
        while i < n
            invariant
                n == self.clients.len(),
                i <= n,
                self == old(self),
                match idx {
                    Some(k) => {
                        &&& k < i
                        &&& self@.clients[k as int].client_add == addr@
                        &&& forall|j: int|
                            k < j < i ==> self@.clients[j].client_add != addr@
                    },
                    None => forall|j: int| 0 <= j < i ==> self@.clients[j].client_add != addr@,
                },
            decreases n - i,
        {
            if self.clients[i].client_add == addr {
                idx = Some(i);
            }
            i = i + 1;
        }
        match idx {
            Some(k) => {
                self.clients.remove(k);
                proof {
                    lemma_remove_last_match_at(old(self)@.clients, addr@, k as int);
                    assert(self@.clients =~= old(self)@.clients.remove(k as int));
                    assert(self@.probe_pool =~= old(self)@.probe_pool);
                }
            },
            None => {
                proof {
                    lemma_remove_last_match_none(old(self)@.clients, addr@);
                    assert(self@.probe_pool =~= old(self)@.probe_pool);
                }
            },
        }
        Ok(())
    }

    /// Mark the backend at registry slot `k` live again, after the
    /// transport has reconnected to it.
    pub fn mark_active_at(&mut self, k: usize)
        requires
            old(self).wf(),
            k < old(self)@.clients.len(),
        ensures
            final(self).wf(),
            final(self)@.probe_pool == old(self)@.probe_pool,
            final(self)@.max_rif == old(self)@.max_rif,
            final(self)@.q_rif_ppm == old(self)@.q_rif_ppm,
            final(self)@.clients == old(self)@.clients.update(
                k as int,
                ClientV { client_add: old(self)@.clients[k as int].client_add, is_active: true },
            ),
    {
        let c = self.clients.remove(k);
        let fresh = Client { client_add: c.client_add, is_active: true };
        let ghost fv = fresh@;
        self.clients.insert(k, fresh);
        proof {
            assert(self@.clients =~= old(self)@.clients.update(k as int, fv));
            assert(self@.probe_pool =~= old(self)@.probe_pool);
        }
    }
}

/// The sample `p` renormalized against a new fleet maximum `m`.
pub open spec fn with_norm(p: ProbeV, m: u32) -> ProbeV {
    ProbeV {
        server: p.server,
        rif: p.rif,
        latency: p.latency,
        times_used: p.times_used,
        norm_max_rif: m,
    }
}

/// Every sample of the pool renormalized against `m`.
pub open spec fn renormalized(s: Seq<ProbeV>, m: u32) -> Seq<ProbeV> {
    s.map_values(|p: ProbeV| with_norm(p, m))
}

/// The pool without any sample for `addr`, order otherwise kept.
pub open spec fn drop_server(s: Seq<ProbeV>, addr: Seq<char>) -> Seq<ProbeV> {
    s.filter(|p: ProbeV| p.server != addr)
}

/// Dropping a server's samples distributes over appending one sample.
proof fn lemma_drop_server_push(s: Seq<ProbeV>, addr: Seq<char>, x: ProbeV)
    ensures
        drop_server(s.push(x), addr) == if x.server != addr {
            drop_server(s, addr).push(x)
        } else {
            drop_server(s, addr)
        },
{
    reveal(Seq::filter);
    assert(s.push(x).drop_last() =~= s);
    assert(s.push(x).last() == x);
}

/// What dropping a server leaves behind: samples of the original pool, none
/// of them for `addr`, still pairwise distinct when the pool was.
proof fn lemma_drop_server_props(s: Seq<ProbeV>, addr: Seq<char>)
    requires
        forall|i: int, j: int| 0 <= i < j < s.len() ==> s[i].server != s[j].server,
    ensures
        forall|a: int|
            #![trigger drop_server(s, addr)[a]]
            0 <= a < drop_server(s, addr).len() ==> (drop_server(s, addr)[a].server != addr
                && exists|j: int| 0 <= j < s.len() && drop_server(s, addr)[a] == s[j]),
        forall|a: int, b: int|
            0 <= a < b < drop_server(s, addr).len() ==> drop_server(s, addr)[a].server
                != drop_server(s, addr)[b].server,
    decreases s.len(),
{
    if s.len() == 0 {
        reveal(Seq::filter);
        assert(drop_server(s, addr) =~= Seq::<ProbeV>::empty());
    } else {
        let s0 = s.drop_last();
        let x = s.last();
        lemma_drop_server_props(s0, addr);
        lemma_drop_server_push(s0, addr, x);
        assert(s0.push(x) =~= s);
        let d = drop_server(s, addr);
        let d0 = drop_server(s0, addr);
        if x.server != addr {
            assert(d == d0.push(x));
            assert forall|a: int|
                0 <= a < d.len() implies (#[trigger] d[a].server != addr && exists|j: int|
                0 <= j < s.len() && d[a] == s[j]) by {
                if a < d0.len() {
                    assert(d[a] == d0[a]);
                    let j = choose|j: int| 0 <= j < s0.len() && d0[a] == s0[j];
                    assert(d[a] == s[j]);
                } else {
                    assert(d[a] == x);
                    assert(d[a] == s[s.len() - 1]);
                }
            }
            assert forall|a: int, b: int| 0 <= a < b < d.len() implies d[a].server
                != d[b].server by {
                if b < d0.len() {
                    assert(d[a] == d0[a] && d[b] == d0[b]);
                } else {
                    assert(d[a] == d0[a] && d[b] == x);
                    let j = choose|j: int| 0 <= j < s0.len() && d0[a] == s0[j];
                    assert(s[j].server != s[s.len() - 1].server);
                }
            }
        } else {
            assert(d == d0);
            assert forall|a: int|
                0 <= a < d.len() implies (#[trigger] d[a].server != addr && exists|j: int|
                0 <= j < s.len() && d[a] == s[j]) by {
                let j = choose|j: int| 0 <= j < s0.len() && d0[a] == s0[j];
                assert(d[a] == s[j]);
            }
        }
    }
}

impl LoadBalancer {
    /// Record a successful probe of `server`: raise `max_rif` if the
    /// reported `rif` exceeds it — renormalizing every existing sample —
    /// then replace any sample for `server` with a fresh one normalized
    /// against the current maximum.
    pub fn apply_probe_success(&mut self, server: &String, rif: u32, latency: u64)
        requires
            old(self).wf(),
        ensures
            final(self).wf(),
            final(self)@.clients == old(self)@.clients,
            final(self)@.q_rif_ppm == old(self)@.q_rif_ppm,
            old(self)@.max_rif <= final(self)@.max_rif,
            final(self)@.max_rif == if rif > old(self)@.max_rif {
                rif
            } else {
                old(self)@.max_rif
            },
            final(self)@.probe_pool == renormalized(
                drop_server(old(self)@.probe_pool, server@),
                final(self)@.max_rif,
            ).push(
                ProbeV {
                    server: server@,
                    rif,
                    latency,
                    times_used: 0,
                    norm_max_rif: final(self)@.max_rif,
                },
            ),
    {
        let new_max = if rif > self.max_rif {
            rif
        } else {
            self.max_rif
        };
        self.max_rif = new_max;
        let ghost opool = pool_view(old(self).probe_pool@);
        let n = self.probe_pool.len();
        let mut newpool: Vec<Probe> = Vec::new();
        let mut i: usize = 0;
        proof {
            assert(old(self)@.probe_pool == opool);
            assert forall|a: int, b: int| 0 <= a < b < opool.len() implies opool[a].server
                != opool[b].server by {
                assert(old(self)@.probe_pool[a].server != old(self)@.probe_pool[b].server);
            }
            assert forall|j: int| 0 <= j < opool.len() implies #[trigger] opool[j].rif <= old(
                self,
            )@.max_rif by {
                assert(old(self)@.probe_pool[j].rif <= old(self)@.max_rif);
            }
            assert(drop_server(opool.subrange(0, 0), server@) =~= Seq::<ProbeV>::empty()) by {
                reveal(Seq::filter);
            }
            assert(pool_view(newpool@) =~= Seq::<ProbeV>::empty());
        }
        while i < n
            invariant
                n == self.probe_pool.len(),
                i <= n,
                pool_view(self.probe_pool@) == opool,
                pool_view(newpool@) == renormalized(
                    drop_server(opool.subrange(0, i as int), server@),
                    new_max,
                ),
            decreases n - i,
        {
            let ghost prefix = opool.subrange(0, i as int);
            let ghost prev = pool_view(newpool@);
            let keep = !(self.probe_pool[i].server == *server);
            if keep {
                let p = &self.probe_pool[i];
                let fresh = Probe {
                    server: p.server.clone(),
                    rif: p.rif,
                    latency: p.latency,
                    times_used: p.times_used,
                    norm_max_rif: new_max,
                };
                let ghost fv = fresh@;
                newpool.push(fresh);
                proof {
                    assert(fv == with_norm(opool[i as int], new_max));
                    assert(pool_view(newpool@) =~= prev.push(fv));
                }
            }
            proof {
                lemma_drop_server_push(prefix, server@, opool[i as int]);
                assert(prefix.push(opool[i as int]) =~= opool.subrange(0, i as int + 1));
                if keep {
                    assert(opool[i as int].server != server@);
                    assert(renormalized(drop_server(prefix, server@).push(opool[i as int]), new_max)
                        =~= renormalized(drop_server(prefix, server@), new_max).push(
                        with_norm(opool[i as int], new_max),
                    ));
                } else {
                    assert(opool[i as int].server == server@);
                    assert(drop_server(opool.subrange(0, i as int + 1), server@) == drop_server(
                        prefix,
                        server@,
                    ));
                }
            }
            i = i + 1;
        }
        let fresh = Probe {
            server: server.clone(),
            rif,
            latency,
            times_used: 0,
            norm_max_rif: new_max,
        };
        let ghost fv = fresh@;
        let ghost prev = pool_view(newpool@);
        newpool.push(fresh);
        self.probe_pool = newpool;
        proof {
            assert(opool.subrange(0, n as int) =~= opool);
            let dropped = drop_server(opool, server@);
            assert(prev == renormalized(dropped, new_max));
            assert(self@.probe_pool =~= prev.push(fv));
            assert(self@.clients =~= old(self)@.clients);
            assert forall|a: int, b: int| 0 <= a < b < opool.len() implies opool[a].server
                != opool[b].server by {
                assert(old(self)@.probe_pool[a].server != old(self)@.probe_pool[b].server);
            }
            lemma_drop_server_props(opool, server@);
            // Pointwise facts about the renormalized survivors.
            assert forall|a: int| 0 <= a < prev.len() implies (#[trigger] prev[a].server
                != server@ && prev[a].norm_max_rif == new_max && prev[a].rif <= new_max) by {
                assert(prev[a] == with_norm(dropped[a], new_max));
                assert(dropped[a].server != server@);
                let j = choose|j: int| 0 <= j < opool.len() && dropped[a] == opool[j];
                assert(old(self)@.probe_pool[j].rif <= old(self)@.max_rif);
            }
            assert forall|a: int, b: int|
                0 <= a < b < self@.probe_pool.len() implies self@.probe_pool[a].server
                != self@.probe_pool[b].server by {
                if b < prev.len() {
                    assert(self@.probe_pool[a] == prev[a]);
                    assert(self@.probe_pool[b] == prev[b]);
                    assert(prev[a] == with_norm(dropped[a], new_max));
                    assert(prev[b] == with_norm(dropped[b], new_max));
                    assert(dropped[a].server != dropped[b].server);
                } else {
                    assert(self@.probe_pool[a] == prev[a]);
                    assert(self@.probe_pool[b] == fv);
                    assert(prev[a].server != server@);
                }
            }
            assert forall|a: int| 0 <= a < self@.probe_pool.len() implies (#[trigger] self@
                .probe_pool[a].norm_max_rif == new_max && self@.probe_pool[a].rif
                <= new_max) by {
                if a < prev.len() {
                    assert(prev[a].server != server@);
                    assert(self@.probe_pool[a] == prev[a]);
                } else {
                    assert(self@.probe_pool[a] == fv);
                }
            }
        }
    }
}

/// The registry after marking the first entry for `addr` inactive, or
/// unchanged when none matches.
pub open spec fn mark_first_inactive(cs: Seq<ClientV>, addr: Seq<char>) -> Seq<ClientV>
    decreases cs.len(),
{
    if cs.len() == 0 {
        cs
    } else if cs.first().client_add == addr {
        seq![ClientV { client_add: addr, is_active: false }] + cs.drop_first()
    } else {
        seq![cs.first()] + mark_first_inactive(cs.drop_first(), addr)
    }
}

/// When nothing matches, marking changes nothing.
proof fn lemma_mark_first_inactive_none(cs: Seq<ClientV>, addr: Seq<char>)
    requires
        forall|k: int| 0 <= k < cs.len() ==> cs[k].client_add != addr,
    ensures
        mark_first_inactive(cs, addr) == cs,
    decreases cs.len(),
{
    if cs.len() > 0 {
        lemma_mark_first_inactive_none(cs.drop_first(), addr);
        assert(seq![cs.first()] + cs.drop_first() =~= cs);
    }
}

/// When `k` is the first matching index, marking flips exactly entry `k`.
proof fn lemma_mark_first_inactive_at(cs: Seq<ClientV>, addr: Seq<char>, k: int)
    requires
        0 <= k < cs.len(),
        cs[k].client_add == addr,
        forall|j: int| 0 <= j < k ==> cs[j].client_add != addr,
    ensures
        mark_first_inactive(cs, addr) == cs.update(
            k,
            ClientV { client_add: addr, is_active: false },
        ),
    decreases cs.len(),
{
    let marked = ClientV { client_add: addr, is_active: false };
    if k == 0 {
        assert(seq![marked] + cs.drop_first() =~= cs.update(0, marked));
    } else {
        assert(cs.drop_first()[k - 1].client_add == addr);
        lemma_mark_first_inactive_at(cs.drop_first(), addr, k - 1);
        assert(seq![cs.first()] + cs.drop_first().update(k - 1, marked) =~= cs.update(k, marked));
    }
}

impl LoadBalancer {
    /// Record a failed probe of `server`: its sample leaves the pool, and
    /// unless the failure was transient unavailability the backend is marked
    /// inactive so that selection skips it until it reconnects.
    pub fn apply_probe_failure(&mut self, server: &String, unavailable: bool)
        requires
            old(self).wf(),
        ensures
            final(self).wf(),
            final(self)@.max_rif == old(self)@.max_rif,
            final(self)@.q_rif_ppm == old(self)@.q_rif_ppm,
            final(self)@.probe_pool == drop_server(old(self)@.probe_pool, server@),
            unavailable ==> final(self)@.clients == old(self)@.clients,
            !unavailable ==> final(self)@.clients == mark_first_inactive(
                old(self)@.clients,
                server@,
            ),
    {
        let ghost opool = pool_view(old(self).probe_pool@);
        let n = self.probe_pool.len();
        let mut newpool: Vec<Probe> = Vec::new();
        let mut i: usize = 0;
        proof {
            assert(old(self)@.probe_pool == opool);
            assert(drop_server(opool.subrange(0, 0), server@) =~= Seq::<ProbeV>::empty()) by {
                reveal(Seq::filter);
            }
            assert(pool_view(newpool@) =~= Seq::<ProbeV>::empty());
        }
        while i < n
            invariant
                n == self.probe_pool.len(),
                i <= n,
                pool_view(self.probe_pool@) == opool,
                pool_view(newpool@) == drop_server(opool.subrange(0, i as int), server@),
            decreases n - i,
        {
            let ghost prefix = opool.subrange(0, i as int);
            let ghost prev = pool_view(newpool@);
            let keep = !(self.probe_pool[i].server == *server);
            if keep {
                let p = &self.probe_pool[i];
                let fresh = Probe {
                    server: p.server.clone(),
                    rif: p.rif,
                    latency: p.latency,
                    times_used: p.times_used,
                    norm_max_rif: p.norm_max_rif,
                };
                let ghost fv = fresh@;
                newpool.push(fresh);
                proof {
                    assert(fv == opool[i as int]);
                    assert(pool_view(newpool@) =~= prev.push(fv));
                }
            }
            proof {
                lemma_drop_server_push(prefix, server@, opool[i as int]);
                assert(prefix.push(opool[i as int]) =~= opool.subrange(0, i as int + 1));
            }
            i = i + 1;
        }
        self.probe_pool = newpool;
        proof {
            assert(opool.subrange(0, n as int) =~= opool);
            let dropped = drop_server(opool, server@);
            assert(self@.probe_pool == dropped);
            assert forall|a: int, b: int| 0 <= a < b < opool.len() implies opool[a].server
                != opool[b].server by {
                assert(old(self)@.probe_pool[a].server != old(self)@.probe_pool[b].server);
            }
            lemma_drop_server_props(opool, server@);
            assert forall|a: int| 0 <= a < dropped.len() implies (#[trigger] dropped[
                a].norm_max_rif == old(self)@.max_rif && dropped[a].rif <= old(
                self,
            )@.max_rif) by {
                let j = choose|j: int| 0 <= j < opool.len() && dropped[a] == opool[j];
                assert(old(self)@.probe_pool[j].norm_max_rif == old(self)@.max_rif);
                assert(old(self)@.probe_pool[j].rif <= old(self)@.max_rif);
            }
        }
        if !unavailable {
            let m = self.clients.len();
            let mut idx: Option<usize> = None;
            let mut k: usize = 0;
            let ghost mid_clients = self@.clients;
            while k < m
                invariant
                    m == self.clients.len(),
                    k <= m,
                    self@.clients == mid_clients,
                    match idx {
                        Some(f) => {
                            &&& f < k
                            &&& mid_clients[f as int].client_add == server@
                            &&& forall|j: int|
                                0 <= j < f ==> mid_clients[j].client_add != server@
                        },
                        None => forall|j: int|
                            0 <= j < k ==> mid_clients[j].client_add != server@,
                    },
                decreases m - k,
            {
                if idx.is_none() && self.clients[k].client_add == *server {
                    idx = Some(k);
                }
                k = k + 1;
            }
            match idx {
                Some(f) => {
                    let c = self.clients.remove(f);
                    let marked = Client { client_add: c.client_add, is_active: false };
                    let ghost mv = marked@;
                    self.clients.insert(f, marked);
                    proof {
                        assert(mv == ClientV { client_add: server@, is_active: false });
                        lemma_mark_first_inactive_at(mid_clients, server@, f as int);
                        assert(self@.clients =~= mid_clients.update(f as int, mv));
                    }
                },
                None => {
                    proof {
                        lemma_mark_first_inactive_none(mid_clients, server@);
                    }
                },
            }
            proof {
                assert(mid_clients == old(self)@.clients);
            }
        }
    }
}

/// Some registered backend with this address is currently active.
pub open spec fn active_client_for(v: LoadBalancerV, addr: Seq<char>) -> bool {
    exists|k: int|
        #![trigger v.clients[k]]
        0 <= k < v.clients.len() && v.clients[k].client_add == addr && v.clients[k].is_active
}

/// Sample `i` can be used: the backend it describes is active.
pub open spec fn probe_usable(v: LoadBalancerV, i: int) -> bool {
    0 <= i < v.probe_pool.len() && active_client_for(v, v.probe_pool[i].server)
}

/// Sample `i` is usable and cold.
pub open spec fn cold_usable(v: LoadBalancerV, i: int) -> bool {
    probe_usable(v, i) && !probe_is_hot(v.probe_pool[i], v.q_rif_ppm)
}

pub open spec fn any_usable(v: LoadBalancerV) -> bool {
    exists|i: int| #[trigger] probe_usable(v, i)
}

pub open spec fn any_cold_usable(v: LoadBalancerV) -> bool {
    exists|i: int| #[trigger] cold_usable(v, i)
}

/// The two-tier selection policy. When any usable cold sample exists, the
/// chosen sample is the first-seen usable cold sample of minimum latency;
/// once every usable sample is hot, it is the first-seen usable sample of
/// minimum requests-in-flight.
pub open spec fn chosen_probe(v: LoadBalancerV, i: int) -> bool {
    if any_cold_usable(v) {
        &&& cold_usable(v, i)
        &&& forall|j: int|
            #[trigger] cold_usable(v, j) ==> v.probe_pool[i].latency <= v.probe_pool[j].latency
        &&& forall|j: int|
            j < i && #[trigger] cold_usable(v, j) ==> v.probe_pool[j].latency
                > v.probe_pool[i].latency
    } else {
        &&& probe_usable(v, i)
        &&& forall|j: int|
            #[trigger] probe_usable(v, j) ==> v.probe_pool[i].rif <= v.probe_pool[j].rif
        &&& forall|j: int|
            j < i && #[trigger] probe_usable(v, j) ==> v.probe_pool[j].rif > v.probe_pool[i].rif
    }
}

/// A sample after one more request was dispatched on it.
pub open spec fn bump_use(p: ProbeV) -> ProbeV {
    ProbeV {
        server: p.server,
        rif: p.rif,
        latency: p.latency,
        times_used: if p.times_used == u32::MAX {
            0
        } else {
            (p.times_used + 1) as u32
        },
        norm_max_rif: p.norm_max_rif,
    }
}

/// The first registry slot whose entry has this address and is active.
fn find_active_client(clients: &Vec<Client>, addr: &String) -> (r: Option<usize>)
    ensures
        match r {
            Some(k) => {
                &&& (k as int) < clients_view(clients@).len()
                &&& clients_view(clients@)[k as int].client_add == addr@
                &&& clients_view(clients@)[k as int].is_active
                &&& forall|k2: int|
                    #![trigger clients_view(clients@)[k2]]
                    0 <= k2 < k ==> !(clients_view(clients@)[k2].client_add == addr@
                        && clients_view(clients@)[k2].is_active)
            },
            None => forall|k: int|
                #![trigger clients_view(clients@)[k]]
                0 <= k < clients_view(clients@).len() ==> !(clients_view(clients@)[k].client_add
                    == addr@ && clients_view(clients@)[k].is_active),
        },
{
    let n = clients.len();
    let mut k: usize = 0;
    while k < n
        invariant
            n == clients@.len(),
            k <= n,
            forall|k2: int|
                #![trigger clients_view(clients@)[k2]]
                0 <= k2 < k ==> !(clients_view(clients@)[k2].client_add == addr@
                    && clients_view(clients@)[k2].is_active),
        decreases n - k,
    {
        if clients[k].client_add == *addr && clients[k].is_active {
            return Some(k);
        }
        k = k + 1;
    }
    None
}

impl LoadBalancer {
    /// Choose the backend for a request: the selection policy picks a
    /// sample, its dispatch counter is bumped, and the slot of the first
    /// active registry entry for its backend is returned. Fails exactly
    /// when no usable sample exists.
    pub fn get_server(&mut self) -> (r: Result<usize, LoadBalancerError>)
        requires
            old(self).wf(),
        ensures
            final(self).wf(),
            final(self)@.clients == old(self)@.clients,
            final(self)@.max_rif == old(self)@.max_rif,
            final(self)@.q_rif_ppm == old(self)@.q_rif_ppm,
            r is Err <==> !any_usable(old(self)@),
            r is Err ==> r == Err::<usize, LoadBalancerError>(LoadBalancerError::NoProbeFound)
                && final(self)@ == old(self)@,
            r matches Ok(k) ==> (k as int) < old(self)@.clients.len()
                && old(self)@.clients[k as int].is_active && exists|i: int|
                #[trigger] chosen_probe(old(self)@, i) && old(self)@.clients[k as int].client_add
                    == old(self)@.probe_pool[i].server && (forall|k2: int|
                    0 <= k2 < k ==> !(old(self)@.clients[k2].client_add
                        == old(self)@.probe_pool[i].server && old(self)@.clients[k2].is_active))
                    && final(self)@.probe_pool == old(self)@.probe_pool.update(
                    i,
                    bump_use(old(self)@.probe_pool[i]),
                ),
    {
        let ghost v0 = old(self)@;
        let n = self.probe_pool.len();
        // First tier: the first-seen usable cold sample of minimum latency.
        let mut best_cold: Option<usize> = None;
        let mut i: usize = 0;
        while i < n
            invariant
                old(self).wf(),
                self == old(self),
                v0 == old(self)@,
                n == self.probe_pool.len(),
                i <= n,
                match best_cold {
                    Some(c) => {
                        &&& (c as int) < i as int
                        &&& cold_usable(v0, c as int)
                        &&& forall|j: int|
                            0 <= j < i && #[trigger] cold_usable(v0, j) ==> v0.probe_pool[
                                c as int
                            ].latency <= v0.probe_pool[j].latency
                        &&& forall|j: int|
                            0 <= j < c && #[trigger] cold_usable(v0, j) ==> v0.probe_pool[
                                j
                            ].latency > v0.probe_pool[c as int].latency
                    },
                    None => forall|j: int| 0 <= j < i ==> !#[trigger] cold_usable(v0, j),
                },
            decreases n - i,
        {
            let hot = self.is_probe_hot(&self.probe_pool[i]);
            let fa = find_active_client(&self.clients, &self.probe_pool[i].server);
            proof {
                assert(v0.probe_pool[i as int] == self.probe_pool@[i as int]@);
                if fa is Some {
                    let k = fa->0;
                    assert(v0.clients[k as int].client_add == v0.probe_pool[i as int].server
                        && v0.clients[k as int].is_active);
                    assert(active_client_for(v0, v0.probe_pool[i as int].server));
                } else {
                    assert forall|k: int|
                        0 <= k < v0.clients.len() implies !(#[trigger] v0.clients[k].client_add
                        == v0.probe_pool[i as int].server && v0.clients[k].is_active) by {
                        assert(clients_view(self.clients@)[k] == v0.clients[k]);
                    }
                    assert(!active_client_for(v0, v0.probe_pool[i as int].server));
                }
            }
            if !hot && fa.is_some() {
                let take = match best_cold {
                    None => true,
                    Some(c) => self.probe_pool[i].latency < self.probe_pool[c].latency,
                };
                if take {
                    best_cold = Some(i);
                }
            }
            proof {
                assert(cold_usable(v0, i as int) <==> (!hot && fa is Some));
            }
            i = i + 1;
        }
        let chosen: usize;
        if let Some(c) = best_cold {
            chosen = c;
            proof {
                assert(any_cold_usable(v0));
                assert(chosen_probe(v0, c as int));
            }
        } else {
            // Second tier: every usable sample is hot; take the first-seen
            // usable sample of minimum requests-in-flight.
            let mut best: Option<usize> = None;
            let mut i2: usize = 0;
            while i2 < n
                invariant
                    old(self).wf(),
                    self == old(self),
                    v0 == old(self)@,
                    n == self.probe_pool.len(),
                    i2 <= n,
                    match best {
                        Some(c) => {
                            &&& (c as int) < i2 as int
                            &&& probe_usable(v0, c as int)
                            &&& forall|j: int|
                                0 <= j < i2 && #[trigger] probe_usable(v0, j) ==> v0.probe_pool[
                                    c as int
                                ].rif <= v0.probe_pool[j].rif
                            &&& forall|j: int|
                                0 <= j < c && #[trigger] probe_usable(v0, j) ==> v0.probe_pool[
                                    j
                                ].rif > v0.probe_pool[c as int].rif
                        },
                        None => forall|j: int| 0 <= j < i2 ==> !#[trigger] probe_usable(v0, j),
                    },
                decreases n - i2,
            {
                let fa = find_active_client(&self.clients, &self.probe_pool[i2].server);
                proof {
                    assert(v0.probe_pool[i2 as int] == self.probe_pool@[i2 as int]@);
                    if fa is Some {
                        let k = fa->0;
                        assert(v0.clients[k as int].client_add == v0.probe_pool[i2 as int].server
                            && v0.clients[k as int].is_active);
                        assert(active_client_for(v0, v0.probe_pool[i2 as int].server));
                    } else {
                        assert forall|k: int|
                            0 <= k < v0.clients.len() implies !(#[trigger] v0.clients[
                            k].client_add == v0.probe_pool[i2 as int].server && v0.clients[
                            k].is_active) by {
                            assert(clients_view(self.clients@)[k] == v0.clients[k]);
                        }
                        assert(!active_client_for(v0, v0.probe_pool[i2 as int].server));
                    }
                }
                if fa.is_some() {
                    let take = match best {
                        None => true,
                        Some(c) => self.probe_pool[i2].rif < self.probe_pool[c].rif,
                    };
                    if take {
                        best = Some(i2);
                    }
                }
                proof {
                    assert(probe_usable(v0, i2 as int) <==> fa is Some);
                }
                i2 = i2 + 1;
            }
            match best {
                Some(b) => {
                    chosen = b;
                    proof {
                        assert(!any_cold_usable(v0)) by {
                            assert(forall|j: int| !#[trigger] cold_usable(v0, j));
                        }
                        assert(chosen_probe(v0, b as int));
                    }
                },
                None => {
                    proof {
                        assert(forall|j: int| !#[trigger] probe_usable(v0, j));
                        assert(!any_usable(v0));
                    }
                    return Err(LoadBalancerError::NoProbeFound);
                },
            }
        }
        // Resolve the chosen sample's backend, then count the dispatch.
        let fa = find_active_client(&self.clients, &self.probe_pool[chosen].server);
        let k = match fa {
            Some(k) => k,
            None => {
                proof {
                    assert(v0.probe_pool[chosen as int] == self.probe_pool@[chosen as int]@);
                    assert(active_client_for(v0, v0.probe_pool[chosen as int].server));
                    let kw = choose|kw: int|
                        0 <= kw < v0.clients.len() && v0.clients[kw].client_add == v0.probe_pool[
                            chosen as int
                        ].server && v0.clients[kw].is_active;
                    assert(clients_view(self.clients@)[kw] == v0.clients[kw]);
                    assert(false);
                }
                return Err(LoadBalancerError::NoProbeFound);
            },
        };
        let p = self.probe_pool.remove(chosen);
        let bumped = Probe {
            server: p.server,
            rif: p.rif,
            latency: p.latency,
            times_used: if p.times_used == u32::MAX {
                0
            } else {
                p.times_used + 1
            },
            norm_max_rif: p.norm_max_rif,
        };
        let ghost bv = bumped@;
        self.probe_pool.insert(chosen, bumped);
        proof {
            assert(bv == bump_use(v0.probe_pool[chosen as int]));
            assert(self@.probe_pool =~= v0.probe_pool.update(chosen as int, bv));
            assert(self@.clients =~= v0.clients);
            assert forall|a: int, b: int|
                0 <= a < b < self@.probe_pool.len() implies self@.probe_pool[a].server != self@
                .probe_pool[b].server by {
                assert(v0.probe_pool[a].server != v0.probe_pool[b].server);
            }
            assert forall|a: int| 0 <= a < self@.probe_pool.len() implies (#[trigger] self@
                .probe_pool[a].norm_max_rif == v0.max_rif && self@.probe_pool[a].rif
                <= v0.max_rif) by {
                assert(v0.probe_pool[a].norm_max_rif == v0.max_rif);
                assert(v0.probe_pool[a].rif <= v0.max_rif);
            }
            assert(probe_usable(v0, chosen as int));
            assert(any_usable(v0));
        }
        Ok(k)
    }
}

/// The requests-in-flight values of the pool's samples.
pub open spec fn pool_rifs(pool: Seq<ProbeV>) -> Seq<u128> {
    pool.map_values(|p: ProbeV| p.rif as u128)
}

/// The latency values of the pool's samples.
pub open spec fn pool_latencies(pool: Seq<ProbeV>) -> Seq<u128> {
    pool.map_values(|p: ProbeV| p.latency as u128)
}

/// The median of a sorted sequence lies between its first and last element.
proof fn lemma_median_in_range(s: Seq<u128>)
    requires
        sorted(s),
        s.len() > 0,
    ensures
        s[0] as int <= median_of(s) <= s.last() as int,
{
    let n = s.len() as int;
    if s.len() % 2 == 1 {
        assert(s[0] <= s[n / 2]);
        assert(s[n / 2] <= s[n - 1]);
    } else {
        let a = s[n / 2 - 1];
        let b = s[n / 2];
        assert(a <= b);
        assert(s[0] <= a && b <= s[n - 1]);
        assert(a as int <= (a + b) as int / 2 <= b as int) by (nonlinear_arith)
            requires
                a <= b,
        ;
    }
}

impl LoadBalancer {
    /// Summarize the pool for observers: the median of the samples'
    /// requests-in-flight counts and the median of their latencies, or zero
    /// for both when the pool is empty.
    pub fn get_metrics(&self) -> (r: Metric)
        ensures
            self@.probe_pool.len() == 0 ==> r == (Metric { rif: 0, latency: 0 }),
            self@.probe_pool.len() > 0 ==> (forall|s: Seq<u128>|
                sorted(s) && s.to_multiset() == pool_rifs(self@.probe_pool).to_multiset()
                    ==> r.rif as int == median_of(s)) && (forall|s: Seq<u128>|
                sorted(s) && s.to_multiset() == pool_latencies(self@.probe_pool).to_multiset()
                    ==> r.latency as int == median_of(s)),
    {
        broadcast use vstd::seq_lib::group_to_multiset_ensures;

        let ghost pool = self@.probe_pool;
        let n = self.probe_pool.len();
        let mut rifs = MedianFinder::new();
        let mut lats = MedianFinder::new();
        let mut i: usize = 0;
        proof {
            assert(pool_rifs(pool.subrange(0, 0)) =~= Seq::<u128>::empty());
            assert(pool_latencies(pool.subrange(0, 0)) =~= Seq::<u128>::empty());
            assert(rifs@.to_multiset() =~= pool_rifs(pool.subrange(0, 0)).to_multiset());
            assert(lats@.to_multiset() =~= pool_latencies(pool.subrange(0, 0)).to_multiset());
        }
        while i < n
            invariant
                n == self.probe_pool.len(),
                i <= n,
                pool == self@.probe_pool,
                rifs.wf(),
                lats.wf(),
                rifs@.len() == i,
                lats@.len() == i,
                rifs@.to_multiset() == pool_rifs(pool.subrange(0, i as int)).to_multiset(),
                lats@.to_multiset() == pool_latencies(pool.subrange(0, i as int)).to_multiset(),
                forall|x: u128| #[trigger] rifs@.to_multiset().count(x) > 0 ==> x <= u32::MAX,
                forall|x: u128| #[trigger] lats@.to_multiset().count(x) > 0 ==> x <= u64::MAX,
            decreases n - i,
        {
            broadcast use vstd::seq_lib::group_to_multiset_ensures;

            let ghost prefix = pool.subrange(0, i as int);
            let p = &self.probe_pool[i];
            let prif: u128 = p.rif as u128;
            let plat: u128 = p.latency as u128;
            proof {
                assert(pool[i as int] == self.probe_pool@[i as int]@);
                assert(prefix.push(pool[i as int]) =~= pool.subrange(0, i as int + 1));
                assert(pool_rifs(prefix.push(pool[i as int])) =~= pool_rifs(prefix).push(prif));
                assert(pool_latencies(prefix.push(pool[i as int])) =~= pool_latencies(
                    prefix,
                ).push(plat));
            }
            rifs.add_latency(prif);
            lats.add_latency(plat);
            i = i + 1;
        }
        proof {
            assert(pool.subrange(0, n as int) =~= pool);
        }
        let mr = rifs.find_median();
        let ml = lats.find_median();
        match (mr, ml) {
            (Some(a), Some(b)) => {
                proof {
                    rifs.lemma_view_sorted();
                    lats.lemma_view_sorted();
                    lemma_median_in_range(rifs@);
                    lemma_median_in_range(lats@);
                    assert(rifs@.contains(rifs@.last()));
                    assert(rifs@.to_multiset().count(rifs@.last()) > 0);
                    assert(lats@.contains(lats@.last()));
                    assert(lats@.to_multiset().count(lats@.last()) > 0);
                    assert(a <= u32::MAX as u128);
                    assert(b <= u64::MAX as u128);
                    assert forall|s: Seq<u128>|
                        sorted(s) && s.to_multiset() == pool_rifs(pool).to_multiset() implies (
                    a as u32) as int == median_of(s) by {
                        lemma_median_of_multiset(rifs, s);
                    }
                    assert forall|s: Seq<u128>|
                        sorted(s) && s.to_multiset() == pool_latencies(pool).to_multiset() implies (
                    b as u64) as int == median_of(s) by {
                        lemma_median_of_multiset(lats, s);
                    }
                }
                Metric { rif: a as u32, latency: b as u64 }
            },
            _ => {
                proof {
                    if pool.len() > 0 {
                        assert(rifs@.len() > 0 && lats@.len() > 0);
                        assert(false);
                    }
                }
                Metric { rif: 0, latency: 0 }
            },
        }
    }
}

/// How many registry entries are active.
pub open spec fn active_count(cs: Seq<ClientV>) -> int
    decreases cs.len(),
{
    if cs.len() == 0 {
        0
    } else {
        active_count(cs.drop_last()) + if cs.last().is_active {
            1int
        } else {
            0int
        }
    }
}

impl LoadBalancer {
    /// Pick the registry slots to probe this tick: up to `PROBE_POOL_SIZE`
    /// distinct slots, drawn without replacement from the active backends
    /// only — inactive backends are never probed; the reactivation pass
    /// handles them instead.
    pub fn choose_probe_targets(&self) -> (r: Vec<usize>)
        ensures
            forall|t: int|
                0 <= t < r@.len() ==> (#[trigger] r@[t] as int) < self@.clients.len()
                    && self@.clients[r@[t] as int].is_active,
            forall|a: int, b: int| 0 <= a < b < r@.len() ==> r@[a] != r@[b],
            r@.len() == if active_count(self@.clients) < PROBE_POOL_SIZE as int {
                active_count(self@.clients)
            } else {
                PROBE_POOL_SIZE as int
            },
    {
        let ghost cs = self@.clients;
        let n = self.clients.len();
        let mut idxs: Vec<usize> = Vec::new();
        let mut k: usize = 0;
        proof {
            assert(cs.subrange(0, 0) =~= Seq::<ClientV>::empty());
        }
        while k < n
            invariant
                n == self.clients.len(),
                k <= n,
                cs == self@.clients,
                idxs@.len() == active_count(cs.subrange(0, k as int)),
                forall|t: int|
                    0 <= t < idxs@.len() ==> (#[trigger] idxs@[t] as int) < k as int && cs[idxs@[
                        t
                    ] as int].is_active,
                forall|a: int, b: int| 0 <= a < b < idxs@.len() ==> idxs@[a] < idxs@[b],
            decreases n - k,
        {
            let ghost prefix = cs.subrange(0, k as int);
            proof {
                assert(cs.subrange(0, k as int + 1).drop_last() =~= prefix);
                assert(cs.subrange(0, k as int + 1).last() == cs[k as int]);
                assert(cs[k as int] == clients_view(self.clients@)[k as int]);
            }
            if self.clients[k].is_active {
                idxs.push(k);
            }
            k = k + 1;
        }
        proof {
            assert(cs.subrange(0, n as int) =~= cs);
        }
        let avail = idxs.len();
        let amount = if avail < PROBE_POOL_SIZE {
            avail
        } else {
            PROBE_POOL_SIZE
        };
        let mut rng = crate::rng::fresh_rng();
        let picks = crate::rng::sample_indices(&mut rng, avail, amount);
        let mut out: Vec<usize> = Vec::new();
        let mut t: usize = 0;
        while t < picks.len()
            invariant
                avail == idxs@.len(),
                t <= picks@.len(),
                out@.len() == t,
                cs == self@.clients,
                forall|x: int| 0 <= x < picks@.len() ==> (#[trigger] picks@[x] as int) < avail,
                forall|a: int, b: int| 0 <= a < b < picks@.len() ==> picks@[a] != picks@[b],
                forall|x: int|
                    0 <= x < idxs@.len() ==> (#[trigger] idxs@[x] as int) < cs.len() && cs[idxs@[
                        x
                    ] as int].is_active,
                forall|a: int, b: int| 0 <= a < b < idxs@.len() ==> idxs@[a] < idxs@[b],
                forall|x: int| 0 <= x < t ==> #[trigger] out@[x] == idxs@[picks@[x] as int],
                forall|x: int|
                    0 <= x < t ==> (#[trigger] out@[x] as int) < cs.len() && cs[out@[
                        x
                    ] as int].is_active,
            decreases picks@.len() - t,
        {
            let pick = picks[t];
            out.push(idxs[pick]);
            t = t + 1;
        }
        proof {
            assert forall|a: int, b: int| 0 <= a < b < out@.len() implies out@[a] != out@[b] by {
                assert(out@[a] == idxs@[picks@[a] as int]);
                assert(out@[b] == idxs@[picks@[b] as int]);
                let pa = picks@[a] as int;
                let pb = picks@[b] as int;
                assert(pa != pb);
                if pa < pb {
                    assert(idxs@[pa] < idxs@[pb]);
                } else {
                    assert(idxs@[pb] < idxs@[pa]);
                }
            }
        }
        out
    }
}

} // verus!

