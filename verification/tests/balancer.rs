use load_balancer::balancer::LoadBalancer;
use load_balancer::balancer::LoadBalancerError;
use load_balancer::metric::Metric;

const Q_80_PERCENT: u32 = 800_000;

fn connected(lb: &mut LoadBalancer, addr: &str) {
    lb.add_client(addr.to_string(), Ok(())).unwrap();
}

/// Raise `max_rif` to `m` without leaving a sample behind: probe a
/// short-lived backend reporting `m`, then drop it as transiently
/// unavailable.
fn raise_max_rif(lb: &mut LoadBalancer, m: u32) {
    let ghostly = "transient".to_string();
    lb.apply_probe_success(&ghostly, m, 1);
    lb.apply_probe_failure(&ghostly, true);
    assert_eq!(lb.max_rif, m);
}

#[test]
fn test_add_client_failure_reports_cause() {
    let mut lb = LoadBalancer::new(Q_80_PERCENT);
    let r = lb.add_client("http://b0".to_string(), Err("refused".to_string()));
    match r {
        Err(LoadBalancerError::UnableToEstablishConnectivity(cause)) => {
            assert_eq!(cause, "refused");
        }
        _ => panic!("expected a connectivity error"),
    }
    assert_eq!(lb.clients.len(), 0);
}

#[test]
fn test_add_then_remove_restores_registry() {
    let mut lb = LoadBalancer::new(Q_80_PERCENT);
    connected(&mut lb, "http://a");
    assert_eq!(lb.clients.len(), 1);
    connected(&mut lb, "http://b");
    lb.remove_client("http://b".to_string()).unwrap();
    assert_eq!(lb.clients.len(), 1);
    assert_eq!(lb.clients[0].client_add, "http://a");
    // Removing an unknown address is a silent no-op.
    lb.remove_client("http://zzz".to_string()).unwrap();
    assert_eq!(lb.clients.len(), 1);
}

#[test]
fn test_remove_drops_last_duplicate() {
    let mut lb = LoadBalancer::new(Q_80_PERCENT);
    connected(&mut lb, "http://a");
    connected(&mut lb, "http://a");
    lb.remove_client("http://a".to_string()).unwrap();
    assert_eq!(lb.clients.len(), 1);
    assert_eq!(lb.clients[0].client_add, "http://a");
}

#[test]
fn test_empty_pool_has_no_probe() {
    let mut lb = LoadBalancer::new(Q_80_PERCENT);
    connected(&mut lb, "http://b0");
    assert!(matches!(lb.get_server(), Err(LoadBalancerError::NoProbeFound)));
}

#[test]
fn test_cold_start_single_backend() {
    let mut lb = LoadBalancer::new(Q_80_PERCENT);
    connected(&mut lb, "http://b0");
    // A probe reaches the backend and yields one sample.
    lb.apply_probe_success(&"http://b0".to_string(), 0, 5_000);
    assert_eq!(lb.probe_pool.len(), 1);
    assert_eq!(lb.probe_pool[0].server, "http://b0");
    let r = lb.get_server().unwrap();
    assert_eq!(r, 0);
    assert_eq!(lb.probe_pool[0].times_used, 1);
}

#[test]
fn test_all_cold_min_latency_wins() {
    let mut lb = LoadBalancer::new(Q_80_PERCENT);
    connected(&mut lb, "http://b1");
    connected(&mut lb, "http://b2");
    connected(&mut lb, "http://b3");
    raise_max_rif(&mut lb, 100);
    lb.apply_probe_success(&"http://b1".to_string(), 1, 10);
    lb.apply_probe_success(&"http://b2".to_string(), 5, 3);
    lb.apply_probe_success(&"http://b3".to_string(), 2, 7);
    // Normalized loads 0.01, 0.05, 0.02 are all below 0.8: every backend is
    // cold, so the lowest latency (3) wins.
    let r = lb.get_server().unwrap();
    assert_eq!(lb.clients[r].client_add, "http://b2");
}

#[test]
fn test_all_hot_min_rif_wins() {
    let mut lb = LoadBalancer::new(Q_80_PERCENT);
    connected(&mut lb, "http://b1");
    connected(&mut lb, "http://b2");
    connected(&mut lb, "http://b3");
    raise_max_rif(&mut lb, 100);
    lb.apply_probe_success(&"http://b1".to_string(), 90, 3);
    lb.apply_probe_success(&"http://b2".to_string(), 95, 2);
    lb.apply_probe_success(&"http://b3".to_string(), 88, 9);
    // Normalized loads 0.90, 0.95, 0.88 all reach 0.8: every backend is
    // hot, so the lowest requests-in-flight count (88) wins.
    let r = lb.get_server().unwrap();
    assert_eq!(lb.clients[r].client_add, "http://b3");
}

#[test]
fn test_max_rif_jump_renormalizes() {
    let mut lb = LoadBalancer::new(Q_80_PERCENT);
    lb.apply_probe_success(&"http://s1".to_string(), 10, 1);
    assert_eq!(lb.max_rif, 10);
    lb.apply_probe_success(&"http://s2".to_string(), 20, 1);
    assert_eq!(lb.max_rif, 20);
    for p in &lb.probe_pool {
        assert_eq!(p.norm_max_rif, 20);
    }
    // A new probe reporting 100 raises the maximum and renormalizes the
    // prior samples before its own sample is appended.
    lb.apply_probe_success(&"http://s3".to_string(), 100, 1);
    assert_eq!(lb.max_rif, 100);
    assert_eq!(lb.probe_pool.len(), 3);
    for p in &lb.probe_pool {
        // Each sample's normalized load is rif / norm_max_rif: here
        // 10/100 = 0.1, 20/100 = 0.2 and 100/100 = 1.0.
        assert_eq!(p.norm_max_rif, 100);
    }
    assert_eq!(lb.probe_pool[0].rif, 10);
    assert_eq!(lb.probe_pool[1].rif, 20);
    assert_eq!(lb.probe_pool[2].rif, 100);
}

#[test]
fn test_max_rif_never_decreases() {
    let mut lb = LoadBalancer::new(Q_80_PERCENT);
    lb.apply_probe_success(&"http://s1".to_string(), 100, 1);
    assert_eq!(lb.max_rif, 100);
    // Lower reports never pull the maximum back down.
    lb.apply_probe_success(&"http://s1".to_string(), 5, 1);
    assert_eq!(lb.max_rif, 100);
    lb.apply_probe_failure(&"http://s1".to_string(), true);
    assert_eq!(lb.max_rif, 100);
}

#[test]
fn test_selection_ties_break_first_seen() {
    let mut lb = LoadBalancer::new(Q_80_PERCENT);
    connected(&mut lb, "http://b1");
    connected(&mut lb, "http://b2");
    raise_max_rif(&mut lb, 100);
    lb.apply_probe_success(&"http://b1".to_string(), 2, 7);
    lb.apply_probe_success(&"http://b2".to_string(), 1, 7);
    // Equal latencies among cold samples: the earlier sample wins.
    let r = lb.get_server().unwrap();
    assert_eq!(lb.clients[r].client_add, "http://b1");
}

#[test]
fn test_upsert_replaces_existing_sample() {
    let mut lb = LoadBalancer::new(Q_80_PERCENT);
    lb.apply_probe_success(&"http://s1".to_string(), 3, 9);
    lb.apply_probe_success(&"http://s1".to_string(), 4, 11);
    assert_eq!(lb.probe_pool.len(), 1);
    assert_eq!(lb.probe_pool[0].rif, 4);
    assert_eq!(lb.probe_pool[0].latency, 11);
    assert_eq!(lb.probe_pool[0].times_used, 0);
}

#[test]
fn test_hard_probe_failure_inactivates() {
    let mut lb = LoadBalancer::new(Q_80_PERCENT);
    connected(&mut lb, "http://b0");
    lb.apply_probe_success(&"http://b0".to_string(), 1, 5);
    assert_eq!(lb.probe_pool.len(), 1);
    // The next probe fails with a non-transient error: the sample goes and
    // the backend is marked inactive.
    lb.apply_probe_failure(&"http://b0".to_string(), false);
    assert_eq!(lb.probe_pool.len(), 0);
    assert!(!lb.clients[0].is_active);
    // Even a re-probed sample does not route to an inactive backend.
    lb.apply_probe_success(&"http://b0".to_string(), 1, 5);
    assert!(matches!(lb.get_server(), Err(LoadBalancerError::NoProbeFound)));
    // Reconnection brings it back.
    lb.mark_active_at(0);
    assert!(lb.clients[0].is_active);
    let r = lb.get_server().unwrap();
    assert_eq!(r, 0);
}

#[test]
fn test_transient_failure_keeps_backend_active() {
    let mut lb = LoadBalancer::new(Q_80_PERCENT);
    connected(&mut lb, "http://b0");
    lb.apply_probe_success(&"http://b0".to_string(), 1, 5);
    lb.apply_probe_failure(&"http://b0".to_string(), true);
    assert_eq!(lb.probe_pool.len(), 0);
    assert!(lb.clients[0].is_active);
}

#[test]
fn test_selection_skips_inactive_backend() {
    let mut lb = LoadBalancer::new(Q_80_PERCENT);
    connected(&mut lb, "http://b1");
    connected(&mut lb, "http://b2");
    lb.apply_probe_success(&"http://b1".to_string(), 1, 1);
    lb.apply_probe_success(&"http://b2".to_string(), 1, 50);
    // The lower-latency backend goes down; selection must not return it.
    lb.apply_probe_failure(&"http://b1".to_string(), false);
    let r = lb.get_server().unwrap();
    assert_eq!(lb.clients[r].client_add, "http://b2");
    assert!(lb.clients[r].is_active);
}

#[test]
fn test_pool_metrics_empty_pool_is_zero() {
    let lb = LoadBalancer::new(Q_80_PERCENT);
    assert_eq!(lb.get_metrics(), Metric { rif: 0, latency: 0 });
}

#[test]
fn test_pool_metrics_medians() {
    let mut lb = LoadBalancer::new(Q_80_PERCENT);
    lb.apply_probe_success(&"http://s1".to_string(), 1, 10);
    lb.apply_probe_success(&"http://s2".to_string(), 2, 20);
    lb.apply_probe_success(&"http://s3".to_string(), 3, 30);
    assert_eq!(lb.get_metrics(), Metric { rif: 2, latency: 20 });
    // An even count takes the floor of the mean of the two middle values.
    lb.apply_probe_success(&"http://s4".to_string(), 4, 41);
    assert_eq!(lb.get_metrics(), Metric { rif: 2, latency: 25 });
}

#[test]
fn test_choose_probe_targets_active_only() {
    let mut lb = LoadBalancer::new(Q_80_PERCENT);
    connected(&mut lb, "http://a");
    connected(&mut lb, "http://down");
    connected(&mut lb, "http://c");
    lb.apply_probe_failure(&"http://down".to_string(), false);
    for _ in 0..20 {
        let mut targets = lb.choose_probe_targets();
        targets.sort();
        // Exactly the two active slots, each at most once.
        assert_eq!(targets, vec![0, 2]);
    }
}

#[test]
fn test_choose_probe_targets_fewer_than_batch() {
    let mut lb = LoadBalancer::new(Q_80_PERCENT);
    assert_eq!(lb.choose_probe_targets().len(), 0);
    connected(&mut lb, "http://a");
    assert_eq!(lb.choose_probe_targets(), vec![0]);
}
