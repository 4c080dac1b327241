use load_balancer::agent::make_greeting;
use load_balancer::agent::MyGreeter;

#[test]
fn test_greeting_embeds_server_id() {
    assert_eq!(make_greeting("world", "1"), "Hello world! from server 1");
    assert_eq!(make_greeting("tonic", "1"), "Hello tonic! from server 1");
    assert_eq!(make_greeting("Rustacean", "2"), "Hello Rustacean! from server 2");
}

#[test]
fn test_rif_returns_to_zero_after_request() {
    let mut greeter = MyGreeter::new();
    greeter.start_request();
    assert_eq!(greeter.get_metrics().rif, 1);
    greeter.finish_request(1_000_000);
    assert_eq!(greeter.get_metrics().rif, 0);
}

#[test]
fn test_metrics_after_requests() {
    let mut greeter = MyGreeter::new();
    for i in 0..10u128 {
        greeter.start_request();
        greeter.finish_request(1_000_000 + i);
    }
    let metrics = greeter.get_metrics();
    assert_eq!(metrics.rif, 0); // All requests should be processed by now
    assert!(metrics.latency > 0); // Latency should be recorded
}

#[test]
fn test_metrics_without_latency_samples() {
    let mut greeter = MyGreeter::new();
    greeter.start_request();
    // The probe reports the live in-flight count and 0 for the median while
    // nothing has completed, and is itself not counted.
    let metrics = greeter.get_metrics();
    assert_eq!(metrics.rif, 1);
    assert_eq!(metrics.latency, 0);
    greeter.finish_request(500);
}

#[test]
fn test_metrics_repeatable_without_requests() {
    let mut greeter = MyGreeter::new();
    greeter.start_request();
    greeter.finish_request(2_500);
    greeter.start_request();
    greeter.finish_request(3_500);
    // Two probes with no request in between agree.
    let first = greeter.get_metrics();
    let second = greeter.get_metrics();
    assert_eq!(first.rif, second.rif);
    assert_eq!(first.latency, second.latency);
    assert_eq!(first.latency, 3_000);
}

#[test]
fn test_latency_median_is_truncated_to_u64() {
    let mut greeter = MyGreeter::new();
    greeter.start_request();
    greeter.finish_request(u64::MAX as u128 + 7);
    // The median is kept in 128 bits internally and truncated when
    // reported.
    assert_eq!(greeter.get_metrics().latency, 6);
}
