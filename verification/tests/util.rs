//! Timestamps, identifiers, configuration, circuit breaker, dashboard
//! panels, health bodies.

use market_data::breaker::{CircuitBreaker, CircuitBreakerConfig, CircuitBreakerError, CircuitBreakerState};
use market_data::config::Config;
use market_data::dashboard::Panel;
use market_data::health::{health_body, ready_body, HealthServer, SnapshotFetcher};
use market_data::ids::{generate_client_order_id, generate_order_id, generate_span_id, generate_trace_id};
use market_data::sys::generate_uuid;
use market_data::timestamp::Timestamp;

#[test]
fn test_timestamp_now() {
    let ts = Timestamp::now();
    assert!(ts.seconds > 0);
    assert!(ts.nanos >= 0 && ts.nanos < 1_000_000_000);
}

#[test]
fn test_timestamp_conversions() {
    let ts = Timestamp::new(1234567890, 123456789);
    assert_eq!(ts.unix(), 1234567890);
    assert_eq!(ts.unix_milli(), 1234567890123);
    assert_eq!(ts.unix_micro(), 1234567890123456);
}

#[test]
fn timestamp_ordering_and_arithmetic() {
    let a = Timestamp::new(10, 500_000_000);
    let b = Timestamp::new(11, 100_000_000);
    assert!(a.before(&b));
    assert!(b.after(&a));
    let d = b.duration_since(&a);
    assert_eq!(d.as_secs(), 0);
    assert_eq!(d.subsec_nanos(), 600_000_000);
    let c = a.add_duration(d);
    assert_eq!(c.seconds, b.seconds);
    assert_eq!(c.nanos, b.nanos);
    let back = c.sub_duration(d);
    assert_eq!(back.seconds, a.seconds);
    assert_eq!(back.nanos, a.nanos);
    assert!(Timestamp::new(0, 0).is_zero());
    assert!(!a.is_zero());
}

#[test]
fn test_generate_uuid() {
    let id1 = generate_uuid();
    let id2 = generate_uuid();
    assert_ne!(id1, id2);
    assert_eq!(id1.len(), 36); // UUID format
}

#[test]
fn test_generate_client_order_id() {
    let id = generate_client_order_id("strategy1");
    assert!(id.starts_with("strategy1_"));
}

#[test]
fn id_shapes() {
    let oid = generate_order_id("ord");
    assert!(oid.starts_with("ord_"));
    assert!(oid[4..].chars().all(|c| c.is_ascii_digit()));
    let span = generate_span_id();
    assert_eq!(span.len(), 16);
    assert!(span.chars().all(|c| c.is_ascii_hexdigit()));
    let trace = generate_trace_id();
    assert_eq!(trace.len(), 32);
    assert!(trace.chars().all(|c| c.is_ascii_hexdigit()));
}

#[test]
fn config_defaults_and_validation() {
    let c = Config::default();
    assert_eq!(c.symbols, vec!["BTCUSDT".to_string(), "ETHUSDT".to_string()]);
    assert_eq!(c.exchange_ws_url, "wss://fstream.binance.com/stream");
    assert_eq!(c.redis_url, "redis://127.0.0.1:6379");
    assert_eq!(c.order_book_depth, 20);
    assert_eq!(c.health_port, 9090);
    assert_eq!(c.shm_name, "market_data_shm");
    assert_eq!(c.reconnect_delay_ms, 1000);
    assert_eq!(c.max_reconnect_delay_ms, 60000);
    assert!(c.validate());
    let mut bad = Config::default();
    bad.symbols = vec![];
    assert!(!bad.validate());
    let mut inverted = Config::default();
    inverted.reconnect_delay_ms = 100_000;
    assert!(!inverted.validate());
}

#[test]
fn circuit_breaker_state_machine() {
    let mut cb = CircuitBreaker::new(CircuitBreakerConfig::default());
    assert_eq!(cb.get_state(), CircuitBreakerState::Closed);
    for t in 0..5u64 {
        assert!(cb.before_request(t).is_ok());
        cb.on_failure(t);
    }
    assert_eq!(cb.get_state(), CircuitBreakerState::Open);
    assert_eq!(cb.before_request(100), Err(CircuitBreakerError::Open));
    // after the timeout the breaker probes half-open
    assert!(cb.before_request(4 + 30_001).is_ok());
    assert_eq!(cb.get_state(), CircuitBreakerState::HalfOpen);
    cb.on_success();
    assert!(cb.before_request(40_000).is_ok());
    cb.on_success();
    assert!(cb.before_request(40_001).is_ok());
    cb.on_success();
    assert_eq!(cb.get_state(), CircuitBreakerState::Closed);
    // a failure while half-open trips straight back open
    let mut cb2 = CircuitBreaker::new(CircuitBreakerConfig::default());
    for t in 0..5u64 {
        let _ = cb2.before_request(t);
        cb2.on_failure(t);
    }
    assert!(cb2.before_request(40_000).is_ok());
    cb2.on_failure(40_000);
    assert_eq!(cb2.get_state(), CircuitBreakerState::Open);
    cb2.reset();
    assert_eq!(cb2.get_state(), CircuitBreakerState::Closed);
}

#[test]
fn panel_cycle() {
    let mut p = Panel::Positions;
    for _ in 0..6 {
        p = p.next();
    }
    assert_eq!(p, Panel::Positions);
    assert_eq!(Panel::Positions.prev(), Panel::Alerts);
    assert_eq!(Panel::Alerts.next(), Panel::Positions);
    assert_eq!(Panel::Orders.next().prev(), Panel::Orders);
}

#[test]
fn health_bodies() {
    assert_eq!(
        String::from_utf8(health_body()).unwrap(),
        "{\"status\":\"healthy\",\"service\":\"market-data\",\"version\":\"0.1.0\"}"
    );
    assert_eq!(String::from_utf8(ready_body()).unwrap(), "{\"status\":\"ready\"}");
    let hs = HealthServer::new(9090);
    assert_eq!(hs.port, 9090);
    let sf = SnapshotFetcher::new("https://fapi.binance.com".to_string());
    assert_eq!(sf.rest_api_url, "https://fapi.binance.com");
}

#[test]
fn circuit_breaker_probe_budget() {
    let mut cb = CircuitBreaker::new(CircuitBreakerConfig::default());
    for t in 0..5u64 {
        let _ = cb.before_request(t);
        cb.on_failure(t);
    }
    assert_eq!(cb.get_state(), CircuitBreakerState::Open);
    // the first probe after the timeout opens the half-open window
    assert!(cb.before_request(40_000).is_ok());
    assert!(cb.before_request(40_001).is_ok());
    assert!(cb.before_request(40_002).is_ok());
    // the budget of three probes is spent
    assert_eq!(
        cb.before_request(40_003),
        Err(CircuitBreakerError::TooManyRequests)
    );
}
