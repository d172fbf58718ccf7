use std::time::Duration;

use dregheap::config::{
    default_idle_connection_ttl, default_max_connection_lifetime, default_port,
    default_read_timeout_ms, default_write_timeout_ms, Config,
};
use dregheap::handler::ConnectionConfig;

fn config(port: u16, read: u64, write: u64) -> Config {
    Config {
        port,
        read_timeout_ms: read,
        write_timeout_ms: write,
        idle_connection_ttl: 5,
        max_connection_lifetime: 7,
        max_cache_weight: None,
    }
}

#[test]
fn defaults_have_documented_values() {
    assert_eq!(default_port(), 6767);
    assert_eq!(default_read_timeout_ms(), 10_000);
    assert_eq!(default_write_timeout_ms(), 10_000);
    assert_eq!(default_idle_connection_ttl(), 180_000);
    assert_eq!(default_max_connection_lifetime(), 1_800_000);
}

#[test]
fn validate_accepts_port_1024_and_positive_timeouts() {
    assert!(config(1024, 1, 1).validate().is_ok());
    assert!(config(6767, 10_000, 10_000).validate().is_ok());
}

#[test]
fn validate_rejects_privileged_port() {
    let err = config(80, 1, 1).validate().unwrap_err();
    assert_eq!(
        err.to_string(),
        "Invalid port number 80 port number must be 1025 or greater"
    );
    let err = config(0, 0, 0).validate().unwrap_err();
    assert_eq!(
        err.to_string(),
        "Invalid port number 0 port number must be 1025 or greater"
    );
}

#[test]
fn validate_rejects_zero_read_timeout() {
    let err = config(2000, 0, 0).validate().unwrap_err();
    assert_eq!(err.to_string(), "Invalid read timeout: must be greater than 0ms");
}

#[test]
fn validate_rejects_zero_write_timeout() {
    let err = config(2000, 1, 0).validate().unwrap_err();
    assert_eq!(err.to_string(), "Invalid write timeout: must be greater than 0ms");
}

#[test]
fn durations_are_built_from_milliseconds() {
    let c = config(2000, 1500, 2500);
    assert_eq!(c.read_timeout(), Duration::from_millis(1500));
    assert_eq!(c.write_timeout(), Duration::from_millis(2500));
    assert_eq!(c.idle_connection_ttl(), Duration::from_millis(5));
    assert_eq!(c.max_connection_lifetime(), Duration::from_millis(7));
}

#[test]
fn connection_config_default_durations() {
    let c = ConnectionConfig::default();
    assert_eq!(c.read_timeout, Duration::from_secs(10));
    assert_eq!(c.write_timeout, Duration::from_secs(10));
    assert_eq!(c.idle_connection_ttl, Duration::from_secs(180));
    assert_eq!(c.max_connection_lifetime, Duration::from_secs(1800));
}
