use anyrelay::config::{build_auth_header, AuthType, Defaults};
use anyrelay::pool::PoolConfig;
use anyrelay::timeout::TimeoutConfig;

#[test]
fn pool_test_default_pool_config() {
    let config = PoolConfig::default();
    assert_eq!(config.pool_idle_timeout_ms, 90_000);
    assert_eq!(config.pool_max_idle_per_host, 8);
    assert_eq!(config.max_retries, 3);
    assert_eq!(config.retry_backoff_base_ms, 100);
}

#[test]
fn pool_test_custom_pool_config() {
    let config = PoolConfig::new(10, 2, 5, 250);
    assert_eq!(config.pool_idle_timeout_ms, 10_000);
    assert_eq!(config.pool_max_idle_per_host, 2);
    assert_eq!(config.max_retries, 5);
    assert_eq!(config.retry_backoff_base_ms, 250);
}

#[test]
fn timeout_test_default_timeouts() {
    let config = TimeoutConfig::default();
    assert_eq!(config.connect_ms, 5_000);
    assert_eq!(config.request_ms, 30_000);
    assert_eq!(config.idle_ms, 60_000);
}

#[test]
fn timeout_test_custom_timeouts() {
    let config = TimeoutConfig::new(10, 60, 120);
    assert_eq!(config.connect_ms, 10_000);
    assert_eq!(config.request_ms, 60_000);
    assert_eq!(config.idle_ms, 120_000);
}

#[test]
fn timeout_test_from_defaults() {
    let defaults = Defaults {
        active: "test".to_string(),
        timeout_seconds: 45,
        connect_timeout_seconds: 10,
        idle_timeout_seconds: 90,
        pool_idle_timeout_seconds: 120,
        pool_max_idle_per_host: 4,
        max_retries: 2,
        retry_backoff_base_ms: 150,
    };

    let config = TimeoutConfig::from_defaults(&defaults);
    assert_eq!(config.request_ms, 45_000);
    assert_eq!(config.connect_ms, 10_000);
    assert_eq!(config.idle_ms, 90_000);
}

#[test]
fn auth_header_api_key_mode() {
    let h = build_auth_header(AuthType::ApiKey, Some("k-123".to_string()));
    assert_eq!(h, Some(("x-api-key".to_string(), "k-123".to_string())));
}

#[test]
fn auth_header_bearer_mode() {
    let h = build_auth_header(AuthType::Bearer, Some("tok".to_string()));
    assert_eq!(h, Some(("Authorization".to_string(), "Bearer tok".to_string())));
}

#[test]
fn auth_header_passthrough_and_missing_key() {
    assert_eq!(build_auth_header(AuthType::Passthrough, Some("k".to_string())), None);
    assert_eq!(build_auth_header(AuthType::ApiKey, None), None);
}
