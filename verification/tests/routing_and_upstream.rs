//! Tests for the routing rules, the retry planner, the error envelope and
//! the backend state.

use anyrelay::backend::BackendState;
use anyrelay::config::{AuthType, Backend, Config, Defaults};
use anyrelay::metrics::{BackendAccumulator, ObservabilityHub, RequestRecord, StreamObserver};
use anyrelay::router::{error_envelope, health_body, match_prefix, route_request, RouteRule};
use anyrelay::upstream::{
    backoff_ms, content_length_after, is_event_stream, retry_decision, ProxyError, RetryDecision,
};

fn backend(name: &str, opus: Option<&str>) -> Backend {
    Backend {
        name: name.to_string(),
        display_name: name.to_uppercase(),
        base_url: format!("http://{}", name),
        auth_type: AuthType::Passthrough,
        auth_env_var: String::new(),
        model_opus: opus.map(String::from),
        model_sonnet: None,
        model_haiku: None,
    }
}

fn config(backends: Vec<Backend>, active: &str) -> Config {
    Config {
        defaults: Defaults { active: active.to_string(), ..Defaults::default() },
        backends,
    }
}

#[test]
fn path_prefix_rule_matches() {
    let rest = match_prefix("/teammate", "/teammate/v1/messages").expect("should match");
    assert_eq!(rest, "/v1/messages");
}

#[test]
fn path_prefix_rule_exact_match() {
    assert!(match_prefix("/teammate", "/teammate").is_some());
}

#[test]
fn path_prefix_rule_no_match() {
    assert!(match_prefix("/teammate", "/v1/messages").is_none());
}

#[test]
fn path_prefix_rule_rejects_partial_segment() {
    assert!(match_prefix("/teammate", "/teammates/v1/messages").is_none());
}

#[test]
fn route_request_first_match_wins() {
    let rules = vec![
        RouteRule { prefix: "/teammate".to_string(), backend: "cheap".to_string() },
        RouteRule { prefix: "/".to_string(), backend: "other".to_string() },
    ];
    let action = route_request(&rules, "/teammate/v1/messages").expect("should match");
    assert_eq!(action.backend, "cheap");
    assert_eq!(action.path, "/v1/messages");
}

#[test]
fn route_request_bare_prefix_rewrites_to_root() {
    let rules = vec![RouteRule { prefix: "/teammate".to_string(), backend: "x".to_string() }];
    let action = route_request(&rules, "/teammate").expect("should match");
    assert_eq!(action.path, "/");
}

#[test]
fn route_request_falls_through_without_match() {
    let rules = vec![RouteRule { prefix: "/teammate".to_string(), backend: "x".to_string() }];
    assert!(route_request(&rules, "/v1/messages").is_none());
}

#[test]
fn retry_backoff_sequence_doubles() {
    assert_eq!(backoff_ms(100, 0), 100);
    assert_eq!(backoff_ms(100, 1), 200);
    assert_eq!(backoff_ms(100, 2), 400);
}

#[test]
fn retry_plan_four_attempts_then_connection_error() {
    let max_retries = 3;
    let mut sleeps: Vec<u64> = Vec::new();
    let mut attempt: u32 = 0;
    loop {
        match retry_decision(attempt, max_retries, true, false, 100) {
            RetryDecision::RetryAfter(ms) => {
                sleeps.push(ms);
                attempt += 1;
            },
            RetryDecision::FailConnection => break,
            RetryDecision::FailTimeout => panic!("connect errors never end as timeout"),
        }
    }
    assert_eq!(sleeps, vec![100, 200, 400]);
    assert_eq!(attempt, 3, "retry counter after exhausting the budget");
}

#[test]
fn retry_plan_timeout_fails_as_timeout_when_exhausted() {
    match retry_decision(3, 3, false, true, 100) {
        RetryDecision::FailTimeout => {},
        _ => panic!("exhausted timeout must fail as timeout"),
    }
}

#[test]
fn retry_plan_non_retriable_fails_immediately() {
    match retry_decision(0, 3, false, false, 100) {
        RetryDecision::FailConnection => {},
        _ => panic!("non-retriable error must fail as connection error"),
    }
}

#[test]
fn event_stream_content_type_detected() {
    assert!(is_event_stream("text/event-stream"));
    assert!(is_event_stream("text/event-stream; charset=utf-8"));
    assert!(!is_event_stream("application/json"));
}

#[test]
fn content_length_stripped_on_rewrite() {
    assert_eq!(content_length_after(true, Some(123)), None);
    assert_eq!(content_length_after(false, Some(123)), Some(123));
    assert_eq!(content_length_after(false, None), None);
}

#[test]
fn test_backend_not_found_status_code() {
    let err = ProxyError::BackendNotFound { backend: "missing".to_string() };
    assert_eq!(err.status(), 502);
    assert_eq!(err.kind_name(), "backend_not_found");
}

#[test]
fn test_request_timeout_status_code() {
    let err = ProxyError::RequestTimeout { duration_ms: 30_000 };
    assert_eq!(err.status(), 504);
    assert_eq!(err.kind_name(), "request_timeout");
}

#[test]
fn error_envelope_statuses() {
    let cases: Vec<(ProxyError, u16, &str)> = vec![
        (ProxyError::BackendNotFound { backend: "x".into() }, 502, "backend_not_found"),
        (
            ProxyError::BackendNotConfigured { backend: "x".into(), reason: "no key".into() },
            502,
            "backend_not_configured",
        ),
        (ProxyError::ConnectionError { backend: "x".into() }, 502, "connection_error"),
        (ProxyError::RequestTimeout { duration_ms: 30000 }, 504, "request_timeout"),
        (ProxyError::InvalidRequest { message: "bad".into() }, 400, "invalid_request"),
        (ProxyError::Internal { message: "oops".into() }, 500, "internal"),
    ];
    for (err, status, kind) in cases {
        let (body, got_status) = error_envelope(&err, "something failed", "req-1");
        assert_eq!(got_status, status);
        let json: serde_json::Value = serde_json::from_slice(&body).unwrap();
        assert_eq!(json["type"], "error");
        assert_eq!(json["error"]["type"], kind);
        assert_eq!(json["error"]["message"], "something failed");
        assert_eq!(json["error"]["request_id"], "req-1");
    }
}

#[test]
fn health_body_reports_healthy_service() {
    let body = health_body("anyrelay");
    let json: serde_json::Value = serde_json::from_slice(&body).unwrap();
    assert_eq!(json["status"], "healthy");
    assert_eq!(json["service"], "anyrelay");
}

#[test]
fn backend_state_from_config_uses_default() {
    let cfg = config(vec![backend("a", None), backend("b", None)], "b");
    let state = BackendState::from_config(cfg).unwrap();
    assert_eq!(state.get_active_backend(), "b");
}

#[test]
fn backend_state_from_config_rejects_unknown_default() {
    let cfg = config(vec![backend("a", None)], "zzz");
    assert!(BackendState::from_config(cfg).is_err());
}

#[test]
fn backend_state_from_config_rejects_empty() {
    let cfg = config(vec![], "");
    assert!(BackendState::from_config(cfg).is_err());
}

#[test]
fn backend_state_switch_and_log() {
    let cfg = config(vec![backend("a", None), backend("b", None)], "a");
    let mut state = BackendState::from_config(cfg).unwrap();
    assert_eq!(state.switch_log_len(), 1);

    assert!(state.switch_backend("b").is_ok());
    assert_eq!(state.get_active_backend(), "b");
    assert_eq!(state.switch_log_len(), 2);

    assert!(state.switch_backend("b").is_ok(), "switching to the active backend is a no-op");
    assert_eq!(state.switch_log_len(), 2);

    assert!(state.switch_backend("zzz").is_err());
    assert_eq!(state.get_active_backend(), "b");
}

#[test]
fn backend_state_update_config_falls_back() {
    let cfg = config(vec![backend("a", None), backend("b", None)], "a");
    let mut state = BackendState::from_config(cfg).unwrap();
    state.switch_backend("b").unwrap();

    let new_cfg = config(vec![backend("a", None)], "a");
    state.update_config(new_cfg).unwrap();
    assert_eq!(state.get_active_backend(), "a", "absent active falls back to the default");
}

#[test]
fn backend_state_update_config_validates_absent_default() {
    let cfg = config(vec![backend("a", None), backend("b", None)], "a");
    let mut state = BackendState::from_config(cfg).unwrap();
    state.switch_backend("b").unwrap();

    // The new config names a default that does not exist: the fallback
    // must land on the first backend, keeping the invariant.
    let new_cfg = config(vec![backend("c", None), backend("d", None)], "zzz");
    state.update_config(new_cfg).unwrap();
    assert_eq!(state.get_active_backend(), "c");
    assert!(state.validate_backend(&state.get_active_backend()));
}

#[test]
fn backend_state_switch_log_records_transitions() {
    let cfg = config(vec![backend("a", None), backend("b", None)], "a");
    let mut state = BackendState::from_config(cfg).unwrap();
    state.switch_backend("b").unwrap();

    let log = state.get_switch_log();
    assert_eq!(log.len(), 2);
    assert_eq!(log[0].old_backend, None);
    assert_eq!(log[0].new_backend, "a");
    assert_eq!(log[1].old_backend, Some("a".to_string()));
    assert_eq!(log[1].new_backend, "b");
}

#[test]
fn backend_state_snapshot_is_consistent() {
    let cfg = config(vec![backend("a", Some("m-a")), backend("b", None)], "b");
    let state = BackendState::from_config(cfg).unwrap();
    let (snapshot, active) = state.get_config_and_active_backend();
    assert_eq!(active, "b");
    assert_eq!(snapshot.backends.len(), 2);
    assert_eq!(snapshot.defaults.active, "b");
    let found = anyrelay::backend::find_backend_in(&snapshot, "a").unwrap();
    assert_eq!(found.model_opus, Some("m-a".to_string()));
    assert!(anyrelay::backend::find_backend_in(&snapshot, "zzz").is_none());
}

#[test]
fn backend_resolve_model_by_family() {
    let b = backend("glm", Some("glm-5"));
    assert_eq!(b.resolve_model("opus-4-6"), Some("glm-5".to_string()));
    assert_eq!(b.resolve_model("haiku-3"), None);
}

#[test]
fn accumulator_counts_status_classes_and_timeouts() {
    let mut acc = BackendAccumulator::new();
    let mut rec = RequestRecord::new("r1".into(), "a".into(), 1000);
    rec.status = Some(200);
    rec.latency_ms = Some(50);
    acc.update(&rec);
    rec.status = Some(404);
    acc.update(&rec);
    rec.status = Some(504);
    acc.update(&rec);
    rec.status = None;
    rec.timed_out = true;
    acc.update(&rec);

    assert_eq!(acc.total, 4);
    assert_eq!(acc.success_2xx, 1);
    assert_eq!(acc.client_error_4xx, 1);
    assert_eq!(acc.server_error_5xx, 1);
    assert_eq!(acc.timeouts, 2);
    assert_eq!(acc.latency_samples, 4);
}

#[test]
fn percentile_picks_rounded_rank() {
    let values: Vec<u64> = vec![10, 20, 30, 40, 50, 60, 70, 80, 90, 100];
    assert_eq!(anyrelay::metrics::percentile(&values, 50, 100), Some(60));
    assert_eq!(anyrelay::metrics::percentile(&values, 95, 100), Some(100));
    assert_eq!(anyrelay::metrics::percentile(&values, 99, 100), Some(100));
    assert_eq!(anyrelay::metrics::percentile(&Vec::new(), 50, 100), None);
}

#[test]
fn idle_timeout_marks_record_timed_out() {
    let mut hub = ObservabilityHub::new(10);
    let record = hub.start_request("r1".to_string(), "glm".to_string(), 1_000);
    let mut observer = StreamObserver::new(record);
    observer.on_chunk(5, 1_100);
    observer.on_idle_timeout(&mut hub, 61_000);

    assert_eq!(hub.ring_len(), 1);
    let rec = hub.nth_record(0).unwrap();
    assert!(rec.timed_out, "idle timeout must mark the record timed out");
    assert_eq!(rec.response_bytes, 5);
    assert_eq!(rec.ttfb_ms, Some(100));

    observer.on_end(&mut hub, 62_000);
    assert_eq!(hub.ring_len(), 1, "finalization happens exactly once");
}

#[test]
fn shutdown_counter_tracks_connections() {
    let mut sd = anyrelay::shutdown::ShutdownManager::new();
    assert!(!sd.is_shutting_down());
    sd.increment_connections();
    sd.increment_connections();
    assert_eq!(sd.active_connections(), 2);
    sd.decrement_connections();
    sd.decrement_connections();
    sd.decrement_connections();
    assert_eq!(sd.active_connections(), 0, "the counter never goes below zero");
    sd.begin_shutdown();
    assert!(sd.is_shutting_down());
}

#[test]
fn record_backend_is_frozen_at_entry() {
    let cfg = config(vec![backend("a", None), backend("b", None)], "a");
    let mut state = BackendState::from_config(cfg).unwrap();
    let mut hub = ObservabilityHub::new(10);

    let entry_backend = state.get_active_backend();
    let record = hub.start_request("r1".to_string(), entry_backend.clone(), 100);

    state.switch_backend("b").unwrap();
    assert_eq!(state.get_active_backend(), "b");

    hub.finish_request(record, 200);
    let rec = hub.nth_record(0).unwrap();
    assert_eq!(rec.backend, "a", "the record keeps the backend chosen at entry");
}

#[test]
fn hub_ring_evicts_oldest_when_full() {
    let mut hub = ObservabilityHub::new(2);
    for i in 0..3u64 {
        let rec = hub.start_request(format!("r{}", i), "a".to_string(), i * 10);
        hub.finish_request(rec, i * 10 + 5);
    }
    assert_eq!(hub.ring_len(), 2);
    assert_eq!(hub.nth_record(0).unwrap().id, "r1");
    assert_eq!(hub.nth_record(1).unwrap().id, "r2");
}

fn parse(body: &str) -> anyrelay::json::Json {
    anyrelay::json::parse_json(body.as_bytes()).expect("test body is valid JSON")
}

fn get_str(j: &anyrelay::json::Json, key: &str) -> String {
    j.get(key).unwrap().as_str().unwrap().to_string()
}

fn get_u64(j: &anyrelay::json::Json, key: &str) -> u64 {
    j.get(key).unwrap().as_u64().unwrap()
}

#[test]
fn test_convert_adaptive_to_enabled_with_config_budget() {
    let mut body = parse(
        r#"{"model":"opus-4-6","max_tokens":32000,"thinking":{"type":"adaptive"}}"#,
    );
    let result = anyrelay::upstream::convert_adaptive_thinking(&mut body, Some(16000));
    assert_eq!(result, Some(true));
    let thinking = body.get("thinking").unwrap();
    assert_eq!(get_str(thinking, "type"), "enabled");
    assert_eq!(get_u64(thinking, "budget_tokens"), 16000);
}

#[test]
fn test_convert_adaptive_falls_back_to_max_tokens() {
    let mut body = parse(
        r#"{"model":"opus-4-6","max_tokens":32000,"thinking":{"type":"adaptive"}}"#,
    );
    let result = anyrelay::upstream::convert_adaptive_thinking(&mut body, None);
    assert_eq!(result, Some(true));
    let thinking = body.get("thinking").unwrap();
    assert_eq!(get_u64(thinking, "budget_tokens"), 31999);
}

#[test]
fn test_convert_adaptive_falls_back_to_default() {
    let mut body = parse(r#"{"model":"opus-4-6","thinking":{"type":"adaptive"}}"#);
    let result = anyrelay::upstream::convert_adaptive_thinking(&mut body, None);
    assert_eq!(result, Some(true));
    let thinking = body.get("thinking").unwrap();
    assert_eq!(get_u64(thinking, "budget_tokens"), 10000);
}

#[test]
fn test_convert_enabled_unchanged() {
    let mut body = parse(r#"{"thinking":{"type":"enabled","budget_tokens":8000}}"#);
    let result = anyrelay::upstream::convert_adaptive_thinking(&mut body, Some(16000));
    assert_eq!(result, Some(false));
    let thinking = body.get("thinking").unwrap();
    assert_eq!(get_str(thinking, "type"), "enabled");
    assert_eq!(get_u64(thinking, "budget_tokens"), 8000);
}

#[test]
fn test_convert_no_thinking_field() {
    let mut body = parse(r#"{"model":"opus-4-6"}"#);
    let result = anyrelay::upstream::convert_adaptive_thinking(&mut body, Some(16000));
    assert_eq!(result, None);
}

#[test]
fn response_parser_extracts_usage_and_stop_reason() {
    let parser = anyrelay::metrics::ResponseParser::new();
    let analysis = parser.parse_response(
        br#"{"usage":{"input_tokens":12,"output_tokens":34},"stop_reason":"end_turn"}"#,
    );
    assert_eq!(analysis.input_tokens, Some(12));
    assert_eq!(analysis.output_tokens, Some(34));
    assert_eq!(analysis.stop_reason, Some("end_turn".to_string()));
    assert_eq!(analysis.summary, "");
}

#[test]
fn response_parser_tolerates_garbage() {
    let parser = anyrelay::metrics::ResponseParser::new();
    let analysis = parser.parse_response(b"not json at all");
    assert_eq!(analysis.input_tokens, None);
    assert_eq!(analysis.output_tokens, None);
    assert_eq!(analysis.stop_reason, None);
}

#[test]
fn test_patch_header_replaces_adaptive() {
    let header = "code-20250219,adaptive-thinking-2026-01-28,prompt-caching-2024-07-31";
    let patched = anyrelay::upstream::patch_anthropic_beta_header(header);
    assert!(!patched.contains("adaptive-thinking"));
    assert!(patched.contains("interleaved-thinking-2025-05-14"));
    assert!(patched.contains("code-20250219"));
    assert!(patched.contains("prompt-caching-2024-07-31"));
}

#[test]
fn test_patch_header_preserves_existing_interleaved() {
    let header = "interleaved-thinking-2025-05-14,prompt-caching-2024-07-31";
    let patched = anyrelay::upstream::patch_anthropic_beta_header(header);
    assert_eq!(
        patched.matches("interleaved-thinking").count(),
        1,
        "should not duplicate interleaved-thinking"
    );
}

#[test]
fn test_patch_header_no_adaptive_adds_interleaved() {
    let header = "code-20250219,prompt-caching-2024-07-31";
    let patched = anyrelay::upstream::patch_anthropic_beta_header(header);
    assert!(patched.contains("interleaved-thinking-2025-05-14"));
}

#[test]
fn test_patch_header_only_adaptive() {
    let header = "adaptive-thinking-2026-01-28";
    let patched = anyrelay::upstream::patch_anthropic_beta_header(header);
    assert_eq!(patched, "interleaved-thinking-2025-05-14");
}
