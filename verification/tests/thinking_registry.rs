//! Tests for the thinking-block registry: block tracking, confirmation,
//! cleanup and filtering.

use anyrelay::json::Json;
use anyrelay::registry::ThinkingRegistry;
use anyrelay::sse::parse_sse_events;
use anyrelay::thinking::{fast_hash, safe_suffix, safe_truncate};

fn s(x: &str) -> Json {
    Json::Str(x.to_string())
}

fn obj(fields: Vec<(&str, Json)>) -> Json {
    Json::Obj(fields.into_iter().map(|(k, v)| (k.to_string(), v)).collect())
}

fn thinking_item(t: &str) -> Json {
    obj(vec![("type", s("thinking")), ("thinking", s(t)), ("signature", s("test-sig"))])
}

fn make_request_with_thinking(thoughts: &[&str]) -> Json {
    let mut content: Vec<Json> = thoughts.iter().map(|t| thinking_item(t)).collect();
    content.push(obj(vec![("type", s("text")), ("text", s("Hello"))]));
    obj(vec![(
        "messages",
        Json::Arr(vec![obj(vec![("role", s("assistant")), ("content", Json::Arr(content))])]),
    )])
}

fn make_response_with_thinking(thoughts: &[&str]) -> Vec<u8> {
    let items: Vec<String> = thoughts
        .iter()
        .map(|t| format!(r#"{{"type":"thinking","thinking":"{}","signature":"s"}}"#, t))
        .collect();
    format!(r#"{{"content":[{}]}}"#, items.join(",")).into_bytes()
}

fn make_request_without_thinking_but_with_history() -> Json {
    obj(vec![(
        "messages",
        Json::Arr(vec![
            obj(vec![("role", s("user")), ("content", s("Hello"))]),
            obj(vec![
                ("role", s("assistant")),
                (
                    "content",
                    Json::Arr(vec![obj(vec![
                        ("type", s("text")),
                        ("text", s("I'll help you with that.")),
                    ])]),
                ),
            ]),
            obj(vec![("role", s("user")), ("content", s("Do something"))]),
        ]),
    )])
}

fn content_of(request: &Json, msg: usize) -> &Vec<Json> {
    request.get("messages").unwrap().as_array().unwrap()[msg]
        .get("content")
        .unwrap()
        .as_array()
        .unwrap()
}

#[test]
fn test_new_registry() {
    let registry = ThinkingRegistry::new();
    assert_eq!(registry.current_session(), 0);
    assert_eq!(registry.current_backend(), "");
    assert_eq!(registry.block_count(), 0);
}

#[test]
fn test_backend_switch_increments_session() {
    let mut registry = ThinkingRegistry::new();

    registry.on_backend_switch("anthropic");
    assert_eq!(registry.current_session(), 1);
    assert_eq!(registry.current_backend(), "anthropic");

    registry.on_backend_switch("glm");
    assert_eq!(registry.current_session(), 2);
    assert_eq!(registry.current_backend(), "glm");

    registry.on_backend_switch("glm");
    assert_eq!(registry.current_session(), 2);

    registry.on_backend_switch("anthropic");
    assert_eq!(registry.current_session(), 3);
}

#[test]
fn test_register_from_response() {
    let mut registry = ThinkingRegistry::new();
    registry.on_backend_switch("anthropic");

    let response = make_response_with_thinking(&["Thought A", "Thought B"]);
    registry.register_from_response(&response, registry.current_session());

    assert_eq!(registry.block_count(), 2);

    let stats = registry.cache_stats();
    assert_eq!(stats.unconfirmed, 2);
    assert_eq!(stats.confirmed, 0);
}

#[test]
fn test_register_from_sse_stream_full_flow() {
    let mut registry = ThinkingRegistry::new();
    registry.on_backend_switch("anthropic");

    let sse_stream = b"\
data: {\"type\":\"content_block_start\",\"index\":0,\"content_block\":{\"type\":\"thinking\",\"thinking\":\"\"}}\n\
data: {\"type\":\"content_block_delta\",\"index\":0,\"delta\":{\"type\":\"thinking_delta\",\"thinking\":\"Hello \"}}\n\
data: {\"type\":\"content_block_delta\",\"index\":0,\"delta\":{\"type\":\"thinking_delta\",\"thinking\":\"world\"}}\n\
data: {\"type\":\"content_block_stop\",\"index\":0}\n";

    let events = parse_sse_events(sse_stream);
    registry.register_from_sse_stream(&events, registry.current_session());
    assert_eq!(registry.block_count(), 1);

    let hash = fast_hash("Hello world");
    assert!(registry.contains_hash(hash));
}

#[test]
fn test_register_from_sse_stream_redacted_thinking() {
    let mut registry = ThinkingRegistry::new();
    registry.on_backend_switch("anthropic");

    let sse_stream = b"\
data: {\"type\":\"content_block_start\",\"index\":0,\"content_block\":{\"type\":\"redacted_thinking\",\"data\":\"encrypted-data-abc\"}}\n\
data: {\"type\":\"content_block_stop\",\"index\":0}\n";

    let events = parse_sse_events(sse_stream);
    registry.register_from_sse_stream(&events, registry.current_session());
    assert_eq!(registry.block_count(), 1);
}

#[test]
fn test_register_from_sse_stream_multiple_blocks() {
    let mut registry = ThinkingRegistry::new();
    registry.on_backend_switch("anthropic");

    let sse_stream = b"\
data: {\"type\":\"content_block_start\",\"index\":0,\"content_block\":{\"type\":\"thinking\",\"thinking\":\"\"}}\n\
data: {\"type\":\"content_block_delta\",\"index\":0,\"delta\":{\"type\":\"thinking_delta\",\"thinking\":\"Thought A\"}}\n\
data: {\"type\":\"content_block_start\",\"index\":1,\"content_block\":{\"type\":\"text\",\"text\":\"\"}}\n\
data: {\"type\":\"content_block_delta\",\"index\":1,\"delta\":{\"type\":\"text_delta\",\"text\":\"Hello\"}}\n\
data: {\"type\":\"content_block_start\",\"index\":2,\"content_block\":{\"type\":\"thinking\",\"thinking\":\"\"}}\n\
data: {\"type\":\"content_block_delta\",\"index\":2,\"delta\":{\"type\":\"thinking_delta\",\"thinking\":\"Thought B\"}}\n\
data: {\"type\":\"content_block_stop\",\"index\":0}\n\
data: {\"type\":\"content_block_stop\",\"index\":1}\n\
data: {\"type\":\"content_block_stop\",\"index\":2}\n";

    let events = parse_sse_events(sse_stream);
    registry.register_from_sse_stream(&events, registry.current_session());
    assert_eq!(registry.block_count(), 2, "should register 2 thinking blocks");
}

#[test]
fn test_sse_stream_registered_blocks_match_request() {
    let mut registry = ThinkingRegistry::new();
    registry.on_backend_switch("anthropic");

    let sse_stream = b"\
data: {\"type\":\"content_block_start\",\"index\":0,\"content_block\":{\"type\":\"thinking\",\"thinking\":\"\"}}\n\
data: {\"type\":\"content_block_delta\",\"index\":0,\"delta\":{\"type\":\"thinking_delta\",\"thinking\":\"Let me analyze\"}}\n\
data: {\"type\":\"content_block_stop\",\"index\":0}\n";

    let events = parse_sse_events(sse_stream);
    registry.register_from_sse_stream(&events, registry.current_session());

    let mut request = make_request_with_thinking(&["Let me analyze"]);
    let removed = registry.filter_request(&mut request);
    assert_eq!(removed, 0, "SSE-registered block should match request block");
}

#[test]
fn test_register_deduplication() {
    let mut registry = ThinkingRegistry::new();
    registry.on_backend_switch("anthropic");

    let response = make_response_with_thinking(&["Same thought"]);
    registry.register_from_response(&response, registry.current_session());
    registry.register_from_response(&response, registry.current_session());
    registry.register_from_response(&response, registry.current_session());

    assert_eq!(registry.block_count(), 1);
}

#[test]
fn test_confirm_blocks_on_request() {
    let mut registry = ThinkingRegistry::new();
    registry.on_backend_switch("anthropic");

    let response = make_response_with_thinking(&["Thought A"]);
    registry.register_from_response(&response, registry.current_session());
    assert_eq!(registry.cache_stats().unconfirmed, 1);

    let mut request = make_request_with_thinking(&["Thought A"]);
    registry.filter_request(&mut request);

    assert_eq!(registry.cache_stats().confirmed, 1);
    assert_eq!(registry.cache_stats().unconfirmed, 0);
}

#[test]
fn test_confirm_only_current_session() {
    let mut registry = ThinkingRegistry::new();
    registry.on_backend_switch("anthropic");

    let response = make_response_with_thinking(&["Thought A"]);
    registry.register_from_response(&response, registry.current_session());

    registry.on_backend_switch("glm");

    let mut request = make_request_with_thinking(&["Thought A"]);
    let removed = registry.filter_request(&mut request);

    assert_eq!(removed, 1);
    assert_eq!(registry.block_count(), 0);
}

#[test]
fn test_cleanup_removes_old_session_blocks() {
    let mut registry = ThinkingRegistry::new();
    registry.on_backend_switch("anthropic");

    let response = make_response_with_thinking(&["Old thought"]);
    registry.register_from_response(&response, registry.current_session());
    assert_eq!(registry.block_count(), 1);

    registry.on_backend_switch("glm");

    let mut request = obj(vec![("messages", Json::Arr(vec![]))]);
    registry.filter_request(&mut request);

    assert_eq!(registry.block_count(), 0);
}

#[test]
fn test_cleanup_old_session_even_if_in_request() {
    let mut registry = ThinkingRegistry::new();
    registry.on_backend_switch("anthropic");

    let response = make_response_with_thinking(&["Thought A"]);
    registry.register_from_response(&response, registry.current_session());

    registry.on_backend_switch("glm");

    let mut request = make_request_with_thinking(&["Thought A"]);
    let removed = registry.filter_request(&mut request);

    assert_eq!(removed, 1);
    assert_eq!(registry.block_count(), 0);
}

#[test]
fn test_cleanup_removes_confirmed_not_in_request() {
    let mut registry = ThinkingRegistry::new();
    registry.on_backend_switch("anthropic");

    let response = make_response_with_thinking(&["Thought A", "Thought B"]);
    registry.register_from_response(&response, registry.current_session());

    let mut request = make_request_with_thinking(&["Thought A", "Thought B"]);
    registry.filter_request(&mut request);
    assert_eq!(registry.cache_stats().confirmed, 2);

    let mut request = make_request_with_thinking(&["Thought A"]);
    registry.filter_request(&mut request);

    assert_eq!(registry.block_count(), 1);
    assert_eq!(registry.cache_stats().confirmed, 1);
}

#[test]
fn test_cleanup_keeps_confirmed_in_request() {
    let mut registry = ThinkingRegistry::new();
    registry.on_backend_switch("anthropic");

    let response = make_response_with_thinking(&["Thought A"]);
    registry.register_from_response(&response, registry.current_session());

    for _ in 0..5 {
        let mut request = make_request_with_thinking(&["Thought A"]);
        registry.filter_request(&mut request);
    }

    assert_eq!(registry.block_count(), 1);
    assert_eq!(registry.cache_stats().confirmed, 1);
}

#[test]
fn test_cleanup_keeps_unconfirmed_within_threshold() {
    let mut registry = ThinkingRegistry::with_orphan_threshold(3_600_000_000_000);
    registry.on_backend_switch("anthropic");

    let response = make_response_with_thinking(&["Thought A"]);
    registry.register_from_response(&response, registry.current_session());

    let mut request = obj(vec![("messages", Json::Arr(vec![]))]);
    registry.filter_request(&mut request);

    assert_eq!(registry.block_count(), 1);
    assert_eq!(registry.cache_stats().unconfirmed, 1);
}

#[test]
fn test_cleanup_removes_orphaned_after_threshold() {
    let mut registry = ThinkingRegistry::with_orphan_threshold(0);
    registry.on_backend_switch("anthropic");
    let session = registry.current_session();

    let response = make_response_with_thinking(&["Thought A", "Thought B"]);
    registry.register_from_response(&response, session);
    assert_eq!(registry.block_count(), 2);

    let mut request = make_request_with_thinking(&["Thought B"]);
    registry.filter_request(&mut request);

    assert_eq!(registry.block_count(), 1);
}

#[test]
fn test_filter_removes_unregistered_blocks() {
    let mut registry = ThinkingRegistry::new();
    registry.on_backend_switch("anthropic");

    let mut request = make_request_with_thinking(&["Unknown thought"]);
    let removed = registry.filter_request(&mut request);

    assert_eq!(removed, 1);

    let content = content_of(&request, 0);
    assert_eq!(content.len(), 1);
    assert_eq!(content[0].get("type").unwrap().as_str(), Some("text"));
}

#[test]
fn test_filter_keeps_registered_blocks() {
    let mut registry = ThinkingRegistry::new();
    registry.on_backend_switch("anthropic");

    let response = make_response_with_thinking(&["Known thought"]);
    registry.register_from_response(&response, registry.current_session());

    let mut request = make_request_with_thinking(&["Known thought"]);
    let removed = registry.filter_request(&mut request);

    assert_eq!(removed, 0);

    let content = content_of(&request, 0);
    assert_eq!(content.len(), 2);
}

#[test]
fn test_filter_handles_redacted_thinking() {
    let mut registry = ThinkingRegistry::new();
    registry.on_backend_switch("anthropic");

    let response = br#"{"content":[{"type":"redacted_thinking","data":"encrypted-data-123"}]}"#;
    registry.register_from_response(response, registry.current_session());

    let mut request = obj(vec![(
        "messages",
        Json::Arr(vec![obj(vec![
            ("role", s("assistant")),
            (
                "content",
                Json::Arr(vec![
                    obj(vec![("type", s("redacted_thinking")), ("data", s("encrypted-data-123"))]),
                    obj(vec![("type", s("text")), ("text", s("Hello"))]),
                ]),
            ),
        ])]),
    )]);
    let removed = registry.filter_request(&mut request);

    assert_eq!(removed, 0);
}

#[test]
fn test_filter_multiple_messages() {
    let mut registry = ThinkingRegistry::new();
    registry.on_backend_switch("anthropic");

    let response = make_response_with_thinking(&["Known"]);
    registry.register_from_response(&response, registry.current_session());

    let mut request = obj(vec![(
        "messages",
        Json::Arr(vec![
            obj(vec![
                ("role", s("assistant")),
                (
                    "content",
                    Json::Arr(vec![
                        obj(vec![
                            ("type", s("thinking")),
                            ("thinking", s("Known")),
                            ("signature", s("s1")),
                        ]),
                        obj(vec![("type", s("text")), ("text", s("Response 1"))]),
                    ]),
                ),
            ]),
            obj(vec![("role", s("user")), ("content", s("Next question"))]),
            obj(vec![
                ("role", s("assistant")),
                (
                    "content",
                    Json::Arr(vec![
                        obj(vec![
                            ("type", s("thinking")),
                            ("thinking", s("Unknown")),
                            ("signature", s("s2")),
                        ]),
                        obj(vec![("type", s("text")), ("text", s("Response 2"))]),
                    ]),
                ),
            ]),
        ]),
    )]);

    let removed = registry.filter_request(&mut request);
    assert_eq!(removed, 1);

    assert_eq!(content_of(&request, 0).len(), 2);
    assert_eq!(content_of(&request, 2).len(), 1);
}

#[test]
fn test_full_flow_normal_conversation() {
    let mut registry = ThinkingRegistry::new();
    registry.on_backend_switch("anthropic");

    let response1 = make_response_with_thinking(&["Analyzing the problem..."]);
    registry.register_from_response(&response1, registry.current_session());
    assert_eq!(registry.block_count(), 1);

    let mut request2 = make_request_with_thinking(&["Analyzing the problem..."]);
    let removed = registry.filter_request(&mut request2);
    assert_eq!(removed, 0);
    assert_eq!(registry.cache_stats().confirmed, 1);

    let response2 = make_response_with_thinking(&["Let me elaborate..."]);
    registry.register_from_response(&response2, registry.current_session());
    assert_eq!(registry.block_count(), 2);

    let mut request3 =
        make_request_with_thinking(&["Analyzing the problem...", "Let me elaborate..."]);
    let removed = registry.filter_request(&mut request3);
    assert_eq!(removed, 0);
    assert_eq!(registry.cache_stats().confirmed, 2);
}

#[test]
fn test_full_flow_context_truncation() {
    let mut registry = ThinkingRegistry::new();
    registry.on_backend_switch("anthropic");

    for i in 1..=5 {
        let thought = format!("Thought {}", i);
        let response = make_response_with_thinking(&[&thought]);
        registry.register_from_response(&response, registry.current_session());

        let thoughts: Vec<String> = (1..=i).map(|j| format!("Thought {}", j)).collect();
        let thought_refs: Vec<&str> = thoughts.iter().map(|s| s.as_str()).collect();
        let mut request = make_request_with_thinking(&thought_refs);
        registry.filter_request(&mut request);
    }

    assert_eq!(registry.block_count(), 5);
    assert_eq!(registry.cache_stats().confirmed, 5);

    let mut request = make_request_with_thinking(&["Thought 4", "Thought 5"]);
    registry.filter_request(&mut request);

    assert_eq!(registry.block_count(), 2);
}

#[test]
fn test_full_flow_backend_switch() {
    let mut registry = ThinkingRegistry::new();

    registry.on_backend_switch("anthropic");
    let response1 = make_response_with_thinking(&["Anthropic thought"]);
    registry.register_from_response(&response1, registry.current_session());

    let mut request1 = make_request_with_thinking(&["Anthropic thought"]);
    registry.filter_request(&mut request1);
    assert_eq!(registry.cache_stats().confirmed, 1);

    registry.on_backend_switch("glm");

    let mut request2 = make_request_with_thinking(&["Anthropic thought"]);
    let removed = registry.filter_request(&mut request2);
    assert_eq!(removed, 1);
    assert_eq!(registry.block_count(), 0);

    let response2 = make_response_with_thinking(&["GLM thought"]);
    registry.register_from_response(&response2, registry.current_session());

    let mut request3 = make_request_with_thinking(&["GLM thought"]);
    let removed = registry.filter_request(&mut request3);
    assert_eq!(removed, 0);
    assert_eq!(registry.block_count(), 1);
}

#[test]
fn test_full_flow_rapid_backend_switches() {
    let mut registry = ThinkingRegistry::new();

    registry.on_backend_switch("a");
    registry.on_backend_switch("b");
    registry.on_backend_switch("c");
    registry.on_backend_switch("a");

    assert_eq!(registry.current_session(), 4);

    let response = make_response_with_thinking(&["New thought"]);
    registry.register_from_response(&response, registry.current_session());

    let mut request = make_request_with_thinking(&["New thought"]);
    let removed = registry.filter_request(&mut request);
    assert_eq!(removed, 0);
}

#[test]
fn test_negative_empty_request() {
    let mut registry = ThinkingRegistry::new();
    registry.on_backend_switch("anthropic");

    let response = make_response_with_thinking(&["Thought"]);
    registry.register_from_response(&response, registry.current_session());

    let mut request = obj(vec![("messages", Json::Arr(vec![]))]);
    let removed = registry.filter_request(&mut request);
    assert_eq!(removed, 0);
}

#[test]
fn test_negative_no_messages_field() {
    let mut registry = ThinkingRegistry::new();
    registry.on_backend_switch("anthropic");

    let mut request = obj(vec![("model", s("model-3"))]);
    let removed = registry.filter_request(&mut request);
    assert_eq!(removed, 0);
}

#[test]
fn test_negative_string_content() {
    let mut registry = ThinkingRegistry::new();
    registry.on_backend_switch("anthropic");

    let mut request = obj(vec![(
        "messages",
        Json::Arr(vec![
            obj(vec![("role", s("user")), ("content", s("Hello"))]),
            obj(vec![("role", s("assistant")), ("content", s("Hi there"))]),
        ]),
    )]);
    let removed = registry.filter_request(&mut request);
    assert_eq!(removed, 0);
}

#[test]
fn test_negative_malformed_thinking_block() {
    let mut registry = ThinkingRegistry::new();
    registry.on_backend_switch("anthropic");

    let mut request = obj(vec![(
        "messages",
        Json::Arr(vec![obj(vec![
            ("role", s("assistant")),
            (
                "content",
                Json::Arr(vec![
                    obj(vec![("type", s("thinking"))]),
                    obj(vec![("type", s("text")), ("text", s("Hello"))]),
                ]),
            ),
        ])]),
    )]);
    let removed = registry.filter_request(&mut request);
    assert_eq!(removed, 1);
}

#[test]
fn test_negative_unknown_block_type() {
    let mut registry = ThinkingRegistry::new();
    registry.on_backend_switch("anthropic");

    let mut request = obj(vec![(
        "messages",
        Json::Arr(vec![obj(vec![
            ("role", s("assistant")),
            (
                "content",
                Json::Arr(vec![
                    obj(vec![("type", s("image")), ("data", s("base64..."))]),
                    obj(vec![("type", s("text")), ("text", s("Hello"))]),
                ]),
            ),
        ])]),
    )]);
    let removed = registry.filter_request(&mut request);
    assert_eq!(removed, 0);

    assert_eq!(content_of(&request, 0).len(), 2);
}

#[test]
fn test_negative_register_empty_response() {
    let mut registry = ThinkingRegistry::new();
    registry.on_backend_switch("anthropic");

    registry.register_from_response(b"", registry.current_session());
    registry.register_from_response(b"{}", registry.current_session());
    registry.register_from_response(b"{\"content\": []}", registry.current_session());

    assert_eq!(registry.block_count(), 0);
}

#[test]
fn test_negative_register_invalid_json() {
    let mut registry = ThinkingRegistry::new();
    registry.on_backend_switch("anthropic");

    registry.register_from_response(b"not json", registry.current_session());
    let events = parse_sse_events(b"data: not json\n");
    registry.register_from_sse_stream(&events, registry.current_session());

    assert_eq!(registry.block_count(), 0);
}

#[test]
fn test_fast_hash_uniqueness() {
    let hash1 = fast_hash("Hello world");
    let hash2 = fast_hash("Hello world!");
    let hash3 = fast_hash("Hello world");

    assert_ne!(hash1, hash2);
    assert_eq!(hash1, hash3);
}

#[test]
fn test_fast_hash_long_content() {
    let short = "a".repeat(100);
    let long = "a".repeat(1000);

    let hash1 = fast_hash(&short);
    let hash2 = fast_hash(&long);

    assert_ne!(hash1, hash2);
}

#[test]
fn test_fast_hash_unicode() {
    let hash1 = fast_hash("Привет мир");
    let hash2 = fast_hash("Привет мир!");
    let hash3 = fast_hash("Привет мир");

    assert_ne!(hash1, hash2);
    assert_eq!(hash1, hash3);
}

#[test]
fn test_safe_truncate_unicode() {
    let text = "Привет";
    assert_eq!(safe_truncate(text, 100), text);
    assert_eq!(safe_truncate(text, 12), text);
    assert_eq!(safe_truncate(text, 11), "Приве");
    assert_eq!(safe_truncate(text, 2), "П");
    assert_eq!(safe_truncate(text, 1), "");
}

#[test]
fn test_safe_suffix_unicode() {
    let text = "Привет";
    assert_eq!(safe_suffix(text, 100), text);
    assert_eq!(safe_suffix(text, 12), text);
    assert_eq!(safe_suffix(text, 11), "ривет");
    assert_eq!(safe_suffix(text, 2), "т");
    assert_eq!(safe_suffix(text, 1), "");
}

#[test]
fn test_fast_hash_same_prefix_suffix_different_middle() {
    let prefix = "START_".repeat(50);
    let suffix = "_END".repeat(70);

    let content1 = format!("{}MIDDLE_A{}", prefix, suffix);
    let content2 = format!("{}MIDDLE_B{}", prefix, suffix);

    let hash1 = fast_hash(&content1);
    let hash2 = fast_hash(&content2);

    assert_eq!(hash1, hash2, "Known limitation: same prefix+suffix+length = same hash");
}

#[test]
fn test_fast_hash_same_prefix_different_suffix() {
    let prefix = "X".repeat(300);
    let content1 = format!("{}ENDING_AAA", prefix);
    let content2 = format!("{}ENDING_BBB", prefix);

    let hash1 = fast_hash(&content1);
    let hash2 = fast_hash(&content2);

    assert_ne!(hash1, hash2);
}

#[test]
fn test_cache_stats() {
    let mut registry = ThinkingRegistry::new();
    registry.on_backend_switch("anthropic");

    let response = make_response_with_thinking(&["A", "B", "C"]);
    registry.register_from_response(&response, registry.current_session());

    let stats = registry.cache_stats();
    assert_eq!(stats.total, 3);
    assert_eq!(stats.unconfirmed, 3);
    assert_eq!(stats.confirmed, 0);
    assert_eq!(stats.current_session, 3);
    assert_eq!(stats.old_session, 0);

    let mut request = make_request_with_thinking(&["A", "B"]);
    registry.filter_request(&mut request);

    let stats = registry.cache_stats();
    assert_eq!(stats.confirmed, 2);
    assert_eq!(stats.unconfirmed, 1);
}

#[test]
fn test_haiku_subrequest_must_not_evict_confirmed_blocks() {
    let mut registry = ThinkingRegistry::new();
    registry.on_backend_switch("anthropic");
    let session = registry.current_session();

    let response = make_response_with_thinking(&["Deep analysis of the problem"]);
    registry.register_from_response(&response, session);
    assert_eq!(registry.block_count(), 1);

    let mut opus_request = make_request_with_thinking(&["Deep analysis of the problem"]);
    let removed = registry.filter_request(&mut opus_request);
    assert_eq!(removed, 0, "Block should be kept (same session)");

    let stats = registry.cache_stats();
    assert_eq!(stats.confirmed, 1, "Block should be confirmed");
    assert_eq!(stats.total, 1);

    let mut haiku_request = make_request_without_thinking_but_with_history();
    registry.filter_request(&mut haiku_request);

    assert_eq!(
        registry.block_count(),
        1,
        "Helper sub-request must not evict confirmed thinking blocks"
    );

    let mut next_opus_request = make_request_with_thinking(&["Deep analysis of the problem"]);
    let removed = registry.filter_request(&mut next_opus_request);
    assert_eq!(removed, 0, "Valid thinking block from current session should not be stripped");
}

#[test]
fn test_multiple_blocks_survive_haiku_subrequest() {
    let mut registry = ThinkingRegistry::new();
    registry.on_backend_switch("anthropic");
    let session = registry.current_session();

    for thought in &["Thought A", "Thought B", "Thought C"] {
        let response = make_response_with_thinking(&[thought]);
        registry.register_from_response(&response, session);
    }
    assert_eq!(registry.block_count(), 3);

    let mut opus_request = make_request_with_thinking(&["Thought A", "Thought B", "Thought C"]);
    let removed = registry.filter_request(&mut opus_request);
    assert_eq!(removed, 0);
    assert_eq!(registry.cache_stats().confirmed, 3);

    for _ in 0..5 {
        let mut haiku = make_request_without_thinking_but_with_history();
        registry.filter_request(&mut haiku);
    }

    assert_eq!(registry.block_count(), 3, "All confirmed blocks must survive helper sub-requests");

    let mut next = make_request_with_thinking(&["Thought A", "Thought B", "Thought C"]);
    let removed = registry.filter_request(&mut next);
    assert_eq!(removed, 0, "No blocks should be stripped");
}

#[test]
fn test_interleaved_opus_haiku_workflow() {
    let mut registry = ThinkingRegistry::new();
    registry.on_backend_switch("anthropic");
    let session = registry.current_session();

    let resp1 = make_response_with_thinking(&["Planning step 1"]);
    registry.register_from_response(&resp1, session);

    let mut req1 = make_request_with_thinking(&["Planning step 1"]);
    registry.filter_request(&mut req1);
    assert_eq!(registry.cache_stats().confirmed, 1);

    let mut haiku1 = make_request_without_thinking_but_with_history();
    registry.filter_request(&mut haiku1);

    let mut haiku2 = make_request_without_thinking_but_with_history();
    registry.filter_request(&mut haiku2);

    let resp2 = make_response_with_thinking(&["Planning step 2"]);
    registry.register_from_response(&resp2, session);

    let mut req2 = make_request_with_thinking(&["Planning step 1", "Planning step 2"]);
    let removed = registry.filter_request(&mut req2);
    assert_eq!(removed, 0, "Both thinking blocks should be preserved after helper sub-requests");
    assert_eq!(registry.block_count(), 2);
}

#[test]
fn registry_creates_fresh_state() {
    let registry = ThinkingRegistry::new();
    assert_eq!(registry.block_count(), 0);
    assert_eq!(registry.current_session(), 0);
}
