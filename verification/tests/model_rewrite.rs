//! Tests for reverse model mapping in responses: the stateful SSE chunk
//! rewriter and the buffered JSON body rewrite.

use anyrelay::json::Json;
use anyrelay::model_map::{reverse_model_in_response, ChunkRewriter, ModelMapping};

fn mapping(backend: &str, original: &str) -> ModelMapping {
    ModelMapping { backend: backend.to_string(), original: original.to_string() }
}

fn rewriter(backend: &str, original: &str) -> ChunkRewriter {
    ChunkRewriter::new(mapping(backend, original))
}

#[test]
fn rewriter_rewrites_model_in_message_start() {
    let chunk = b"event: message_start\ndata: {\"type\":\"message_start\",\"message\":{\"id\":\"msg_01\",\"model\":\"glm-5\",\"role\":\"assistant\",\"content\":[]}}\n\n".to_vec();
    let mut rw = rewriter("glm-5", "opus-4-6");
    let result = rw.transform(chunk);
    let text = String::from_utf8_lossy(&result).into_owned();
    assert!(text.contains("opus-4-6"), "should contain original model");
    assert!(!text.contains("\"glm-5\""), "should not contain backend model");
}

#[test]
fn rewriter_skips_non_message_start_chunk() {
    let chunk = b"event: content_block_delta\ndata: {\"type\":\"content_block_delta\",\"delta\":{\"type\":\"text_delta\",\"text\":\"hello\"}}\n\n".to_vec();
    let mut rw = rewriter("glm-5", "opus-4-6");
    let result = rw.transform(chunk.clone());
    assert_eq!(result, chunk, "chunk without message_start should be unchanged");
}

#[test]
fn rewriter_handles_model_mismatch() {
    let chunk = b"event: message_start\ndata: {\"type\":\"message_start\",\"message\":{\"model\":\"unexpected-model\",\"role\":\"assistant\"}}\n\n".to_vec();
    let mut rw = rewriter("glm-5", "opus-4-6");
    let result = rw.transform(chunk.clone());
    let text = String::from_utf8_lossy(&result).into_owned();
    assert!(text.contains("unexpected-model"), "mismatched model should be unchanged");
    assert!(!text.contains("opus-4-6"), "should not inject original model when no match");
}

#[test]
fn rewriter_is_stateful_noop_after_first_rewrite() {
    let chunk1 = b"event: message_start\ndata: {\"type\":\"message_start\",\"message\":{\"model\":\"glm-5\",\"role\":\"assistant\"}}\n\n".to_vec();
    let chunk2 = b"event: content_block_delta\ndata: {\"type\":\"content_block_delta\",\"delta\":{\"text\":\"hello\"}}\n\n".to_vec();
    let mut rw = rewriter("glm-5", "opus-4-6");

    let result1 = rw.transform(chunk1);
    assert!(String::from_utf8_lossy(&result1).contains("opus-4-6"));

    let result2 = rw.transform(chunk2.clone());
    assert_eq!(result2, chunk2);
}

#[test]
fn rewriter_noop_after_message_start_even_if_another_appears() {
    let chunk1 = b"data: {\"type\":\"message_start\",\"message\":{\"model\":\"glm-5\"}}\n\n".to_vec();
    let chunk2 = b"data: {\"type\":\"message_start\",\"message\":{\"model\":\"glm-5\"}}\n\n".to_vec();
    let mut rw = rewriter("glm-5", "opus-4-6");

    let result1 = rw.transform(chunk1);
    assert!(String::from_utf8_lossy(&result1).contains("opus-4-6"));

    let result2 = rw.transform(chunk2);
    let text2 = String::from_utf8_lossy(&result2).into_owned();
    assert!(text2.contains("\"glm-5\""), "second message_start should not be rewritten");
}

#[test]
fn rewriter_handles_empty_chunk() {
    let chunk: Vec<u8> = Vec::new();
    let mut rw = rewriter("glm-5", "opus-4-6");
    let result = rw.transform(chunk.clone());
    assert_eq!(result, chunk);
}

#[test]
fn rewriter_handles_ping_event() {
    let chunk = b"event: ping\ndata: {\"type\":\"ping\"}\n\n".to_vec();
    let mut rw = rewriter("glm-5", "opus-4-6");
    let result = rw.transform(chunk.clone());
    assert_eq!(result, chunk);
}

#[test]
fn rewriter_handles_message_start_with_ping_in_same_chunk() {
    let chunk = b"event: ping\ndata: {\"type\":\"ping\"}\n\nevent: message_start\ndata: {\"type\":\"message_start\",\"message\":{\"model\":\"glm-5\",\"role\":\"assistant\"}}\n\n".to_vec();
    let mut rw = rewriter("glm-5", "opus-4-6");
    let result = rw.transform(chunk);
    let text = String::from_utf8_lossy(&result).into_owned();
    assert!(text.contains("opus-4-6"), "model should be rewritten");
    assert!(text.contains("ping"), "ping event should still be present");
}

#[test]
fn rewriter_handles_compact_data_format() {
    let chunk =
        b"data:{\"type\":\"message_start\",\"message\":{\"model\":\"glm-5\",\"role\":\"assistant\"}}\n\n".to_vec();
    let mut rw = rewriter("glm-5", "opus-4-6");
    let result = rw.transform(chunk);
    let text = String::from_utf8_lossy(&result).into_owned();
    assert!(text.contains("opus-4-6"), "compact format should also be rewritten");
}

#[test]
fn rewriter_handles_model_with_version_suffix() {
    let chunk = b"data: {\"type\":\"message_start\",\"message\":{\"model\":\"k2.5-chat\",\"role\":\"assistant\"}}\n\n".to_vec();
    let mut rw = rewriter("k2.5-chat", "sonnet-4-5-20250929");
    let result = rw.transform(chunk);
    let text = String::from_utf8_lossy(&result).into_owned();
    assert!(text.contains("sonnet-4-5-20250929"));
    assert!(!text.contains("k2.5-chat"));
}

#[test]
fn rewriter_preserves_other_message_fields() {
    let chunk = b"data: {\"type\":\"message_start\",\"message\":{\"id\":\"msg_abc\",\"model\":\"glm-5\",\"role\":\"assistant\",\"stop_reason\":null,\"usage\":{\"input_tokens\":100}}}\n\n".to_vec();
    let mut rw = rewriter("glm-5", "opus-4-6");
    let result = rw.transform(chunk);
    let text = String::from_utf8_lossy(&result).into_owned();
    assert!(text.contains("msg_abc"), "id should be preserved");
    assert!(text.contains("assistant"), "role should be preserved");
    assert!(text.contains("input_tokens"), "usage should be preserved");
    assert!(text.contains("opus-4-6"));
}

#[test]
fn rewriter_handles_no_message_field_in_message_start() {
    let chunk = b"data: {\"type\":\"message_start\"}\n\n".to_vec();
    let mut rw = rewriter("glm-5", "opus-4-6");
    let result = rw.transform(chunk);
    let text = String::from_utf8_lossy(&result).into_owned();
    assert!(text.contains("message_start"));
}

#[test]
fn rewriter_handles_message_without_model_field() {
    let chunk = b"data: {\"type\":\"message_start\",\"message\":{\"id\":\"msg_01\",\"role\":\"assistant\"}}\n\n".to_vec();
    let mut rw = rewriter("glm-5", "opus-4-6");
    let result = rw.transform(chunk);
    let text = String::from_utf8_lossy(&result).into_owned();
    assert!(!text.contains("opus-4-6"));
    assert!(!text.contains("glm-5"));
}

#[test]
fn rewriter_handles_non_utf8_bytes() {
    let chunk: Vec<u8> = vec![0xff, 0xfe, 0x00, 0x01];
    let mut rw = rewriter("glm-5", "opus-4-6");
    let result = rw.transform(chunk.clone());
    assert_eq!(result, chunk);
}

#[test]
fn rewriter_handles_unicode_model_name() {
    let chunk = "data: {\"type\":\"message_start\",\"message\":{\"model\":\"模型-v1\",\"role\":\"assistant\"}}\n\n"
        .as_bytes()
        .to_vec();
    let mut rw = rewriter("模型-v1", "opus-4-6");
    let result = rw.transform(chunk);
    let text = String::from_utf8_lossy(&result).into_owned();
    assert!(text.contains("opus-4-6"));
}

#[test]
fn rewriter_handles_malformed_sse_data_line() {
    let chunk = b"data: not-json-at-all {\"message_start\"}\n\n".to_vec();
    let mut rw = rewriter("glm-5", "opus-4-6");
    let result = rw.transform(chunk.clone());
    assert_eq!(result, chunk);
}

#[test]
fn response_rewrites_model_in_json() {
    let body = br#"{"id":"msg_01","type":"message","role":"assistant","model":"glm-5","content":[{"type":"text","text":"hello"}]}"#;
    let result = reverse_model_in_response(body, &mapping("glm-5", "opus-4-6"));
    let text = String::from_utf8_lossy(&result).into_owned();
    assert!(text.contains("opus-4-6"));
    assert!(!text.contains("\"glm-5\""));
}

#[test]
fn response_handles_model_mismatch() {
    let body = br#"{"model":"unexpected-model","content":[]}"#;
    let result = reverse_model_in_response(body, &mapping("glm-5", "opus-4-6"));
    assert_eq!(result.as_slice(), body.as_slice(), "mismatched model should be unchanged");
}

#[test]
fn response_handles_invalid_json() {
    let body = b"not json at all";
    let result = reverse_model_in_response(body, &mapping("glm-5", "opus-4-6"));
    assert_eq!(result.as_slice(), body.as_slice(), "invalid JSON should be unchanged");
}

#[test]
fn response_handles_no_model_field() {
    let body = br#"{"id":"msg_01","content":[]}"#;
    let result = reverse_model_in_response(body, &mapping("glm-5", "opus-4-6"));
    assert_eq!(result.as_slice(), body.as_slice());
}

#[test]
fn response_handles_empty_body() {
    let body = b"";
    let result = reverse_model_in_response(body, &mapping("glm-5", "opus-4-6"));
    assert_eq!(result.as_slice(), body.as_slice());
}

#[test]
fn response_preserves_all_other_fields() {
    let body = br#"{"id":"msg_01","type":"message","role":"assistant","model":"k2.5","content":[{"type":"text","text":"world"}],"stop_reason":"end_turn","usage":{"input_tokens":50,"output_tokens":10}}"#;
    let result = reverse_model_in_response(body, &mapping("k2.5", "sonnet-4-5-20250929"));
    let json: serde_json::Value = serde_json::from_slice(&result).unwrap();
    assert_eq!(json["model"], "sonnet-4-5-20250929");
    assert_eq!(json["id"], "msg_01");
    assert_eq!(json["role"], "assistant");
    assert_eq!(json["stop_reason"], "end_turn");
    assert_eq!(json["usage"]["input_tokens"], 50);
}

#[test]
fn response_handles_error_json() {
    let body = br#"{"type":"error","error":{"type":"overloaded_error","message":"Overloaded"}}"#;
    let result = reverse_model_in_response(body, &mapping("glm-5", "opus-4-6"));
    assert_eq!(result.as_slice(), body.as_slice(), "error responses have no model field");
}

#[test]
fn response_handles_binary_body() {
    let body: Vec<u8> = vec![0x00, 0x01, 0x02, 0x03];
    let result = reverse_model_in_response(&body, &mapping("glm-5", "opus-4-6"));
    assert_eq!(result, body);
}

#[test]
fn forward_then_reverse_restores_original_model() {
    let mut body = anyrelay::json::parse_json(
        br#"{"model":"opus-4-6","stream":false,"max_tokens":1024}"#,
    )
    .unwrap();
    let changed = anyrelay::model_map::rewrite_model_field(&mut body, "opus-4-6", "glm-5");
    assert!(changed);
    assert_eq!(body.get("model").unwrap().as_str(), Some("glm-5"));

    let changed_back =
        anyrelay::model_map::rewrite_model_field(&mut body, "glm-5", "opus-4-6");
    assert!(changed_back);
    assert_eq!(body.get("model").unwrap().as_str(), Some("opus-4-6"));
    assert_eq!(body.get("max_tokens").unwrap(), &Json::UInt(1024));
}
