//! Tests for the strip transformer.

use anyrelay::json::{parse_json, Json};
use anyrelay::transform::{NativeTransformer, StripTransformer};

fn body_from(text: &str) -> Json {
    parse_json(text.as_bytes()).unwrap()
}

fn content_len(body: &Json) -> usize {
    body.get("messages").unwrap().as_array().unwrap()[0]
        .get("content")
        .unwrap()
        .as_array()
        .unwrap()
        .len()
}

#[test]
fn strips_thinking_blocks() {
    let transformer = StripTransformer::new();
    let mut body = body_from(
        r#"{"messages":[{"role":"assistant","content":[
            {"type":"thinking","thinking":"Let me think...","signature":"abc123"},
            {"type":"text","text":"Hello!"}
        ]}]}"#,
    );

    let result = transformer.transform_request(&mut body);

    assert!(result.changed);
    assert_eq!(result.stripped_count, 1);

    assert_eq!(content_len(&body), 1);
    let content = body.get("messages").unwrap().as_array().unwrap()[0]
        .get("content")
        .unwrap()
        .as_array()
        .unwrap();
    assert_eq!(content[0].get("type").unwrap().as_str(), Some("text"));
}

#[test]
fn strips_redacted_thinking_blocks() {
    let transformer = StripTransformer::new();
    let mut body = body_from(
        r#"{"messages":[{"role":"assistant","content":[
            {"type":"redacted_thinking","data":"encrypted..."},
            {"type":"text","text":"Result"}
        ]}]}"#,
    );

    let result = transformer.transform_request(&mut body);

    assert!(result.changed);
    assert_eq!(result.stripped_count, 1);
    assert_eq!(content_len(&body), 1);
}

#[test]
fn no_change_when_no_thinking() {
    let transformer = StripTransformer::new();
    let mut body = body_from(
        r#"{"messages":[{"role":"assistant","content":[{"type":"text","text":"Hello!"}]}]}"#,
    );

    let result = transformer.transform_request(&mut body);

    assert!(!result.changed);
    assert_eq!(result.stripped_count, 0);
}

#[test]
fn handles_multiple_messages() {
    let transformer = StripTransformer::new();
    let mut body = body_from(
        r#"{"messages":[
            {"role":"assistant","content":[
                {"type":"thinking","thinking":"thought 1","signature":"sig1"},
                {"type":"text","text":"response 1"}
            ]},
            {"role":"user","content":"next question"},
            {"role":"assistant","content":[
                {"type":"thinking","thinking":"thought 2","signature":"sig2"},
                {"type":"text","text":"response 2"}
            ]}
        ]}"#,
    );

    let result = transformer.transform_request(&mut body);

    assert!(result.changed);
    assert_eq!(result.stripped_count, 2);
}

#[test]
fn removes_context_management_field() {
    let transformer = StripTransformer::new();
    let mut body = body_from(
        r#"{"messages":[{"role":"assistant","content":[
            {"type":"thinking","thinking":"...","signature":"..."},
            {"type":"text","text":"Hello"}
        ]}],"context_management":{"some":"config"}}"#,
    );

    let _ = transformer.transform_request(&mut body);

    assert!(body.get("context_management").is_none());
}

#[test]
fn handles_empty_messages() {
    let transformer = StripTransformer::new();
    let mut body = body_from(r#"{"messages":[]}"#);

    let result = transformer.transform_request(&mut body);

    assert!(!result.changed);
}

#[test]
fn handles_missing_messages() {
    let transformer = StripTransformer::new();
    let mut body = body_from(r#"{"model":"model-3"}"#);

    let result = transformer.transform_request(&mut body);

    assert!(!result.changed);
}

#[test]
fn native_does_not_modify_request() {
    let transformer = NativeTransformer::new();
    let mut body = body_from(
        r#"{"messages":[{"role":"assistant","content":[
            {"type":"thinking","thinking":"test thought","signature":"sig"},
            {"type":"text","text":"response"}
        ]}]}"#,
    );
    let original = body_from(
        r#"{"messages":[{"role":"assistant","content":[
            {"type":"thinking","thinking":"test thought","signature":"sig"},
            {"type":"text","text":"response"}
        ]}]}"#,
    );
    let result = transformer.transform_request(&mut body);
    assert!(!result.changed);
    assert_eq!(body, original);
}

#[test]
fn native_name() {
    let transformer = NativeTransformer::new();
    assert_eq!(transformer.name(), "native");
}

#[test]
fn native_transformer_is_passthrough() {
    let transformer = NativeTransformer::new();
    assert_eq!(transformer.name(), "native");
    let mut body = body_from(
        r#"{"messages":[{"role":"assistant","content":[
            {"type":"thinking","thinking":"kept","signature":"s"}
        ]}]}"#,
    );
    let before = body_from(
        r#"{"messages":[{"role":"assistant","content":[
            {"type":"thinking","thinking":"kept","signature":"s"}
        ]}]}"#,
    );
    let result = transformer.transform_request(&mut body);
    assert!(!result.changed);
    assert_eq!(body, before);
}
