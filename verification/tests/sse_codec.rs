use anyrelay::sse::{
    analyze_thinking_stream, count_thinking_events, parse_sse_events, serialize_sse_events,
    ThinkingStreamStats,
};

#[test]
fn parses_standard_format() {
    let sse = b"data: {\"type\": \"message_start\", \"message\": {}}\n";
    let events = parse_sse_events(sse);
    assert_eq!(events.len(), 1);
    assert_eq!(events[0].event_type, "message_start");
}

#[test]
fn parses_compact_format() {
    let sse = b"data:{\"type\":\"content_block_start\",\"index\":0,\"content_block\":{\"type\":\"thinking\",\"thinking\":\"\"}}\n";
    let events = parse_sse_events(sse);
    assert_eq!(events.len(), 1);
    assert_eq!(events[0].event_type, "content_block_start");
}

#[test]
fn skips_done_marker() {
    let sse = b"data: {\"type\": \"message_stop\"}\ndata: [DONE]\n";
    let events = parse_sse_events(sse);
    assert_eq!(events.len(), 1);
    assert_eq!(events[0].event_type, "message_stop");
}

#[test]
fn skips_non_data_lines() {
    let sse = b"event: message\ndata: {\"type\": \"ping\"}\n\n: comment\n";
    let events = parse_sse_events(sse);
    assert_eq!(events.len(), 1);
    assert_eq!(events[0].event_type, "ping");
}

#[test]
fn handles_mixed_formats() {
    let sse = b"data: {\"type\": \"a\"}\ndata:{\"type\": \"b\"}\ndata:  {\"type\": \"c\"}\n";
    let events = parse_sse_events(sse);
    assert_eq!(events.len(), 3);
    assert_eq!(events[0].event_type, "a");
    assert_eq!(events[1].event_type, "b");
    assert_eq!(events[2].event_type, "c");
}

#[test]
fn empty_stream() {
    let events = parse_sse_events(b"");
    assert!(events.is_empty());
}

#[test]
fn is_thinking_event_content_block_start() {
    let sse = b"data: {\"type\":\"content_block_start\",\"index\":0,\"content_block\":{\"type\":\"thinking\",\"thinking\":\"\",\"signature\":\"\"}}\n";
    let events = parse_sse_events(sse);
    assert!(events[0].is_thinking_event());
}

#[test]
fn is_thinking_event_redacted() {
    let sse = b"data: {\"type\":\"content_block_start\",\"index\":0,\"content_block\":{\"type\":\"redacted_thinking\",\"data\":\"abc\"}}\n";
    let events = parse_sse_events(sse);
    assert!(events[0].is_thinking_event());
}

#[test]
fn is_thinking_event_delta() {
    let sse = b"data: {\"type\":\"content_block_delta\",\"index\":0,\"delta\":{\"type\":\"thinking_delta\",\"thinking\":\"hello\"}}\n";
    let events = parse_sse_events(sse);
    assert!(events[0].is_thinking_event());
}

#[test]
fn is_not_thinking_event_text_delta() {
    let sse = b"data: {\"type\":\"content_block_delta\",\"index\":0,\"delta\":{\"type\":\"text_delta\",\"text\":\"thinking about thinking_compat\"}}\n";
    let events = parse_sse_events(sse);
    assert!(!events[0].is_thinking_event());
}

#[test]
fn is_not_thinking_event_text_block() {
    let sse = b"data: {\"type\":\"content_block_start\",\"index\":0,\"content_block\":{\"type\":\"text\",\"text\":\"\"}}\n";
    let events = parse_sse_events(sse);
    assert!(!events[0].is_thinking_event());
}

#[test]
fn count_thinking_events_mixed_stream() {
    let sse = b"data: {\"type\":\"content_block_start\",\"index\":0,\"content_block\":{\"type\":\"thinking\",\"thinking\":\"\"}}\n\
                 data: {\"type\":\"content_block_delta\",\"index\":0,\"delta\":{\"type\":\"thinking_delta\",\"thinking\":\"hi\"}}\n\
                 data: {\"type\":\"content_block_delta\",\"index\":1,\"delta\":{\"type\":\"text_delta\",\"text\":\"thinking about thinking\"}}\n\
                 data: {\"type\":\"content_block_start\",\"index\":1,\"content_block\":{\"type\":\"text\",\"text\":\"\"}}\n\
                 data: {\"type\":\"message_start\",\"message\":{}}\n";
    assert_eq!(count_thinking_events(sse), 2);
}

#[test]
fn is_thinking_event_signature_delta() {
    let sse = b"data: {\"type\":\"content_block_delta\",\"index\":0,\"delta\":{\"type\":\"signature_delta\",\"signature\":\"EqQBCgIYA...\"}}\n";
    let events = parse_sse_events(sse);
    assert!(events[0].is_thinking_event());
}

#[test]
fn is_not_thinking_event_input_json_delta() {
    let sse = b"data: {\"type\":\"content_block_delta\",\"index\":0,\"delta\":{\"type\":\"input_json_delta\",\"partial_json\":\"{}\"}}\n";
    let events = parse_sse_events(sse);
    assert!(!events[0].is_thinking_event());
}

#[test]
fn count_includes_signature_delta() {
    let sse = b"data: {\"type\":\"content_block_start\",\"index\":0,\"content_block\":{\"type\":\"thinking\",\"thinking\":\"\"}}\n\
                 data: {\"type\":\"content_block_delta\",\"index\":0,\"delta\":{\"type\":\"thinking_delta\",\"thinking\":\"hi\"}}\n\
                 data: {\"type\":\"content_block_delta\",\"index\":0,\"delta\":{\"type\":\"signature_delta\",\"signature\":\"sig123\"}}\n\
                 data: {\"type\":\"content_block_stop\",\"index\":0}\n";
    assert_eq!(count_thinking_events(sse), 3);
}

#[test]
fn analyze_anthropic_style_stream() {
    let sse = b"\
data: {\"type\":\"content_block_start\",\"index\":0,\"content_block\":{\"type\":\"thinking\",\"thinking\":\"\"}}\n\
data: {\"type\":\"content_block_delta\",\"index\":0,\"delta\":{\"type\":\"thinking_delta\",\"thinking\":\"Let me think\"}}\n\
data: {\"type\":\"content_block_delta\",\"index\":0,\"delta\":{\"type\":\"thinking_delta\",\"thinking\":\" about this\"}}\n\
data: {\"type\":\"content_block_delta\",\"index\":0,\"delta\":{\"type\":\"signature_delta\",\"signature\":\"EqQBCgIYA...\"}}\n\
data: {\"type\":\"content_block_stop\",\"index\":0}\n\
data: {\"type\":\"content_block_start\",\"index\":1,\"content_block\":{\"type\":\"text\",\"text\":\"\"}}\n\
data: {\"type\":\"content_block_delta\",\"index\":1,\"delta\":{\"type\":\"text_delta\",\"text\":\"Answer\"}}\n\
data: {\"type\":\"content_block_stop\",\"index\":1}\n";

    let events = parse_sse_events(sse);
    let stats = analyze_thinking_stream(&events);

    assert_eq!(stats.thinking_blocks, 1);
    assert_eq!(stats.redacted_blocks, 0);
    assert_eq!(stats.thinking_deltas, 2);
    assert_eq!(stats.signature_deltas, 1);
    assert_eq!(stats.thinking_stops, 1);
    assert!(stats.has_signatures);
    assert_eq!(stats.total(), 5);
}

#[test]
fn analyze_glm_style_stream() {
    let sse = b"\
data: {\"type\":\"content_block_start\",\"index\":0,\"content_block\":{\"type\":\"thinking\",\"thinking\":\"\",\"signature\":\"8aa60582f6c340b4ab362b4b\"}}\n\
data: {\"type\":\"content_block_delta\",\"index\":0,\"delta\":{\"type\":\"thinking_delta\",\"thinking\":\"hi\"}}\n\
data: {\"type\":\"content_block_stop\",\"index\":0}\n";

    let events = parse_sse_events(sse);
    let stats = analyze_thinking_stream(&events);

    assert_eq!(stats.thinking_blocks, 1);
    assert_eq!(stats.thinking_deltas, 1);
    assert_eq!(stats.signature_deltas, 0);
    assert_eq!(stats.thinking_stops, 1);
    assert!(stats.has_signatures);
}

#[test]
fn analyze_kimi_style_stream() {
    let sse = b"\
data:{\"type\":\"content_block_start\",\"index\":0,\"content_block\":{\"type\":\"thinking\",\"thinking\":\"\",\"signature\":\"\"}}\n\
data:{\"type\":\"content_block_delta\",\"index\":0,\"delta\":{\"type\":\"thinking_delta\",\"thinking\":\"hi\"}}\n\
data:{\"type\":\"content_block_stop\",\"index\":0}\n";

    let events = parse_sse_events(sse);
    let stats = analyze_thinking_stream(&events);

    assert_eq!(stats.thinking_blocks, 1);
    assert_eq!(stats.thinking_deltas, 1);
    assert_eq!(stats.signature_deltas, 0);
    assert_eq!(stats.thinking_stops, 1);
    assert!(!stats.has_signatures);
}

#[test]
fn analyze_no_thinking_stream() {
    let sse = b"\
data: {\"type\":\"content_block_start\",\"index\":0,\"content_block\":{\"type\":\"text\",\"text\":\"\"}}\n\
data: {\"type\":\"content_block_delta\",\"index\":0,\"delta\":{\"type\":\"text_delta\",\"text\":\"Hello\"}}\n\
data: {\"type\":\"content_block_stop\",\"index\":0}\n";

    let events = parse_sse_events(sse);
    let stats = analyze_thinking_stream(&events);

    assert_eq!(stats.total(), 0);
    assert!(!stats.has_signatures);
}

#[test]
fn analyze_multiple_thinking_blocks() {
    let sse = b"\
data: {\"type\":\"content_block_start\",\"index\":0,\"content_block\":{\"type\":\"thinking\",\"thinking\":\"\"}}\n\
data: {\"type\":\"content_block_delta\",\"index\":0,\"delta\":{\"type\":\"thinking_delta\",\"thinking\":\"A\"}}\n\
data: {\"type\":\"content_block_delta\",\"index\":0,\"delta\":{\"type\":\"signature_delta\",\"signature\":\"sig1\"}}\n\
data: {\"type\":\"content_block_stop\",\"index\":0}\n\
data: {\"type\":\"content_block_start\",\"index\":1,\"content_block\":{\"type\":\"redacted_thinking\",\"data\":\"enc\"}}\n\
data: {\"type\":\"content_block_stop\",\"index\":1}\n\
data: {\"type\":\"content_block_start\",\"index\":2,\"content_block\":{\"type\":\"text\",\"text\":\"\"}}\n\
data: {\"type\":\"content_block_stop\",\"index\":2}\n";

    let events = parse_sse_events(sse);
    let stats = analyze_thinking_stream(&events);

    assert_eq!(stats.thinking_blocks, 1);
    assert_eq!(stats.redacted_blocks, 1);
    assert_eq!(stats.thinking_deltas, 1);
    assert_eq!(stats.signature_deltas, 1);
    assert_eq!(stats.thinking_stops, 2);
    assert!(stats.has_signatures);
}

#[test]
fn analyze_empty_stream() {
    let events = parse_sse_events(b"");
    let stats = analyze_thinking_stream(&events);
    assert_eq!(stats.total(), 0);
    assert!(!stats.has_signatures);
}

#[test]
fn analyze_truncated_stream_no_stop() {
    let sse = b"\
data: {\"type\":\"content_block_start\",\"index\":0,\"content_block\":{\"type\":\"thinking\",\"thinking\":\"\"}}\n\
data: {\"type\":\"content_block_delta\",\"index\":0,\"delta\":{\"type\":\"thinking_delta\",\"thinking\":\"truncated\"}}\n";

    let events = parse_sse_events(sse);
    let stats = analyze_thinking_stream(&events);

    assert_eq!(stats.thinking_blocks, 1);
    assert_eq!(stats.thinking_deltas, 1);
    assert_eq!(stats.thinking_stops, 0);
    assert_eq!(stats.signature_deltas, 0);
    assert!(!stats.has_signatures);
}

#[test]
fn analyze_stop_without_matching_start() {
    let sse = b"\
data: {\"type\":\"content_block_stop\",\"index\":99}\n";

    let events = parse_sse_events(sse);
    let stats = analyze_thinking_stream(&events);

    assert_eq!(stats.thinking_stops, 0);
    assert_eq!(stats.total(), 0);
}

#[test]
fn analyze_signature_delta_with_empty_signature() {
    let sse = b"\
data: {\"type\":\"content_block_start\",\"index\":0,\"content_block\":{\"type\":\"thinking\",\"thinking\":\"\"}}\n\
data: {\"type\":\"content_block_delta\",\"index\":0,\"delta\":{\"type\":\"signature_delta\",\"signature\":\"\"}}\n\
data: {\"type\":\"content_block_stop\",\"index\":0}\n";

    let events = parse_sse_events(sse);
    let stats = analyze_thinking_stream(&events);

    assert_eq!(stats.signature_deltas, 1);
    assert!(!stats.has_signatures);
}

#[test]
fn analyze_signature_delta_without_signature_field() {
    let sse = b"\
data: {\"type\":\"content_block_start\",\"index\":0,\"content_block\":{\"type\":\"thinking\",\"thinking\":\"\"}}\n\
data: {\"type\":\"content_block_delta\",\"index\":0,\"delta\":{\"type\":\"signature_delta\"}}\n\
data: {\"type\":\"content_block_stop\",\"index\":0}\n";

    let events = parse_sse_events(sse);
    let stats = analyze_thinking_stream(&events);

    assert_eq!(stats.signature_deltas, 1);
    assert!(!stats.has_signatures);
}

#[test]
fn analyze_interleaved_thinking_and_text_blocks() {
    let sse = b"\
data: {\"type\":\"content_block_start\",\"index\":0,\"content_block\":{\"type\":\"thinking\",\"thinking\":\"\"}}\n\
data: {\"type\":\"content_block_start\",\"index\":1,\"content_block\":{\"type\":\"text\",\"text\":\"\"}}\n\
data: {\"type\":\"content_block_start\",\"index\":2,\"content_block\":{\"type\":\"thinking\",\"thinking\":\"\"}}\n\
data: {\"type\":\"content_block_delta\",\"index\":0,\"delta\":{\"type\":\"thinking_delta\",\"thinking\":\"A\"}}\n\
data: {\"type\":\"content_block_delta\",\"index\":1,\"delta\":{\"type\":\"text_delta\",\"text\":\"B\"}}\n\
data: {\"type\":\"content_block_delta\",\"index\":2,\"delta\":{\"type\":\"thinking_delta\",\"thinking\":\"C\"}}\n\
data: {\"type\":\"content_block_delta\",\"index\":0,\"delta\":{\"type\":\"signature_delta\",\"signature\":\"sig0\"}}\n\
data: {\"type\":\"content_block_delta\",\"index\":2,\"delta\":{\"type\":\"signature_delta\",\"signature\":\"sig2\"}}\n\
data: {\"type\":\"content_block_stop\",\"index\":0}\n\
data: {\"type\":\"content_block_stop\",\"index\":1}\n\
data: {\"type\":\"content_block_stop\",\"index\":2}\n";

    let events = parse_sse_events(sse);
    let stats = analyze_thinking_stream(&events);

    assert_eq!(stats.thinking_blocks, 2);
    assert_eq!(stats.thinking_deltas, 2);
    assert_eq!(stats.signature_deltas, 2);
    assert_eq!(stats.thinking_stops, 2);
    assert!(stats.has_signatures);
    assert_eq!(stats.total(), 8);
}

#[test]
fn analyze_content_block_start_without_index() {
    let sse = b"\
data: {\"type\":\"content_block_start\",\"content_block\":{\"type\":\"thinking\",\"thinking\":\"\"}}\n\
data: {\"type\":\"content_block_stop\",\"index\":0}\n";

    let events = parse_sse_events(sse);
    let stats = analyze_thinking_stream(&events);

    assert_eq!(stats.thinking_blocks, 1);
    assert_eq!(stats.thinking_stops, 0);
}

#[test]
fn analyze_only_redacted_thinking() {
    let sse = b"\
data: {\"type\":\"content_block_start\",\"index\":0,\"content_block\":{\"type\":\"redacted_thinking\",\"data\":\"encrypted-abc\"}}\n\
data: {\"type\":\"content_block_stop\",\"index\":0}\n";

    let events = parse_sse_events(sse);
    let stats = analyze_thinking_stream(&events);

    assert_eq!(stats.thinking_blocks, 0);
    assert_eq!(stats.redacted_blocks, 1);
    assert_eq!(stats.thinking_deltas, 0);
    assert_eq!(stats.signature_deltas, 0);
    assert_eq!(stats.thinking_stops, 1);
    assert!(!stats.has_signatures);
}

#[test]
fn analyze_only_non_thinking_events() {
    let sse = b"\
data: {\"type\":\"message_start\",\"message\":{}}\n\
data: {\"type\":\"message_delta\",\"delta\":{\"stop_reason\":\"end_turn\"}}\n\
data: {\"type\":\"message_stop\"}\n";

    let events = parse_sse_events(sse);
    let stats = analyze_thinking_stream(&events);

    assert_eq!(stats.total(), 0);
    assert!(!stats.has_signatures);
}

#[test]
fn analyze_duplicate_stop_for_same_index() {
    let sse = b"\
data: {\"type\":\"content_block_start\",\"index\":0,\"content_block\":{\"type\":\"thinking\",\"thinking\":\"\"}}\n\
data: {\"type\":\"content_block_stop\",\"index\":0}\n\
data: {\"type\":\"content_block_stop\",\"index\":0}\n";

    let events = parse_sse_events(sse);
    let stats = analyze_thinking_stream(&events);

    assert_eq!(stats.thinking_blocks, 1);
    assert_eq!(stats.thinking_stops, 2);
}

#[test]
fn is_thinking_event_content_block_stop_is_false() {
    let sse = b"data: {\"type\":\"content_block_stop\",\"index\":0}\n";
    let events = parse_sse_events(sse);
    assert!(!events[0].is_thinking_event());
}

#[test]
fn is_thinking_event_message_start_is_false() {
    let sse = b"data: {\"type\":\"message_start\",\"message\":{}}\n";
    let events = parse_sse_events(sse);
    assert!(!events[0].is_thinking_event());
}

#[test]
fn analyze_glm_signature_in_start_plus_anthropic_delta() {
    let sse = b"\
data: {\"type\":\"content_block_start\",\"index\":0,\"content_block\":{\"type\":\"thinking\",\"thinking\":\"\",\"signature\":\"start-sig\"}}\n\
data: {\"type\":\"content_block_delta\",\"index\":0,\"delta\":{\"type\":\"signature_delta\",\"signature\":\"delta-sig\"}}\n\
data: {\"type\":\"content_block_stop\",\"index\":0}\n";

    let events = parse_sse_events(sse);
    let stats = analyze_thinking_stream(&events);

    assert_eq!(stats.thinking_blocks, 1);
    assert_eq!(stats.signature_deltas, 1);
    assert_eq!(stats.thinking_stops, 1);
    assert!(stats.has_signatures);
}

#[test]
fn total_sums_all_counters() {
    let stats = ThinkingStreamStats {
        thinking_blocks: 1,
        redacted_blocks: 2,
        thinking_deltas: 3,
        signature_deltas: 4,
        thinking_stops: 5,
        has_signatures: true,
    };
    assert_eq!(stats.total(), 15);
}

#[test]
fn serialize_then_parse_preserves_events_and_order() {
    let sse = b"\
event: message_start\n\
data: {\"type\":\"message_start\",\"message\":{\"model\":\"glm-5\"}}\n\n\
: keep-alive comment\n\
data: {\"type\":\"content_block_delta\",\"index\":0,\"delta\":{\"type\":\"text_delta\",\"text\":\"Hi\"}}\n\n\
data: [DONE]\n\
data: {\"type\":\"message_stop\"}\n";
    let events = parse_sse_events(sse);
    assert_eq!(events.len(), 3);

    let bytes = serialize_sse_events(&events);
    let reparsed = parse_sse_events(&bytes);

    assert_eq!(reparsed.len(), events.len());
    for (a, b) in events.iter().zip(reparsed.iter()) {
        assert_eq!(a.event_type, b.event_type);
        assert_eq!(a.data, b.data);
    }
}

#[test]
fn split_chunks_parse_like_whole_stream() {
    let whole = b"data: {\"type\":\"a\"}\ndata: {\"type\":\"b\"}\n";
    let all = parse_sse_events(whole);
    let first = parse_sse_events(b"data: {\"type\":\"a\"}\n");
    let second = parse_sse_events(b"data: {\"type\":\"b\"}\n");
    assert_eq!(all.len(), 2);
    assert_eq!(first.len(), 1);
    assert_eq!(second.len(), 1);
    assert_eq!(all[0].event_type, first[0].event_type);
    assert_eq!(all[1].event_type, second[0].event_type);
}
