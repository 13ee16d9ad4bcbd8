//! Tests for the JSON model: parsing, serialization and lookups.

use anyrelay::json::{dump_json, parse_json, Json};

#[test]
fn parse_and_dump_round_trip() {
    let body = br#"{"model":"glm-5","count":3,"neg":-2,"ok":true,"nothing":null,"list":[1,"two"],"nested":{"a":"b"}}"#;
    let parsed = parse_json(body).unwrap();
    let dumped = dump_json(&parsed);
    let reparsed = parse_json(&dumped).unwrap();
    assert_eq!(parsed, reparsed);
}

#[test]
fn parse_rejects_invalid_documents() {
    assert!(parse_json(b"").is_none());
    assert!(parse_json(b"not json").is_none());
    assert!(parse_json(b"[DONE]").is_none());
}

#[test]
fn get_finds_first_member() {
    let j = parse_json(br#"{"a":1,"b":"x"}"#).unwrap();
    assert_eq!(j.get("a"), Some(&Json::UInt(1)));
    assert_eq!(j.get("b").unwrap().as_str(), Some("x"));
    assert!(j.get("c").is_none());
}

#[test]
fn numbers_parse_into_integer_variants() {
    let j = parse_json(br#"{"u":18446744073709551615,"i":-5,"f":1.5}"#).unwrap();
    assert_eq!(j.get("u"), Some(&Json::UInt(u64::MAX)));
    assert_eq!(j.get("i"), Some(&Json::Int(-5)));
    assert!(matches!(j.get("f"), Some(Json::Num(_))));
}

#[test]
fn non_object_values_have_no_members() {
    let j = parse_json(b"[1,2,3]").unwrap();
    assert!(j.get("a").is_none());
    assert!(j.as_array().is_some());
    assert_eq!(j.as_array().unwrap().len(), 3);
}

#[test]
fn float_texts_round_trip() {
    let j = parse_json(br#"{"t":0.5,"big":1e300}"#).unwrap();
    let dumped = dump_json(&j);
    let re = parse_json(&dumped).unwrap();
    assert_eq!(j, re);
}

#[test]
fn parse_refuses_nesting_beyond_recursion_limit() {
    // 128 nested arrays exhaust the deserializer's recursion budget.
    let mut deep = String::new();
    for _ in 0..128 {
        deep.push('[');
    }
    for _ in 0..128 {
        deep.push(']');
    }
    assert!(anyrelay::json::parse_json(deep.as_bytes()).is_none());
}

#[test]
fn parse_accepts_nesting_at_recursion_limit() {
    // 127 levels are the deepest document the parser takes back.
    let mut deep = String::new();
    for _ in 0..127 {
        deep.push('[');
    }
    for _ in 0..127 {
        deep.push(']');
    }
    let parsed = anyrelay::json::parse_json(deep.as_bytes()).expect("within the limit");
    let dumped = anyrelay::json::dump_json(&parsed);
    assert_eq!(anyrelay::json::parse_json(&dumped), Some(parsed));
}
