//! Routing rules, the health answer and the error envelope.
//!
//! A routing rule is a path prefix bound to a fixed backend: a request
//! whose path equals the prefix, or continues it with a slash, is routed
//! there with the prefix stripped. A partial segment never matches. Rules
//! are evaluated in order and the first match wins; no match falls through
//! to the active backend.

use crate::json::{json_as_str, json_get, json_parse_spec, json_wf, Json};
use crate::upstream::{proxy_error_kind, proxy_error_status, ProxyError};
use vstd::prelude::*;

verus! {

use vstd::string::StringSliceAdditionalSpecFns;

/// One path-prefix rule: requests under the prefix go to this backend.
#[derive(Debug)]
pub struct RouteRule {
    /// The path prefix, e.g. `/teammate`.
    pub prefix: String,
    /// The backend requests under it are routed to.
    pub backend: String,
}

/// Whether a path matches a prefix as whole segments: equal to it, or
/// continuing it with a slash.
pub open spec fn prefix_matches(prefix: Seq<u8>, path: Seq<u8>) -> bool {
    path == prefix || (path.len() > prefix.len() && path.take(prefix.len() as int) == prefix
        && path[prefix.len() as int] == 47)
}

/// What the upstream sees after the strip: the remainder of the path, or
/// the root when nothing remains.
pub open spec fn stripped_path(prefix: Seq<u8>, path: Seq<u8>) -> Seq<u8> {
    if path.len() == prefix.len() {
        seq![47u8]
    } else {
        path.skip(prefix.len() as int)
    }
}

/// Match one rule against a path: whole-segment prefix match, returning
/// the path as the upstream will see it.
pub fn match_prefix<'a>(prefix: &str, path: &'a str) -> (r: Option<&'a str>)
    ensures
        match r {
            Some(rest) => prefix_matches(prefix.spec_bytes(), path.spec_bytes()) && (
            path.spec_bytes().len() > prefix.spec_bytes().len() ==> rest.spec_bytes()
                == stripped_path(prefix.spec_bytes(), path.spec_bytes())) && (
            path.spec_bytes().len() == prefix.spec_bytes().len() ==> rest.spec_bytes()
                == Seq::<u8>::empty()),
            None => !prefix_matches(prefix.spec_bytes(), path.spec_bytes()),
        },
{
    let pb = prefix.as_bytes();
    let tb = path.as_bytes();
    if tb.len() < pb.len() {
        proof {
            assert(!prefix_matches(pb@, tb@));
        }
        return None;
    }
    let mut i: usize = 0;
    while i < pb.len()
        invariant
            i <= pb@.len(),
            pb@.len() <= tb@.len(),
            pb@ == prefix.spec_bytes(),
            tb@ == path.spec_bytes(),
            forall|k: int| 0 <= k < i ==> pb@[k] == tb@[k],
        decreases pb@.len() - i,
    {
        if pb[i] != tb[i] {
            proof {
                if prefix_matches(pb@, tb@) {
                    if tb@ == pb@ {
                        assert(tb@[i as int] == pb@[i as int]);
                    } else {
                        assert(tb@.take(pb@.len() as int)[i as int] == tb@[i as int]);
                    }
                    assert(false);
                }
            }
            return None;
        }
        i = i + 1;
    }
    if tb.len() == pb.len() {
        proof {
            assert(tb@ =~= pb@);
            vstd::utf8::encode_utf8_valid_utf8(path@);
            lemma_non_continuation_is_boundary(tb@, pb@.len() as int);
        }
        let (_, rest) = path.split_at(pb.len());
        proof {
            assert(rest.spec_bytes() =~= Seq::<u8>::empty());
        }
        return Some(rest);
    }
    if tb[pb.len()] == 47 {
        proof {
            assert(tb@.take(pb@.len() as int) =~= pb@);
            vstd::utf8::encode_utf8_valid_utf8(path@);
            assert(!vstd::utf8::is_continuation_byte(tb@[pb@.len() as int]));
            lemma_non_continuation_is_boundary(tb@, pb@.len() as int);
        }
        let (_, rest) = path.split_at(pb.len());
        proof {
            assert(rest.spec_bytes() =~= tb@.skip(pb@.len() as int));
        }
        return Some(rest);
    }
    proof {
        if prefix_matches(pb@, tb@) {
            assert(tb@.len() > pb@.len());
        }
    }
    None
}

/// A routing decision: the backend to force, and the path to forward.
#[derive(Debug)]
pub struct RoutingAction {
    /// The backend this rule forces.
    pub backend: String,
    /// The path the upstream client must use.
    pub path: String,
}

/// The UTF-8 bytes of a string's characters.
pub open spec fn str_bytes(s: Seq<char>) -> Seq<u8> {
    vstd::utf8::encode_utf8(s)
}

/// Whether any rule matches the path.
pub open spec fn some_rule_matches(rules: Seq<RouteRule>, path: Seq<u8>) -> bool {
    exists|i: int|
        0 <= i < rules.len() && prefix_matches(str_bytes((#[trigger] rules[i]).prefix@), path)
}

/// Evaluate the rules in order: the first whose prefix matches the path
/// wins and yields its backend with the prefix stripped; no match yields
/// nothing, and the caller falls through to the active backend.
pub fn route_request(rules: &Vec<RouteRule>, path: &str) -> (r: Option<RoutingAction>)
    ensures
        r is Some <==> some_rule_matches(rules@, path.spec_bytes()),
        r matches Some(a) ==> exists|i: int|
            {
                &&& 0 <= i < rules@.len()
                &&& prefix_matches(str_bytes((#[trigger] rules@[i]).prefix@), path.spec_bytes())
                &&& (forall|k: int|
                    0 <= k < i ==> !prefix_matches(
                        str_bytes((#[trigger] rules@[k]).prefix@),
                        path.spec_bytes(),
                    ))
                &&& a.backend@ == rules@[i].backend@
                &&& str_bytes(a.path@) == stripped_path(
                    str_bytes(rules@[i].prefix@),
                    path.spec_bytes(),
                )
            },
{
    let mut i: usize = 0;
    while i < rules.len()
        invariant
            i <= rules@.len(),
            forall|k: int|
                0 <= k < i ==> !prefix_matches(
                    str_bytes((#[trigger] rules@[k]).prefix@),
                    path.spec_bytes(),
                ),
        decreases rules@.len() - i,
    {
        match match_prefix(rules[i].prefix.as_str(), path) {
            Some(rest) => {
                let forwarded: String = if rest.as_bytes().len() == 0 {
                    let root = "/";
                    proof {
                        reveal_strlit("/");
                        assert(vstd::string::is_ascii(root));
                        assert(root.spec_bytes() =~= seq![47u8]);
                    }
                    root.to_owned()
                } else {
                    rest.to_owned()
                };
                proof {
                    if rest.spec_bytes().len() == 0 {
                        assert(path.spec_bytes().len() == str_bytes(
                            rules@[i as int].prefix@,
                        ).len());
                        assert(str_bytes(forwarded@) =~= stripped_path(
                            str_bytes(rules@[i as int].prefix@),
                            path.spec_bytes(),
                        ));
                    }
                }
                return Some(RoutingAction { backend: rules[i].backend.clone(), path: forwarded });
            },
            None => (),
        }
        i = i + 1;
    }
    None
}

/// The JSON body of the health answer.
pub fn health_body(service: &str) -> (r: Vec<u8>)
    ensures
        json_parse_spec(r@) matches Some(j) && json_get(j, "status"@) matches Some(st)
            && json_as_str(st) == Some("healthy"@) && (json_get(j, "service"@) matches Some(sv)
            && json_as_str(sv) == Some(service@)),
{
    let mut entries: Vec<(String, Json)> = Vec::new();
    entries.push(("status".to_owned(), Json::Str("healthy".to_owned())));
    entries.push(("service".to_owned(), Json::Str(service.to_owned())));
    let body = Json::Obj(entries);
    proof {
        reveal_strlit("status");
        reveal_strlit("service");
        let e = body->Obj_0@;
        assert(e.len() == 2);
        assert(e[0].0@ == "status"@ && e[1].0@ == "service"@);
        assert("status"@.len() == 6 && "service"@.len() == 7);
        assert(json_wf(body)) by {
            assert forall|i: int, k: int| 0 <= i < k < e.len() implies (#[trigger] e[i]).0@ != (
            #[trigger] e[k]).0@ by {
                assert(i == 0 && k == 1);
                assert(e[0].0@.len() != e[1].0@.len());
            }
            assert forall|i: int| 0 <= i < e.len() implies json_wf((#[trigger] e[i]).1) by {
                assert(e[i].1 is Str);
            }
        }
        assert(crate::json::json_within_depth(body, crate::json::parse_depth_limit())) by {
            assert forall|i: int| 0 <= i < e.len() implies crate::json::json_within_depth(
                (#[trigger] e[i]).1,
                crate::json::parse_depth_limit() - 1,
            ) by {
                assert(e[i].1 is Str);
            }
        }
        crate::json::lemma_obj_get_at_first(e, "status"@, 0);
        crate::json::lemma_obj_get_at_first(e, "service"@, 1);
    }
    crate::json::dump_json(&body)
}

/// The JSON error envelope the proxy answers with: type `error`, the
/// error's wire name and message, and the request id for correlation.
/// Returns the body and the HTTP status.
pub fn error_envelope(error: &ProxyError, message: &str, request_id: &str) -> (r: (Vec<u8>, u16))
    ensures
        r.1 == proxy_error_status(*error),
        json_parse_spec(r.0@) matches Some(j) && json_get(j, "type"@) matches Some(t)
            && json_as_str(t) == Some("error"@) && (json_get(j, "error"@) matches Some(inner)
            && (json_get(inner, "type"@) matches Some(k) && json_as_str(k) == Some(
            proxy_error_kind(*error),
        )) && (json_get(inner, "message"@) matches Some(m) && json_as_str(m) == Some(message@))
            && (json_get(inner, "request_id"@) matches Some(rid) && json_as_str(rid) == Some(
            request_id@,
        ))),
{
    let kind = error.kind_name();
    let mut inner: Vec<(String, Json)> = Vec::new();
    inner.push(("type".to_owned(), Json::Str(kind.to_owned())));
    inner.push(("message".to_owned(), Json::Str(message.to_owned())));
    inner.push(("request_id".to_owned(), Json::Str(request_id.to_owned())));
    let inner_obj = Json::Obj(inner);
    let mut outer: Vec<(String, Json)> = Vec::new();
    outer.push(("type".to_owned(), Json::Str("error".to_owned())));
    outer.push(("error".to_owned(), inner_obj));
    let body = Json::Obj(outer);
    proof {
        reveal_strlit("type");
        reveal_strlit("message");
        reveal_strlit("request_id");
        reveal_strlit("error");
        let e = body->Obj_0@;
        let ie = inner_obj->Obj_0@;
        assert(e.len() == 2 && ie.len() == 3);
        assert(e[0].0@ == "type"@ && e[1].0@ == "error"@);
        assert(ie[0].0@ == "type"@ && ie[1].0@ == "message"@ && ie[2].0@ == "request_id"@);
        assert("type"@.len() == 4 && "message"@.len() == 7 && "request_id"@.len() == 10
            && "error"@.len() == 5);
        assert(json_wf(inner_obj)) by {
            assert forall|i: int, k: int| 0 <= i < k < ie.len() implies (#[trigger] ie[i]).0@
                != (#[trigger] ie[k]).0@ by {
                assert(ie[i].0@.len() != ie[k].0@.len());
            }
            assert forall|i: int| 0 <= i < ie.len() implies json_wf((#[trigger] ie[i]).1) by {
                assert(ie[i].1 is Str);
            }
        }
        assert(json_wf(body)) by {
            assert forall|i: int, k: int| 0 <= i < k < e.len() implies (#[trigger] e[i]).0@ != (
            #[trigger] e[k]).0@ by {
                assert(e[i].0@.len() != e[k].0@.len());
            }
            assert forall|i: int| 0 <= i < e.len() implies json_wf((#[trigger] e[i]).1) by {
                if i == 0 {
                    assert(e[0].1 is Str);
                } else {
                    assert(e[1].1 == inner_obj);
                }
            }
        }
        assert(crate::json::json_within_depth(
            inner_obj,
            crate::json::parse_depth_limit() - 1,
        )) by {
            assert forall|i: int| 0 <= i < ie.len() implies crate::json::json_within_depth(
                (#[trigger] ie[i]).1,
                crate::json::parse_depth_limit() - 2,
            ) by {
                assert(ie[i].1 is Str);
            }
        }
        assert(crate::json::json_within_depth(body, crate::json::parse_depth_limit())) by {
            assert forall|i: int| 0 <= i < e.len() implies crate::json::json_within_depth(
                (#[trigger] e[i]).1,
                crate::json::parse_depth_limit() - 1,
            ) by {
                if i == 0 {
                    assert(e[0].1 is Str);
                } else {
                    assert(e[1].1 == inner_obj);
                }
            }
        }
        crate::json::lemma_obj_get_at_first(e, "type"@, 0);
        crate::json::lemma_obj_get_at_first(e, "error"@, 1);
        crate::json::lemma_obj_get_at_first(ie, "type"@, 0);
        crate::json::lemma_obj_get_at_first(ie, "message"@, 1);
        crate::json::lemma_obj_get_at_first(ie, "request_id"@, 2);
    }
    let bytes = crate::json::dump_json(&body);
    (bytes, error.status())
}

/// A position whose byte is not a continuation byte — or the end — is a
/// character boundary of a valid UTF-8 sequence.
proof fn lemma_non_continuation_is_boundary(bytes: Seq<u8>, i: int)
    requires
        vstd::utf8::valid_utf8(bytes),
        0 <= i <= bytes.len(),
        i < bytes.len() ==> !vstd::utf8::is_continuation_byte(bytes[i]),
    ensures
        vstd::utf8::is_char_boundary(bytes, i),
    decreases bytes.len(),
{
    if i > 0 {
        assert(bytes.len() > 0);
        let l = vstd::utf8::length_of_first_scalar(bytes);
        assert(1 <= l <= 4);
        let rest = vstd::utf8::pop_first_scalar(bytes);
        if i < l {
            assert(vstd::utf8::is_continuation_byte(bytes[i]));
        } else {
            assert(vstd::utf8::valid_utf8(rest));
            assert(rest.len() == bytes.len() - l);
            if i - l < rest.len() {
                assert(rest[i - l] == bytes[i]);
            }
            lemma_non_continuation_is_boundary(rest, i - l);
        }
    }
}

} // verus!
