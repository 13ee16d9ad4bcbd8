//! Forward and reverse rewriting of the `model` field.
//!
//! Each request freezes one mapping pair at entry — the client's model name
//! and the backend's — and uses it forward on the request body and in
//! reverse on the response: a buffered JSON response's top-level `model`,
//! or the `message.model` field inside the `message_start` event of a
//! stream. The streaming rewriter latches into pass-through after the first
//! chunk that can carry `message_start`, which appears at most once.

use crate::json::{json_as_str, json_dump_spec, json_get, json_parse_spec, json_wf, Json};
use crate::sse::{data_prefix, split_lines, trim_spec, trim_start_spec};
use crate::strutil::{contains_bytes, contains_seq};
use vstd::prelude::*;

verus! {

/// The mapping pair frozen at request entry.
#[derive(Debug, PartialEq)]
pub struct ModelMapping {
    /// Model name sent to the backend.
    pub backend: String,
    /// Original model name from the client.
    pub original: String,
}

/// The bytes of the `"message_start"` fast-path needle.
pub open spec fn message_start_needle() -> Seq<u8> {
    seq![
        34u8, 109u8, 101u8, 115u8, 115u8, 97u8, 103u8, 101u8, 95u8, 115u8, 116u8, 97u8, 114u8,
        116u8, 34u8,
    ]
}

/// Object entries `e1` are `e0` with the value at the first occurrence of
/// `key` replaced by a value satisfying `good`; entries and keys otherwise
/// untouched.
pub open spec fn set_rel(
    e0: Seq<(String, Json)>,
    e1: Seq<(String, Json)>,
    key: Seq<char>,
    good: spec_fn(Json) -> bool,
) -> bool {
    &&& e1.len() == e0.len()
    &&& exists|j: int|
        {
            &&& 0 <= j < e0.len()
            &&& (#[trigger] e0[j]).0@ == key
            &&& (forall|k: int| 0 <= k < j ==> (#[trigger] e0[k]).0@ != key)
            &&& e1[j].0 == e0[j].0
            &&& good(e1[j].1)
            &&& (forall|k: int| 0 <= k < e0.len() && k != j ==> #[trigger] e1[k] == e0[k])
        }
}

/// `j1` is `j0` with its top-level `model` — a string equal to `from` —
/// replaced by the string `to`. Nothing else differs.
pub open spec fn model_swapped(j0: Json, j1: Json, from: Seq<char>, to: Seq<char>) -> bool {
    &&& j0 matches Json::Obj(e0)
    &&& json_as_str(match json_get(j0, "model"@) {
        Some(x) => x,
        None => Json::Null,
    }) == Some(from)
    &&& j1 matches Json::Obj(e1) && set_rel(
        j0->Obj_0@,
        e1@,
        "model"@,
        |v: Json| json_as_str(v) == Some(to),
    )
}

/// Whether the top-level `model` of `j` is the string `m`.
pub open spec fn model_is(j: Json, m: Seq<char>) -> bool {
    json_as_str(
        match json_get(j, "model"@) {
            Some(x) => x,
            None => Json::Null,
        },
    ) == Some(m)
}

/// Forward map then reverse map restores the client's original model: two
/// swaps compose so that the final body carries the original string and
/// every other entry is exactly what it started as.
pub proof fn lemma_model_round_trip(j0: Json, j1: Json, j2: Json, client: Seq<char>, backend: Seq<char>)
    requires
        model_swapped(j0, j1, client, backend),
        model_swapped(j1, j2, backend, client),
    ensures
        model_is(j2, client),
        model_is(j0, client),
        j2->Obj_0@.len() == j0->Obj_0@.len(),
        forall|k: int|
            0 <= k < j0->Obj_0@.len() && (#[trigger] j0->Obj_0@[k]).0@ != "model"@
                ==> j2->Obj_0@[k] == j0->Obj_0@[k],
{
    let e0 = j0->Obj_0@;
    let e1 = j1->Obj_0@;
    let e2 = j2->Obj_0@;
    let ja = choose|j: int|
        {
            &&& 0 <= j < e0.len()
            &&& (#[trigger] e0[j]).0@ == "model"@
            &&& (forall|k: int| 0 <= k < j ==> (#[trigger] e0[k]).0@ != "model"@)
            &&& e1[j].0 == e0[j].0
            &&& json_as_str(e1[j].1) == Some(backend)
            &&& (forall|k: int| 0 <= k < e0.len() && k != j ==> #[trigger] e1[k] == e0[k])
        };
    let jb = choose|j: int|
        {
            &&& 0 <= j < e1.len()
            &&& (#[trigger] e1[j]).0@ == "model"@
            &&& (forall|k: int| 0 <= k < j ==> (#[trigger] e1[k]).0@ != "model"@)
            &&& e2[j].0 == e1[j].0
            &&& json_as_str(e2[j].1) == Some(client)
            &&& (forall|k: int| 0 <= k < e1.len() && k != j ==> #[trigger] e2[k] == e1[k])
        };
    assert(ja == jb) by {
        if ja < jb {
            assert(e1[ja].0@ != "model"@);
        }
        if jb < ja {
            assert(e1[jb] == e0[jb]);
        }
    }
    crate::json::lemma_obj_get_at_first(e2, "model"@, ja);
    crate::json::lemma_obj_get_at_first(e0, "model"@, ja);
}

/// Replace the top-level `model` of a body when it currently equals
/// `from`: returns whether it was replaced, and leaves everything else —
/// every other entry, and the body entirely on a mismatch — unchanged.
pub fn rewrite_model_field(body: &mut Json, from: &str, to: &str) -> (changed: bool)
    ensures
        changed ==> model_swapped(*old(body), *final(body), from@, to@),
        !changed ==> *final(body) == *old(body) && !model_is(*old(body), from@),
        json_wf(*old(body)) ==> json_wf(*final(body)),
        forall|d: int|
            crate::json::json_within_depth(*old(body), d) ==> crate::json::json_within_depth(
                *final(body),
                d,
            ),
{
    let matches_from = match body.get("model") {
        Some(x) => x.is_str(from),
        None => false,
    };
    if !matches_from {
        return false;
    }
    let mut owned = Json::Null;
    core::mem::swap(body, &mut owned);
    let entries: Vec<(String, Json)> = match owned {
        Json::Obj(e) => e,
        _ => {
            proof {
                assert(false);
            }
            Vec::new()
        },
    };
    let ghost entries0 = entries@;
    let mut src = entries;
    let mut out: Vec<(String, Json)> = Vec::new();
    let mut done: bool = false;
    let ghost mut jpos: int = 0;
    while src.len() > 0
        invariant
            src@ =~= entries0.skip(entries0.len() - src@.len()),
            entries0.len() >= src@.len(),
            out@.len() == entries0.len() - src@.len(),
            crate::json::obj_get(entries0, "model"@) matches Some(x) && json_as_str(x) == Some(
                from@,
            ),
            ({
                let consumed = entries0.len() - src@.len();
                if done {
                    &&& 0 <= jpos < consumed
                    &&& entries0[jpos].0@ == "model"@
                    &&& (forall|k: int|
                        0 <= k < jpos ==> (#[trigger] entries0[k]).0@ != "model"@)
                    &&& out@[jpos].0 == entries0[jpos].0
                    &&& json_as_str(out@[jpos].1) == Some(to@)
                    &&& (forall|k: int|
                        0 <= k < consumed && k != jpos ==> #[trigger] out@[k] == entries0[k])
                } else {
                    out@ =~= entries0.take(entries0.len() - src@.len()) && (forall|k: int|
                        0 <= k < entries0.len() - src@.len() ==> (#[trigger] entries0[k]).0@
                            != "model"@)
                }
            }),
        decreases src@.len(),
    {
        let ghost consumed0 = entries0.len() - src@.len();
        let (k, v) = src.remove(0);
        proof {
            assert(entries0.skip(consumed0)[0] == entries0[consumed0]);
            assert((k, v) == entries0[consumed0]);
            assert(src@ =~= entries0.skip(consumed0 + 1));
            assert(entries0.take(consumed0 + 1) =~= entries0.take(consumed0).push(
                entries0[consumed0],
            ));
        }
        let ghost prevout = out@;
        let ghost was_done = done;
        if !done && crate::strutil::str_eq(k.as_str(), "model") {
            out.push((k, Json::Str(to.to_owned())));
            done = true;
            proof {
                jpos = consumed0;
                assert(forall|t: int| 0 <= t < consumed0 ==> #[trigger] out@[t] == prevout[t]);
            }
        } else {
            out.push((k, v));
            proof {
                assert(out@[consumed0] == entries0[consumed0]);
                assert(forall|t: int| 0 <= t < consumed0 ==> #[trigger] out@[t] == prevout[t]);
                if was_done {
                    assert(out@[jpos] == prevout[jpos]);
                } else {
                    assert(out@ =~= entries0.take(consumed0 + 1));
                }
            }
        }
    }
    proof {
        assert(entries0.skip(0) =~= entries0);
        assert(entries0.take(entries0.len() as int) =~= entries0);
        if !done {
            crate::json::lemma_obj_get_none(entries0, "model"@);
            assert(false);
        }
    }
    let mut back = Json::Obj(out);
    core::mem::swap(body, &mut back);
    proof {
        let e1 = final(body)->Obj_0@;
        assert(model_swapped(*old(body), *final(body), from@, to@));
        if json_wf(*old(body)) {
            assert forall|i: int| 0 <= i < e1.len() implies json_wf((#[trigger] e1[i]).1) by {
                if i != jpos {
                    assert(e1[i] == entries0[i]);
                }
            }
            assert forall|i: int, k2: int| 0 <= i < k2 < e1.len() implies (
            #[trigger] e1[i]).0@ != (#[trigger] e1[k2]).0@ by {
                assert(e1[i].0 == entries0[i].0 || i == jpos);
                assert(e1[jpos].0 == entries0[jpos].0);
            }
        }
        assert forall|d: int|
            crate::json::json_within_depth(*old(body), d) implies crate::json::json_within_depth(
            *final(body),
            d,
        ) by {
            assert(d > 0);
            assert forall|i: int| 0 <= i < e1.len() implies crate::json::json_within_depth(
                (#[trigger] e1[i]).1,
                d - 1,
            ) by {
                if i == jpos {
                    assert(e1[i].1 is Str);
                } else {
                    assert(e1[i] == entries0[i]);
                    assert(crate::json::json_within_depth(entries0[i].1, d - 1));
                }
            }
        }
    }
    true
}

/// Lines joined back with newline separators.
pub open spec fn join_lines(ls: Seq<Seq<u8>>) -> Seq<u8>
    decreases ls.len(),
{
    if ls.len() == 0 {
        Seq::empty()
    } else if ls.len() == 1 {
        ls[0]
    } else {
        ls[0] + seq![10u8] + join_lines(ls.drop_first())
    }
}

/// The `message_start` payload of a line, when the line is a `data:` line
/// whose payload parses to a `message_start` event.
pub open spec fn msg_start_payload(l: Seq<u8>) -> Option<Json> {
    let t = trim_spec(l);
    if t.len() >= 5 && t.take(5) == data_prefix() {
        match json_parse_spec(trim_start_spec(t.skip(5))) {
            Some(j) => if crate::json::type_is(j, "message_start"@) {
                Some(j)
            } else {
                None
            },
            None => None,
        }
    } else {
        None
    }
}

/// Whether the `message.model` member of `j` is the string `m`.
pub open spec fn msg_model_is(j: Json, m: Seq<char>) -> bool {
    match json_get(j, "message"@) {
        Some(msg) => model_is(msg, m),
        None => false,
    }
}

/// `j1` is `j0` with the `message.model` string — equal to `from` —
/// replaced by `to`; every other member, inside and outside `message`,
/// unchanged.
pub open spec fn msg_model_swapped(j0: Json, j1: Json, from: Seq<char>, to: Seq<char>) -> bool {
    &&& j0 matches Json::Obj(e0)
    &&& msg_model_is(j0, from)
    &&& j1 matches Json::Obj(e1) && set_rel(
        j0->Obj_0@,
        e1@,
        "message"@,
        |v: Json| model_swapped(
            match json_get(j0, "message"@) {
                Some(msg) => msg,
                None => Json::Null,
            },
            v,
            from,
            to,
        ),
    )
}

/// What one line of a chunk becomes when the rewriter touches the chunk:
/// a `message_start` line is re-emitted as a `data:` line carrying its
/// payload — with `message.model` swapped when it equals the backend
/// model — and every other line passes through verbatim.
pub open spec fn line_out_rel(l0: Seq<u8>, l1: Seq<u8>, backend: Seq<char>, original: Seq<char>) -> bool {
    match msg_start_payload(l0) {
        Some(j0) => exists|j1: Json|
            {
                &&& (if msg_model_is(j0, backend) {
                    msg_model_swapped(j0, j1, backend, original)
                } else {
                    j1 == j0
                })
                &&& l1 == data_prefix() + seq![32u8] + json_dump_spec(j1)
            },
        None => l1 == l0,
    }
}

/// Whether the rewriter would actually change a line.
pub open spec fn line_out_changed(l0: Seq<u8>, backend: Seq<char>) -> bool {
    match msg_start_payload(l0) {
        Some(j0) => msg_model_is(j0, backend),
        None => false,
    }
}

/// Line lists related pointwise by `line_out_rel`.
pub open spec fn lines_rel(
    ls0: Seq<Seq<u8>>,
    ls1: Seq<Seq<u8>>,
    backend: Seq<char>,
    original: Seq<char>,
) -> bool {
    ls1.len() == ls0.len() && forall|i: int|
        0 <= i < ls0.len() ==> line_out_rel(#[trigger] ls0[i], #[trigger] ls1[i], backend, original)
}

/// Whether any line of the list would change.
pub open spec fn any_line_changed(ls0: Seq<Seq<u8>>, backend: Seq<char>) -> bool {
    exists|i: int| 0 <= i < ls0.len() && line_out_changed(#[trigger] ls0[i], backend)
}

/// Replace the value under an existing key with `v`, first occurrence.
fn set_existing_field(obj: Json, key: &str, v: Json) -> (r: Json)
    requires
        obj is Obj,
        json_get(obj, key@) is Some,
    ensures
        r matches Json::Obj(e1) && set_rel(
            obj->Obj_0@,
            e1@,
            key@,
            |x: Json| x == v,
        ),
{
    let entries: Vec<(String, Json)> = match obj {
        Json::Obj(e) => e,
        _ => {
            proof {
                assert(false);
            }
            Vec::new()
        },
    };
    let ghost entries0 = entries@;
    let mut src = entries;
    let mut out: Vec<(String, Json)> = Vec::new();
    let mut pending: Option<Json> = Some(v);
    let ghost vv = v;
    let ghost mut jpos: int = 0;
    while src.len() > 0
        invariant
            src@ =~= entries0.skip(entries0.len() - src@.len()),
            entries0.len() >= src@.len(),
            out@.len() == entries0.len() - src@.len(),
            crate::json::obj_get(entries0, key@) is Some,
            ({
                let consumed = entries0.len() - src@.len();
                if pending is None {
                    &&& 0 <= jpos < consumed
                    &&& entries0[jpos].0@ == key@
                    &&& (forall|k: int| 0 <= k < jpos ==> (#[trigger] entries0[k]).0@ != key@)
                    &&& out@[jpos].0 == entries0[jpos].0
                    &&& out@[jpos].1 == vv
                    &&& (forall|k: int|
                        0 <= k < consumed && k != jpos ==> #[trigger] out@[k] == entries0[k])
                } else {
                    &&& pending == Some(vv)
                    &&& out@ =~= entries0.take(entries0.len() - src@.len())
                    &&& (forall|k: int|
                        0 <= k < entries0.len() - src@.len() ==> (#[trigger] entries0[k]).0@
                            != key@)
                }
            }),
        decreases src@.len(),
    {
        let ghost consumed0 = entries0.len() - src@.len();
        let (k, val) = src.remove(0);
        proof {
            assert(entries0.skip(consumed0)[0] == entries0[consumed0]);
            assert((k, val) == entries0[consumed0]);
            assert(src@ =~= entries0.skip(consumed0 + 1));
            assert(entries0.take(consumed0 + 1) =~= entries0.take(consumed0).push(
                entries0[consumed0],
            ));
        }
        let ghost prevout = out@;
        let ghost had_pending = pending is Some;
        if pending.is_some() && crate::strutil::str_eq(k.as_str(), key) {
            let mut taken: Option<Json> = None;
            core::mem::swap(&mut pending, &mut taken);
            let newv = match taken {
                Some(x) => x,
                None => {
                    proof {
                        assert(false);
                    }
                    Json::Null
                },
            };
            out.push((k, newv));
            proof {
                jpos = consumed0;
                assert(forall|t: int| 0 <= t < consumed0 ==> #[trigger] out@[t] == prevout[t]);
            }
        } else {
            out.push((k, val));
            proof {
                assert(out@[consumed0] == entries0[consumed0]);
                assert(forall|t: int| 0 <= t < consumed0 ==> #[trigger] out@[t] == prevout[t]);
                if !had_pending {
                    assert(out@[jpos] == prevout[jpos]);
                } else {
                    assert(out@ =~= entries0.take(consumed0 + 1));
                }
            }
        }
    }
    proof {
        assert(entries0.skip(0) =~= entries0);
        if pending is Some {
            crate::json::lemma_obj_get_none(entries0, key@);
            assert(false);
        }
    }
    Json::Obj(out)
}

/// Rewrite `message.model` when it equals `from`: the rewritten event and
/// whether anything changed. On a mismatch the event is returned untouched.
fn rewrite_message_model(j: Json, from: &str, to: &str) -> (r: (Json, bool))
    ensures
        r.1 ==> msg_model_swapped(j, r.0, from@, to@),
        !r.1 ==> r.0 == j && !msg_model_is(j, from@),
        json_wf(j) ==> json_wf(r.0),
{
    let matched = match j.get("message") {
        Some(msg) => match msg.get("model") {
            Some(x) => x.is_str(from),
            None => false,
        },
        None => false,
    };
    if !matched {
        return (j, false);
    }
    let ghost msg0 = json_get(j, "message"@)->Some_0;
    let entries: Vec<(String, Json)> = match j {
        Json::Obj(e) => e,
        _ => {
            proof {
                assert(false);
            }
            Vec::new()
        },
    };
    let ghost entries0 = entries@;
    let mut src = entries;
    let mut out: Vec<(String, Json)> = Vec::new();
    let mut done: bool = false;
    let ghost mut jpos: int = 0;
    while src.len() > 0
        invariant
            src@ =~= entries0.skip(entries0.len() - src@.len()),
            entries0.len() >= src@.len(),
            out@.len() == entries0.len() - src@.len(),
            crate::json::obj_get(entries0, "message"@) == Some(msg0),
            model_is(msg0, from@),
            ({
                let consumed = entries0.len() - src@.len();
                if done {
                    &&& 0 <= jpos < consumed
                    &&& entries0[jpos].0@ == "message"@
                    &&& (forall|k: int|
                        0 <= k < jpos ==> (#[trigger] entries0[k]).0@ != "message"@)
                    &&& out@[jpos].0 == entries0[jpos].0
                    &&& model_swapped(msg0, out@[jpos].1, from@, to@)
                    &&& (json_wf(msg0) ==> json_wf(out@[jpos].1))
                    &&& (forall|k: int|
                        0 <= k < consumed && k != jpos ==> #[trigger] out@[k] == entries0[k])
                } else {
                    out@ =~= entries0.take(entries0.len() - src@.len()) && (forall|k: int|
                        0 <= k < entries0.len() - src@.len() ==> (#[trigger] entries0[k]).0@
                            != "message"@)
                }
            }),
        decreases src@.len(),
    {
        let ghost consumed0 = entries0.len() - src@.len();
        let (k, val) = src.remove(0);
        proof {
            assert(entries0.skip(consumed0)[0] == entries0[consumed0]);
            assert((k, val) == entries0[consumed0]);
            assert(src@ =~= entries0.skip(consumed0 + 1));
            assert(entries0.take(consumed0 + 1) =~= entries0.take(consumed0).push(
                entries0[consumed0],
            ));
        }
        let ghost prevout = out@;
        let ghost was_done = done;
        if !done && crate::strutil::str_eq(k.as_str(), "message") {
            proof {
                crate::json::lemma_obj_get_at_first(entries0, "message"@, consumed0);
                assert(val == msg0);
            }
            let mut inner = val;
            let ch = rewrite_model_field(&mut inner, from, to);
            proof {
                assert(ch) by {
                    if !ch {
                        assert(!model_is(msg0, from@));
                    }
                }
            }
            out.push((k, inner));
            done = true;
            proof {
                jpos = consumed0;
                assert(forall|t: int| 0 <= t < consumed0 ==> #[trigger] out@[t] == prevout[t]);
            }
        } else {
            out.push((k, val));
            proof {
                assert(out@[consumed0] == entries0[consumed0]);
                assert(forall|t: int| 0 <= t < consumed0 ==> #[trigger] out@[t] == prevout[t]);
                if was_done {
                    assert(out@[jpos] == prevout[jpos]);
                } else {
                    assert(out@ =~= entries0.take(consumed0 + 1));
                }
            }
        }
    }
    proof {
        assert(entries0.skip(0) =~= entries0);
        if !done {
            crate::json::lemma_obj_get_none(entries0, "message"@);
            assert(false);
        }
    }
    let result = Json::Obj(out);
    proof {
        assert(msg_model_swapped(j, result, from@, to@));
        if json_wf(j) {
            let e1 = result->Obj_0@;
            assert(json_wf(msg0)) by {
                crate::json::lemma_obj_get_wf_entries(entries0, "message"@);
            }
            assert forall|i: int| 0 <= i < e1.len() implies json_wf((#[trigger] e1[i]).1) by {
                if i != jpos {
                    assert(e1[i] == entries0[i]);
                }
            }
            assert forall|i: int, k2: int| 0 <= i < k2 < e1.len() implies (
            #[trigger] e1[i]).0@ != (#[trigger] e1[k2]).0@ by {
                assert(e1[i].0 == entries0[i].0 || i == jpos);
                assert(e1[jpos].0 == entries0[jpos].0);
            }
        }
    }
    (result, true)
}

/// The stateful per-response chunk rewriter: waits for the chunk carrying
/// `message_start`, rewrites it, and latches into pass-through for good.
#[derive(Debug)]
pub struct ChunkRewriter {
    /// The mapping pair frozen at request entry.
    pub mapping: ModelMapping,
    /// Whether the rewrite was already attempted.
    pub done: bool,
}

impl ChunkRewriter {
    /// A rewriter that has not yet seen `message_start`.
    pub fn new(mapping: ModelMapping) -> (r: Self)
        ensures
            !r.done,
            r.mapping == mapping,
    {
        ChunkRewriter { mapping, done: false }
    }

    /// Transform one chunk.
    ///
    /// While waiting, a chunk without the `"message_start"` bytes passes
    /// through verbatim; a chunk carrying them latches the rewriter and is
    /// rebuilt line by line — rewritten `message_start` lines re-emitted,
    /// everything else untouched — unless no `message.model` matched the
    /// backend model, in which case the original bytes pass through. Once
    /// latched, every chunk passes through verbatim.
    pub fn transform(&mut self, chunk: Vec<u8>) -> (r: Vec<u8>)
        ensures
            final(self).mapping == old(self).mapping,
            old(self).done ==> r@ == chunk@ && final(self).done,
            !old(self).done && !contains_seq(chunk@, message_start_needle()) ==> r@ == chunk@
                && !final(self).done,
            !old(self).done && contains_seq(chunk@, message_start_needle()) ==> final(self).done
                && {
                let ls = split_lines(chunk@);
                if any_line_changed(ls, old(self).mapping.backend@) {
                    exists|ls1: Seq<Seq<u8>>|
                        lines_rel(
                            ls,
                            ls1,
                            old(self).mapping.backend@,
                            old(self).mapping.original@,
                        ) && r@ == join_lines(ls1)
                } else {
                    r@ == chunk@
                }
            },
    {
        if self.done {
            return chunk;
        }
        let needle: [u8; 15] = [34, 109, 101, 115, 115, 97, 103, 101, 95, 115, 116, 97, 114, 116, 34];
        proof {
            assert(needle@ =~= message_start_needle());
        }
        if !contains_bytes(chunk.as_slice(), needle.as_slice()) {
            return chunk;
        }
        self.done = true;
        let (out, changed) = rewrite_chunk_lines(
            self.mapping.backend.as_str(),
            self.mapping.original.as_str(),
            chunk.as_slice(),
            0,
        );
        proof {
            assert(chunk@.skip(0) =~= chunk@);
        }
        if changed {
            out
        } else {
            chunk
        }
    }
}

/// Rebuild the lines of a chunk from byte position `start` on, rewriting
/// `message_start` payloads whose `message.model` equals `backend`.
fn rewrite_chunk_lines(backend: &str, original: &str, chunk: &[u8], start: usize) -> (r: (
    Vec<u8>,
    bool,
))
    requires
        start <= chunk@.len(),
    ensures
        exists|ls1: Seq<Seq<u8>>|
            lines_rel(split_lines(chunk@.skip(start as int)), ls1, backend@, original@) && r.0@
                == join_lines(ls1),
        r.1 == any_line_changed(split_lines(chunk@.skip(start as int)), backend@),
    decreases chunk@.len() - start,
{
    let ghost tail = chunk@.skip(start as int);
    let mut j: usize = start;
    while j < chunk.len() && chunk[j] != 10
        invariant
            start <= j <= chunk@.len(),
            forall|k: int| start <= k < j ==> chunk@[k] != 10,
        decreases chunk@.len() - j,
    {
        j = j + 1;
    }
    let line = &chunk[start..j];
    let (mut line_out, line_changed) = rewrite_one_line(backend, original, line);
    let ghost line_out0 = line_out@;
    if j < chunk.len() {
        let (mut rest, rest_changed) = rewrite_chunk_lines(backend, original, chunk, j + 1);
        let ghost restv = rest@;
        let ghost rest_tail = chunk@.skip(j + 1);
        line_out.push(10);
        line_out.append(&mut rest);
        proof {
            assert(chunk@[j as int] == 10);
            assert(line@ =~= chunk@.subrange(start as int, j as int));
            assert(tail =~= line@ + seq![10u8] + rest_tail);
            crate::sse::lemma_split_head(line@, rest_tail);
            let sub1 = choose|ls1: Seq<Seq<u8>>|
                lines_rel(split_lines(rest_tail), ls1, backend@, original@) && restv == join_lines(
                    ls1,
                );
            let ls1 = seq![line_out0] + sub1;
            crate::sse::lemma_split_nonempty(rest_tail);
            assert(split_lines(tail) == seq![line@] + split_lines(rest_tail));
            assert forall|i: int| 0 <= i < split_lines(tail).len() implies line_out_rel(
                #[trigger] split_lines(tail)[i],
                #[trigger] ls1[i],
                backend@,
                original@,
            ) by {
                if i == 0 {
                    assert(split_lines(tail)[0] == line@);
                    assert(ls1[0] == line_out0);
                } else {
                    assert(split_lines(tail)[i] == split_lines(rest_tail)[i - 1]);
                    assert(ls1[i] == sub1[i - 1]);
                }
            }
            assert(ls1.len() >= 2);
            assert(ls1.drop_first() =~= sub1);
            assert(line_out@ =~= line_out0 + seq![10u8] + restv);
            assert(join_lines(ls1) == ls1[0] + seq![10u8] + join_lines(sub1));
            assert(line_out@ =~= join_lines(ls1));
            // whether anything changed
            if line_changed || rest_changed {
                if line_changed {
                    assert(line_out_changed(split_lines(tail)[0], backend@));
                } else {
                    let w = choose|w: int|
                        0 <= w < split_lines(rest_tail).len() && line_out_changed(
                            #[trigger] split_lines(rest_tail)[w],
                            backend@,
                        );
                    assert(line_out_changed(split_lines(tail)[w + 1], backend@));
                }
            } else {
                if any_line_changed(split_lines(tail), backend@) {
                    let w = choose|w: int|
                        0 <= w < split_lines(tail).len() && line_out_changed(
                            #[trigger] split_lines(tail)[w],
                            backend@,
                        );
                    if w > 0 {
                        assert(split_lines(tail)[w] == split_lines(rest_tail)[w - 1]);
                    }
                    assert(false);
                }
            }
        }
        (line_out, line_changed || rest_changed)
    } else {
        proof {
            assert(line@ =~= tail);
            crate::sse::lemma_split_whole(line@);
            let ls1 = seq![line_out0];
            assert(split_lines(tail) == seq![line@]);
            assert(lines_rel(split_lines(tail), ls1, backend@, original@));
            assert(join_lines(ls1) == line_out0);
            if !line_changed {
                if any_line_changed(split_lines(tail), backend@) {
                    let w = choose|w: int|
                        0 <= w < split_lines(tail).len() && line_out_changed(
                            #[trigger] split_lines(tail)[w],
                            backend@,
                        );
                    assert(w == 0);
                    assert(false);
                }
            } else {
                assert(line_out_changed(split_lines(tail)[0], backend@));
            }
        }
        (line_out, line_changed)
    }
}

/// Rebuild one line: re-emit a `message_start` line with its payload —
/// model swapped when it matches — and pass every other line through.
fn rewrite_one_line(backend: &str, original: &str, line: &[u8]) -> (r: (Vec<u8>, bool))
    ensures
        line_out_rel(line@, r.0@, backend@, original@),
        r.1 == line_out_changed(line@, backend@),
{
    let t = crate::sse::trim_bytes(line);
    let parsed: Option<Json> = if t.len() >= 5 && t[0] == 100 && t[1] == 97 && t[2] == 116 && t[3]
        == 97 && t[4] == 58 {
        proof {
            assert(t@.take(5) =~= data_prefix());
            assert(t@.subrange(5, t@.len() as int) =~= t@.skip(5));
        }
        crate::json::parse_json(crate::sse::trim_start_bytes(&t[5..t.len()]))
    } else {
        proof {
            if t@.len() >= 5 {
                if t@.take(5) == data_prefix() {
                    assert(t@.take(5)[0] == 100 && t@.take(5)[1] == 97 && t@.take(5)[2] == 116
                        && t@.take(5)[3] == 97 && t@.take(5)[4] == 58);
                    assert(false);
                }
            }
        }
        None
    };
    let j0 = match parsed {
        Some(j) => {
            let is_start = match j.get("type") {
                Some(x) => x.is_str("message_start"),
                None => false,
            };
            if is_start {
                j
            } else {
                let mut verbatim: Vec<u8> = Vec::new();
                verbatim.extend_from_slice(line);
                proof {
                    assert(verbatim@ =~= line@);
                    assert(msg_start_payload(line@) is None);
                }
                return (verbatim, false);
            }
        },
        None => {
            let mut verbatim: Vec<u8> = Vec::new();
            verbatim.extend_from_slice(line);
            proof {
                assert(verbatim@ =~= line@);
                assert(msg_start_payload(line@) is None);
            }
            return (verbatim, false);
        },
    };
    proof {
        assert(msg_start_payload(line@) == Some(j0));
    }
    let ghost j0g = j0;
    let (j1, changed) = rewrite_message_model(j0, backend, original);
    let dump = crate::json::dump_json(&j1);
    let mut out: Vec<u8> = Vec::new();
    out.push(100);
    out.push(97);
    out.push(116);
    out.push(97);
    out.push(58);
    out.push(32);
    let ghost head = out@;
    let mut d = dump;
    let ghost dv = d@;
    out.append(&mut d);
    proof {
        assert(head =~= data_prefix() + seq![32u8]);
        assert(out@ =~= data_prefix() + seq![32u8] + dv);
        assert(crate::json::json_wf(j0g));
        assert(crate::json::json_wf(j1));
        assert(dv == json_dump_spec(j1));
        if changed {
            assert(msg_model_swapped(j0g, j1, backend@, original@));
            assert(msg_model_is(j0g, backend@));
        } else {
            assert(j1 == j0g);
            assert(!msg_model_is(j0g, backend@));
        }
        assert(line_out_rel(line@, out@, backend@, original@));
    }
    (out, changed)
}

/// Rewrite the top-level `model` of a buffered JSON response body back to
/// the client's original name. The body passes through unchanged when it
/// is not a JSON document, has no `model`, or carries an unexpected one;
/// otherwise the rewritten document is re-serialized.
pub fn reverse_model_in_response(body: &[u8], mapping: &ModelMapping) -> (r: Vec<u8>)
    ensures
        ({
            match json_parse_spec(body@) {
                Some(j0) => if model_is(j0, mapping.backend@) {
                    exists|j1: Json|
                        model_swapped(j0, j1, mapping.backend@, mapping.original@) && r@
                            == json_dump_spec(j1)
                } else {
                    r@ == body@
                },
                None => r@ == body@,
            }
        }),
{
    let mut j = match crate::json::parse_json(body) {
        Some(j) => j,
        None => {
            let mut copy: Vec<u8> = Vec::new();
            copy.extend_from_slice(body);
            proof {
                assert(copy@ =~= body@);
            }
            return copy;
        },
    };
    let changed = rewrite_model_field(&mut j, mapping.backend.as_str(), mapping.original.as_str());
    if !changed {
        let mut copy: Vec<u8> = Vec::new();
        copy.extend_from_slice(body);
        proof {
            assert(copy@ =~= body@);
        }
        return copy;
    }
    crate::json::dump_json(&j)
}

} // verus!
