//! Request transformers for thinking blocks.
//!
//! The strip transformer removes every thinking item from the message
//! history — the simplest, most compatible mode — and drops the
//! `context_management` field once anything was removed, since that field
//! describes blocks that are no longer there. The native transformer is a
//! pass-through: session-based filtering is the registry's job.

use crate::json::{json_get, Json};
use crate::registry::{entries_set_rel, is_thinking_item, sat32};
use vstd::prelude::*;

verus! {

/// Counters of what a transformation did.
#[derive(Debug, Clone, Copy, PartialEq, Eq, Structural)]
pub struct ThinkingTransformResult {
    /// Whether the body changed at all.
    pub changed: bool,
    /// How many thinking items were removed.
    pub stripped_count: u32,
}

/// Pass-through transformer: the registry filters on the native path.
#[derive(Debug)]
pub struct NativeTransformer;

impl NativeTransformer {
    pub fn new() -> (r: Self) {
        NativeTransformer
    }

    /// The wire name of this mode.
    pub fn name(&self) -> (r: &'static str)
        ensures
            r@ == "native"@,
    {
        "native"
    }

    /// Leaves the body untouched.
    pub fn transform_request(&self, body: &mut Json) -> (r: ThinkingTransformResult)
        ensures
            *final(body) == *old(body),
            !r.changed,
            r.stripped_count == 0,
    {
        ThinkingTransformResult { changed: false, stripped_count: 0 }
    }
}

/// The items that survive the strip: everything that is not a thinking
/// item.
pub open spec fn strip_content(items: Seq<Json>) -> Seq<Json> {
    items.filter(|it: Json| !is_thinking_item(it))
}

/// One message after the strip.
pub open spec fn msg_stripped(m0: Json, m1: Json) -> bool {
    match m0 {
        Json::Obj(e0) => match json_get(m0, "content"@) {
            Some(Json::Arr(items0)) => m1 matches Json::Obj(e1) && entries_set_rel(
                e0@,
                e1@,
                "content"@,
                |v: Json| v matches Json::Arr(items1) && items1@ == strip_content(items0@),
            ),
            _ => m1 == m0,
        },
        _ => m1 == m0,
    }
}

/// A message list after the strip, message by message.
pub open spec fn msgs_stripped(m0: Seq<Json>, m1: Seq<Json>) -> bool {
    m1.len() == m0.len() && forall|i: int|
        0 <= i < m0.len() ==> msg_stripped(#[trigger] m0[i], #[trigger] m1[i])
}

/// Object entries after replacing the messages with their stripped form.
pub open spec fn stripped_entries(
    e0: Seq<(String, Json)>,
    e1: Seq<(String, Json)>,
    msgs0: Seq<Json>,
) -> bool {
    entries_set_rel(
        e0,
        e1,
        "messages"@,
        |v: Json| v matches Json::Arr(m1) && msgs_stripped(msgs0, m1@),
    )
}

/// Entries with every `context_management` member removed.
pub open spec fn non_cm_entries(e: Seq<(String, Json)>) -> Seq<(String, Json)> {
    e.filter(|p: (String, Json)| p.0@ != "context_management"@)
}

/// How many items one message loses to the strip.
pub open spec fn stripped_in_msg(m: Json) -> int {
    match m {
        Json::Obj(_) => match json_get(m, "content"@) {
            Some(Json::Arr(items)) => items@.len() - strip_content(items@).len(),
            _ => 0,
        },
        _ => 0,
    }
}

/// How many items a message list loses to the strip.
pub open spec fn stripped_in_msgs(msgs: Seq<Json>) -> int
    decreases msgs.len(),
{
    if msgs.len() == 0 {
        0
    } else {
        stripped_in_msgs(msgs.drop_last()) + stripped_in_msg(msgs.last())
    }
}

proof fn lemma_strip_step(items: Seq<Json>, i: int)
    requires
        0 <= i < items.len(),
    ensures
        strip_content(items.take(i + 1)) == if !is_thinking_item(items[i]) {
            strip_content(items.take(i)).push(items[i])
        } else {
            strip_content(items.take(i))
        },
{
    reveal_with_fuel(Seq::<Json>::filter, 2);
    assert(items.take(i + 1).drop_last() =~= items.take(i));
    assert(items.take(i + 1).last() == items[i]);
}

proof fn lemma_cm_step(e: Seq<(String, Json)>, i: int)
    requires
        0 <= i < e.len(),
    ensures
        non_cm_entries(e.take(i + 1)) == if e[i].0@ != "context_management"@ {
            non_cm_entries(e.take(i)).push(e[i])
        } else {
            non_cm_entries(e.take(i))
        },
{
    reveal_with_fuel(Seq::<(String, Json)>::filter, 2);
    assert(e.take(i + 1).drop_last() =~= e.take(i));
    assert(e.take(i + 1).last() == e[i]);
}

proof fn lemma_strip_len(items: Seq<Json>)
    ensures
        0 <= strip_content(items).len() <= items.len(),
{
    let pred = |it: Json| !is_thinking_item(it);
    items.lemma_filter_len(pred);
}

proof fn lemma_stripped_nonneg(msgs: Seq<Json>)
    ensures
        stripped_in_msgs(msgs) >= 0,
    decreases msgs.len(),
{
    if msgs.len() > 0 {
        lemma_stripped_nonneg(msgs.drop_last());
        lemma_stripped_in_msg_nonneg(msgs.last());
    }
}

proof fn lemma_stripped_in_msg_nonneg(m: Json)
    ensures
        stripped_in_msg(m) >= 0,
{
    match m {
        Json::Obj(_) => match json_get(m, "content"@) {
            Some(Json::Arr(items)) => {
                lemma_strip_len(items@);
            },
            _ => {},
        },
        _ => {},
    }
}

/// Transformer that removes every thinking item from the request.
#[derive(Debug)]
pub struct StripTransformer;

impl StripTransformer {
    pub fn new() -> (r: Self) {
        StripTransformer
    }

    /// The wire name of this mode.
    pub fn name(&self) -> (r: &'static str)
        ensures
            r@ == "strip"@,
    {
        "strip"
    }

    /// Remove every `thinking` and `redacted_thinking` item from the
    /// message history; once anything was removed, the
    /// `context_management` field is dropped too. A body without thinking
    /// items — or without a message array — passes through untouched.
    pub fn transform_request(&self, body: &mut Json) -> (r: ThinkingTransformResult)
        ensures
            r.changed == (r.stripped_count > 0),
            r.stripped_count == 0 ==> *final(body) == *old(body),
            ({
                match json_get(*old(body), "messages"@) {
                    Some(Json::Arr(msgs0)) => {
                        &&& r.stripped_count == sat32(stripped_in_msgs(msgs0@))
                        &&& (r.stripped_count > 0 ==> exists|mid: Seq<(String, Json)>|
                            stripped_entries(old(body)->Obj_0@, mid, msgs0@) && ((
                            *final(body)) matches Json::Obj(e1) && e1@ == non_cm_entries(mid)))
                    },
                    _ => r.stripped_count == 0,
                }
            }),
    {
        let count = count_strippable(body);
        if count == 0 {
            return ThinkingTransformResult { changed: false, stripped_count: 0 };
        }
        let mut owned = Json::Null;
        core::mem::swap(body, &mut owned);
        let ghost b0 = owned;
        let rebuilt = strip_owned_body(owned);
        let ghost mide: Seq<(String, Json)> = rebuilt->Obj_0@;
        let mut back = drop_context_management(rebuilt);
        core::mem::swap(body, &mut back);
        proof {
            let msgs0 = json_get(b0, "messages"@)->Some_0->Arr_0@;
            assert(stripped_entries(b0->Obj_0@, mide, msgs0));
        }
        ThinkingTransformResult { changed: true, stripped_count: count }
    }
}

/// How many thinking items the strip would remove.
fn count_strippable(body: &Json) -> (r: u32)
    ensures
        ({
            match json_get(*body, "messages"@) {
                Some(Json::Arr(msgs0)) => r == sat32(stripped_in_msgs(msgs0@)),
                _ => r == 0,
            }
        }),
{
    let msgs: &Vec<Json> = match body.get("messages") {
        Some(x) => match x.as_array() {
            Some(a) => a,
            None => {
                return 0;
            },
        },
        None => {
            return 0;
        },
    };
    let mut count: u32 = 0;
    let mut i: usize = 0;
    while i < msgs.len()
        invariant
            i <= msgs@.len(),
            count == sat32(stripped_in_msgs(msgs@.take(i as int))),
        decreases msgs@.len() - i,
    {
        proof {
            assert(msgs@.take(i + 1).drop_last() =~= msgs@.take(i as int));
            assert(msgs@.take(i + 1).last() == msgs@[i as int]);
            lemma_stripped_nonneg(msgs@.take(i as int));
            lemma_stripped_in_msg_nonneg(msgs@[i as int]);
        }
        let c = count_strippable_in_msg(&msgs[i]);
        count = count.saturating_add(c);
        i = i + 1;
    }
    proof {
        assert(msgs@.take(msgs@.len() as int) =~= msgs@);
    }
    count
}

/// How many thinking items one message would lose.
fn count_strippable_in_msg(m: &Json) -> (r: u32)
    ensures
        r == sat32(stripped_in_msg(*m)),
{
    let items: &Vec<Json> = match m.get("content") {
        Some(x) => match x.as_array() {
            Some(a) => a,
            None => {
                return 0;
            },
        },
        None => {
            return 0;
        },
    };
    let mut count: u32 = 0;
    let mut i: usize = 0;
    while i < items.len()
        invariant
            i <= items@.len(),
            count == sat32(i - strip_content(items@.take(i as int)).len()),
        decreases items@.len() - i,
    {
        proof {
            lemma_strip_step(items@, i as int);
            lemma_strip_len(items@.take(i as int));
            lemma_strip_len(items@.take(i + 1));
        }
        let is_thinking = match items[i].get("type") {
            Some(x) => x.is_str("thinking") || x.is_str("redacted_thinking"),
            None => false,
        };
        if is_thinking {
            count = count.saturating_add(1);
        }
        proof {
            assert(is_thinking == is_thinking_item(items@[i as int]));
        }
        i = i + 1;
    }
    proof {
        assert(items@.take(items@.len() as int) =~= items@);
        lemma_strip_len(items@);
    }
    count
}

/// Rebuild an owned body with its messages stripped.
fn strip_owned_body(body: Json) -> (r: Json)
    ensures
        ({
            match json_get(body, "messages"@) {
                Some(Json::Arr(msgs0)) => r matches Json::Obj(e1) && stripped_entries(
                    body->Obj_0@,
                    e1@,
                    msgs0@,
                ),
                _ => r == body,
            }
        }),
{
    let present = match body.get("messages") {
        Some(x) => match x.as_array() {
            Some(_) => true,
            None => false,
        },
        None => false,
    };
    if !present {
        return body;
    }
    let entries: Vec<(String, Json)> = match body {
        Json::Obj(e) => e,
        _ => {
            proof {
                assert(false);
            }
            return Json::Null;
        },
    };
    let ghost entries0 = entries@;
    let ghost msgs0: Seq<Json> = crate::json::obj_get(entries@, "messages"@)->Some_0->Arr_0@;
    let mut src = entries;
    let mut out: Vec<(String, Json)> = Vec::new();
    let mut done: bool = false;
    let ghost mut jpos: int = 0;
    while src.len() > 0
        invariant
            src@ =~= entries0.skip(entries0.len() - src@.len()),
            entries0.len() >= src@.len(),
            out@.len() == entries0.len() - src@.len(),
            crate::json::obj_get(entries0, "messages"@) matches Some(x) && x is Arr,
            ({
                let consumed = entries0.len() - src@.len();
                if done {
                    &&& 0 <= jpos < consumed
                    &&& entries0[jpos].0@ == "messages"@
                    &&& (forall|k: int|
                        0 <= k < jpos ==> (#[trigger] entries0[k]).0@ != "messages"@)
                    &&& entries0[jpos].1 is Arr
                    &&& out@[jpos].0 == entries0[jpos].0
                    &&& out@[jpos].1 is Arr
                    &&& msgs_stripped(entries0[jpos].1->Arr_0@, out@[jpos].1->Arr_0@)
                    &&& (forall|k: int|
                        0 <= k < consumed && k != jpos ==> #[trigger] out@[k] == entries0[k])
                } else {
                    out@ =~= entries0.take(entries0.len() - src@.len()) && (forall|k: int|
                        0 <= k < entries0.len() - src@.len() ==> (#[trigger] entries0[k]).0@
                            != "messages"@)
                }
            }),
        decreases src@.len(),
    {
        let ghost consumed0 = entries0.len() - src@.len();
        let (k, v) = src.remove(0);
        proof {
            assert(entries0.skip(consumed0)[0] == entries0[consumed0]);
            assert((k, v) == entries0[consumed0]);
            assert(src@ =~= entries0.skip(consumed0 + 1));
            assert(entries0.take(consumed0 + 1) =~= entries0.take(consumed0).push(
                entries0[consumed0],
            ));
        }
        let ghost prevout = out@;
        let ghost was_done = done;
        let is_msgs_arr = !done && crate::strutil::str_eq(k.as_str(), "messages") && (match &v {
            Json::Arr(_) => true,
            _ => false,
        });
        if is_msgs_arr {
            let msgs: Vec<Json> = match v {
                Json::Arr(m) => m,
                _ => {
                    proof {
                        assert(false);
                    }
                    Vec::new()
                },
            };
            let stripped = strip_owned_msgs(msgs);
            out.push((k, Json::Arr(stripped)));
            done = true;
            proof {
                jpos = consumed0;
                assert(forall|t: int| 0 <= t < consumed0 ==> #[trigger] out@[t] == prevout[t]);
            }
        } else {
            out.push((k, v));
            proof {
                assert(out@[consumed0] == entries0[consumed0]);
                assert(forall|t: int| 0 <= t < consumed0 ==> #[trigger] out@[t] == prevout[t]);
                if was_done {
                    assert(out@[jpos] == prevout[jpos]);
                } else {
                    if k@ == "messages"@ {
                        crate::json::lemma_obj_get_at_first(entries0, "messages"@, consumed0);
                        assert(false);
                    }
                    assert(out@ =~= entries0.take(consumed0 + 1));
                }
            }
        }
    }
    proof {
        assert(entries0.skip(0) =~= entries0);
        assert(entries0.take(entries0.len() as int) =~= entries0);
        if !done {
            crate::registry::lemma_obj_first_key_arr(entries0, "messages"@);
            assert(false);
        }
        crate::json::lemma_obj_get_at_first(entries0, "messages"@, jpos);
        assert(msgs0 == entries0[jpos].1->Arr_0@);
    }
    Json::Obj(out)
}

/// Strip a list of owned messages.
fn strip_owned_msgs(msgs: Vec<Json>) -> (r: Vec<Json>)
    ensures
        msgs_stripped(msgs@, r@),
{
    let ghost msgs0 = msgs@;
    let mut src = msgs;
    let mut out: Vec<Json> = Vec::new();
    while src.len() > 0
        invariant
            src@ =~= msgs0.skip(msgs0.len() - src@.len()),
            msgs0.len() >= src@.len(),
            out@.len() == msgs0.len() - src@.len(),
            forall|i: int|
                0 <= i < out@.len() ==> msg_stripped(#[trigger] msgs0[i], #[trigger] out@[i]),
        decreases src@.len(),
    {
        let ghost consumed0 = msgs0.len() - src@.len();
        let m = src.remove(0);
        proof {
            assert(msgs0.skip(consumed0)[0] == msgs0[consumed0]);
            assert(m == msgs0[consumed0]);
            assert(src@ =~= msgs0.skip(consumed0 + 1));
        }
        let sm = strip_owned_msg(m);
        out.push(sm);
    }
    proof {
        assert(msgs0.take(msgs0.len() as int) =~= msgs0);
    }
    out
}

/// Strip one owned message.
fn strip_owned_msg(m: Json) -> (r: Json)
    ensures
        msg_stripped(m, r),
{
    let present = match m.get("content") {
        Some(x) => match x.as_array() {
            Some(_) => true,
            None => false,
        },
        None => false,
    };
    if !present {
        proof {
            assert(msg_stripped(m, m));
        }
        return m;
    }
    let entries: Vec<(String, Json)> = match m {
        Json::Obj(e) => e,
        _ => {
            proof {
                assert(false);
            }
            return Json::Null;
        },
    };
    let ghost entries0 = entries@;
    let ghost items0: Seq<Json> = crate::json::obj_get(entries@, "content"@)->Some_0->Arr_0@;
    let mut src = entries;
    let mut out: Vec<(String, Json)> = Vec::new();
    let mut done: bool = false;
    let ghost mut jpos: int = 0;
    while src.len() > 0
        invariant
            src@ =~= entries0.skip(entries0.len() - src@.len()),
            entries0.len() >= src@.len(),
            out@.len() == entries0.len() - src@.len(),
            crate::json::obj_get(entries0, "content"@) matches Some(x) && x is Arr,
            ({
                let consumed = entries0.len() - src@.len();
                if done {
                    &&& 0 <= jpos < consumed
                    &&& entries0[jpos].0@ == "content"@
                    &&& (forall|k: int|
                        0 <= k < jpos ==> (#[trigger] entries0[k]).0@ != "content"@)
                    &&& entries0[jpos].1 is Arr
                    &&& out@[jpos].0 == entries0[jpos].0
                    &&& out@[jpos].1 is Arr
                    &&& out@[jpos].1->Arr_0@ == strip_content(entries0[jpos].1->Arr_0@)
                    &&& (forall|k: int|
                        0 <= k < consumed && k != jpos ==> #[trigger] out@[k] == entries0[k])
                } else {
                    out@ =~= entries0.take(entries0.len() - src@.len()) && (forall|k: int|
                        0 <= k < entries0.len() - src@.len() ==> (#[trigger] entries0[k]).0@
                            != "content"@)
                }
            }),
        decreases src@.len(),
    {
        let ghost consumed0 = entries0.len() - src@.len();
        let (k, v) = src.remove(0);
        proof {
            assert(entries0.skip(consumed0)[0] == entries0[consumed0]);
            assert((k, v) == entries0[consumed0]);
            assert(src@ =~= entries0.skip(consumed0 + 1));
            assert(entries0.take(consumed0 + 1) =~= entries0.take(consumed0).push(
                entries0[consumed0],
            ));
        }
        let ghost prevout = out@;
        let ghost was_done = done;
        let is_content_arr = !done && crate::strutil::str_eq(k.as_str(), "content") && (match &v {
            Json::Arr(_) => true,
            _ => false,
        });
        if is_content_arr {
            let items: Vec<Json> = match v {
                Json::Arr(a) => a,
                _ => {
                    proof {
                        assert(false);
                    }
                    Vec::new()
                },
            };
            let kept = strip_owned_items(items);
            out.push((k, Json::Arr(kept)));
            done = true;
            proof {
                jpos = consumed0;
                assert(forall|t: int| 0 <= t < consumed0 ==> #[trigger] out@[t] == prevout[t]);
            }
        } else {
            out.push((k, v));
            proof {
                assert(out@[consumed0] == entries0[consumed0]);
                assert(forall|t: int| 0 <= t < consumed0 ==> #[trigger] out@[t] == prevout[t]);
                if was_done {
                    assert(out@[jpos] == prevout[jpos]);
                } else {
                    if k@ == "content"@ {
                        crate::json::lemma_obj_get_at_first(entries0, "content"@, consumed0);
                        assert(false);
                    }
                    assert(out@ =~= entries0.take(consumed0 + 1));
                }
            }
        }
    }
    proof {
        assert(entries0.skip(0) =~= entries0);
        assert(entries0.take(entries0.len() as int) =~= entries0);
        if !done {
            crate::registry::lemma_obj_first_key_arr(entries0, "content"@);
            assert(false);
        }
        crate::json::lemma_obj_get_at_first(entries0, "content"@, jpos);
        assert(items0 == entries0[jpos].1->Arr_0@);
    }
    Json::Obj(out)
}

/// Keep the non-thinking items of an owned content list.
fn strip_owned_items(items: Vec<Json>) -> (r: Vec<Json>)
    ensures
        r@ == strip_content(items@),
{
    let ghost items0 = items@;
    let mut src = items;
    let mut out: Vec<Json> = Vec::new();
    while src.len() > 0
        invariant
            src@ =~= items0.skip(items0.len() - src@.len()),
            items0.len() >= src@.len(),
            out@ =~= strip_content(items0.take(items0.len() - src@.len())),
        decreases src@.len(),
    {
        let ghost consumed0 = items0.len() - src@.len();
        let item = src.remove(0);
        proof {
            assert(items0.skip(consumed0)[0] == items0[consumed0]);
            assert(item == items0[consumed0]);
            assert(src@ =~= items0.skip(consumed0 + 1));
            lemma_strip_step(items0, consumed0);
        }
        let is_thinking = match item.get("type") {
            Some(x) => x.is_str("thinking") || x.is_str("redacted_thinking"),
            None => false,
        };
        if !is_thinking {
            out.push(item);
        }
        proof {
            assert(is_thinking == is_thinking_item(items0[consumed0]));
        }
    }
    proof {
        assert(items0.skip(0) =~= items0);
        assert(items0.take(items0.len() as int) =~= items0);
    }
    out
}

/// Drop every `context_management` member of an object; anything else
/// passes through.
fn drop_context_management(body: Json) -> (r: Json)
    ensures
        body matches Json::Obj(e0) ==> (r matches Json::Obj(e1) && e1@ == non_cm_entries(e0@)),
        !(body is Obj) ==> r == body,
{
    let entries: Vec<(String, Json)> = match body {
        Json::Obj(e) => e,
        other => {
            return other;
        },
    };
    let ghost entries0 = entries@;
    let mut src = entries;
    let mut out: Vec<(String, Json)> = Vec::new();
    while src.len() > 0
        invariant
            src@ =~= entries0.skip(entries0.len() - src@.len()),
            entries0.len() >= src@.len(),
            out@ =~= non_cm_entries(entries0.take(entries0.len() - src@.len())),
        decreases src@.len(),
    {
        let ghost consumed0 = entries0.len() - src@.len();
        let (k, v) = src.remove(0);
        proof {
            assert(entries0.skip(consumed0)[0] == entries0[consumed0]);
            assert((k, v) == entries0[consumed0]);
            assert(src@ =~= entries0.skip(consumed0 + 1));
            lemma_cm_step(entries0, consumed0);
        }
        if !crate::strutil::str_eq(k.as_str(), "context_management") {
            out.push((k, v));
        }
    }
    proof {
        assert(entries0.skip(0) =~= entries0);
        assert(entries0.take(entries0.len() as int) =~= entries0);
    }
    Json::Obj(out)
}

} // verus!
