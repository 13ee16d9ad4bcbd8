//! Server-sent-events codec.
//!
//! Parses a byte stream into a sequence of events, one per `data:` line (a
//! line that is itself a JSON document also counts), classifies
//! thinking-related events, and re-serializes events. Lines are separated by
//! newline bytes and trimmed of ASCII whitespace; the payload of each event
//! is a JSON document whose `type` member names the event.

use crate::json::{
    dump_json, json_as_str, json_as_u64, json_get, json_parse_spec, parse_json, type_is, Json,
    json_wf,
};
use vstd::prelude::*;

verus! {

/// A parsed SSE event: the `type` member of the payload, and the payload.
#[derive(Debug, PartialEq)]
pub struct SseEvent {
    /// Event type from the `type` member of the JSON payload.
    pub event_type: String,
    /// The full parsed payload.
    pub data: Json,
}

/// The mathematical image of an event: its type's characters and payload.
pub struct EventModel {
    pub event_type: Seq<char>,
    pub data: Json,
}

impl SseEvent {
    pub open spec fn model(self) -> EventModel {
        EventModel { event_type: self.event_type@, data: self.data }
    }
}

/// The models of a list of events, in order.
pub open spec fn event_models(s: Seq<SseEvent>) -> Seq<EventModel> {
    Seq::new(s.len(), |i: int| s[i].model())
}

/// An ASCII whitespace byte: space, tab, carriage return or newline.
pub open spec fn is_ws(b: u8) -> bool {
    b == 32 || b == 9 || b == 13 || b == 10
}

/// The bytes with leading ASCII whitespace removed.
pub open spec fn trim_start_spec(s: Seq<u8>) -> Seq<u8>
    decreases s.len(),
{
    if s.len() > 0 && is_ws(s[0]) {
        trim_start_spec(s.drop_first())
    } else {
        s
    }
}

/// The bytes with trailing ASCII whitespace removed.
pub open spec fn trim_end_spec(s: Seq<u8>) -> Seq<u8>
    decreases s.len(),
{
    if s.len() > 0 && is_ws(s.last()) {
        trim_end_spec(s.drop_last())
    } else {
        s
    }
}

/// The bytes trimmed on both ends.
pub open spec fn trim_spec(s: Seq<u8>) -> Seq<u8> {
    trim_end_spec(trim_start_spec(s))
}

/// The bytes of the `data:` line prefix.
pub open spec fn data_prefix() -> Seq<u8> {
    seq![100u8, 97u8, 116u8, 97u8, 58u8]
}

/// The event a single line yields, if any: the trimmed line's payload — the
/// remainder after a `data:` prefix, or the whole line — parsed as JSON,
/// provided the document has a string `type` member. Lines that are empty,
/// comments, `event:` fields or the `[DONE]` marker yield nothing, because
/// they are not JSON documents with a `type` member.
pub open spec fn line_event(line: Seq<u8>) -> Option<EventModel> {
    let t = trim_spec(line);
    if t.len() == 0 {
        None
    } else {
        line_event_trimmed(t)
    }
}

/// The event of a non-empty trimmed line.
pub open spec fn line_event_trimmed(t: Seq<u8>) -> Option<EventModel> {
    let payload = if t.len() >= 5 && t.take(5) == data_prefix() {
        trim_start_spec(t.skip(5))
    } else {
        t
    };
    match json_parse_spec(payload) {
        Some(j) => match json_get(j, "type"@) {
            Some(x) => match json_as_str(x) {
                Some(ty) => Some(EventModel { event_type: ty, data: j }),
                None => None,
            },
            None => None,
        },
        None => None,
    }
}

/// Split bytes into lines at newline bytes; a trailing newline yields a
/// final empty line, which no event comes from.
pub open spec fn split_lines(s: Seq<u8>) -> Seq<Seq<u8>>
    decreases s.len(),
{
    if s.len() == 0 {
        seq![s]
    } else if s[0] == 10 {
        seq![Seq::<u8>::empty()] + split_lines(s.drop_first())
    } else {
        let rest = split_lines(s.drop_first());
        seq![seq![s[0]] + rest[0]] + rest.skip(1)
    }
}

/// The events of a list of lines, in order.
pub open spec fn events_of_lines(lines: Seq<Seq<u8>>) -> Seq<EventModel>
    decreases lines.len(),
{
    if lines.len() == 0 {
        Seq::empty()
    } else {
        match line_event(lines[0]) {
            Some(e) => seq![e] + events_of_lines(lines.drop_first()),
            None => events_of_lines(lines.drop_first()),
        }
    }
}

/// The events an SSE byte stream parses to.
pub open spec fn sse_events_spec(s: Seq<u8>) -> Seq<EventModel> {
    events_of_lines(split_lines(s))
}

/// Split never yields an empty list of lines.
pub(crate) proof fn lemma_split_nonempty(s: Seq<u8>)
    ensures
        split_lines(s).len() >= 1,
    decreases s.len(),
{
    if s.len() > 0 && s[0] != 10 {
        lemma_split_nonempty(s.drop_first());
    }
}

/// A line without newline bytes followed by a newline splits off whole.
pub(crate) proof fn lemma_split_head(line: Seq<u8>, rest: Seq<u8>)
    requires
        forall|i: int| 0 <= i < line.len() ==> line[i] != 10,
    ensures
        split_lines(line + seq![10u8] + rest) == seq![line] + split_lines(rest),
    decreases line.len(),
{
    let s = line + seq![10u8] + rest;
    if line.len() == 0 {
        assert(line =~= Seq::<u8>::empty());
        assert(s =~= seq![10u8] + rest);
        assert(s[0] == 10);
        assert(s.drop_first() =~= rest);
        assert(split_lines(s) == seq![Seq::<u8>::empty()] + split_lines(rest));
        assert(seq![Seq::<u8>::empty()] + split_lines(rest) =~= seq![line] + split_lines(rest));
    } else {
        assert(s.len() > 0 && s[0] == line[0]);
        assert(s[0] != 10);
        assert(s.drop_first() =~= line.drop_first() + seq![10u8] + rest);
        lemma_split_head(line.drop_first(), rest);
        let sub = split_lines(line.drop_first() + seq![10u8] + rest);
        assert(sub == seq![line.drop_first()] + split_lines(rest));
        lemma_split_nonempty(rest);
        assert(sub[0] == line.drop_first());
        assert(seq![s[0]] + sub[0] =~= line);
        assert(sub.skip(1) =~= split_lines(rest));
        assert(split_lines(s) == seq![seq![s[0]] + sub[0]] + sub.skip(1));
        assert(split_lines(s) =~= seq![line] + split_lines(rest));
    }
}

/// A terminal piece without newline bytes is one whole line.
pub(crate) proof fn lemma_split_whole(line: Seq<u8>)
    requires
        forall|i: int| 0 <= i < line.len() ==> line[i] != 10,
    ensures
        split_lines(line) == seq![line],
    decreases line.len(),
{
    if line.len() > 0 {
        lemma_split_whole(line.drop_first());
        assert(seq![line[0]] + line.drop_first() =~= line);
        assert(split_lines(line) =~= seq![line]);
    }
}

/// Events of a one-line prefix prepend to the events of the rest.
proof fn lemma_events_cons(line: Seq<u8>, rest: Seq<Seq<u8>>)
    ensures
        events_of_lines(seq![line] + rest) == match line_event(line) {
            Some(e) => seq![e] + events_of_lines(rest),
            None => events_of_lines(rest),
        },
{
    let all = seq![line] + rest;
    assert(all.len() > 0);
    assert(all[0] == line);
    assert(all.drop_first() =~= rest);
}

/// Trimming from the front passes any prefix of non-whitespace bytes.
proof fn lemma_trim_start_skip(s: Seq<u8>, i: int)
    requires
        0 <= i <= s.len(),
        forall|k: int| 0 <= k < i ==> is_ws(s[k]),
        i < s.len() ==> !is_ws(s[i]),
    ensures
        trim_start_spec(s) == s.skip(i),
    decreases i,
{
    if i == 0 {
        if s.len() > 0 {
            assert(!is_ws(s[0]));
        }
        assert(s.skip(0) =~= s);
    } else {
        assert(is_ws(s[0]));
        assert(s.len() > 0);
        lemma_trim_start_skip(s.drop_first(), i - 1);
        assert(s.drop_first().skip(i - 1) =~= s.skip(i));
    }
}

/// Trimming from the back passes any suffix of non-whitespace bytes.
proof fn lemma_trim_end_take(s: Seq<u8>, i: int)
    requires
        0 <= i <= s.len(),
        forall|k: int| i <= k < s.len() ==> is_ws(s[k]),
        i > 0 ==> !is_ws(s[i - 1]),
    ensures
        trim_end_spec(s) == s.take(i),
    decreases s.len() - i,
{
    if i == s.len() {
        if s.len() > 0 {
            assert(!is_ws(s.last()));
        }
        assert(s.take(i) =~= s);
    } else {
        assert(is_ws(s.last()));
        lemma_trim_end_take(s.drop_last(), i);
        assert(s.drop_last().take(i) =~= s.take(i));
    }
}

/// Trim a byte slice on both ends, as `trim_spec` describes.
pub fn trim_bytes<'a>(s: &'a [u8]) -> (r: &'a [u8])
    ensures
        r@ == trim_spec(s@),
{
    let mut lo: usize = 0;
    while lo < s.len() && (s[lo] == 32 || s[lo] == 9 || s[lo] == 13 || s[lo] == 10)
        invariant
            lo <= s@.len(),
            forall|k: int| 0 <= k < lo ==> is_ws(s@[k]),
        decreases s@.len() - lo,
    {
        lo = lo + 1;
    }
    proof {
        lemma_trim_start_skip(s@, lo as int);
    }
    let mut hi: usize = s.len();
    while hi > lo && (s[hi - 1] == 32 || s[hi - 1] == 9 || s[hi - 1] == 13 || s[hi - 1] == 10)
        invariant
            lo <= hi <= s@.len(),
            forall|k: int| hi <= k < s@.len() ==> is_ws(s@[k]),
        decreases hi,
    {
        hi = hi - 1;
    }
    proof {
        let st = s@.skip(lo as int);
        if hi > lo {
            assert(!is_ws(s@[hi - 1]));
            assert(st[hi - lo - 1] == s@[hi - 1]);
        }
        assert forall|k: int| hi - lo <= k < st.len() implies is_ws(st[k]) by {
            assert(st[k] == s@[k + lo]);
        }
        lemma_trim_end_take(st, hi - lo);
        assert(trim_spec(s@) == st.take(hi - lo));
        assert(st.take(hi - lo) =~= s@.subrange(lo as int, hi as int));
    }
    &s[lo..hi]
}

/// Remove leading ASCII whitespace from a byte slice.
pub fn trim_start_bytes<'a>(s: &'a [u8]) -> (r: &'a [u8])
    ensures
        r@ == trim_start_spec(s@),
{
    let mut lo: usize = 0;
    while lo < s.len() && (s[lo] == 32 || s[lo] == 9 || s[lo] == 13 || s[lo] == 10)
        invariant
            lo <= s@.len(),
            forall|k: int| 0 <= k < lo ==> is_ws(s@[k]),
        decreases s@.len() - lo,
    {
        lo = lo + 1;
    }
    proof {
        lemma_trim_start_skip(s@, lo as int);
        assert(s@.skip(lo as int) =~= s@.subrange(lo as int, s@.len() as int));
    }
    &s[lo..s.len()]
}

/// Extract the event of one line, as `line_event` describes.
pub fn parse_sse_line(line: &[u8]) -> (r: Option<SseEvent>)
    ensures
        match r {
            Some(e) => line_event(line@) == Some(e.model()) && wf_event(e.model()),
            None => line_event(line@) is None,
        },
{
    let t = trim_bytes(line);
    if t.len() == 0 {
        return None;
    }
    let payload: &[u8] = if t.len() >= 5 && t[0] == 100 && t[1] == 97 && t[2] == 116 && t[3] == 97
        && t[4] == 58 {
        proof {
            assert(t@.take(5) =~= data_prefix());
        }
        trim_start_bytes(&t[5..t.len()])
    } else {
        proof {
            if t@.len() >= 5 {
                if t@.take(5) == data_prefix() {
                    assert(t@.take(5)[0] == 100 && t@.take(5)[1] == 97 && t@.take(5)[2] == 116
                        && t@.take(5)[3] == 97 && t@.take(5)[4] == 58);
                    assert(false);
                }
            }
        }
        t
    };
    proof {
        if t@.len() >= 5 && t@.take(5) == data_prefix() {
            assert(t@.subrange(5, t@.len() as int) =~= t@.skip(5));
        }
    }
    match parse_json(payload) {
        Some(j) => {
            let ty: String = match j.get_str("type") {
                Some(s) => s.to_owned(),
                None => {
                    return None;
                },
            };
            Some(SseEvent { event_type: ty, data: j })
        },
        None => None,
    }
}

/// Parse a whole SSE byte stream into events, as `sse_events_spec`
/// describes: one event per line that carries a JSON document with a
/// string `type` member; everything else is skipped.
pub fn parse_sse_events(bytes: &[u8]) -> (r: Vec<SseEvent>)
    ensures
        event_models(r@) == sse_events_spec(bytes@),
        forall|i: int| 0 <= i < r@.len() ==> wf_event((#[trigger] r@[i]).model()),
{
    proof {
        assert(bytes@.skip(0) =~= bytes@);
    }
    parse_sse_from(bytes, 0)
}

/// Parse the stream from byte position `start` on.
fn parse_sse_from(bytes: &[u8], start: usize) -> (r: Vec<SseEvent>)
    requires
        start <= bytes@.len(),
    ensures
        event_models(r@) == sse_events_spec(bytes@.skip(start as int)),
        forall|i: int| 0 <= i < r@.len() ==> wf_event((#[trigger] r@[i]).model()),
    decreases bytes@.len() - start,
{
    let mut j: usize = start;
    while j < bytes.len() && bytes[j] != 10
        invariant
            start <= j <= bytes@.len(),
            forall|k: int| start <= k < j ==> bytes@[k] != 10,
        decreases bytes@.len() - j,
    {
        j = j + 1;
    }
    let line = &bytes[start..j];
    let ev = parse_sse_line(line);
    let mut rest: Vec<SseEvent> = if j < bytes.len() {
        parse_sse_from(bytes, j + 1)
    } else {
        Vec::new()
    };
    let ghost tail = bytes@.skip(start as int);
    proof {
        assert(line@ =~= bytes@.subrange(start as int, j as int));
        if j < bytes@.len() {
            assert(bytes@[j as int] == 10);
            assert(tail =~= line@ + seq![10u8] + bytes@.skip(j + 1));
            lemma_split_head(line@, bytes@.skip(j + 1));
            lemma_events_cons(line@, split_lines(bytes@.skip(j + 1)));
        } else {
            assert(tail =~= line@);
            lemma_split_whole(line@);
            lemma_events_cons(line@, Seq::<Seq<u8>>::empty());
            assert(seq![line@] + Seq::<Seq<u8>>::empty() =~= seq![line@]);
            assert(events_of_lines(Seq::<Seq<u8>>::empty()) =~= Seq::<EventModel>::empty());
        }
    }
    match ev {
        Some(e) => {
            let ghost em = e.model();
            let mut out: Vec<SseEvent> = Vec::new();
            out.push(e);
            let ghost restg = rest@;
            out.append(&mut rest);
            proof {
                assert(out@.len() == 1 + restg.len());
                assert forall|i: int| 0 <= i < out@.len() implies event_models(out@)[i]
                    == sse_events_spec(tail)[i] by {
                    assert(event_models(out@)[i] == out@[i].model());
                    if i == 0 {
                        assert(out@[0] == e);
                        assert((seq![em] + event_models(restg))[0] == em);
                    } else {
                        assert(out@[i] == restg[i - 1]);
                        assert(event_models(restg)[i - 1] == restg[i - 1].model());
                    }
                    assert(sse_events_spec(tail) == seq![em] + event_models(restg));
                }
                assert(event_models(out@).len() == sse_events_spec(tail).len());
                assert(event_models(out@) =~= sse_events_spec(tail));
            }
            out
        },
        None => {
            proof {
                assert(event_models(rest@) =~= sse_events_spec(tail));
            }
            rest
        },
    }
}

/// A well-formed event: its payload round-trips through the serializer and
/// its `type` member is the event's type.
pub open spec fn wf_event(e: EventModel) -> bool {
    json_wf(e.data) && crate::json::json_within_depth(e.data, crate::json::parse_depth_limit())
        && type_is(e.data, e.event_type)
}

/// Whether an event is thinking-related, judged statelessly: a
/// `content_block_start` opening a `thinking` or `redacted_thinking` block,
/// or a `content_block_delta` carrying a `thinking_delta` or
/// `signature_delta`. A `content_block_stop` cannot be judged here; the
/// stateful `analyze_thinking_stream` attributes stops to their blocks.
pub open spec fn is_thinking_event_spec(e: EventModel) -> bool {
    if e.event_type == "content_block_start"@ {
        match json_get(e.data, "content_block"@) {
            Some(b) => match json_get(b, "type"@) {
                Some(x) => json_as_str(x) == Some("thinking"@) || json_as_str(x) == Some(
                    "redacted_thinking"@,
                ),
                None => false,
            },
            None => false,
        }
    } else if e.event_type == "content_block_delta"@ {
        match json_get(e.data, "delta"@) {
            Some(d) => match json_get(d, "type"@) {
                Some(x) => json_as_str(x) == Some("thinking_delta"@) || json_as_str(x) == Some(
                    "signature_delta"@,
                ),
                None => false,
            },
            None => false,
        }
    } else {
        false
    }
}

impl SseEvent {
    /// Whether this event is thinking-related, judged statelessly.
    pub fn is_thinking_event(&self) -> (r: bool)
        ensures
            r == is_thinking_event_spec(self.model()),
    {
        if crate::strutil::str_eq(self.event_type.as_str(), "content_block_start") {
            match self.data.get("content_block") {
                Some(b) => match b.get("type") {
                    Some(x) => x.is_str("thinking") || x.is_str("redacted_thinking"),
                    None => false,
                },
                None => false,
            }
        } else if crate::strutil::str_eq(self.event_type.as_str(), "content_block_delta") {
            match self.data.get("delta") {
                Some(d) => match d.get("type") {
                    Some(x) => x.is_str("thinking_delta") || x.is_str("signature_delta"),
                    None => false,
                },
                None => false,
            }
        } else {
            false
        }
    }
}

/// How many of the events are thinking-related, judged statelessly.
pub open spec fn count_thinking(evs: Seq<EventModel>) -> nat
    decreases evs.len(),
{
    if evs.len() == 0 {
        0
    } else {
        count_thinking(evs.drop_last()) + if is_thinking_event_spec(evs.last()) {
            1nat
        } else {
            0nat
        }
    }
}

/// Count thinking-related SSE events in a byte stream.
pub fn count_thinking_events(bytes: &[u8]) -> (r: usize)
    ensures
        r == count_thinking(sse_events_spec(bytes@)),
{
    let events = parse_sse_events(bytes);
    let ghost models = event_models(events@);
    let mut c: usize = 0;
    let mut i: usize = 0;
    while i < events.len()
        invariant
            i <= events@.len(),
            models == event_models(events@),
            models.len() == events@.len(),
            c <= i,
            c == count_thinking(models.take(i as int)),
        decreases events@.len() - i,
    {
        proof {
            assert(models.take(i + 1).drop_last() =~= models.take(i as int));
            assert(models.take(i + 1).last() == models[i as int]);
            assert(models[i as int] == events@[i as int].model());
        }
        if events[i].is_thinking_event() {
            c = c + 1;
        }
        i = i + 1;
    }
    proof {
        assert(models.take(models.len() as int) =~= models);
    }
    c
}

/// Statistics from the stateful analysis of thinking events in a stream.
#[derive(Debug)]
pub struct ThinkingStreamStats {
    /// `content_block_start` events whose block type is `thinking`.
    pub thinking_blocks: usize,
    /// `content_block_start` events whose block type is `redacted_thinking`.
    pub redacted_blocks: usize,
    /// `content_block_delta` events of type `thinking_delta`.
    pub thinking_deltas: usize,
    /// `content_block_delta` events of type `signature_delta`.
    pub signature_deltas: usize,
    /// `content_block_stop` events whose index opened a thinking block.
    pub thinking_stops: usize,
    /// Whether any non-empty signature was seen, in a start or a delta.
    pub has_signatures: bool,
}

impl Default for ThinkingStreamStats {
    fn default() -> (r: Self)
        ensures
            r.thinking_blocks == 0 && r.redacted_blocks == 0 && r.thinking_deltas == 0
                && r.signature_deltas == 0 && r.thinking_stops == 0 && !r.has_signatures,
    {
        ThinkingStreamStats {
            thinking_blocks: 0,
            redacted_blocks: 0,
            thinking_deltas: 0,
            signature_deltas: 0,
            thinking_stops: 0,
            has_signatures: false,
        }
    }
}

impl ThinkingStreamStats {
    /// Total number of thinking-related events counted.
    pub fn total(&self) -> (r: usize)
        requires
            self.thinking_blocks + self.redacted_blocks + self.thinking_deltas
                + self.signature_deltas + self.thinking_stops <= usize::MAX,
        ensures
            r == self.thinking_blocks + self.redacted_blocks + self.thinking_deltas
                + self.signature_deltas + self.thinking_stops,
    {
        self.thinking_blocks + self.redacted_blocks + self.thinking_deltas + self.signature_deltas
            + self.thinking_stops
    }
}

/// The analyzer state over a prefix of the stream: the five counters, the
/// signature flag, and the indices that opened as thinking blocks.
pub struct AnalyzeModel {
    pub thinking_blocks: int,
    pub redacted_blocks: int,
    pub thinking_deltas: int,
    pub signature_deltas: int,
    pub thinking_stops: int,
    pub has_signatures: bool,
    pub open_indices: Seq<u64>,
}

/// Whether `j` has a member `key` holding a non-empty string.
pub open spec fn has_nonempty_str(j: Json, key: Seq<char>) -> bool {
    match json_get(j, key) {
        Some(x) => match json_as_str(x) {
            Some(s) => s.len() > 0,
            None => false,
        },
        None => false,
    }
}

/// One step of the stateful analysis.
pub open spec fn analyze_step(st: AnalyzeModel, e: EventModel) -> AnalyzeModel {
    if e.event_type == "content_block_start"@ {
        match json_get(e.data, "content_block"@) {
            Some(b) => {
                let bt = match json_get(b, "type"@) {
                    Some(x) => json_as_str(x),
                    None => None,
                };
                if bt == Some("thinking"@) {
                    let opened = match json_get(e.data, "index"@) {
                        Some(x) => match json_as_u64(x) {
                            Some(u) => st.open_indices.push(u),
                            None => st.open_indices,
                        },
                        None => st.open_indices,
                    };
                    AnalyzeModel {
                        thinking_blocks: st.thinking_blocks + 1,
                        open_indices: opened,
                        has_signatures: st.has_signatures || has_nonempty_str(b, "signature"@),
                        ..st
                    }
                } else if bt == Some("redacted_thinking"@) {
                    let opened = match json_get(e.data, "index"@) {
                        Some(x) => match json_as_u64(x) {
                            Some(u) => st.open_indices.push(u),
                            None => st.open_indices,
                        },
                        None => st.open_indices,
                    };
                    AnalyzeModel {
                        redacted_blocks: st.redacted_blocks + 1,
                        open_indices: opened,
                        ..st
                    }
                } else {
                    st
                }
            },
            None => st,
        }
    } else if e.event_type == "content_block_delta"@ {
        match json_get(e.data, "delta"@) {
            Some(d) => {
                let dt = match json_get(d, "type"@) {
                    Some(x) => json_as_str(x),
                    None => None,
                };
                if dt == Some("thinking_delta"@) {
                    AnalyzeModel { thinking_deltas: st.thinking_deltas + 1, ..st }
                } else if dt == Some("signature_delta"@) {
                    AnalyzeModel {
                        signature_deltas: st.signature_deltas + 1,
                        has_signatures: st.has_signatures || has_nonempty_str(d, "signature"@),
                        ..st
                    }
                } else {
                    st
                }
            },
            None => st,
        }
    } else if e.event_type == "content_block_stop"@ {
        match json_get(e.data, "index"@) {
            Some(x) => match json_as_u64(x) {
                Some(u) => if st.open_indices.contains(u) {
                    AnalyzeModel { thinking_stops: st.thinking_stops + 1, ..st }
                } else {
                    st
                },
                None => st,
            },
            None => st,
        }
    } else {
        st
    }
}

/// The initial analyzer state.
pub open spec fn analyze_init() -> AnalyzeModel {
    AnalyzeModel {
        thinking_blocks: 0,
        redacted_blocks: 0,
        thinking_deltas: 0,
        signature_deltas: 0,
        thinking_stops: 0,
        has_signatures: false,
        open_indices: Seq::empty(),
    }
}

/// The analyzer state after the whole stream.
pub open spec fn analyze_fold(evs: Seq<EventModel>) -> AnalyzeModel
    decreases evs.len(),
{
    if evs.len() == 0 {
        analyze_init()
    } else {
        analyze_step(analyze_fold(evs.drop_last()), evs.last())
    }
}

/// Whether exec stats and index list agree with an analyzer state.
pub open spec fn stats_match(st: AnalyzeModel, r: ThinkingStreamStats, idx: Seq<u64>) -> bool {
    &&& r.thinking_blocks == st.thinking_blocks
    &&& r.redacted_blocks == st.redacted_blocks
    &&& r.thinking_deltas == st.thinking_deltas
    &&& r.signature_deltas == st.signature_deltas
    &&& r.thinking_stops == st.thinking_stops
    &&& r.has_signatures == st.has_signatures
    &&& idx == st.open_indices
}

/// Whether a `u64` occurs in the list.
fn contains_u64(v: &Vec<u64>, x: u64) -> (r: bool)
    ensures
        r == v@.contains(x),
{
    let mut i: usize = 0;
    while i < v.len()
        invariant
            i <= v@.len(),
            forall|k: int| 0 <= k < i ==> v@[k] != x,
        decreases v@.len() - i,
    {
        if v[i] == x {
            return true;
        }
        i = i + 1;
    }
    false
}

/// Analyze an SSE event stream for thinking-related events with full state
/// tracking: unlike the stateless judgement, this attributes each
/// `content_block_stop` to the block that opened at its index, and reports
/// whether any non-empty signature was observed.
pub fn analyze_thinking_stream(events: &Vec<SseEvent>) -> (r: ThinkingStreamStats)
    ensures
        ({
            let st = analyze_fold(event_models(events@));
            &&& r.thinking_blocks == st.thinking_blocks
            &&& r.redacted_blocks == st.redacted_blocks
            &&& r.thinking_deltas == st.thinking_deltas
            &&& r.signature_deltas == st.signature_deltas
            &&& r.thinking_stops == st.thinking_stops
            &&& r.has_signatures == st.has_signatures
        }),
{
    let mut stats = ThinkingStreamStats::default();
    let mut indices: Vec<u64> = Vec::new();
    let ghost models = event_models(events@);
    let mut i: usize = 0;
    while i < events.len()
        invariant
            i <= events@.len(),
            models == event_models(events@),
            models.len() == events@.len(),
            stats.thinking_blocks <= i && stats.redacted_blocks <= i && stats.thinking_deltas <= i
                && stats.signature_deltas <= i && stats.thinking_stops <= i,
            stats_match(analyze_fold(models.take(i as int)), stats, indices@),
        decreases events@.len() - i,
    {
        let ghost st0 = analyze_fold(models.take(i as int));
        proof {
            assert(models.take(i + 1).drop_last() =~= models.take(i as int));
            assert(models.take(i + 1).last() == models[i as int]);
            assert(models[i as int] == events@[i as int].model());
        }
        let e = &events[i];
        if crate::strutil::str_eq(e.event_type.as_str(), "content_block_start") {
            match e.data.get("content_block") {
                Some(b) => {
                    if match b.get("type") {
                        Some(x) => x.is_str("thinking"),
                        None => false,
                    } {
                        stats.thinking_blocks = stats.thinking_blocks + 1;
                        match e.data.get("index") {
                            Some(x) => match x.as_u64() {
                                Some(u) => indices.push(u),
                                None => (),
                            },
                            None => (),
                        }
                        let has_sig = match b.get("signature") {
                            Some(sx) => match sx.as_str() {
                                Some(sv) => sv.unicode_len() > 0,
                                None => false,
                            },
                            None => false,
                        };
                        if has_sig {
                            stats.has_signatures = true;
                        }
                    } else if match b.get("type") {
                        Some(x) => x.is_str("redacted_thinking"),
                        None => false,
                    } {
                        stats.redacted_blocks = stats.redacted_blocks + 1;
                        match e.data.get("index") {
                            Some(x) => match x.as_u64() {
                                Some(u) => indices.push(u),
                                None => (),
                            },
                            None => (),
                        }
                    }
                },
                None => (),
            }
        } else if crate::strutil::str_eq(e.event_type.as_str(), "content_block_delta") {
            match e.data.get("delta") {
                Some(d) => {
                    if match d.get("type") {
                        Some(x) => x.is_str("thinking_delta"),
                        None => false,
                    } {
                        stats.thinking_deltas = stats.thinking_deltas + 1;
                    } else if match d.get("type") {
                        Some(x) => x.is_str("signature_delta"),
                        None => false,
                    } {
                        stats.signature_deltas = stats.signature_deltas + 1;
                        let has_sig = match d.get("signature") {
                            Some(sx) => match sx.as_str() {
                                Some(sv) => sv.unicode_len() > 0,
                                None => false,
                            },
                            None => false,
                        };
                        if has_sig {
                            stats.has_signatures = true;
                        }
                    }
                },
                None => (),
            }
        } else if crate::strutil::str_eq(e.event_type.as_str(), "content_block_stop") {
            match e.data.get("index") {
                Some(x) => match x.as_u64() {
                    Some(u) => if contains_u64(&indices, u) {
                        stats.thinking_stops = stats.thinking_stops + 1;
                    },
                    None => (),
                },
                None => (),
            }
        }
        proof {
            assert(stats_match(analyze_step(st0, models[i as int]), stats, indices@));
        }
        i = i + 1;
    }
    proof {
        assert(models.take(models.len() as int) =~= models);
    }
    stats
}

/// The bytes one event serializes to: a `data:` line with the payload, then
/// a blank separator line.
pub open spec fn chunk_of(e: EventModel) -> Seq<u8> {
    data_prefix() + seq![32u8] + crate::json::json_dump_spec(e.data) + seq![10u8, 10u8]
}

/// The bytes a list of events serializes to.
pub open spec fn serialize_spec(evs: Seq<EventModel>) -> Seq<u8>
    decreases evs.len(),
{
    if evs.len() == 0 {
        Seq::empty()
    } else {
        chunk_of(evs.first()) + serialize_spec(evs.drop_first())
    }
}

/// Serialize events back into an SSE byte stream, one `data:` line and one
/// blank separator per event.
///
/// Round trip: for well-formed events — as every event the parser yields
/// is — parsing the serialized stream gives back exactly the same events,
/// in the same order, with nothing added and nothing lost.
pub fn serialize_sse_events(events: &Vec<SseEvent>) -> (r: Vec<u8>)
    ensures
        (forall|k: int|
            0 <= k < events@.len() ==> wf_event(#[trigger] event_models(events@)[k])) ==> {
            &&& r@ == serialize_spec(event_models(events@))
            &&& sse_events_spec(r@) == event_models(events@)
        },
{
    let r = serialize_sse_from(events, 0);
    proof {
        assert(event_models(events@).skip(0) =~= event_models(events@));
    }
    r
}

/// Serialize the events from position `i` on.
fn serialize_sse_from(events: &Vec<SseEvent>, i: usize) -> (r: Vec<u8>)
    requires
        i <= events@.len(),
    ensures
        (forall|k: int|
            i <= k < events@.len() ==> wf_event(#[trigger] event_models(events@)[k])) ==> {
            &&& r@ == serialize_spec(event_models(events@).skip(i as int))
            &&& sse_events_spec(r@) == event_models(events@).skip(i as int)
        },
    decreases events@.len() - i,
{
    let ghost models = event_models(events@);
    if i == events.len() {
        let out: Vec<u8> = Vec::new();
        proof {
            assert(models.skip(i as int) =~= Seq::<EventModel>::empty());
            assert(split_lines(out@).len() == 1);
            assert(split_lines(out@)[0] =~= Seq::<u8>::empty());
            assert(trim_spec(Seq::<u8>::empty()) =~= Seq::<u8>::empty());
            assert(line_event(Seq::<u8>::empty()) is None);
            assert(split_lines(out@) =~= seq![Seq::<u8>::empty()]);
            lemma_events_cons(Seq::<u8>::empty(), Seq::<Seq<u8>>::empty());
            assert(seq![Seq::<u8>::empty()] + Seq::<Seq<u8>>::empty() =~= seq![Seq::<u8>::empty()]);
            assert(events_of_lines(Seq::<Seq<u8>>::empty()) =~= Seq::<EventModel>::empty());
        }
        return out;
    }
    let dump = dump_json(&events[i].data);
    let mut out: Vec<u8> = Vec::new();
    out.push(100);
    out.push(97);
    out.push(116);
    out.push(97);
    out.push(58);
    out.push(32);
    let ghost head = out@;
    let mut dcopy = dump;
    let ghost dumpv = dcopy@;
    out.append(&mut dcopy);
    out.push(10);
    out.push(10);
    let ghost chunk = out@;
    let mut rest = serialize_sse_from(events, i + 1);
    let ghost restv = rest@;
    out.append(&mut rest);
    proof {
        assert(head =~= data_prefix() + seq![32u8]);
        assert(chunk =~= head + dumpv + seq![10u8, 10u8]);
        assert(out@ =~= chunk + restv);
    }
    let ghost e = models[i as int];
    proof {
        assert(e == events@[i as int].model());
        if forall|k: int| i <= k < models.len() ==> wf_event(#[trigger] models[k]) {
            assert(wf_event(e));
            assert(json_wf(e.data));
            // the dump facts hold of this event's payload
            assert(dumpv == crate::json::json_dump_spec(e.data));
            assert(crate::json::json_parse_spec(dumpv) == Some(e.data));
            // the serialized bytes of the remaining events
            assert(forall|k: int|
                i + 1 <= k < models.len() ==> wf_event(#[trigger] models[k]));
            assert(restv == serialize_spec(models.skip(i + 1)));
            assert(sse_events_spec(restv) == models.skip(i + 1));
            // the whole output equals the specified serialization
            assert(models.skip(i as int).len() > 0);
            assert(models.skip(i as int).first() == e);
            assert(models.skip(i as int).drop_first() =~= models.skip(i + 1));
            assert(chunk =~= chunk_of(e));
            assert(out@ =~= serialize_spec(models.skip(i as int)));
            // parsing splits the first line back off
            let line1 = head + dumpv;
            assert(forall|k: int| 0 <= k < dumpv.len() ==> dumpv[k] != 10);
            assert(forall|k: int| 0 <= k < line1.len() ==> line1[k] != 10);
            assert(out@ =~= line1 + seq![10u8] + (seq![10u8] + restv));
            lemma_split_head(line1, seq![10u8] + restv);
            assert((seq![10u8] + restv)[0] == 10);
            assert((seq![10u8] + restv).drop_first() =~= restv);
            assert(split_lines(seq![10u8] + restv) == seq![Seq::<u8>::empty()] + split_lines(
                restv,
            ));
            assert(split_lines(out@) =~= seq![line1] + (seq![Seq::<u8>::empty()] + split_lines(
                restv,
            )));
            // the first line carries exactly this event
            assert(line1[0] == 100 && !is_ws(line1[0]));
            assert(line1[line1.len() - 1] == dumpv[dumpv.len() - 1]);
            assert(!is_ws(line1[line1.len() - 1]));
            lemma_trim_start_skip(line1, 0);
            assert(line1.skip(0) =~= line1);
            lemma_trim_end_take(line1, line1.len() as int);
            assert(line1.take(line1.len() as int) =~= line1);
            assert(trim_spec(line1) == line1);
            assert(line1.len() >= 5);
            assert(line1.take(5) =~= data_prefix());
            let after = line1.skip(5);
            assert(after.len() >= 2 && after[0] == 32);
            assert(after[1] == dumpv[0]);
            assert(!is_ws(after[1]));
            lemma_trim_start_skip(after, 1);
            assert(after.skip(1) =~= dumpv);
            assert(line_event_trimmed(line1) == Some(e)) by {
                assert(type_is(e.data, e.event_type));
            }
            assert(line_event(line1) == Some(e));
            // assemble the parsed events
            lemma_events_cons(line1, seq![Seq::<u8>::empty()] + split_lines(restv));
            lemma_events_cons(Seq::<u8>::empty(), split_lines(restv));
            assert((seq![Seq::<u8>::empty()] + split_lines(restv)).drop_first() =~= split_lines(
                restv,
            ));
            assert(line_event(Seq::<u8>::empty()) is None) by {
                assert(trim_spec(Seq::<u8>::empty()) =~= Seq::<u8>::empty());
            }
            assert(sse_events_spec(out@) == seq![e] + sse_events_spec(restv));
            assert(seq![e] + models.skip(i + 1) =~= models.skip(i as int));
        }
    }
    out
}

} // verus!
