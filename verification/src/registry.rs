//! Thinking-block registry: tracks which thinking blocks belong to which
//! session, confirms them when the client echoes them back, and filters
//! invalid blocks out of outgoing requests.
//!
//! When the backend switches, blocks produced earlier carry provider
//! signatures the new backend rejects; the session counter increments on
//! every switch and blocks from old sessions are never valid. A block is
//! evicted as no longer needed only on positive evidence: the request
//! carries conversation history and names the blocks it still wants.

use crate::json::{json_as_str, json_get, json_parse_spec, parse_json, Json};
use crate::sse::{event_models, EventModel, SseEvent};
use crate::thinking::{fast_hash, fingerprint_spec};
use vstd::prelude::*;

verus! {

use vstd::string::StringSliceAdditionalSpecFns;
use vstd::utf8::encode_utf8;

/// Default age past which an unconfirmed, unreferenced block is an orphan:
/// five minutes, in nanoseconds.
pub const DEFAULT_ORPHAN_THRESHOLD_NS: u64 = 300_000_000_000;

/// What the registry records about one thinking block.
#[derive(Debug, Clone, Copy, PartialEq, Eq, Structural)]
pub struct BlockInfo {
    /// Session the block was registered under.
    pub session: u64,
    /// Whether the client has echoed the block back in a request.
    pub confirmed: bool,
    /// When the block was registered, in nanoseconds since the Unix epoch.
    pub registered_at_ns: u64,
}

/// Counts of cached blocks, for monitoring.
#[derive(Debug, Clone, Copy, PartialEq, Eq, Structural)]
pub struct CacheStats {
    pub total: usize,
    pub confirmed: usize,
    pub unconfirmed: usize,
    pub current_session: usize,
    pub old_session: usize,
}

/// The fingerprint of a thinking text, from its characters.
pub open spec fn text_fp(text: Seq<char>) -> u64 {
    fingerprint_spec(encode_utf8(text))
}

/// First block recorded under a fingerprint, if any.
pub open spec fn find_block(s: Seq<(u64, BlockInfo)>, h: u64) -> Option<BlockInfo>
    decreases s.len(),
{
    if s.len() == 0 {
        None
    } else if s[0].0 == h {
        Some(s[0].1)
    } else {
        find_block(s.drop_first(), h)
    }
}

/// Pairwise distinct fingerprints.
pub open spec fn blocks_unique(s: Seq<(u64, BlockInfo)>) -> bool {
    forall|i: int, k: int| 0 <= i < k < s.len() ==> (#[trigger] s[i]).0 != (#[trigger] s[k]).0
}

proof fn lemma_find_block_skip(s: Seq<(u64, BlockInfo)>, h: u64, i: int)
    requires
        0 <= i <= s.len(),
        forall|k: int| 0 <= k < i ==> (#[trigger] s[k]).0 != h,
    ensures
        find_block(s, h) == find_block(s.skip(i), h),
    decreases i,
{
    if i > 0 {
        assert(s[0].0 != h);
        assert(s.drop_first() =~= s.skip(1));
        assert forall|k: int| 0 <= k < i - 1 implies (#[trigger] s.skip(1)[k]).0 != h by {
            assert(s.skip(1)[k] == s[k + 1]);
        }
        lemma_find_block_skip(s.skip(1), h, i - 1);
        assert(s.skip(1).skip(i - 1) =~= s.skip(i));
    } else {
        assert(s.skip(0) =~= s);
    }
}

/// When an index holds the fingerprint and nothing before it does, the
/// lookup yields that entry.
proof fn lemma_find_block_at(s: Seq<(u64, BlockInfo)>, h: u64, i: int)
    requires
        0 <= i < s.len(),
        s[i].0 == h,
        forall|k: int| 0 <= k < i ==> (#[trigger] s[k]).0 != h,
    ensures
        find_block(s, h) == Some(s[i].1),
{
    lemma_find_block_skip(s, h, i);
    assert(s.skip(i).len() > 0);
    assert(s.skip(i)[0] == s[i]);
}

/// When no index holds the fingerprint, the lookup yields nothing.
proof fn lemma_find_block_none(s: Seq<(u64, BlockInfo)>, h: u64)
    requires
        forall|k: int| 0 <= k < s.len() ==> (#[trigger] s[k]).0 != h,
    ensures
        find_block(s, h) is None,
{
    lemma_find_block_skip(s, h, s.len() as int);
    assert(s.skip(s.len() as int).len() == 0);
}

/// The mathematical image of the registry.
pub struct RegistryModel {
    pub session: u64,
    pub backend: Seq<char>,
    pub blocks: Seq<(u64, BlockInfo)>,
    pub orphan_threshold_ns: u64,
}

/// The thinking text a content item carries, if it is a thinking item with
/// its text present: the `thinking` member for `thinking` items, the `data`
/// member for `redacted_thinking` items.
pub open spec fn item_thinking_text(item: Json) -> Option<Seq<char>> {
    if crate::json::type_is(item, "thinking"@) {
        match json_get(item, "thinking"@) {
            Some(x) => json_as_str(x),
            None => None,
        }
    } else if crate::json::type_is(item, "redacted_thinking"@) {
        match json_get(item, "data"@) {
            Some(x) => json_as_str(x),
            None => None,
        }
    } else {
        None
    }
}

/// Whether a content item is thinking-typed at all.
pub open spec fn is_thinking_item(item: Json) -> bool {
    crate::json::type_is(item, "thinking"@) || crate::json::type_is(item, "redacted_thinking"@)
}

/// The fingerprints of the thinking items of one content array, in order.
pub open spec fn content_fps(items: Seq<Json>) -> Seq<u64>
    decreases items.len(),
{
    if items.len() == 0 {
        Seq::empty()
    } else {
        content_fps(items.drop_last()) + match item_thinking_text(items.last()) {
            Some(t) => seq![text_fp(t)],
            None => Seq::<u64>::empty(),
        }
    }
}

/// The fingerprints of the thinking items of a message list, in order.
pub open spec fn msgs_fps(msgs: Seq<Json>) -> Seq<u64>
    decreases msgs.len(),
{
    if msgs.len() == 0 {
        Seq::empty()
    } else {
        msgs_fps(msgs.drop_last()) + match msgs.last() {
            Json::Obj(_) => match json_get(msgs.last(), "content"@) {
                Some(Json::Arr(items)) => content_fps(items@),
                _ => Seq::<u64>::empty(),
            },
            _ => Seq::<u64>::empty(),
        }
    }
}

/// The fingerprints of all thinking items a request body carries.
pub open spec fn request_fps(body: Json) -> Seq<u64> {
    match json_get(body, "messages"@) {
        Some(Json::Arr(msgs)) => msgs_fps(msgs@),
        _ => Seq::empty(),
    }
}

/// Whether the request carries conversation history: any message whose
/// `role` is `assistant`.
pub open spec fn has_history(body: Json) -> bool {
    match json_get(body, "messages"@) {
        Some(Json::Arr(msgs)) => exists|i: int|
            0 <= i < msgs@.len() && crate::json::json_as_str(
                match json_get(#[trigger] msgs@[i], "role"@) {
                    Some(x) => x,
                    None => Json::Null,
                },
            ) == Some("assistant"@),
        _ => false,
    }
}

/// One entry after the confirm phase: a block named by the request, in the
/// current session and unconfirmed, becomes confirmed.
pub open spec fn confirm_entry(e: (u64, BlockInfo), req: Seq<u64>, session: u64) -> (
    u64,
    BlockInfo,
) {
    if req.contains(e.0) && e.1.session == session && !e.1.confirmed {
        (e.0, BlockInfo { confirmed: true, ..e.1 })
    } else {
        e
    }
}

/// The block list after the confirm phase.
pub open spec fn confirm_spec(s: Seq<(u64, BlockInfo)>, req: Seq<u64>, session: u64) -> Seq<
    (u64, BlockInfo),
> {
    Seq::new(s.len(), |i: int| confirm_entry(s[i], req, session))
}

/// The age of a block at time `now`, never negative.
pub open spec fn age_of(now: u64, at: u64) -> int {
    if now >= at {
        now - at
    } else {
        0
    }
}

/// Rule 1 alone: an entry survives exactly when it is in the current
/// session. Applied when the request carries no history or names no blocks.
pub open spec fn keep_rule1(e: (u64, BlockInfo), session: u64) -> bool {
    e.1.session == session
}

/// The full cleanup rules: an entry survives when it is in the current
/// session and is either named by the request, or unconfirmed and younger
/// than the orphan threshold.
pub open spec fn keep_full(e: (u64, BlockInfo), session: u64, req: Seq<u64>, now: u64, thr: u64) -> bool {
    e.1.session == session && (req.contains(e.0) || (!e.1.confirmed && age_of(
        now,
        e.1.registered_at_ns,
    ) <= thr))
}

/// The block list after Rule 1 alone.
pub open spec fn cleanup_rule1_spec(s: Seq<(u64, BlockInfo)>, session: u64) -> Seq<
    (u64, BlockInfo),
> {
    s.filter(|e: (u64, BlockInfo)| keep_rule1(e, session))
}

/// The block list after the full cleanup.
pub open spec fn cleanup_full_spec(
    s: Seq<(u64, BlockInfo)>,
    session: u64,
    req: Seq<u64>,
    now: u64,
    thr: u64,
) -> Seq<(u64, BlockInfo)> {
    s.filter(|e: (u64, BlockInfo)| keep_full(e, session, req, now, thr))
}

/// Which cleanup applies: the full rules only when the request carries
/// history and names at least one block.
pub open spec fn cleanup_spec(
    s: Seq<(u64, BlockInfo)>,
    session: u64,
    req: Seq<u64>,
    history: bool,
    now: u64,
    thr: u64,
) -> Seq<(u64, BlockInfo)> {
    if history && req.len() > 0 {
        cleanup_full_spec(s, session, req, now, thr)
    } else {
        cleanup_rule1_spec(s, session)
    }
}

/// Registry for tracking thinking blocks across backend switches.
pub struct ThinkingRegistry {
    current_session: u64,
    current_backend: String,
    blocks: Vec<(u64, BlockInfo)>,
    orphan_threshold_ns: u64,
}

impl ThinkingRegistry {
    /// The registry's mathematical image.
    pub closed spec fn model(self) -> RegistryModel {
        RegistryModel {
            session: self.current_session,
            backend: self.current_backend@,
            blocks: self.blocks@,
            orphan_threshold_ns: self.orphan_threshold_ns,
        }
    }

    /// Fingerprints are pairwise distinct in the cache.
    pub open spec fn wf(self) -> bool {
        blocks_unique(self.model().blocks)
    }

    /// Create an empty registry with the default orphan threshold.
    pub fn new() -> (r: Self)
        ensures
            r.wf(),
            r.model().session == 0,
            r.model().backend == Seq::<char>::empty(),
            r.model().blocks == Seq::<(u64, BlockInfo)>::empty(),
            r.model().orphan_threshold_ns == DEFAULT_ORPHAN_THRESHOLD_NS,
    {
        let r = ThinkingRegistry {
            current_session: 0,
            current_backend: String::new(),
            blocks: Vec::new(),
            orphan_threshold_ns: DEFAULT_ORPHAN_THRESHOLD_NS,
        };
        proof {
            assert(r.model().blocks =~= Seq::<(u64, BlockInfo)>::empty());
            assert(r.model().backend =~= Seq::<char>::empty());
        }
        r
    }

    /// Create an empty registry with a custom orphan threshold, in
    /// nanoseconds.
    pub fn with_orphan_threshold(threshold_ns: u64) -> (r: Self)
        ensures
            r.wf(),
            r.model().session == 0,
            r.model().backend == Seq::<char>::empty(),
            r.model().blocks == Seq::<(u64, BlockInfo)>::empty(),
            r.model().orphan_threshold_ns == threshold_ns,
    {
        let r = ThinkingRegistry {
            current_session: 0,
            current_backend: String::new(),
            blocks: Vec::new(),
            orphan_threshold_ns: threshold_ns,
        };
        proof {
            assert(r.model().blocks =~= Seq::<(u64, BlockInfo)>::empty());
            assert(r.model().backend =~= Seq::<char>::empty());
        }
        r
    }

    /// Called when the backend changes: a switch to a different backend
    /// increments the session, invalidating all earlier blocks; repeating
    /// the current backend changes nothing.
    pub fn on_backend_switch(&mut self, new_backend: &str)
        requires
            old(self).model().session < u64::MAX,
        ensures
            final(self).wf() == old(self).wf(),
            old(self).model().backend != new_backend@ ==> final(self).model() == (RegistryModel {
                session: (old(self).model().session + 1) as u64,
                backend: new_backend@,
                ..old(self).model()
            }),
            old(self).model().backend == new_backend@ ==> final(self).model() == old(
                self,
            ).model(),
    {
        if !crate::strutil::str_eq(self.current_backend.as_str(), new_backend) {
            self.current_session = self.current_session + 1;
            self.current_backend = new_backend.to_owned();
        }
    }

    /// The current session id.
    pub fn current_session(&self) -> (r: u64)
        ensures
            r == self.model().session,
    {
        self.current_session
    }

    /// The current backend name.
    pub fn current_backend(&self) -> (r: &str)
        ensures
            r@ == self.model().backend,
    {
        self.current_backend.as_str()
    }

    /// The number of cached blocks.
    pub fn block_count(&self) -> (r: usize)
        ensures
            r == self.model().blocks.len(),
    {
        self.blocks.len()
    }

    /// Whether a block with this fingerprint is cached.
    pub fn contains_hash(&self, h: u64) -> (r: bool)
        ensures
            r == (find_block(self.model().blocks, h) is Some),
    {
        self.find_index(h).is_some()
    }

    /// The first index holding fingerprint `h`.
    fn find_index(&self, h: u64) -> (r: Option<usize>)
        ensures
            match r {
                Some(i) => i < self.model().blocks.len() && self.model().blocks[i as int].0 == h
                    && find_block(self.model().blocks, h) == Some(
                    self.model().blocks[i as int].1,
                ),
                None => find_block(self.model().blocks, h) is None,
            },
    {
        let mut i: usize = 0;
        while i < self.blocks.len()
            invariant
                i <= self.blocks@.len(),
                forall|k: int| 0 <= k < i ==> (#[trigger] self.blocks@[k]).0 != h,
            decreases self.blocks@.len() - i,
        {
            if self.blocks[i].0 == h {
                proof {
                    lemma_find_block_at(self.blocks@, h, i as int);
                }
                return Some(i);
            }
            i = i + 1;
        }
        proof {
            lemma_find_block_none(self.blocks@, h);
        }
        None
    }

    /// Register a single thinking text under the given session at time
    /// `now_ns`: a block already cached under the same session is left
    /// alone; one cached under another session is overwritten; a new
    /// fingerprint is appended, unconfirmed.
    fn register_block(&mut self, content: &str, session_id: u64, now_ns: u64)
        requires
            old(self).wf(),
        ensures
            final(self).wf(),
            final(self).model().session == old(self).model().session,
            final(self).model().backend == old(self).model().backend,
            final(self).model().orphan_threshold_ns == old(self).model().orphan_threshold_ns,
            final(self).model().blocks == register_one(
                old(self).model().blocks,
                text_fp(content@),
                session_id,
                now_ns,
            ),
    {
        let h = fast_hash(content);
        let fresh = BlockInfo { session: session_id, confirmed: false, registered_at_ns: now_ns };
        match self.find_index(h) {
            Some(i) => {
                proof {
                    lemma_register_one_at(self.blocks@, h, i as int, session_id, now_ns);
                }
                if self.blocks[i].1.session == session_id {
                    return ;
                }
                let ghost pre = self.blocks@;
                self.blocks[i] = (h, fresh);
                proof {
                    assert(self.blocks@ == pre.update(i as int, (h, fresh)));
                    assert(blocks_unique(self.blocks@));
                }
            },
            None => {
                let ghost pre = self.blocks@;
                proof {
                    assert(forall|k: int| 0 <= k < pre.len() ==> (#[trigger] pre[k]).0 != h) by {
                        if exists|k: int| 0 <= k < pre.len() && (#[trigger] pre[k]).0 == h {
                            let k = choose|k: int| 0 <= k < pre.len() && (#[trigger] pre[k]).0
                                == h;
                            lemma_find_block_at_exists(pre, h, k);
                            assert(false);
                        }
                    }
                    lemma_register_one_none(pre, h, session_id, now_ns);
                }
                self.blocks.push((h, fresh));
                proof {
                    assert(blocks_unique(self.blocks@));
                }
            },
        }
    }
}

/// A freshly registered, unconfirmed block.
pub open spec fn fresh_info(session_id: u64, now_ns: u64) -> BlockInfo {
    BlockInfo { session: session_id, confirmed: false, registered_at_ns: now_ns }
}

/// The block list after registering one fingerprint: already cached under
/// the same session, nothing changes; cached under another session, the
/// entry is overwritten; otherwise a fresh entry is appended.
pub open spec fn register_one(s: Seq<(u64, BlockInfo)>, h: u64, sid: u64, now: u64) -> Seq<
    (u64, BlockInfo),
>
    decreases s.len(),
{
    if s.len() == 0 {
        seq![(h, fresh_info(sid, now))]
    } else if s[0].0 == h {
        if s[0].1.session == sid {
            s
        } else {
            seq![(h, fresh_info(sid, now))] + s.drop_first()
        }
    } else {
        seq![s[0]] + register_one(s.drop_first(), h, sid, now)
    }
}

proof fn lemma_register_one_at(s: Seq<(u64, BlockInfo)>, h: u64, i: int, sid: u64, now: u64)
    requires
        0 <= i < s.len(),
        s[i].0 == h,
        forall|k: int| 0 <= k < i ==> (#[trigger] s[k]).0 != h,
    ensures
        register_one(s, h, sid, now) == if s[i].1.session == sid {
            s
        } else {
            s.update(i, (h, fresh_info(sid, now)))
        },
    decreases i,
{
    if i == 0 {
        if s[0].1.session != sid {
            assert(seq![(h, fresh_info(sid, now))] + s.drop_first() =~= s.update(
                0,
                (h, fresh_info(sid, now)),
            ));
        }
    } else {
        assert(s[0].0 != h);
        assert(s.drop_first()[i - 1] == s[i]);
        assert forall|k: int| 0 <= k < i - 1 implies (#[trigger] s.drop_first()[k]).0 != h by {
            assert(s.drop_first()[k] == s[k + 1]);
        }
        lemma_register_one_at(s.drop_first(), h, i - 1, sid, now);
        if s[i].1.session == sid {
            assert(seq![s[0]] + s.drop_first() =~= s);
        } else {
            assert(seq![s[0]] + s.drop_first().update(i - 1, (h, fresh_info(sid, now))) =~= s.update(
                i,
                (h, fresh_info(sid, now)),
            ));
        }
    }
}

proof fn lemma_register_one_none(s: Seq<(u64, BlockInfo)>, h: u64, sid: u64, now: u64)
    requires
        forall|k: int| 0 <= k < s.len() ==> (#[trigger] s[k]).0 != h,
    ensures
        register_one(s, h, sid, now) == s.push((h, fresh_info(sid, now))),
    decreases s.len(),
{
    if s.len() == 0 {
        assert(seq![(h, fresh_info(sid, now))] =~= s.push((h, fresh_info(sid, now))));
    } else {
        assert(s[0].0 != h);
        assert forall|k: int| 0 <= k < s.drop_first().len() implies (
        #[trigger] s.drop_first()[k]).0 != h by {
            assert(s.drop_first()[k] == s[k + 1]);
        }
        lemma_register_one_none(s.drop_first(), h, sid, now);
        assert(seq![s[0]] + s.drop_first().push((h, fresh_info(sid, now))) =~= s.push(
            (h, fresh_info(sid, now)),
        ));
    }
}

/// Replacing the entry of one fingerprint leaves lookups of every other
/// fingerprint unchanged.
proof fn lemma_find_update_other(a: Seq<(u64, BlockInfo)>, i: int, e: (u64, BlockInfo), h2: u64)
    requires
        0 <= i < a.len(),
        a[i].0 == e.0,
        e.0 != h2,
    ensures
        find_block(a.update(i, e), h2) == find_block(a, h2),
    decreases a.len(),
{
    let b = a.update(i, e);
    if i == 0 {
        assert(b[0].0 == e.0);
        assert(a[0].0 == e.0);
        assert(b.drop_first() =~= a.drop_first());
    } else {
        assert(b[0] == a[0]);
        assert(b.drop_first() =~= a.drop_first().update(i - 1, e));
        assert(a.drop_first()[i - 1] == a[i]);
        lemma_find_update_other(a.drop_first(), i - 1, e, h2);
    }
}

/// If some index holds the fingerprint, the lookup succeeds.
proof fn lemma_find_block_at_exists(s: Seq<(u64, BlockInfo)>, h: u64, i: int)
    requires
        0 <= i < s.len(),
        s[i].0 == h,
    ensures
        find_block(s, h) is Some,
    decreases i,
{
    if s[0].0 != h {
        assert(s.drop_first()[i - 1] == s[i]);
        lemma_find_block_at_exists(s.drop_first(), h, i - 1);
    }
}

/// Whether a `u64` occurs in the list.
fn hashes_contain(v: &Vec<u64>, x: u64) -> (r: bool)
    ensures
        r == v@.contains(x),
{
    let mut i: usize = 0;
    while i < v.len()
        invariant
            i <= v@.len(),
            forall|k: int| 0 <= k < i ==> v@[k] != x,
        decreases v@.len() - i,
    {
        if v[i] == x {
            return true;
        }
        i = i + 1;
    }
    false
}

/// The thinking text a content item carries, when it is a thinking item
/// with its text present.
pub fn extract_thinking_content<'a>(item: &'a Json) -> (r: Option<&'a str>)
    ensures
        match r {
            Some(s) => item_thinking_text(*item) == Some(s@),
            None => item_thinking_text(*item) is None,
        },
{
    let ty = match item.get("type") {
        Some(x) => match x.as_str() {
            Some(t) => t,
            None => {
                return None;
            },
        },
        None => {
            return None;
        },
    };
    if crate::strutil::str_eq(ty, "thinking") {
        match item.get("thinking") {
            Some(x) => x.as_str(),
            None => None,
        }
    } else if crate::strutil::str_eq(ty, "redacted_thinking") {
        match item.get("data") {
            Some(x) => x.as_str(),
            None => None,
        }
    } else {
        None
    }
}

impl ThinkingRegistry {
    /// Confirm every cached block the request names, when it is in the
    /// current session and unconfirmed; returns how many were newly
    /// confirmed, saturating.
    fn confirm_blocks(&mut self, req: &Vec<u64>) -> (count: u32)
        requires
            old(self).wf(),
        ensures
            final(self).wf(),
            final(self).model().blocks == confirm_spec(
                old(self).model().blocks,
                req@,
                old(self).model().session,
            ),
            final(self).model().session == old(self).model().session,
            final(self).model().backend == old(self).model().backend,
            final(self).model().orphan_threshold_ns == old(self).model().orphan_threshold_ns,
    {
        let ghost orig = self.blocks@;
        let ghost session = self.current_session;
        let mut count: u32 = 0;
        let mut i: usize = 0;
        while i < self.blocks.len()
            invariant
                i <= self.blocks@.len(),
                self.blocks@.len() == orig.len(),
                self.current_session == session,
                forall|k: int|
                    0 <= k < i ==> self.blocks@[k] == confirm_entry(orig[k], req@, session),
                forall|k: int| i <= k < orig.len() ==> self.blocks@[k] == orig[k],
                self.current_backend == old(self).current_backend,
                self.orphan_threshold_ns == old(self).orphan_threshold_ns,
            decreases self.blocks@.len() - i,
        {
            let (h, info) = self.blocks[i];
            if hashes_contain(req, h) && info.session == self.current_session && !info.confirmed {
                self.blocks[i] = (h, BlockInfo { confirmed: true, ..info });
                count = count.saturating_add(1);
            }
            i = i + 1;
        }
        proof {
            assert(self.blocks@ =~= confirm_spec(orig, req@, session));
            assert(blocks_unique(self.blocks@)) by {
                assert(forall|k: int|
                    0 <= k < orig.len() ==> (#[trigger] self.blocks@[k]).0 == orig[k].0);
            }
        }
        count
    }

    /// Remove every block from an old session (Rule 1), used when the
    /// request gives no evidence about which blocks are still needed.
    fn cleanup_old_sessions(&mut self)
        requires
            old(self).wf(),
        ensures
            final(self).wf(),
            final(self).model().blocks == cleanup_rule1_spec(
                old(self).model().blocks,
                old(self).model().session,
            ),
            final(self).model().session == old(self).model().session,
            final(self).model().backend == old(self).model().backend,
            final(self).model().orphan_threshold_ns == old(self).model().orphan_threshold_ns,
    {
        let ghost orig = self.blocks@;
        let ghost session = self.current_session;
        let mut kept: Vec<(u64, BlockInfo)> = Vec::new();
        let mut i: usize = 0;
        while i < self.blocks.len()
            invariant
                i <= self.blocks@.len(),
                self.blocks@ == orig,
                self.current_session == session,
                kept@ =~= cleanup_rule1_spec(orig.take(i as int), session),
            decreases self.blocks@.len() - i,
        {
            proof {
                lemma_rule1_step(orig, session, i as int);
            }
            let (h, info) = self.blocks[i];
            if info.session == self.current_session {
                kept.push((h, info));
            }
            i = i + 1;
        }
        proof {
            assert(orig.take(orig.len() as int) =~= orig);
            lemma_filter_keeps_unique_rule1(orig, session);
        }
        self.blocks = kept;
    }

    /// Apply the full cleanup rules against the request's fingerprints at
    /// time `now_ns`; falls back to Rule 1 alone when the request names no
    /// blocks.
    fn cleanup_cache(&mut self, req: &Vec<u64>, now_ns: u64)
        requires
            old(self).wf(),
        ensures
            final(self).wf(),
            final(self).model().blocks == if req@.len() > 0 {
                cleanup_full_spec(
                    old(self).model().blocks,
                    old(self).model().session,
                    req@,
                    now_ns,
                    old(self).model().orphan_threshold_ns,
                )
            } else {
                cleanup_rule1_spec(old(self).model().blocks, old(self).model().session)
            },
            final(self).model().session == old(self).model().session,
            final(self).model().backend == old(self).model().backend,
            final(self).model().orphan_threshold_ns == old(self).model().orphan_threshold_ns,
    {
        if req.len() == 0 {
            self.cleanup_old_sessions();
            return ;
        }
        let ghost orig = self.blocks@;
        let ghost session = self.current_session;
        let ghost thr = self.orphan_threshold_ns;
        let mut kept: Vec<(u64, BlockInfo)> = Vec::new();
        let mut i: usize = 0;
        while i < self.blocks.len()
            invariant
                i <= self.blocks@.len(),
                self.blocks@ == orig,
                self.current_session == session,
                self.orphan_threshold_ns == thr,
                kept@ =~= cleanup_full_spec(orig.take(i as int), session, req@, now_ns, thr),
            decreases self.blocks@.len() - i,
        {
            proof {
                lemma_full_step(orig, session, req@, now_ns, thr, i as int);
            }
            let (h, info) = self.blocks[i];
            let in_req = hashes_contain(req, h);
            let age = if now_ns >= info.registered_at_ns {
                now_ns - info.registered_at_ns
            } else {
                0
            };
            if info.session == self.current_session && (in_req || (!info.confirmed && age
                <= self.orphan_threshold_ns)) {
                kept.push((h, info));
            }
            i = i + 1;
        }
        proof {
            assert(orig.take(orig.len() as int) =~= orig);
            lemma_filter_keeps_unique_full(orig, session, req@, now_ns, thr);
        }
        self.blocks = kept;
    }

    /// Counts of cached blocks by confirmation and session.
    pub fn cache_stats(&self) -> (r: CacheStats)
        ensures
            r.total == self.model().blocks.len(),
            r.confirmed == count_confirmed(self.model().blocks),
            r.unconfirmed == self.model().blocks.len() - count_confirmed(self.model().blocks),
            r.current_session == count_in_session(self.model().blocks, self.model().session),
            r.old_session == self.model().blocks.len() - count_in_session(
                self.model().blocks,
                self.model().session,
            ),
    {
        let mut confirmed: usize = 0;
        let mut current: usize = 0;
        let mut i: usize = 0;
        while i < self.blocks.len()
            invariant
                i <= self.blocks@.len(),
                confirmed <= i,
                current <= i,
                confirmed == count_confirmed(self.blocks@.take(i as int)),
                current == count_in_session(self.blocks@.take(i as int), self.current_session),
            decreases self.blocks@.len() - i,
        {
            proof {
                assert(self.blocks@.take(i + 1).drop_last() =~= self.blocks@.take(i as int));
                assert(self.blocks@.take(i + 1).last() == self.blocks@[i as int]);
            }
            let (_, info) = self.blocks[i];
            if info.confirmed {
                confirmed = confirmed + 1;
            }
            if info.session == self.current_session {
                current = current + 1;
            }
            i = i + 1;
        }
        proof {
            assert(self.blocks@.take(self.blocks@.len() as int) =~= self.blocks@);
            lemma_counts_bounded(self.blocks@);
            lemma_counts_bounded_session(self.blocks@, self.current_session);
        }
        CacheStats {
            total: self.blocks.len(),
            confirmed,
            unconfirmed: self.blocks.len() - confirmed,
            current_session: current,
            old_session: self.blocks.len() - current,
        }
    }
}

/// How many blocks are confirmed.
pub open spec fn count_confirmed(s: Seq<(u64, BlockInfo)>) -> int
    decreases s.len(),
{
    if s.len() == 0 {
        0
    } else {
        count_confirmed(s.drop_last()) + if s.last().1.confirmed {
            1int
        } else {
            0int
        }
    }
}

/// How many blocks belong to the given session.
pub open spec fn count_in_session(s: Seq<(u64, BlockInfo)>, session: u64) -> int
    decreases s.len(),
{
    if s.len() == 0 {
        0
    } else {
        count_in_session(s.drop_last(), session) + if s.last().1.session == session {
            1int
        } else {
            0int
        }
    }
}

proof fn lemma_counts_bounded(s: Seq<(u64, BlockInfo)>)
    ensures
        0 <= count_confirmed(s) <= s.len(),
    decreases s.len(),
{
    if s.len() > 0 {
        lemma_counts_bounded(s.drop_last());
    }
}

proof fn lemma_counts_bounded_session(s: Seq<(u64, BlockInfo)>, session: u64)
    ensures
        0 <= count_in_session(s, session) <= s.len(),
    decreases s.len(),
{
    if s.len() > 0 {
        lemma_counts_bounded_session(s.drop_last(), session);
    }
}

proof fn lemma_rule1_step(s: Seq<(u64, BlockInfo)>, session: u64, i: int)
    requires
        0 <= i < s.len(),
    ensures
        cleanup_rule1_spec(s.take(i + 1), session) == if keep_rule1(s[i], session) {
            cleanup_rule1_spec(s.take(i), session).push(s[i])
        } else {
            cleanup_rule1_spec(s.take(i), session)
        },
{
    reveal_with_fuel(Seq::<(u64, BlockInfo)>::filter, 2);
    assert(s.take(i + 1).drop_last() =~= s.take(i));
    assert(s.take(i + 1).last() == s[i]);
}

proof fn lemma_full_step(
    s: Seq<(u64, BlockInfo)>,
    session: u64,
    req: Seq<u64>,
    now: u64,
    thr: u64,
    i: int,
)
    requires
        0 <= i < s.len(),
    ensures
        cleanup_full_spec(s.take(i + 1), session, req, now, thr) == if keep_full(
            s[i],
            session,
            req,
            now,
            thr,
        ) {
            cleanup_full_spec(s.take(i), session, req, now, thr).push(s[i])
        } else {
            cleanup_full_spec(s.take(i), session, req, now, thr)
        },
{
    reveal_with_fuel(Seq::<(u64, BlockInfo)>::filter, 2);
    assert(s.take(i + 1).drop_last() =~= s.take(i));
    assert(s.take(i + 1).last() == s[i]);
}

proof fn lemma_filter_keeps_unique_rule1(s: Seq<(u64, BlockInfo)>, session: u64)
    requires
        blocks_unique(s),
    ensures
        blocks_unique(cleanup_rule1_spec(s, session)),
{
    let pred = |e: (u64, BlockInfo)| keep_rule1(e, session);
    lemma_filter_unique(s, pred);
}

proof fn lemma_filter_keeps_unique_full(
    s: Seq<(u64, BlockInfo)>,
    session: u64,
    req: Seq<u64>,
    now: u64,
    thr: u64,
)
    requires
        blocks_unique(s),
    ensures
        blocks_unique(cleanup_full_spec(s, session, req, now, thr)),
{
    let pred = |e: (u64, BlockInfo)| keep_full(e, session, req, now, thr);
    lemma_filter_unique(s, pred);
}

/// A filtered block list keeps pairwise-distinct fingerprints.
proof fn lemma_filter_unique(s: Seq<(u64, BlockInfo)>, pred: spec_fn((u64, BlockInfo)) -> bool)
    requires
        blocks_unique(s),
    ensures
        blocks_unique(s.filter(pred)),
    decreases s.len(),
{
    reveal_with_fuel(Seq::<(u64, BlockInfo)>::filter, 2);
    if s.len() > 0 {
        assert(blocks_unique(s.drop_last())) by {
            assert(forall|k: int|
                0 <= k < s.drop_last().len() ==> s.drop_last()[k] == s[k]);
        }
        lemma_filter_unique(s.drop_last(), pred);
        if pred(s.last()) {
            let f = s.drop_last().filter(pred);
            assert forall|i: int, k: int|
                0 <= i < k < f.push(s.last()).len() implies (#[trigger] f.push(s.last())[i]).0 != (
            #[trigger] f.push(s.last())[k]).0 by {
                s.drop_last().filter_lemma(pred);
                if k < f.len() {
                } else {
                    assert(f.push(s.last())[k] == s.last());
                    assert(f.push(s.last())[i] == f[i]);
                    assert(f.contains(f[i]));
                    lemma_filter_in_orig(s.drop_last(), pred, f[i]);
                    let w = choose|w: int|
                        0 <= w < s.drop_last().len() && s.drop_last()[w] == f[i];
                    assert(s.drop_last()[w] == s[w]);
                    assert(s[s.len() - 1] == s.last());
                    assert(s[w].0 != s.last().0);
                }
            }
        }
    }
}

/// Every element a filter keeps occurs in the original list.
proof fn lemma_filter_in_orig(
    s: Seq<(u64, BlockInfo)>,
    pred: spec_fn((u64, BlockInfo)) -> bool,
    x: (u64, BlockInfo),
)
    requires
        s.filter(pred).contains(x),
    ensures
        s.contains(x),
    decreases s.len(),
{
    reveal_with_fuel(Seq::<(u64, BlockInfo)>::filter, 2);
    if s.len() > 0 {
        if pred(s.last()) && x == s.last() {
            assert(s[s.len() - 1] == x);
        } else {
            assert(s.drop_last().filter(pred).contains(x)) by {
                if pred(s.last()) {
                    let f = s.drop_last().filter(pred);
                    let k = choose|k: int|
                        0 <= k < f.push(s.last()).len() && f.push(s.last())[k] == x;
                    assert(k < f.len());
                    assert(f[k] == x);
                }
            }
            lemma_filter_in_orig(s.drop_last(), pred, x);
            let w = choose|w: int| 0 <= w < s.drop_last().len() && s.drop_last()[w] == x;
            assert(s[w] == x);
        }
    }
}

/// The block list after registering a list of texts, in order.
pub open spec fn register_texts(s: Seq<(u64, BlockInfo)>, texts: Seq<Seq<char>>, sid: u64, now: u64) -> Seq<(u64, BlockInfo)>
    decreases texts.len(),
{
    if texts.len() == 0 {
        s
    } else {
        register_one(register_texts(s, texts.drop_last(), sid, now), text_fp(texts.last()), sid, now)
    }
}

/// The thinking texts of a list of content items, in order.
pub open spec fn items_texts(items: Seq<Json>) -> Seq<Seq<char>>
    decreases items.len(),
{
    if items.len() == 0 {
        Seq::empty()
    } else {
        items_texts(items.drop_last()) + match item_thinking_text(items.last()) {
            Some(t) => seq![t],
            None => Seq::<Seq<char>>::empty(),
        }
    }
}

/// The thinking texts a response body carries: the texts of its `content`
/// array, or nothing when the body is not such a document.
pub open spec fn response_texts(bytes: Seq<u8>) -> Seq<Seq<char>> {
    match json_parse_spec(bytes) {
        Some(j) => match json_get(j, "content"@) {
            Some(Json::Arr(items)) => items_texts(items@),
            _ => Seq::empty(),
        },
        None => Seq::empty(),
    }
}

/// Whether a new registry state is the old one with the given texts
/// registered under `sid` at some instant `now`, everything else unchanged.
pub open spec fn texts_registered(
    m0: RegistryModel,
    m1: RegistryModel,
    texts: Seq<Seq<char>>,
    sid: u64,
    now: u64,
) -> bool {
    &&& m1.blocks == register_texts(m0.blocks, texts, sid, now)
    &&& m1.session == m0.session
    &&& m1.backend == m0.backend
    &&& m1.orphan_threshold_ns == m0.orphan_threshold_ns
}

impl ThinkingRegistry {
    /// Register the thinking blocks of a complete response body at time
    /// `now_ns`, under the session captured at request time.
    pub fn register_from_response_at(&mut self, response_body: &[u8], session_id: u64, now_ns: u64)
        requires
            old(self).wf(),
        ensures
            final(self).wf(),
            texts_registered(
                old(self).model(),
                final(self).model(),
                response_texts(response_body@),
                session_id,
                now_ns,
            ),
    {
        let json = match parse_json(response_body) {
            Some(j) => j,
            None => {
                proof {
                    assert(response_texts(response_body@) =~= Seq::<Seq<char>>::empty());
                }
                return ;
            },
        };
        let items: &Vec<Json> = match json.get("content") {
            Some(x) => match x.as_array() {
                Some(a) => a,
                None => {
                    proof {
                        assert(response_texts(response_body@) =~= Seq::<Seq<char>>::empty());
                    }
                    return ;
                },
            },
            None => {
                proof {
                    assert(response_texts(response_body@) =~= Seq::<Seq<char>>::empty());
                }
                return ;
            },
        };
        let ghost m0 = self.model();
        let mut i: usize = 0;
        while i < items.len()
            invariant
                i <= items@.len(),
                self.wf(),
                texts_registered(m0, self.model(), items_texts(items@.take(i as int)), session_id, now_ns),
            decreases items@.len() - i,
        {
            proof {
                assert(items@.take(i + 1).drop_last() =~= items@.take(i as int));
                assert(items@.take(i + 1).last() == items@[i as int]);
            }
            match extract_thinking_content(&items[i]) {
                Some(text) => {
                    self.register_block(text, session_id, now_ns);
                    proof {
                        assert(items_texts(items@.take(i + 1)) =~= items_texts(
                            items@.take(i as int),
                        ).push(text@));
                        lemma_register_texts_push(
                            m0.blocks,
                            items_texts(items@.take(i as int)),
                            text@,
                            session_id,
                            now_ns,
                        );
                    }
                },
                None => {
                    proof {
                        assert(items_texts(items@.take(i + 1)) =~= items_texts(
                            items@.take(i as int),
                        ));
                    }
                },
            }
            i = i + 1;
        }
        proof {
            assert(items@.take(items@.len() as int) =~= items@);
            assert(response_texts(response_body@) == items_texts(items@));
        }
    }

    /// Register the thinking blocks of a complete response body under the
    /// session captured at request time, timestamped with the clock now.
    pub fn register_from_response(&mut self, response_body: &[u8], session_id: u64)
        requires
            old(self).wf(),
        ensures
            final(self).wf(),
            exists|now: u64|
                texts_registered(
                    old(self).model(),
                    final(self).model(),
                    response_texts(response_body@),
                    session_id,
                    now,
                ),
    {
        let now = crate::clock::now_nanos();
        self.register_from_response_at(response_body, session_id, now);
    }
}

proof fn lemma_register_texts_push(
    s: Seq<(u64, BlockInfo)>,
    texts: Seq<Seq<char>>,
    t: Seq<char>,
    sid: u64,
    now: u64,
)
    ensures
        register_texts(s, texts.push(t), sid, now) == register_one(
            register_texts(s, texts, sid, now),
            text_fp(t),
            sid,
            now,
        ),
{
    assert(texts.push(t).drop_last() =~= texts);
    assert(texts.push(t).last() == t);
}

/// The models of accumulator entries: block index and collected text.
pub open spec fn accs_model(s: Seq<(u64, String)>) -> Seq<(u64, Seq<char>)> {
    Seq::new(s.len(), |i: int| (s[i].0, s[i].1@))
}

/// The models of collected texts.
pub open spec fn str_models(s: Seq<String>) -> Seq<Seq<char>> {
    Seq::new(s.len(), |i: int| s[i]@)
}

/// The accumulators without entries for one index.
pub open spec fn acc_drop(a: Seq<(u64, Seq<char>)>, idx: u64) -> Seq<(u64, Seq<char>)> {
    a.filter(|e: (u64, Seq<char>)| e.0 != idx)
}

/// Start (or restart) the accumulator of an index with an initial text:
/// any previous entry is dropped and the fresh one appended.
pub open spec fn acc_set(a: Seq<(u64, Seq<char>)>, idx: u64, t: Seq<char>) -> Seq<
    (u64, Seq<char>),
> {
    acc_drop(a, idx).push((idx, t))
}

/// Append a delta to the accumulator of an index, where present.
pub open spec fn acc_append(a: Seq<(u64, Seq<char>)>, idx: u64, t: Seq<char>) -> Seq<
    (u64, Seq<char>),
> {
    Seq::new(
        a.len(),
        |i: int|
            if a[i].0 == idx {
                (a[i].0, a[i].1 + t)
            } else {
                a[i]
            },
    )
}

/// The text of the first accumulator entry of an index, if any.
pub open spec fn acc_first(a: Seq<(u64, Seq<char>)>, idx: u64) -> Option<Seq<char>>
    decreases a.len(),
{
    if a.len() == 0 {
        None
    } else if a[0].0 == idx {
        Some(a[0].1)
    } else {
        acc_first(a.drop_first(), idx)
    }
}

/// The state of the stream collector: completed texts so far, and the
/// accumulators of the thinking blocks still open.
pub struct CollectState {
    pub out: Seq<Seq<char>>,
    pub accs: Seq<(u64, Seq<char>)>,
}

/// One step of the stream collector, mirroring the SSE protocol: a
/// `content_block_start` of a thinking block opens an accumulator (with
/// any preloaded text), a redacted block completes immediately, a
/// `thinking_delta` extends its block's accumulator, and a
/// `content_block_stop` completes a non-empty accumulator.
pub open spec fn collect_step(st: CollectState, e: EventModel) -> CollectState {
    if e.event_type == "content_block_start"@ {
        match json_get(e.data, "content_block"@) {
            Some(b) => {
                let bt = match json_get(b, "type"@) {
                    Some(x) => json_as_str(x),
                    None => None,
                };
                if bt == Some("thinking"@) {
                    match json_get(e.data, "index"@) {
                        Some(x) => match crate::json::json_as_u64(x) {
                            Some(idx) => {
                                let initial = match json_get(b, "thinking"@) {
                                    Some(t) => match json_as_str(t) {
                                        Some(tv) => tv,
                                        None => Seq::empty(),
                                    },
                                    None => Seq::empty(),
                                };
                                CollectState { accs: acc_set(st.accs, idx, initial), ..st }
                            },
                            None => st,
                        },
                        None => st,
                    }
                } else if bt == Some("redacted_thinking"@) {
                    match json_get(b, "data"@) {
                        Some(d) => match json_as_str(d) {
                            Some(dv) => CollectState { out: st.out.push(dv), ..st },
                            None => st,
                        },
                        None => st,
                    }
                } else {
                    st
                }
            },
            None => st,
        }
    } else if e.event_type == "content_block_delta"@ {
        match json_get(e.data, "delta"@) {
            Some(d) => {
                if (match json_get(d, "type"@) {
                    Some(x) => json_as_str(x),
                    None => None,
                }) == Some("thinking_delta"@) {
                    match json_get(e.data, "index"@) {
                        Some(x) => match crate::json::json_as_u64(x) {
                            Some(idx) => match json_get(d, "thinking"@) {
                                Some(t) => match json_as_str(t) {
                                    Some(tv) => CollectState {
                                        accs: acc_append(st.accs, idx, tv),
                                        ..st
                                    },
                                    None => st,
                                },
                                None => st,
                            },
                            None => st,
                        },
                        None => st,
                    }
                } else {
                    st
                }
            },
            None => st,
        }
    } else if e.event_type == "content_block_stop"@ {
        match json_get(e.data, "index"@) {
            Some(x) => match crate::json::json_as_u64(x) {
                Some(idx) => match acc_first(st.accs, idx) {
                    Some(t) => CollectState {
                        out: if t.len() > 0 {
                            st.out.push(t)
                        } else {
                            st.out
                        },
                        accs: acc_drop(st.accs, idx),
                    },
                    None => st,
                },
                None => st,
            },
            None => st,
        }
    } else {
        st
    }
}

/// The collector state after a whole stream.
pub open spec fn collect_run(evs: Seq<EventModel>) -> CollectState
    decreases evs.len(),
{
    if evs.len() == 0 {
        CollectState { out: Seq::empty(), accs: Seq::empty() }
    } else {
        collect_step(collect_run(evs.drop_last()), evs.last())
    }
}

/// The non-empty texts of the accumulators left open when the stream ends
/// (a truncated stream), in the order their blocks started.
pub open spec fn leftover_texts(a: Seq<(u64, Seq<char>)>) -> Seq<Seq<char>>
    decreases a.len(),
{
    if a.len() == 0 {
        Seq::empty()
    } else {
        leftover_texts(a.drop_last()) + if a.last().1.len() > 0 {
            seq![a.last().1]
        } else {
            Seq::<Seq<char>>::empty()
        }
    }
}

/// Every complete thinking text of an SSE stream, in registration order.
pub open spec fn sse_texts(evs: Seq<EventModel>) -> Seq<Seq<char>> {
    collect_run(evs).out + leftover_texts(collect_run(evs).accs)
}

/// Drop every accumulator entry of one index, keeping the rest in order.
fn acc_drop_exec(a: &Vec<(u64, String)>, idx: u64) -> (r: Vec<(u64, String)>)
    ensures
        accs_model(r@) == acc_drop(accs_model(a@), idx),
{
    let ghost orig = accs_model(a@);
    let mut out: Vec<(u64, String)> = Vec::new();
    let mut i: usize = 0;
    while i < a.len()
        invariant
            i <= a@.len(),
            orig == accs_model(a@),
            orig.len() == a@.len(),
            accs_model(out@) =~= acc_drop(orig.take(i as int), idx),
        decreases a@.len() - i,
    {
        proof {
            lemma_acc_drop_step(orig, idx, i as int);
            assert(orig[i as int] == (a@[i as int].0, a@[i as int].1@));
        }
        if a[i].0 != idx {
            let ghost prev = out@;
            let dup = (a[i].0, a[i].1.clone());
            out.push(dup);
            proof {
                assert(accs_model(prev).len() == prev.len());
                assert(out@ == prev.push(dup));
                assert forall|j: int| 0 <= j < out@.len() implies accs_model(out@)[j]
                    == acc_drop(orig.take(i + 1), idx)[j] by {
                    if j < prev.len() {
                        assert(out@[j] == prev[j]);
                        assert(accs_model(prev)[j] == (prev[j].0, prev[j].1@));
                    } else {
                        assert(out@[j] == dup);
                    }
                }
                assert(accs_model(out@).len() == acc_drop(orig.take(i + 1), idx).len());
                assert(accs_model(out@) =~= acc_drop(orig.take(i + 1), idx));
            }
        }
        i = i + 1;
    }
    proof {
        assert(orig.take(orig.len() as int) =~= orig);
    }
    out
}

proof fn lemma_acc_drop_step(a: Seq<(u64, Seq<char>)>, idx: u64, i: int)
    requires
        0 <= i < a.len(),
    ensures
        acc_drop(a.take(i + 1), idx) == if a[i].0 != idx {
            acc_drop(a.take(i), idx).push(a[i])
        } else {
            acc_drop(a.take(i), idx)
        },
{
    reveal_with_fuel(Seq::<(u64, Seq<char>)>::filter, 2);
    assert(a.take(i + 1).drop_last() =~= a.take(i));
    assert(a.take(i + 1).last() == a[i]);
}

/// Append a delta to every accumulator entry of one index.
fn acc_append_exec(a: &mut Vec<(u64, String)>, idx: u64, t: &str)
    ensures
        accs_model(final(a)@) == acc_append(accs_model(old(a)@), idx, t@),
{
    let ghost orig = accs_model(old(a)@);
    let mut i: usize = 0;
    while i < a.len()
        invariant
            i <= a@.len(),
            a@.len() == old(a)@.len(),
            orig == accs_model(old(a)@),
            orig.len() == old(a)@.len(),
            forall|j: int|
                0 <= j < a@.len() ==> (#[trigger] accs_model(a@)[j]) == (if j < i {
                    acc_append(orig, idx, t@)[j]
                } else {
                    orig[j]
                }),
        decreases a@.len() - i,
    {
        let ghost pre = a@;
        proof {
            assert(accs_model(pre)[i as int] == (pre[i as int].0, pre[i as int].1@));
        }
        if a[i].0 == idx {
            let k = a[i].0;
            let s0 = a[i].1.clone();
            let ghost s0v = s0@;
            let joined = s0.concat(t);
            a[i] = (k, joined);
            proof {
                assert(a@ == pre.update(i as int, (k, joined)));
                assert(joined@ == pre[i as int].1@ + t@);
                assert(accs_model(a@)[i as int] == (a@[i as int].0, a@[i as int].1@));
                assert(accs_model(a@)[i as int] == acc_append(orig, idx, t@)[i as int]);
                assert(forall|j: int|
                    0 <= j < a@.len() && j != i ==> (#[trigger] accs_model(a@)[j]) == accs_model(
                        pre,
                    )[j]);
            }
        } else {
            proof {
                assert(accs_model(a@)[i as int] == acc_append(orig, idx, t@)[i as int]);
            }
        }
        i = i + 1;
    }
    proof {
        assert(accs_model(a@) =~= acc_append(orig, idx, t@));
    }
}

/// The text of the first accumulator entry of one index, if any.
fn acc_first_exec(a: &Vec<(u64, String)>, idx: u64) -> (r: Option<String>)
    ensures
        match r {
            Some(t) => acc_first(accs_model(a@), idx) == Some(t@),
            None => acc_first(accs_model(a@), idx) is None,
        },
{
    let ghost m = accs_model(a@);
    let mut i: usize = 0;
    while i < a.len()
        invariant
            i <= a@.len(),
            m == accs_model(a@),
            m.len() == a@.len(),
            forall|k: int| 0 <= k < i ==> (#[trigger] m[k]).0 != idx,
        decreases a@.len() - i,
    {
        proof {
            assert(m[i as int] == (a@[i as int].0, a@[i as int].1@));
        }
        if a[i].0 == idx {
            proof {
                lemma_acc_first_at(m, idx, i as int);
            }
            return Some(a[i].1.clone());
        }
        i = i + 1;
    }
    proof {
        lemma_acc_first_skip(m, idx, m.len() as int);
        assert(m.skip(m.len() as int).len() == 0);
    }
    None
}

proof fn lemma_acc_first_skip(a: Seq<(u64, Seq<char>)>, idx: u64, i: int)
    requires
        0 <= i <= a.len(),
        forall|k: int| 0 <= k < i ==> (#[trigger] a[k]).0 != idx,
    ensures
        acc_first(a, idx) == acc_first(a.skip(i), idx),
    decreases i,
{
    if i > 0 {
        assert(a[0].0 != idx);
        assert(a.drop_first() =~= a.skip(1));
        assert forall|k: int| 0 <= k < i - 1 implies (#[trigger] a.skip(1)[k]).0 != idx by {
            assert(a.skip(1)[k] == a[k + 1]);
        }
        lemma_acc_first_skip(a.skip(1), idx, i - 1);
        assert(a.skip(1).skip(i - 1) =~= a.skip(i));
    } else {
        assert(a.skip(0) =~= a);
    }
}

proof fn lemma_acc_first_at(a: Seq<(u64, Seq<char>)>, idx: u64, i: int)
    requires
        0 <= i < a.len(),
        a[i].0 == idx,
        forall|k: int| 0 <= k < i ==> (#[trigger] a[k]).0 != idx,
    ensures
        acc_first(a, idx) == Some(a[i].1),
{
    lemma_acc_first_skip(a, idx, i);
    assert(a.skip(i).len() > 0);
    assert(a.skip(i)[0] == a[i]);
}

/// Collect every complete thinking text of an SSE stream, in order:
/// the accumulator protocol of `collect_step`, with still-open non-empty
/// accumulators flushed at the end of a truncated stream.
pub fn collect_sse_thinking_texts(events: &Vec<SseEvent>) -> (r: Vec<String>)
    ensures
        str_models(r@) == sse_texts(event_models(events@)),
{
    let ghost models = event_models(events@);
    let mut out: Vec<String> = Vec::new();
    let mut accs: Vec<(u64, String)> = Vec::new();
    let mut i: usize = 0;
    proof {
        assert(str_models(out@) =~= collect_run(models.take(0)).out);
        assert(accs_model(accs@) =~= collect_run(models.take(0)).accs);
    }
    while i < events.len()
        invariant
            i <= events@.len(),
            models == event_models(events@),
            models.len() == events@.len(),
            str_models(out@) == collect_run(models.take(i as int)).out,
            accs_model(accs@) == collect_run(models.take(i as int)).accs,
        decreases events@.len() - i,
    {
        let ghost st0 = collect_run(models.take(i as int));
        proof {
            assert(models.take(i + 1).drop_last() =~= models.take(i as int));
            assert(models.take(i + 1).last() == models[i as int]);
            assert(models[i as int] == events@[i as int].model());
        }
        let e = &events[i];
        if crate::strutil::str_eq(e.event_type.as_str(), "content_block_start") {
            match e.data.get("content_block") {
                Some(b) => {
                    if match b.get("type") {
                        Some(x) => x.is_str("thinking"),
                        None => false,
                    } {
                        match e.data.get("index") {
                            Some(x) => match x.as_u64() {
                                Some(idx) => {
                                    let initial: String = match b.get("thinking") {
                                        Some(t) => match t.as_str() {
                                            Some(tv) => tv.to_owned(),
                                            None => String::new(),
                                        },
                                        None => String::new(),
                                    };
                                    let ghost iv = initial@;
                                    let mut kept = acc_drop_exec(&accs, idx);
                                    let ghost keptg = accs_model(kept@);
                                    kept.push((idx, initial));
                                    accs = kept;
                                    proof {
                                        assert(accs_model(accs@) =~= keptg.push((idx, iv)));
                                    }
                                },
                                None => (),
                            },
                            None => (),
                        }
                    } else if match b.get("type") {
                        Some(x) => x.is_str("redacted_thinking"),
                        None => false,
                    } {
                        match b.get("data") {
                            Some(d) => match d.as_str() {
                                Some(dv) => {
                                    let ghost prevout = out@;
                                    let dvo = dv.to_owned();
                                    let ghost dvg = dvo@;
                                    out.push(dvo);
                                    proof {
                                        assert(str_models(out@) =~= str_models(prevout).push(
                                            dvg,
                                        ));
                                    }
                                },
                                None => (),
                            },
                            None => (),
                        }
                    }
                },
                None => (),
            }
        } else if crate::strutil::str_eq(e.event_type.as_str(), "content_block_delta") {
            match e.data.get("delta") {
                Some(d) => {
                    if match d.get("type") {
                        Some(x) => x.is_str("thinking_delta"),
                        None => false,
                    } {
                        match e.data.get("index") {
                            Some(x) => match x.as_u64() {
                                Some(idx) => match d.get("thinking") {
                                    Some(t) => match t.as_str() {
                                        Some(tv) => {
                                            acc_append_exec(&mut accs, idx, tv);
                                        },
                                        None => (),
                                    },
                                    None => (),
                                },
                                None => (),
                            },
                            None => (),
                        }
                    }
                },
                None => (),
            }
        } else if crate::strutil::str_eq(e.event_type.as_str(), "content_block_stop") {
            match e.data.get("index") {
                Some(x) => match x.as_u64() {
                    Some(idx) => {
                        match acc_first_exec(&accs, idx) {
                            Some(t) => {
                                let dropped = acc_drop_exec(&accs, idx);
                                accs = dropped;
                                if !t.as_str().is_empty() {
                                    let ghost prevout = out@;
                                    let ghost tg = t@;
                                    out.push(t);
                                    proof {
                                        assert(str_models(out@) =~= str_models(prevout).push(
                                            tg,
                                        ));
                                    }
                                }
                            },
                            None => (),
                        }
                    },
                    None => (),
                },
                None => (),
            }
        }
        proof {
            let st1 = collect_step(st0, models[i as int]);
            assert(str_models(out@) == st1.out && accs_model(accs@) == st1.accs);
        }
        i = i + 1;
    }
    proof {
        assert(models.take(models.len() as int) =~= models);
    }
    let ghost endstate = collect_run(models);
    let mut k: usize = 0;
    while k < accs.len()
        invariant
            k <= accs@.len(),
            accs_model(accs@) == endstate.accs,
            accs_model(accs@).len() == accs@.len(),
            str_models(out@) == endstate.out + leftover_texts(endstate.accs.take(k as int)),
        decreases accs@.len() - k,
    {
        proof {
            assert(endstate.accs.take(k + 1).drop_last() =~= endstate.accs.take(k as int));
            assert(endstate.accs.take(k + 1).last() == endstate.accs[k as int]);
            assert(endstate.accs[k as int] == (accs@[k as int].0, accs@[k as int].1@));
        }
        if !accs[k].1.as_str().is_empty() {
            let ghost prevout = out@;
            let dup = accs[k].1.clone();
            let ghost dg = dup@;
            out.push(dup);
            proof {
                assert(str_models(out@) =~= str_models(prevout).push(dg));
                assert(endstate.out + leftover_texts(endstate.accs.take(k + 1)) =~= (endstate.out
                    + leftover_texts(endstate.accs.take(k as int))).push(dg));
            }
        } else {
            proof {
                assert(leftover_texts(endstate.accs.take(k + 1)) =~= leftover_texts(
                    endstate.accs.take(k as int),
                ));
            }
        }
        k = k + 1;
    }
    proof {
        assert(endstate.accs.take(endstate.accs.len() as int) =~= endstate.accs);
    }
    out
}

impl ThinkingRegistry {
    /// Register the complete thinking blocks of an SSE stream at time
    /// `now_ns`, under the session captured at request time.
    pub fn register_from_sse_stream_at(
        &mut self,
        events: &Vec<SseEvent>,
        session_id: u64,
        now_ns: u64,
    )
        requires
            old(self).wf(),
        ensures
            final(self).wf(),
            texts_registered(
                old(self).model(),
                final(self).model(),
                sse_texts(event_models(events@)),
                session_id,
                now_ns,
            ),
    {
        let texts = collect_sse_thinking_texts(events);
        let ghost all = sse_texts(event_models(events@));
        let ghost m0 = self.model();
        let mut i: usize = 0;
        proof {
            assert(str_models(texts@).take(0) =~= Seq::<Seq<char>>::empty());
        }
        while i < texts.len()
            invariant
                i <= texts@.len(),
                all == str_models(texts@),
                all.len() == texts@.len(),
                self.wf(),
                texts_registered(m0, self.model(), all.take(i as int), session_id, now_ns),
            decreases texts@.len() - i,
        {
            proof {
                assert(all.take(i + 1).drop_last() =~= all.take(i as int));
                assert(all.take(i + 1).last() == all[i as int]);
                assert(all[i as int] == texts@[i as int]@);
            }
            self.register_block(texts[i].as_str(), session_id, now_ns);
            i = i + 1;
        }
        proof {
            assert(all.take(all.len() as int) =~= all);
        }
    }

    /// Register the complete thinking blocks of an SSE stream under the
    /// session captured at request time, timestamped with the clock now.
    pub fn register_from_sse_stream(&mut self, events: &Vec<SseEvent>, session_id: u64)
        requires
            old(self).wf(),
        ensures
            final(self).wf(),
            exists|now: u64|
                texts_registered(
                    old(self).model(),
                    final(self).model(),
                    sse_texts(event_models(events@)),
                    session_id,
                    now,
                ),
    {
        let now = crate::clock::now_nanos();
        self.register_from_sse_stream_at(events, session_id, now);
    }
}

/// Whether a content item survives the filter: thinking items survive
/// exactly when their text is present and its fingerprint is cached;
/// everything else survives.
pub open spec fn keep_item(item: Json, blocks: Seq<(u64, BlockInfo)>) -> bool {
    if is_thinking_item(item) {
        match item_thinking_text(item) {
            Some(t) => find_block(blocks, text_fp(t)) is Some,
            None => false,
        }
    } else {
        true
    }
}

/// The content items that survive the filter, in order.
pub open spec fn filter_content(items: Seq<Json>, blocks: Seq<(u64, BlockInfo)>) -> Seq<Json> {
    items.filter(|it: Json| keep_item(it, blocks))
}

/// Object entries `e1` are `e0` with the value under `key` replaced, at its
/// first occurrence, by a value satisfying `good`.
pub open spec fn entries_set_rel(
    e0: Seq<(String, Json)>,
    e1: Seq<(String, Json)>,
    key: Seq<char>,
    good: spec_fn(Json) -> bool,
) -> bool {
    &&& e1.len() == e0.len()
    &&& exists|j: int|
        {
            &&& 0 <= j < e0.len()
            &&& (#[trigger] e0[j]).0@ == key
            &&& (forall|k: int| 0 <= k < j ==> (#[trigger] e0[k]).0@ != key)
            &&& e1[j].0 == e0[j].0
            &&& good(e1[j].1)
            &&& (forall|k: int| 0 <= k < e0.len() && k != j ==> #[trigger] e1[k] == e0[k])
        }
}

/// One message after the filter: its content array filtered when it has
/// one, anything else unchanged.
pub open spec fn msg_filtered(m0: Json, m1: Json, blocks: Seq<(u64, BlockInfo)>) -> bool {
    match m0 {
        Json::Obj(e0) => match json_get(m0, "content"@) {
            Some(Json::Arr(items0)) => m1 matches Json::Obj(e1) && entries_set_rel(
                e0@,
                e1@,
                "content"@,
                |v: Json| v matches Json::Arr(items1) && items1@ == filter_content(
                    items0@,
                    blocks,
                ),
            ),
            _ => m1 == m0,
        },
        _ => m1 == m0,
    }
}

/// A message list after the filter, message by message.
pub open spec fn msgs_filtered(m0: Seq<Json>, m1: Seq<Json>, blocks: Seq<(u64, BlockInfo)>) -> bool {
    m1.len() == m0.len() && forall|i: int|
        0 <= i < m0.len() ==> msg_filtered(#[trigger] m0[i], #[trigger] m1[i], blocks)
}

/// A whole body after the filter: its message list filtered when it has
/// one, anything else unchanged.
pub open spec fn body_filtered(b0: Json, b1: Json, blocks: Seq<(u64, BlockInfo)>) -> bool {
    match b0 {
        Json::Obj(e0) => match json_get(b0, "messages"@) {
            Some(Json::Arr(msgs0)) => b1 matches Json::Obj(e1) && entries_set_rel(
                e0@,
                e1@,
                "messages"@,
                |v: Json| v matches Json::Arr(msgs1) && msgs_filtered(msgs0@, msgs1@, blocks),
            ),
            _ => b1 == b0,
        },
        _ => b1 == b0,
    }
}

/// How many content items one message loses to the filter.
pub open spec fn removed_in_msg(m: Json, blocks: Seq<(u64, BlockInfo)>) -> int {
    match m {
        Json::Obj(_) => match json_get(m, "content"@) {
            Some(Json::Arr(items)) => items@.len() - filter_content(items@, blocks).len(),
            _ => 0,
        },
        _ => 0,
    }
}

/// How many content items a message list loses to the filter.
pub open spec fn removed_in_msgs(msgs: Seq<Json>, blocks: Seq<(u64, BlockInfo)>) -> int
    decreases msgs.len(),
{
    if msgs.len() == 0 {
        0
    } else {
        removed_in_msgs(msgs.drop_last(), blocks) + removed_in_msg(msgs.last(), blocks)
    }
}

/// How many content items the whole body loses to the filter.
pub open spec fn removed_in_body(body: Json, blocks: Seq<(u64, BlockInfo)>) -> int {
    match body {
        Json::Obj(_) => match json_get(body, "messages"@) {
            Some(Json::Arr(msgs)) => removed_in_msgs(msgs@, blocks),
            _ => 0,
        },
        _ => 0,
    }
}

/// A saturating view of a count.
pub open spec fn sat32(n: int) -> int {
    if n <= u32::MAX {
        n
    } else {
        u32::MAX as int
    }
}

proof fn lemma_keep_step(items: Seq<Json>, blocks: Seq<(u64, BlockInfo)>, i: int)
    requires
        0 <= i < items.len(),
    ensures
        filter_content(items.take(i + 1), blocks) == if keep_item(items[i], blocks) {
            filter_content(items.take(i), blocks).push(items[i])
        } else {
            filter_content(items.take(i), blocks)
        },
{
    reveal_with_fuel(Seq::<Json>::filter, 2);
    assert(items.take(i + 1).drop_last() =~= items.take(i));
    assert(items.take(i + 1).last() == items[i]);
}

proof fn lemma_filter_content_len(items: Seq<Json>, blocks: Seq<(u64, BlockInfo)>)
    ensures
        0 <= filter_content(items, blocks).len() <= items.len(),
{
    let pred = |it: Json| keep_item(it, blocks);
    items.lemma_filter_len(pred);
}

proof fn lemma_removed_in_msg_bounds(m: Json, blocks: Seq<(u64, BlockInfo)>)
    ensures
        removed_in_msg(m, blocks) >= 0,
{
    match m {
        Json::Obj(_) => match json_get(m, "content"@) {
            Some(Json::Arr(items)) => {
                lemma_filter_content_len(items@, blocks);
            },
            _ => {},
        },
        _ => {},
    }
}

impl ThinkingRegistry {
    /// The fingerprints of every thinking item the request body carries.
    pub fn extract_request_hashes(&self, body: &Json) -> (r: Vec<u64>)
        ensures
            r@ == request_fps(*body),
    {
        let mut out: Vec<u64> = Vec::new();
        let msgs: &Vec<Json> = match body.get("messages") {
            Some(x) => match x.as_array() {
                Some(a) => a,
                None => {
                    proof {
                        assert(request_fps(*body) =~= Seq::<u64>::empty());
                    }
                    return out;
                },
            },
            None => {
                proof {
                    assert(request_fps(*body) =~= Seq::<u64>::empty());
                }
                return out;
            },
        };
        let mut i: usize = 0;
        while i < msgs.len()
            invariant
                i <= msgs@.len(),
                out@ =~= msgs_fps(msgs@.take(i as int)),
            decreases msgs@.len() - i,
        {
            proof {
                assert(msgs@.take(i + 1).drop_last() =~= msgs@.take(i as int));
                assert(msgs@.take(i + 1).last() == msgs@[i as int]);
            }
            let m = &msgs[i];
            match m.get("content") {
                Some(c) => match c.as_array() {
                    Some(items) => {
                        let mut k: usize = 0;
                        let ghost base = out@;
                        while k < items.len()
                            invariant
                                k <= items@.len(),
                                out@ =~= base + content_fps(items@.take(k as int)),
                            decreases items@.len() - k,
                        {
                            proof {
                                assert(items@.take(k + 1).drop_last() =~= items@.take(k as int));
                                assert(items@.take(k + 1).last() == items@[k as int]);
                            }
                            match extract_thinking_content(&items[k]) {
                                Some(text) => {
                                    let h = fast_hash(text);
                                    out.push(h);
                                },
                                None => (),
                            }
                            k = k + 1;
                        }
                        proof {
                            assert(items@.take(items@.len() as int) =~= items@);
                        }
                    },
                    None => (),
                },
                None => (),
            }
            i = i + 1;
        }
        proof {
            assert(msgs@.take(msgs@.len() as int) =~= msgs@);
        }
        out
    }

    /// Whether the request carries conversation history.
    fn request_has_history(&self, body: &Json) -> (r: bool)
        ensures
            r == has_history(*body),
    {
        let msgs: &Vec<Json> = match body.get("messages") {
            Some(x) => match x.as_array() {
                Some(a) => a,
                None => {
                    return false;
                },
            },
            None => {
                return false;
            },
        };
        let mut i: usize = 0;
        while i < msgs.len()
            invariant
                i <= msgs@.len(),
                json_get(*body, "messages"@) == Some(Json::Arr(*msgs)),
                forall|k: int|
                    0 <= k < i ==> crate::json::json_as_str(
                        match json_get(#[trigger] msgs@[k], "role"@) {
                            Some(x) => x,
                            None => Json::Null,
                        },
                    ) != Some("assistant"@),
            decreases msgs@.len() - i,
        {
            let is_assistant = match msgs[i].get("role") {
                Some(x) => x.is_str("assistant"),
                None => false,
            };
            if is_assistant {
                proof {
                    assert(json_as_str(
                        match json_get(msgs@[i as int], "role"@) {
                            Some(x) => x,
                            None => Json::Null,
                        },
                    ) == Some("assistant"@));
                }
                return true;
            }
            i = i + 1;
        }
        false
    }

    /// Remove from the body every thinking item whose fingerprint is not
    /// cached; returns how many items were removed, saturating.
    fn filter_request_body(&self, body: &mut Json) -> (removed: u32)
        ensures
            body_filtered(*old(body), *final(body), self.model().blocks),
            removed == sat32(removed_in_body(*old(body), self.model().blocks)),
    {
        let mut owned = Json::Null;
        core::mem::swap(body, &mut owned);
        let (rebuilt, removed) = self.filter_owned_body(owned);
        let mut back = rebuilt;
        core::mem::swap(body, &mut back);
        removed
    }

    /// Filter an owned body, returning the rebuilt body and the count.
    fn filter_owned_body(&self, body: Json) -> (r: (Json, u32))
        ensures
            body_filtered(body, r.0, self.model().blocks),
            r.1 == sat32(removed_in_body(body, self.model().blocks)),
    {
        let ghost blocks = self.model().blocks;
        let present = match body.get("messages") {
            Some(x) => match x.as_array() {
                Some(_) => true,
                None => false,
            },
            None => false,
        };
        if !present {
            proof {
                assert(body_filtered(body, body, blocks));
                assert(removed_in_body(body, blocks) == 0);
            }
            return (body, 0);
        }
        let entries: Vec<(String, Json)> = match body {
            Json::Obj(e) => e,
            _ => {
                proof {
                    assert(false);
                }
                return (Json::Null, 0);
            },
        };
        let ghost entries0 = entries@;
        let ghost msgs0: Seq<Json> = crate::json::obj_get(entries@, "messages"@)->Some_0->Arr_0@;
        let mut src = entries;
        let mut out: Vec<(String, Json)> = Vec::new();
        let mut removed: u32 = 0;
        let mut done: bool = false;
        let ghost mut jpos: int = 0;
        while src.len() > 0
            invariant
                src@ =~= entries0.skip(entries0.len() - src@.len()),
                entries0.len() >= src@.len(),
                blocks == self.model().blocks,
                out@.len() == entries0.len() - src@.len(),
                ({
                    let consumed = entries0.len() - src@.len();
                    if done {
                        &&& 0 <= jpos < consumed
                        &&& entries0[jpos].0@ == "messages"@
                        &&& (forall|k: int|
                            0 <= k < jpos ==> (#[trigger] entries0[k]).0@ != "messages"@)
                        &&& entries0[jpos].1 is Arr
                        &&& out@[jpos].0 == entries0[jpos].0
                        &&& out@[jpos].1 is Arr
                        &&& msgs_filtered(
                            entries0[jpos].1->Arr_0@,
                            out@[jpos].1->Arr_0@,
                            blocks,
                        )
                        &&& (forall|k: int|
                            0 <= k < consumed && k != jpos ==> #[trigger] out@[k] == entries0[k])
                        &&& removed == sat32(removed_in_msgs(entries0[jpos].1->Arr_0@, blocks))
                    } else {
                        out@ =~= entries0.take(entries0.len() - src@.len()) && removed == 0 && (
                        forall|k: int|
                            0 <= k < entries0.len() - src@.len() ==> (#[trigger] entries0[k]).0@
                                != "messages"@)
                    }
                }),
                crate::json::obj_get(entries0, "messages"@) matches Some(x) && x is Arr,
            decreases src@.len(),
        {
            let ghost consumed0 = entries0.len() - src@.len();
            let (k, v) = src.remove(0);
            proof {
                assert(entries0.skip(consumed0)[0] == entries0[consumed0]);
                assert((k, v) == entries0[consumed0]);
                assert(src@ =~= entries0.skip(consumed0 + 1));
                assert(entries0.take(consumed0 + 1) =~= entries0.take(consumed0).push(
                    entries0[consumed0],
                ));
            }
            let is_msgs_arr = !done && crate::strutil::str_eq(k.as_str(), "messages") && (
            match &v {
                Json::Arr(_) => true,
                _ => false,
            });
            let ghost prevout = out@;
            let ghost was_done = done;
            if is_msgs_arr {
                let msgs: Vec<Json> = match v {
                    Json::Arr(m) => m,
                    _ => {
                        proof {
                            assert(false);
                        }
                        Vec::new()
                    },
                };
                let (filtered, rem) = self.filter_owned_msgs(msgs);
                out.push((k, Json::Arr(filtered)));
                removed = rem;
                done = true;
                proof {
                    jpos = consumed0;
                    assert(out@.len() == consumed0 + 1);
                    assert(forall|t: int| 0 <= t < consumed0 ==> #[trigger] out@[t] == prevout[t]);
                    assert(forall|t: int| 0 <= t < consumed0 ==> #[trigger] prevout[t]
                        == entries0[t]);
                    assert(out@[consumed0].0 == entries0[consumed0].0);
                    assert(out@[consumed0].1 is Arr);
                    assert(msgs_filtered(
                        entries0[consumed0].1->Arr_0@,
                        out@[consumed0].1->Arr_0@,
                        blocks,
                    ));
                }
            } else {
                out.push((k, v));
                proof {
                    assert(out@.len() == consumed0 + 1);
                    assert(out@[consumed0] == entries0[consumed0]);
                    assert(forall|t: int| 0 <= t < consumed0 ==> #[trigger] out@[t] == prevout[t]);
                    if was_done {
                        assert(out@[jpos] == prevout[jpos]);
                    } else {
                        if k@ == "messages"@ {
                            crate::json::lemma_obj_get_at_first(entries0, "messages"@, consumed0);
                            assert(false);
                        }
                        assert(out@ =~= entries0.take(consumed0 + 1));
                    }
                }
            }
        }
        proof {
            assert(entries0.skip(0) =~= entries0);
            assert(entries0.take(entries0.len() as int) =~= entries0);
            if !done {
                assert(crate::json::obj_get(entries0, "messages"@) matches Some(x) && x is Arr);
                lemma_obj_first_key_arr(entries0, "messages"@);
                let j = choose|j: int|
                    {
                        &&& 0 <= j < entries0.len()
                        &&& (#[trigger] entries0[j]).0@ == "messages"@
                        &&& (forall|k: int|
                            0 <= k < j ==> (#[trigger] entries0[k]).0@ != "messages"@)
                        &&& entries0[j].1 is Arr
                    };
                assert(entries0[j].0@ != "messages"@);
                assert(false);
            }
            crate::json::lemma_obj_get_at_first(entries0, "messages"@, jpos);
            assert(msgs0 == entries0[jpos].1->Arr_0@);
        }
        (Json::Obj(out), removed)
    }

    /// Filter an owned message list, returning it rebuilt and the count.
    fn filter_owned_msgs(&self, msgs: Vec<Json>) -> (r: (Vec<Json>, u32))
        ensures
            msgs_filtered(msgs@, r.0@, self.model().blocks),
            r.1 == sat32(removed_in_msgs(msgs@, self.model().blocks)),
    {
        let ghost blocks = self.model().blocks;
        let ghost msgs0 = msgs@;
        let mut src = msgs;
        let mut out: Vec<Json> = Vec::new();
        let mut removed: u32 = 0;
        while src.len() > 0
            invariant
                src@ =~= msgs0.skip(msgs0.len() - src@.len()),
                msgs0.len() >= src@.len(),
                blocks == self.model().blocks,
                out@.len() == msgs0.len() - src@.len(),
                forall|i: int|
                    0 <= i < out@.len() ==> msg_filtered(
                        #[trigger] msgs0[i],
                        #[trigger] out@[i],
                        blocks,
                    ),
                removed == sat32(removed_in_msgs(msgs0.take(msgs0.len() - src@.len()), blocks)),
            decreases src@.len(),
        {
            let ghost consumed0 = msgs0.len() - src@.len();
            let m = src.remove(0);
            proof {
                assert(msgs0.skip(consumed0)[0] == msgs0[consumed0]);
                assert(m == msgs0[consumed0]);
                assert(src@ =~= msgs0.skip(consumed0 + 1));
                assert(msgs0.take(consumed0 + 1).drop_last() =~= msgs0.take(consumed0));
                assert(msgs0.take(consumed0 + 1).last() == msgs0[consumed0]);
                lemma_removed_bounds(msgs0.take(consumed0), blocks);
                lemma_removed_in_msg_bounds(msgs0[consumed0], blocks);
            }
            let (fm, rem) = self.filter_owned_msg(m);
            out.push(fm);
            removed = removed.saturating_add(rem);
        }
        proof {
            assert(msgs0.take(msgs0.len() as int) =~= msgs0);
        }
        (out, removed)
    }

    /// Filter one owned message, returning it rebuilt and the count.
    fn filter_owned_msg(&self, m: Json) -> (r: (Json, u32))
        ensures
            msg_filtered(m, r.0, self.model().blocks),
            r.1 == sat32(removed_in_msg(m, self.model().blocks)),
    {
        let ghost blocks = self.model().blocks;
        let present = match m.get("content") {
            Some(x) => match x.as_array() {
                Some(_) => true,
                None => false,
            },
            None => false,
        };
        if !present {
            proof {
                assert(msg_filtered(m, m, blocks));
            }
            return (m, 0);
        }
        let entries: Vec<(String, Json)> = match m {
            Json::Obj(e) => e,
            _ => {
                proof {
                    assert(false);
                }
                return (Json::Null, 0);
            },
        };
        let ghost entries0 = entries@;
        let ghost items0: Seq<Json> = crate::json::obj_get(entries@, "content"@)->Some_0->Arr_0@;
        let mut src = entries;
        let mut out: Vec<(String, Json)> = Vec::new();
        let mut removed: u32 = 0;
        let mut done: bool = false;
        let ghost mut jpos: int = 0;
        while src.len() > 0
            invariant
                src@ =~= entries0.skip(entries0.len() - src@.len()),
                entries0.len() >= src@.len(),
                blocks == self.model().blocks,
                out@.len() == entries0.len() - src@.len(),
                ({
                    let consumed = entries0.len() - src@.len();
                    if done {
                        &&& 0 <= jpos < consumed
                        &&& entries0[jpos].0@ == "content"@
                        &&& (forall|k: int|
                            0 <= k < jpos ==> (#[trigger] entries0[k]).0@ != "content"@)
                        &&& entries0[jpos].1 is Arr
                        &&& out@[jpos].0 == entries0[jpos].0
                        &&& out@[jpos].1 is Arr
                        &&& out@[jpos].1->Arr_0@ == filter_content(
                            entries0[jpos].1->Arr_0@,
                            blocks,
                        )
                        &&& (forall|k: int|
                            0 <= k < consumed && k != jpos ==> #[trigger] out@[k] == entries0[k])
                        &&& removed == sat32(
                            entries0[jpos].1->Arr_0@.len() - filter_content(
                                entries0[jpos].1->Arr_0@,
                                blocks,
                            ).len(),
                        )
                    } else {
                        out@ =~= entries0.take(entries0.len() - src@.len()) && removed == 0 && (
                        forall|k: int|
                            0 <= k < entries0.len() - src@.len() ==> (#[trigger] entries0[k]).0@
                                != "content"@)
                    }
                }),
                crate::json::obj_get(entries0, "content"@) matches Some(x) && x is Arr,
            decreases src@.len(),
        {
            let ghost consumed0 = entries0.len() - src@.len();
            let (k, v) = src.remove(0);
            proof {
                assert(entries0.skip(consumed0)[0] == entries0[consumed0]);
                assert((k, v) == entries0[consumed0]);
                assert(src@ =~= entries0.skip(consumed0 + 1));
                assert(entries0.take(consumed0 + 1) =~= entries0.take(consumed0).push(
                    entries0[consumed0],
                ));
            }
            let is_content_arr = !done && crate::strutil::str_eq(k.as_str(), "content") && (
            match &v {
                Json::Arr(_) => true,
                _ => false,
            });
            let ghost prevout = out@;
            let ghost was_done = done;
            if is_content_arr {
                let items: Vec<Json> = match v {
                    Json::Arr(a) => a,
                    _ => {
                        proof {
                            assert(false);
                        }
                        Vec::new()
                    },
                };
                let (kept, rem) = self.filter_owned_items(items);
                out.push((k, Json::Arr(kept)));
                removed = rem;
                done = true;
                proof {
                    jpos = consumed0;
                    assert(out@.len() == consumed0 + 1);
                    assert(forall|t: int| 0 <= t < consumed0 ==> #[trigger] out@[t] == prevout[t]);
                    assert(forall|t: int| 0 <= t < consumed0 ==> #[trigger] prevout[t]
                        == entries0[t]);
                    assert(out@[consumed0].0 == entries0[consumed0].0);
                    assert(out@[consumed0].1 is Arr);
                    assert(out@[consumed0].1->Arr_0@ == filter_content(
                        entries0[consumed0].1->Arr_0@,
                        blocks,
                    ));
                }
            } else {
                out.push((k, v));
                proof {
                    assert(out@.len() == consumed0 + 1);
                    assert(out@[consumed0] == entries0[consumed0]);
                    assert(forall|t: int| 0 <= t < consumed0 ==> #[trigger] out@[t] == prevout[t]);
                    if was_done {
                        assert(out@[jpos] == prevout[jpos]);
                    } else {
                        if k@ == "content"@ {
                            crate::json::lemma_obj_get_at_first(entries0, "content"@, consumed0);
                            assert(false);
                        }
                        assert(out@ =~= entries0.take(consumed0 + 1));
                    }
                }
            }
        }
        proof {
            assert(entries0.skip(0) =~= entries0);
            assert(entries0.take(entries0.len() as int) =~= entries0);
            if !done {
                assert(crate::json::obj_get(entries0, "content"@) matches Some(x) && x is Arr);
                lemma_obj_first_key_arr(entries0, "content"@);
                let j = choose|j: int|
                    {
                        &&& 0 <= j < entries0.len()
                        &&& (#[trigger] entries0[j]).0@ == "content"@
                        &&& (forall|k: int|
                            0 <= k < j ==> (#[trigger] entries0[k]).0@ != "content"@)
                        &&& entries0[j].1 is Arr
                    };
                assert(entries0[j].0@ != "content"@);
                assert(false);
            }
            crate::json::lemma_obj_get_at_first(entries0, "content"@, jpos);
            assert(items0 == entries0[jpos].1->Arr_0@);
        }
        (Json::Obj(out), removed)
    }

    /// Filter an owned content list, keeping the items `keep_item` keeps.
    fn filter_owned_items(&self, items: Vec<Json>) -> (r: (Vec<Json>, u32))
        ensures
            r.0@ == filter_content(items@, self.model().blocks),
            r.1 == sat32(items@.len() - filter_content(items@, self.model().blocks).len()),
    {
        let ghost blocks = self.model().blocks;
        let ghost items0 = items@;
        let mut src = items;
        let mut out: Vec<Json> = Vec::new();
        let mut removed: u32 = 0;
        while src.len() > 0
            invariant
                src@ =~= items0.skip(items0.len() - src@.len()),
                items0.len() >= src@.len(),
                blocks == self.model().blocks,
                out@ =~= filter_content(items0.take(items0.len() - src@.len()), blocks),
                removed == sat32(
                    (items0.len() - src@.len()) - filter_content(
                        items0.take(items0.len() - src@.len()),
                        blocks,
                    ).len(),
                ),
            decreases src@.len(),
        {
            let ghost consumed0 = items0.len() - src@.len();
            let item = src.remove(0);
            proof {
                assert(items0.skip(consumed0)[0] == items0[consumed0]);
                assert(item == items0[consumed0]);
                assert(src@ =~= items0.skip(consumed0 + 1));
                lemma_keep_step(items0, blocks, consumed0);
                lemma_filter_content_len(items0.take(consumed0), blocks);
                lemma_filter_content_len(items0.take(consumed0 + 1), blocks);
            }
            let is_thinking = match item.get("type") {
                Some(x) => x.is_str("thinking") || x.is_str("redacted_thinking"),
                None => false,
            };
            if !is_thinking {
                out.push(item);
            } else {
                let keep = match extract_thinking_content(&item) {
                    Some(text) => {
                        let h = fast_hash(text);
                        self.contains_hash(h)
                    },
                    None => false,
                };
                if keep {
                    out.push(item);
                } else {
                    removed = removed.saturating_add(1);
                }
            }
            proof {
                assert(is_thinking == is_thinking_item(items0[consumed0]));
            }
        }
        proof {
            assert(items0.skip(0) =~= items0);
            assert(items0.take(items0.len() as int) =~= items0);
        }
        (out, removed)
    }
}

proof fn lemma_removed_bounds(msgs: Seq<Json>, blocks: Seq<(u64, BlockInfo)>)
    ensures
        removed_in_msgs(msgs, blocks) >= 0,
    decreases msgs.len(),
{
    if msgs.len() > 0 {
        lemma_removed_bounds(msgs.drop_last(), blocks);
        lemma_removed_in_msg_bounds(msgs.last(), blocks);
    }
}

/// When an object lookup finds an array under a key, some first index
/// holds that key with an array value.
pub(crate) proof fn lemma_obj_first_key_arr(entries: Seq<(String, Json)>, key: Seq<char>)
    requires
        crate::json::obj_get(entries, key) matches Some(x) && x is Arr,
    ensures
        exists|j: int|
            {
                &&& 0 <= j < entries.len()
                &&& (#[trigger] entries[j]).0@ == key
                &&& (forall|k: int| 0 <= k < j ==> (#[trigger] entries[k]).0@ != key)
                &&& entries[j].1 is Arr
            },
    decreases entries.len(),
{
    if entries.len() > 0 {
        if entries[0].0@ == key {
            assert(entries[0].1 is Arr);
        } else {
            lemma_obj_first_key_arr(entries.drop_first(), key);
            let j = choose|j: int|
                {
                    &&& 0 <= j < entries.drop_first().len()
                    &&& (#[trigger] entries.drop_first()[j]).0@ == key
                    &&& (forall|k: int|
                        0 <= k < j ==> (#[trigger] entries.drop_first()[k]).0@ != key)
                    &&& entries.drop_first()[j].1 is Arr
                };
            assert(entries[j + 1] == entries.drop_first()[j]);
            assert forall|k: int| 0 <= k < j + 1 implies (#[trigger] entries[k]).0@ != key by {
                if k > 0 {
                    assert(entries.drop_first()[k - 1] == entries[k]);
                }
            }
        }
    }
}

/// The block list a request leaves behind: the confirm phase, then the
/// cleanup rules, under the request's fingerprints and history evidence.
pub open spec fn request_blocks(
    blocks: Seq<(u64, BlockInfo)>,
    session: u64,
    req: Seq<u64>,
    history: bool,
    now: u64,
    thr: u64,
) -> Seq<(u64, BlockInfo)> {
    cleanup_spec(confirm_spec(blocks, req, session), session, req, history, now, thr)
}

/// Everything `filter_request` does at one instant: blocks confirmed and
/// cleaned, body filtered against the surviving blocks, count reported.
pub open spec fn filter_request_applied(
    m0: RegistryModel,
    m1: RegistryModel,
    b0: Json,
    b1: Json,
    removed: u32,
    now: u64,
) -> bool {
    &&& m1.blocks == request_blocks(
        m0.blocks,
        m0.session,
        request_fps(b0),
        has_history(b0),
        now,
        m0.orphan_threshold_ns,
    )
    &&& m1.session == m0.session
    &&& m1.backend == m0.backend
    &&& m1.orphan_threshold_ns == m0.orphan_threshold_ns
    &&& body_filtered(b0, b1, m1.blocks)
    &&& removed == sat32(removed_in_body(b0, m1.blocks))
}

/// Every block that survives a request belongs to the current session.
pub proof fn lemma_request_blocks_current(
    blocks: Seq<(u64, BlockInfo)>,
    session: u64,
    req: Seq<u64>,
    history: bool,
    now: u64,
    thr: u64,
)
    ensures
        forall|i: int|
            0 <= i < request_blocks(blocks, session, req, history, now, thr).len() ==> (
            #[trigger] request_blocks(blocks, session, req, history, now, thr)[i]).1.session
                == session,
{
    let confirmed = confirm_spec(blocks, req, session);
    let out = request_blocks(blocks, session, req, history, now, thr);
    if history && req.len() > 0 {
        let pred = |e: (u64, BlockInfo)| keep_full(e, session, req, now, thr);
        confirmed.filter_lemma(pred);
    } else {
        let pred = |e: (u64, BlockInfo)| keep_rule1(e, session);
        confirmed.filter_lemma(pred);
    }
}

impl ThinkingRegistry {
    /// Process a request at one instant: confirm the blocks it names,
    /// clean the cache under the evidence it carries, and filter invalid
    /// thinking items out of its body. Returns how many were removed.
    ///
    /// Consistency: every thinking item left in the body is cached, and
    /// every cached block belongs to the current session.
    pub fn filter_request_at(&mut self, body: &mut Json, now_ns: u64) -> (removed: u32)
        requires
            old(self).wf(),
        ensures
            final(self).wf(),
            filter_request_applied(
                old(self).model(),
                final(self).model(),
                *old(body),
                *final(body),
                removed,
                now_ns,
            ),
            forall|i: int|
                0 <= i < final(self).model().blocks.len() ==> (
                #[trigger] final(self).model().blocks[i]).1.session
                    == final(self).model().session,
    {
        let req = self.extract_request_hashes(body);
        self.confirm_blocks(&req);
        let hist = self.request_has_history(body);
        if hist {
            self.cleanup_cache(&req, now_ns);
        } else {
            self.cleanup_old_sessions();
        }
        let removed = self.filter_request_body(body);
        proof {
            lemma_request_blocks_current(
                old(self).model().blocks,
                old(self).model().session,
                request_fps(*old(body)),
                has_history(*old(body)),
                now_ns,
                old(self).model().orphan_threshold_ns,
            );
        }
        removed
    }

    /// Process a request against the clock now: the main per-request entry
    /// point — confirm, clean up, filter, as one transaction.
    pub fn filter_request(&mut self, body: &mut Json) -> (removed: u32)
        requires
            old(self).wf(),
        ensures
            final(self).wf(),
            exists|now: u64|
                filter_request_applied(
                    old(self).model(),
                    final(self).model(),
                    *old(body),
                    *final(body),
                    removed,
                    now,
                ),
            forall|i: int|
                0 <= i < final(self).model().blocks.len() ==> (
                #[trigger] final(self).model().blocks[i]).1.session
                    == final(self).model().session,
    {
        let now = crate::clock::now_nanos();
        self.filter_request_at(body, now)
    }
}

/// A request without conversation history never evicts a current-session
/// block: only Rule 1 applies, which removes old sessions alone. Confirmed
/// blocks in particular survive, still confirmed.
pub proof fn lemma_historyless_request_preserves_blocks(
    blocks: Seq<(u64, BlockInfo)>,
    session: u64,
    req: Seq<u64>,
    now: u64,
    thr: u64,
    h: u64,
)
    requires
        blocks_unique(blocks),
        find_block(blocks, h) matches Some(b) && b.session == session,
    ensures
        find_block(request_blocks(blocks, session, req, false, now, thr), h) matches Some(b2)
            && b2.session == session && (find_block(blocks, h)->Some_0.confirmed
            ==> b2.confirmed),
{
    let confirmed = confirm_spec(blocks, req, session);
    let out = request_blocks(blocks, session, req, false, now, thr);
    let b = find_block(blocks, h)->Some_0;
    let i = lemma_find_block_index(blocks, h);
    assert(confirmed[i] == confirm_entry(blocks[i], req, session));
    assert(confirmed[i].0 == h);
    assert(confirmed[i].1.session == session);
    assert(b.confirmed ==> confirmed[i].1.confirmed);
    let pred = |e: (u64, BlockInfo)| keep_rule1(e, session);
    assert(pred(confirmed[i]));
    confirmed.filter_lemma(pred);
    assert(confirmed.filter(pred).contains(confirmed[i]));
    let j = choose|j: int|
        0 <= j < out.len() && out[j] == confirmed[i];
    assert(blocks_unique(confirmed)) by {
        assert(forall|k: int|
            0 <= k < confirmed.len() ==> (#[trigger] confirmed[k]).0 == blocks[k].0);
    }
    lemma_filter_unique_pub(confirmed, pred);
    assert forall|k: int| 0 <= k < j implies (#[trigger] out[k]).0 != h by {
        if out[k].0 == h {
            assert(out[k] == out[j]);
        }
    }
    lemma_find_block_at_pub(out, h, j);
}

/// The index at which a cached fingerprint sits.
proof fn lemma_find_block_index(blocks: Seq<(u64, BlockInfo)>, h: u64) -> (i: int)
    requires
        find_block(blocks, h) is Some,
    ensures
        0 <= i < blocks.len(),
        blocks[i].0 == h,
        blocks[i].1 == find_block(blocks, h)->Some_0,
    decreases blocks.len(),
{
    if blocks[0].0 == h {
        0
    } else {
        let i = lemma_find_block_index(blocks.drop_first(), h);
        assert(blocks.drop_first()[i] == blocks[i + 1]);
        i + 1
    }
}

proof fn lemma_filter_unique_pub(s: Seq<(u64, BlockInfo)>, pred: spec_fn((u64, BlockInfo)) -> bool)
    requires
        blocks_unique(s),
    ensures
        blocks_unique(s.filter(pred)),
{
    lemma_filter_unique(s, pred);
}

proof fn lemma_find_block_at_pub(s: Seq<(u64, BlockInfo)>, h: u64, i: int)
    requires
        0 <= i < s.len(),
        s[i].0 == h,
        forall|k: int| 0 <= k < i ==> (#[trigger] s[k]).0 != h,
    ensures
        find_block(s, h) == Some(s[i].1),
{
    lemma_find_block_at(s, h, i);
}

/// The registry's view of one backend switch.
pub open spec fn switch_spec(m: RegistryModel, name: Seq<char>) -> RegistryModel {
    if m.backend != name {
        RegistryModel { session: ((m.session + 1) as u64), backend: name, ..m }
    } else {
        m
    }
}

/// The registry after a whole sequence of backend switches.
pub open spec fn switches_fold(m: RegistryModel, names: Seq<Seq<char>>) -> RegistryModel
    decreases names.len(),
{
    if names.len() == 0 {
        m
    } else {
        switches_fold(switch_spec(m, names.first()), names.drop_first())
    }
}

/// How many adjacent transitions in a name sequence actually change the
/// backend, starting from `current`.
pub open spec fn distinct_transitions(current: Seq<char>, names: Seq<Seq<char>>) -> int
    decreases names.len(),
{
    if names.len() == 0 {
        0
    } else if names.first() != current {
        1 + distinct_transitions(names.first(), names.drop_first())
    } else {
        distinct_transitions(current, names.drop_first())
    }
}

/// Session monotonicity: after any sequence of backend switches, the
/// session counter has advanced by exactly the number of observed distinct
/// adjacent transitions.
pub proof fn lemma_session_counts_transitions(m: RegistryModel, names: Seq<Seq<char>>)
    requires
        m.session + distinct_transitions(m.backend, names) <= u64::MAX,
    ensures
        distinct_transitions(m.backend, names) >= 0,
        switches_fold(m, names).session == m.session + distinct_transitions(m.backend, names),
    decreases names.len(),
{
    lemma_transitions_nonneg(m.backend, names);
    if names.len() > 0 {
        let m2 = switch_spec(m, names.first());
        lemma_transitions_nonneg(m2.backend, names.drop_first());
        lemma_session_counts_transitions(m2, names.drop_first());
    }
}

proof fn lemma_transitions_nonneg(current: Seq<char>, names: Seq<Seq<char>>)
    ensures
        distinct_transitions(current, names) >= 0,
    decreases names.len(),
{
    if names.len() > 0 {
        if names.first() != current {
            lemma_transitions_nonneg(names.first(), names.drop_first());
        } else {
            lemma_transitions_nonneg(current, names.drop_first());
        }
    }
}

} // verus!
