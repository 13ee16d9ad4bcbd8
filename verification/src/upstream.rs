//! The upstream client's verified decisions: the retry plan with its
//! exponential backoff, the streaming test — which responses stream — the
//! upstream URI, and the fate of the `Content-Length` header when a body
//! is rewritten.

use vstd::prelude::*;

verus! {

use crate::json::{json_as_str, json_as_u64, json_get, json_wf, Json};
use vstd::string::StringSliceAdditionalSpecFns;

/// Errors the proxy itself produces, each mapped to an HTTP status.
#[derive(Debug)]
pub enum ProxyError {
    /// The requested backend does not exist.
    BackendNotFound { backend: String },
    /// The backend exists but its key is missing.
    BackendNotConfigured { backend: String, reason: String },
    /// Connecting failed, after every retry.
    ConnectionError { backend: String },
    /// The total request deadline passed.
    RequestTimeout { duration_ms: u64 },
    /// The incoming request could not be read.
    InvalidRequest { message: String },
    /// A serialization or buffering failure inside the proxy.
    Internal { message: String },
}

impl ProxyError {
    /// The HTTP status each error kind maps to.
    pub fn status(&self) -> (r: u16)
        ensures
            r == proxy_error_status(*self),
    {
        match self {
            ProxyError::BackendNotFound { .. } => 502,
            ProxyError::BackendNotConfigured { .. } => 502,
            ProxyError::ConnectionError { .. } => 502,
            ProxyError::RequestTimeout { .. } => 504,
            ProxyError::InvalidRequest { .. } => 400,
            ProxyError::Internal { .. } => 500,
        }
    }

    /// The wire name of each error kind, as carried in the envelope.
    pub fn kind_name(&self) -> (r: &'static str)
        ensures
            r@ == proxy_error_kind(*self),
    {
        match self {
            ProxyError::BackendNotFound { .. } => "backend_not_found",
            ProxyError::BackendNotConfigured { .. } => "backend_not_configured",
            ProxyError::ConnectionError { .. } => "connection_error",
            ProxyError::RequestTimeout { .. } => "request_timeout",
            ProxyError::InvalidRequest { .. } => "invalid_request",
            ProxyError::Internal { .. } => "internal",
        }
    }
}

/// The status mapping: bad gateway for configuration and connection
/// failures, gateway timeout for the total deadline, bad request for an
/// unreadable request, internal for the proxy's own failures.
pub open spec fn proxy_error_status(e: ProxyError) -> u16 {
    match e {
        ProxyError::BackendNotFound { .. } => 502,
        ProxyError::BackendNotConfigured { .. } => 502,
        ProxyError::ConnectionError { .. } => 502,
        ProxyError::RequestTimeout { .. } => 504,
        ProxyError::InvalidRequest { .. } => 400,
        ProxyError::Internal { .. } => 500,
    }
}

/// The wire name of each error kind.
pub open spec fn proxy_error_kind(e: ProxyError) -> Seq<char> {
    match e {
        ProxyError::BackendNotFound { .. } => "backend_not_found"@,
        ProxyError::BackendNotConfigured { .. } => "backend_not_configured"@,
        ProxyError::ConnectionError { .. } => "connection_error"@,
        ProxyError::RequestTimeout { .. } => "request_timeout"@,
        ProxyError::InvalidRequest { .. } => "invalid_request"@,
        ProxyError::Internal { .. } => "internal"@,
    }
}

/// What to do after a failed send attempt.
#[derive(Debug, Clone, Copy, PartialEq, Eq, Structural)]
pub enum RetryDecision {
    /// Sleep this many milliseconds and try again.
    RetryAfter(u64),
    /// Give up: the total deadline passed.
    FailTimeout,
    /// Give up: connecting failed for good.
    FailConnection,
}

/// The backoff before retry number `attempt`: the base doubled `attempt`
/// times, saturating.
pub open spec fn backoff_spec(base_ms: u64, attempt: nat) -> int
    decreases attempt,
{
    if attempt == 0 {
        base_ms as int
    } else if 2 * backoff_spec(base_ms, (attempt - 1) as nat) <= u64::MAX {
        2 * backoff_spec(base_ms, (attempt - 1) as nat)
    } else {
        u64::MAX as int
    }
}

/// Doubling the backoff: each retry waits twice as long as the one
/// before, until the counter saturates.
pub proof fn lemma_backoff_doubles(base_ms: u64, attempt: nat)
    ensures
        backoff_spec(base_ms, attempt + 1) == if 2 * backoff_spec(base_ms, attempt) <= u64::MAX {
            2 * backoff_spec(base_ms, attempt)
        } else {
            u64::MAX as int
        },
{
}

/// The backoff before retry number `attempt`, in milliseconds.
pub fn backoff_ms(base_ms: u64, attempt: u32) -> (r: u64)
    ensures
        r == backoff_spec(base_ms, attempt as nat),
{
    let mut r: u64 = base_ms;
    let mut k: u32 = 0;
    while k < attempt
        invariant
            k <= attempt,
            r == backoff_spec(base_ms, k as nat),
        decreases attempt - k,
    {
        r = if r > u64::MAX / 2 {
            u64::MAX
        } else {
            r * 2
        };
        k = k + 1;
    }
    r
}

/// Decide the fate of a failed attempt: a connect or timeout failure
/// before the retry budget is exhausted retries after the doubled
/// backoff; an exhausted or non-retriable timeout fails as a timeout; and
/// everything else fails as a connection error.
pub fn retry_decision(
    attempt: u32,
    max_retries: u32,
    is_connect: bool,
    is_timeout: bool,
    base_ms: u64,
) -> (r: RetryDecision)
    ensures
        ((is_connect || is_timeout) && attempt < max_retries) ==> r == RetryDecision::RetryAfter(
            (backoff_spec(base_ms, attempt as nat) as u64),
        ),
        !((is_connect || is_timeout) && attempt < max_retries) && is_timeout ==> r
            == RetryDecision::FailTimeout,
        !((is_connect || is_timeout) && attempt < max_retries) && !is_timeout ==> r
            == RetryDecision::FailConnection,
{
    if (is_connect || is_timeout) && attempt < max_retries {
        RetryDecision::RetryAfter(backoff_ms(base_ms, attempt))
    } else if is_timeout {
        RetryDecision::FailTimeout
    } else {
        RetryDecision::FailConnection
    }
}

/// Whether a `Content-Type` announces an event stream.
pub fn is_event_stream(content_type: &str) -> (r: bool)
    ensures
        r == crate::strutil::contains_seq(
            content_type.spec_bytes(),
            "text/event-stream"@.map_values(|c: char| c as u8),
        ),
{
    let needle: [u8; 17] = [
        116, 101, 120, 116, 47, 101, 118, 101, 110, 116, 45, 115, 116, 114, 101, 97, 109,
    ];
    proof {
        reveal_strlit("text/event-stream");
        assert(needle@ =~= "text/event-stream"@.map_values(|c: char| c as u8));
    }
    crate::strutil::contains_bytes(content_type.as_bytes(), needle.as_slice())
}

/// The upstream URI: the backend's base URL with the inbound path and
/// query appended verbatim.
pub fn upstream_uri(base_url: &str, path_and_query: &str) -> (r: String)
    ensures
        r@ == base_url@ + path_and_query@,
{
    let mut out = base_url.to_owned();
    out.append(path_and_query);
    out
}

/// The `Content-Length` a response goes out with: stripped whenever the
/// body was rewritten, passed through untouched otherwise.
pub fn content_length_after(changed: bool, upstream_len: Option<u64>) -> (r: Option<u64>)
    ensures
        changed ==> r is None,
        !changed ==> r == upstream_len,
{
    if changed {
        None
    } else {
        upstream_len
    }
}

/// Content-Length correctness: provided the upstream header was correct
/// for the body it came with, the header this proxy emits is either absent
/// or equal to the length of the body the client sees.
pub proof fn lemma_content_length_correct(
    changed: bool,
    upstream_len: Option<u64>,
    upstream_body_len: int,
    final_body_len: int,
)
    requires
        upstream_len matches Some(n) ==> n == upstream_body_len,
        !changed ==> final_body_len == upstream_body_len,
    ensures
        ({
            let out = if changed {
                None
            } else {
                upstream_len
            };
            match out {
                Some(n) => n == final_body_len,
                None => true,
            }
        }),
{
}

/// The bytes of the interleaved-thinking beta token.
pub open spec fn interleaved_token() -> Seq<u8> {
    "interleaved-thinking-2025-05-14"@.map_values(|c: char| c as u8)
}

/// The byte prefix that marks an adaptive-thinking beta token.
pub open spec fn adaptive_prefix() -> Seq<u8> {
    "adaptive-thinking-"@.map_values(|c: char| c as u8)
}

/// A comma-separated header split into its tokens, byte by byte: `cur`
/// holds the token collected so far.
pub open spec fn header_tokens_acc(s: Seq<u8>, cur: Seq<u8>) -> Seq<Seq<u8>>
    decreases s.len(),
{
    if s.len() == 0 {
        seq![cur]
    } else if s[0] == 44 {
        seq![cur] + header_tokens_acc(s.drop_first(), Seq::empty())
    } else {
        header_tokens_acc(s.drop_first(), cur.push(s[0]))
    }
}

/// The comma-separated tokens of a header value.
pub open spec fn header_tokens(s: Seq<u8>) -> Seq<Seq<u8>> {
    header_tokens_acc(s, Seq::empty())
}

/// Whether a token names an adaptive-thinking beta.
pub open spec fn is_adaptive_token(t: Seq<u8>) -> bool {
    t.len() >= adaptive_prefix().len() && t.take(adaptive_prefix().len() as int)
        == adaptive_prefix()
}

/// An adaptive token becomes the interleaved token; any other passes.
pub open spec fn patched_token(t: Seq<u8>) -> Seq<u8> {
    if is_adaptive_token(t) {
        interleaved_token()
    } else {
        t
    }
}

/// Whether any token is the interleaved token.
pub open spec fn has_interleaved(ts: Seq<Seq<u8>>) -> bool {
    exists|i: int| 0 <= i < ts.len() && ts[i] == interleaved_token()
}

/// Every occurrence of the interleaved token after the first removed.
pub open spec fn dedup_interleaved(ts: Seq<Seq<u8>>, seen: bool) -> Seq<Seq<u8>>
    decreases ts.len(),
{
    if ts.len() == 0 {
        Seq::empty()
    } else if ts[0] == interleaved_token() {
        if seen {
            dedup_interleaved(ts.drop_first(), true)
        } else {
            seq![ts[0]] + dedup_interleaved(ts.drop_first(), true)
        }
    } else {
        seq![ts[0]] + dedup_interleaved(ts.drop_first(), seen)
    }
}

/// The token list after the patch: adaptive tokens replaced, the
/// interleaved token deduplicated when present and appended when absent.
pub open spec fn patched_tokens(ts: Seq<Seq<u8>>) -> Seq<Seq<u8>> {
    let mapped = ts.map_values(|t: Seq<u8>| patched_token(t));
    if has_interleaved(mapped) {
        dedup_interleaved(mapped, false)
    } else {
        mapped.push(interleaved_token())
    }
}

/// The tokens joined back with commas.
pub open spec fn join_tokens(ts: Seq<Seq<u8>>) -> Seq<u8>
    decreases ts.len(),
{
    if ts.len() == 0 {
        Seq::empty()
    } else if ts.len() == 1 {
        ts[0]
    } else {
        ts[0] + seq![44u8] + join_tokens(ts.drop_first())
    }
}

/// The patched header value, as bytes.
pub open spec fn beta_header_patched(s: Seq<u8>) -> Seq<u8> {
    join_tokens(patched_tokens(header_tokens(s)))
}

/// Whether two byte slices hold the same bytes.
fn bytes_eq(a: &[u8], b: &[u8]) -> (r: bool)
    ensures
        r == (a@ == b@),
{
    if a.len() != b.len() {
        proof {
            assert(a@ != b@);
        }
        return false;
    }
    let mut i: usize = 0;
    while i < a.len()
        invariant
            i <= a@.len(),
            a@.len() == b@.len(),
            forall|j: int| 0 <= j < i ==> a@[j] == b@[j],
        decreases a@.len() - i,
    {
        if a[i] != b[i] {
            return false;
        }
        i = i + 1;
    }
    proof {
        assert(a@ =~= b@);
    }
    true
}

/// Whether a byte slice begins with a prefix.
fn has_prefix(t: &[u8], p: &[u8]) -> (r: bool)
    ensures
        r == (t@.len() >= p@.len() && t@.take(p@.len() as int) == p@),
{
    if t.len() < p.len() {
        return false;
    }
    let mut i: usize = 0;
    while i < p.len()
        invariant
            i <= p@.len(),
            p@.len() <= t@.len(),
            forall|j: int| 0 <= j < i ==> t@[j] == p@[j],
        decreases p@.len() - i,
    {
        if t[i] != p[i] {
            proof {
                assert(t@.take(p@.len() as int)[i as int] != p@[i as int]);
            }
            return false;
        }
        i = i + 1;
    }
    proof {
        assert(t@.take(p@.len() as int) =~= p@);
    }
    true
}

/// Splitting steps one byte at a time through the scanned region.
proof fn lemma_header_tokens_skip(s: Seq<u8>, i: int, start: int)
    requires
        0 <= start <= i <= s.len(),
    ensures
        header_tokens_acc(s.skip(i), s.subrange(start, i)) == (if i < s.len() && s[i] == 44 {
            seq![s.subrange(start, i)] + header_tokens_acc(s.skip(i + 1), Seq::<u8>::empty())
        } else if i < s.len() {
            header_tokens_acc(s.skip(i + 1), s.subrange(start, i + 1))
        } else {
            seq![s.subrange(start, i)]
        }),
{
    if i < s.len() {
        assert(s.skip(i)[0] == s[i]);
        assert(s.skip(i).drop_first() =~= s.skip(i + 1));
        if s[i] != 44 {
            assert(s.subrange(start, i).push(s[i]) =~= s.subrange(start, i + 1));
        }
    } else {
        assert(s.skip(i) =~= Seq::<u8>::empty());
    }
}

/// Deduplication folds one leading token at a time.
proof fn lemma_dedup_take(ts: Seq<Seq<u8>>, i: int, seen: bool)
    requires
        0 <= i < ts.len(),
    ensures
        dedup_interleaved(ts.skip(i), seen) == (if ts[i] == interleaved_token() {
            if seen {
                dedup_interleaved(ts.skip(i + 1), true)
            } else {
                seq![ts[i]] + dedup_interleaved(ts.skip(i + 1), true)
            }
        } else {
            seq![ts[i]] + dedup_interleaved(ts.skip(i + 1), seen)
        }),
{
    assert(ts.skip(i)[0] == ts[i]);
    assert(ts.skip(i).drop_first() =~= ts.skip(i + 1));
}

/// Joining folds one leading token at a time.
proof fn lemma_join_step(ts: Seq<Seq<u8>>, i: int)
    requires
        0 <= i < ts.len(),
    ensures
        join_tokens(ts.skip(i)) == (if i + 1 < ts.len() {
            ts[i] + seq![44u8] + join_tokens(ts.skip(i + 1))
        } else {
            ts[i]
        }),
{
    assert(ts.skip(i)[0] == ts[i]);
    assert(ts.skip(i).drop_first() =~= ts.skip(i + 1));
    assert(ts.skip(i).len() == ts.len() - i);
}

/// The interleaved token does not itself carry the adaptive prefix.
proof fn lemma_interleaved_not_adaptive()
    ensures
        patched_token(interleaved_token()) == interleaved_token(),
{
    reveal_strlit("interleaved-thinking-2025-05-14");
    reveal_strlit("adaptive-thinking-");
    assert(adaptive_prefix().len() == 18);
    if is_adaptive_token(interleaved_token()) {
        assert(interleaved_token().take(18)[0] == adaptive_prefix()[0]);
        assert(interleaved_token()[0] == 105);
        assert(adaptive_prefix()[0] == 97);
        assert(false);
    }
}

/// Patch an `anthropic-beta` header value: every `adaptive-thinking-*`
/// token becomes `interleaved-thinking-2025-05-14`, which appears exactly
/// once — appended when no token carried it — and every other token is
/// kept in order.
pub fn patch_anthropic_beta_header(header: &str) -> (r: String)
    ensures
        r@ == crate::strutil::lossy_decode(beta_header_patched(header.spec_bytes())),
{
    let bytes = header.as_bytes();
    let interleaved: [u8; 31] = [
        105, 110, 116, 101, 114, 108, 101, 97, 118, 101, 100, 45, 116, 104, 105, 110, 107, 105,
        110, 103, 45, 50, 48, 50, 53, 45, 48, 53, 45, 49, 52,
    ];
    let prefix: [u8; 18] = [
        97, 100, 97, 112, 116, 105, 118, 101, 45, 116, 104, 105, 110, 107, 105, 110, 103, 45,
    ];
    proof {
        reveal_strlit("interleaved-thinking-2025-05-14");
        reveal_strlit("adaptive-thinking-");
        assert(interleaved@ =~= interleaved_token());
        assert(prefix@ =~= adaptive_prefix());
    }

    // Split into tokens, mapping each through the patch as it closes.
    let mut tokens: Vec<Vec<u8>> = Vec::new();
    let mut cur: Vec<u8> = Vec::new();
    let ghost s = bytes@;
    let ghost mut start: int = 0;
    let mut i: usize = 0;
    proof {
        assert(s.skip(0) =~= s);
        assert(s.subrange(0, 0) =~= Seq::<u8>::empty());
        assert(tokens@.map_values(|t: Vec<u8>| patched_token(t@)) + header_tokens_acc(
            s,
            Seq::<u8>::empty(),
        ).map_values(|t: Seq<u8>| patched_token(t)) =~= header_tokens(s).map_values(
            |t: Seq<u8>| patched_token(t),
        ));
    }
    while i < bytes.len()
        invariant
            0 <= start <= i <= s.len(),
            bytes@ == s,
            cur@ == s.subrange(start, i as int),
            header_tokens(s).map_values(|t: Seq<u8>| patched_token(t)) == tokens@.map_values(
                |t: Vec<u8>| patched_token(t@),
            ) + header_tokens_acc(s.skip(i as int), cur@).map_values(
                |t: Seq<u8>| patched_token(t),
            ),
            forall|j: int|
                0 <= j < tokens@.len() ==> patched_token((#[trigger] tokens@[j])@)
                    == tokens@[j]@,
            interleaved@ == interleaved_token(),
            prefix@ == adaptive_prefix(),
        decreases s.len() - i,
    {
        proof {
            lemma_header_tokens_skip(s, i as int, start);
            assert(s.skip(i as int)[0] == s[i as int]);
            assert(s.skip(i as int).drop_first() =~= s.skip(i + 1));
        }
        let b = bytes[i];
        if b == 44 {
            let finished = cur;
            cur = Vec::new();
            let t: Vec<u8> = if has_prefix(finished.as_slice(), prefix.as_slice()) {
                duplicate_bytes(interleaved.as_slice())
            } else {
                finished
            };
            tokens.push(t);
            proof {
                lemma_interleaved_not_adaptive();
                assert(patched_token(t@) == t@);
                assert(header_tokens_acc(s.skip(i as int), s.subrange(start, i as int)) =~= seq![
                    s.subrange(start, i as int),
                ] + header_tokens_acc(s.skip(i + 1), Seq::<u8>::empty()));
                assert(tokens@.map_values(|t: Vec<u8>| patched_token(t@)) =~= tokens@.drop_last(

                ).map_values(|t: Vec<u8>| patched_token(t@)).push(
                    patched_token(s.subrange(start, i as int)),
                ));
                assert(header_tokens(s).map_values(|t: Seq<u8>| patched_token(t))
                    =~= tokens@.map_values(|t: Vec<u8>| patched_token(t@)) + header_tokens_acc(
                    s.skip(i + 1),
                    Seq::<u8>::empty(),
                ).map_values(|t: Seq<u8>| patched_token(t)));
                start = i + 1;
                assert(cur@ =~= s.subrange(start, i + 1));
            }
        } else {
            cur.push(b);
            proof {
                assert(cur@ =~= s.subrange(start, i + 1));
                assert(header_tokens_acc(s.skip(i as int), s.subrange(start, i as int))
                    == header_tokens_acc(s.skip(i + 1), s.subrange(start, i + 1)));
            }
        }
        i = i + 1;
    }
    let last: Vec<u8> = if has_prefix(cur.as_slice(), prefix.as_slice()) {
        duplicate_bytes(interleaved.as_slice())
    } else {
        cur
    };
    tokens.push(last);
    proof {
        lemma_interleaved_not_adaptive();
        assert(patched_token(last@) == last@);
        assert(s.skip(s.len() as int) =~= Seq::<u8>::empty());
        assert(header_tokens_acc(Seq::<u8>::empty(), s.subrange(start, s.len() as int)) =~= seq![
            s.subrange(start, s.len() as int),
        ]);
        assert(tokens@.map_values(|t: Vec<u8>| patched_token(t@)) =~= header_tokens(s).map_values(
            |t: Seq<u8>| patched_token(t),
        ));
        assert(tokens@.map_values(|t: Vec<u8>| t@) =~= header_tokens(s).map_values(
            |t: Seq<u8>| patched_token(t),
        ));
    }
    let ghost mapped = header_tokens(s).map_values(|t: Seq<u8>| patched_token(t));

    // Deduplicate the interleaved token, or append it when absent.
    let mut any: bool = false;
    let mut k: usize = 0;
    while k < tokens.len()
        invariant
            k <= tokens@.len(),
            tokens@.map_values(|t: Vec<u8>| t@) == mapped,
            any == exists|j: int| 0 <= j < k && mapped[j] == interleaved_token(),
            interleaved@ == interleaved_token(),
        decreases tokens@.len() - k,
    {
        proof {
            assert(mapped[k as int] == tokens@[k as int]@);
        }
        if bytes_eq(tokens[k].as_slice(), interleaved.as_slice()) {
            any = true;
        }
        k = k + 1;
    }
    proof {
        assert(any == has_interleaved(mapped));
    }

    let mut final_tokens: Vec<Vec<u8>> = Vec::new();
    if any {
        let mut seen: bool = false;
        let mut k2: usize = 0;
        proof {
            assert(mapped.skip(0) =~= mapped);
            assert(final_tokens@.map_values(|t: Vec<u8>| t@) + dedup_interleaved(mapped, false)
                =~= dedup_interleaved(mapped, false));
        }
        while k2 < tokens.len()
            invariant
                k2 <= tokens@.len(),
                tokens@.map_values(|t: Vec<u8>| t@) == mapped,
                dedup_interleaved(mapped, false) == final_tokens@.map_values(|t: Vec<u8>| t@)
                    + dedup_interleaved(mapped.skip(k2 as int), seen),
                interleaved@ == interleaved_token(),
            decreases tokens@.len() - k2,
        {
            proof {
                lemma_dedup_take(mapped, k2 as int, seen);
                assert(mapped[k2 as int] == tokens@[k2 as int]@);
            }
            let is_inter = bytes_eq(tokens[k2].as_slice(), interleaved.as_slice());
            if is_inter {
                proof {
                    assert(mapped[k2 as int] == interleaved_token());
                }
                if !seen {
                    final_tokens.push(duplicate_bytes(interleaved.as_slice()));
                    proof {
                        assert(final_tokens@.map_values(|t: Vec<u8>| t@) =~= final_tokens@
                            .drop_last().map_values(|t: Vec<u8>| t@).push(interleaved_token()));
                    }
                    seen = true;
                }
            } else {
                proof {
                    assert(mapped[k2 as int] != interleaved_token());
                }
                let ghost before = final_tokens@;
                let t = duplicate_bytes(tokens[k2].as_slice());
                final_tokens.push(t);
                proof {
                    assert(final_tokens@.map_values(|t: Vec<u8>| t@) =~= before.map_values(
                        |t: Vec<u8>| t@,
                    ).push(tokens@[k2 as int]@));
                }
            }
            k2 = k2 + 1;
        }
        proof {
            assert(mapped.skip(mapped.len() as int) =~= Seq::<Seq<u8>>::empty());
            assert(dedup_interleaved(Seq::<Seq<u8>>::empty(), seen)
                =~= Seq::<Seq<u8>>::empty());
            assert(final_tokens@.map_values(|t: Vec<u8>| t@) + Seq::<Seq<u8>>::empty()
                =~= final_tokens@.map_values(|t: Vec<u8>| t@));
            assert(final_tokens@.map_values(|t: Vec<u8>| t@) =~= dedup_interleaved(
                mapped,
                false,
            ));
            assert(final_tokens@.map_values(|t: Vec<u8>| t@) =~= patched_tokens(
                header_tokens(s),
            ));
        }
    } else {
        let mut k3: usize = 0;
        while k3 < tokens.len()
            invariant
                k3 <= tokens@.len(),
                tokens@.map_values(|t: Vec<u8>| t@) == mapped,
                final_tokens@.map_values(|t: Vec<u8>| t@) =~= mapped.take(k3 as int),
                interleaved@ == interleaved_token(),
            decreases tokens@.len() - k3,
        {
            proof {
                assert(mapped[k3 as int] == tokens@[k3 as int]@);
            }
            let ghost before = final_tokens@;
            let t = duplicate_bytes(tokens[k3].as_slice());
            final_tokens.push(t);
            proof {
                assert(final_tokens@.map_values(|t: Vec<u8>| t@) =~= before.map_values(
                    |t: Vec<u8>| t@,
                ).push(tokens@[k3 as int]@));
                assert(mapped.take(k3 + 1) =~= mapped.take(k3 as int).push(mapped[k3 as int]));
            }
            k3 = k3 + 1;
        }
        final_tokens.push(duplicate_bytes(interleaved.as_slice()));
        proof {
            assert(mapped.take(mapped.len() as int) =~= mapped);
            assert(final_tokens@.map_values(|t: Vec<u8>| t@) =~= mapped.push(
                interleaved_token(),
            ));
            assert(final_tokens@.map_values(|t: Vec<u8>| t@) =~= patched_tokens(
                header_tokens(s),
            ));
        }
    }
    let ghost fts = patched_tokens(header_tokens(s));

    // Join with commas.
    let mut out: Vec<u8> = Vec::new();
    let mut m: usize = 0;
    proof {
        assert(fts.skip(0) =~= fts);
        assert(out@ + join_tokens(fts) =~= join_tokens(fts));
    }
    while m < final_tokens.len()
        invariant
            m <= final_tokens@.len(),
            final_tokens@.map_values(|t: Vec<u8>| t@) == fts,
            join_tokens(fts) == out@ + join_tokens(fts.skip(m as int)),
        decreases final_tokens@.len() - m,
    {
        proof {
            lemma_join_step(fts, m as int);
            assert(fts[m as int] == final_tokens@[m as int]@);
        }
        let tok = &final_tokens[m];
        let mut p: usize = 0;
        let ghost out0 = out@;
        while p < tok.len()
            invariant
                p <= tok@.len(),
                out@ == out0 + tok@.take(p as int),
            decreases tok@.len() - p,
        {
            out.push(tok[p]);
            proof {
                assert(out0 + tok@.take(p + 1) =~= (out0 + tok@.take(p as int)).push(
                    tok@[p as int],
                ));
            }
            p = p + 1;
        }
        proof {
            assert(tok@.take(tok@.len() as int) =~= tok@);
        }
        if m + 1 < final_tokens.len() {
            out.push(44);
            proof {
                assert(out@ =~= (out0 + fts[m as int]).push(44u8));
                assert(out0 + (fts[m as int] + seq![44u8] + join_tokens(fts.skip(m + 1)))
                    =~= ((out0 + fts[m as int]).push(44u8)) + join_tokens(fts.skip(m + 1)));
            }
        } else {
            proof {
                assert(out@ =~= out0 + fts[m as int]);
                assert(fts.skip(m + 1) =~= Seq::<Seq<u8>>::empty());
                assert(out@ + join_tokens(Seq::<Seq<u8>>::empty()) =~= out@);
            }
        }
        m = m + 1;
    }
    proof {
        assert(fts.skip(fts.len() as int) =~= Seq::<Seq<u8>>::empty());
        assert(out@ + join_tokens(Seq::<Seq<u8>>::empty()) =~= out@);
        assert(out@ =~= join_tokens(fts));
        assert(out@ == beta_header_patched(header.spec_bytes()));
    }
    crate::strutil::lossy_string(out.as_slice())
}

/// A byte-for-byte copy of a byte slice.
fn duplicate_bytes(v: &[u8]) -> (r: Vec<u8>)
    ensures
        r@ == v@,
{
    let mut out: Vec<u8> = Vec::new();
    let mut i: usize = 0;
    while i < v.len()
        invariant
            i <= v@.len(),
            out@ == v@.take(i as int),
        decreases v@.len() - i,
    {
        out.push(v[i]);
        proof {
            assert(v@.take(i + 1) =~= v@.take(i as int).push(v@[i as int]));
        }
        i = i + 1;
    }
    proof {
        assert(v@.take(v@.len() as int) =~= v@);
    }
    out
}

/// The token budget the adaptive conversion assigns: the configured
/// per-backend budget when one is set; else the request's `max_tokens`
/// less one; else a fixed fallback of 10000.
pub open spec fn adaptive_budget(body: Json, config_budget: Option<u64>) -> u64 {
    match config_budget {
        Some(b) => b,
        None => match json_get(body, "max_tokens"@) {
            Some(x) => match json_as_u64(x) {
                Some(mt) => if mt >= 1 {
                    (mt - 1) as u64
                } else {
                    10000u64
                },
                None => 10000u64,
            },
            None => 10000u64,
        },
    }
}

/// Whether the body's `thinking` member has `type = "adaptive"`.
pub open spec fn thinking_is_adaptive(body: Json) -> bool {
    match json_get(body, "thinking"@) {
        Some(t) => crate::json::type_is(t, "adaptive"@),
        None => false,
    }
}

/// `t1` is the thinking object `t0` with its `type` made the string
/// `enabled` and `budget_tokens` set to `budget` — in place when the key
/// exists, appended otherwise; every other member is kept as it was.
pub open spec fn thinking_rewritten(t0: Json, t1: Json, budget: u64) -> bool {
    &&& t0 is Obj
    &&& t1 is Obj
    &&& ({
        let e0 = t0->Obj_0@;
        let e1 = t1->Obj_0@;
        let has_budget = exists|k: int|
            0 <= k < e0.len() && (#[trigger] e0[k]).0@ == "budget_tokens"@;
        &&& e1.len() == (if has_budget {
            e0.len() as int
        } else {
            e0.len() as int + 1
        })
        &&& (forall|k: int| 0 <= k < e0.len() ==> (#[trigger] e1[k]).0@ == e0[k].0@)
        &&& (forall|k: int|
            0 <= k < e0.len() && (#[trigger] e0[k]).0@ != "type"@ && e0[k].0@
                != "budget_tokens"@ ==> e1[k] == e0[k])
        &&& (forall|k: int|
            0 <= k < e0.len() && (#[trigger] e0[k]).0@ == "type"@ ==> json_as_str(e1[k].1)
                == Some("enabled"@))
        &&& (forall|k: int|
            0 <= k < e0.len() && (#[trigger] e0[k]).0@ == "budget_tokens"@ ==> e1[k].1
                == Json::UInt(budget))
        &&& (!has_budget ==> e1[e0.len() as int].0@ == "budget_tokens"@ && e1[e0.len() as int].1
            == Json::UInt(budget))
    })
}

/// `b1` is the body `b0` with every adaptive `thinking` member rewritten
/// per `thinking_rewritten`; everything else is kept as it was.
pub open spec fn adaptive_converted(b0: Json, b1: Json, budget: u64) -> bool {
    &&& b0 is Obj
    &&& b1 is Obj
    &&& ({
        let e0 = b0->Obj_0@;
        let e1 = b1->Obj_0@;
        &&& e1.len() == e0.len()
        &&& (forall|k: int|
            0 <= k < e0.len() && ((#[trigger] e0[k]).0@ != "thinking"@ || !crate::json::type_is(
                e0[k].1,
                "adaptive"@,
            )) ==> e1[k] == e0[k])
        &&& (forall|k: int|
            0 <= k < e0.len() && (#[trigger] e0[k]).0@ == "thinking"@ && crate::json::type_is(
                e0[k].1,
                "adaptive"@,
            ) ==> e1[k].0@ == "thinking"@ && thinking_rewritten(e0[k].1, e1[k].1, budget))
    })
}

/// Whether a value is an object with `type = "adaptive"`.
fn value_is_adaptive(t: &Json) -> (r: bool)
    ensures
        r == crate::json::type_is(*t, "adaptive"@),
{
    match t.get("type") {
        Some(x) => x.is_str("adaptive"),
        None => false,
    }
}

/// The rewrite keeps a thinking object within any container depth its
/// original respected: it only swaps in or appends scalar members.
proof fn lemma_thinking_rewritten_within(t0: Json, t1: Json, budget: u64, d: int)
    requires
        thinking_rewritten(t0, t1, budget),
        crate::json::json_within_depth(t0, d),
    ensures
        crate::json::json_within_depth(t1, d),
{
    let e0 = t0->Obj_0@;
    let e1 = t1->Obj_0@;
    assert(d > 0);
    assert forall|k: int| 0 <= k < e1.len() implies crate::json::json_within_depth(
        (#[trigger] e1[k]).1,
        d - 1,
    ) by {
        if k < e0.len() {
            assert(crate::json::json_within_depth(e0[k].1, d - 1));
            if e0[k].0@ == "type"@ {
                assert(json_as_str(e1[k].1) is Some);
                assert(e1[k].1 is Str);
            } else if e0[k].0@ == "budget_tokens"@ {
                assert(e1[k].1 == Json::UInt(budget));
            } else {
                assert(e1[k] == e0[k]);
            }
        } else {
            assert(e1[k].1 == Json::UInt(budget));
        }
    }
}

/// Rewrite one adaptive thinking object to the `enabled` form with the
/// given budget.
fn rebuild_thinking(t: Json, budget: u64) -> (r: Json)
    requires
        crate::json::type_is(t, "adaptive"@),
    ensures
        thinking_rewritten(t, r, budget),
        json_wf(t) ==> json_wf(r),
{
    proof {
        assert(t is Obj);
    }
    let ghost t_in = t;
    let entries: Vec<(String, Json)> = match t {
        Json::Obj(e) => e,
        _ => {
            proof {
                assert(false);
            }
            Vec::new()
        },
    };
    let ghost e0 = entries@;
    let mut src = entries;
    let mut out: Vec<(String, Json)> = Vec::new();
    let mut saw_budget: bool = false;
    while src.len() > 0
        invariant
            src@ =~= e0.skip(e0.len() - src@.len()),
            e0.len() >= src@.len(),
            out@.len() == e0.len() - src@.len(),
            saw_budget == exists|k: int|
                0 <= k < out@.len() && (#[trigger] e0[k]).0@ == "budget_tokens"@,
            forall|k: int| 0 <= k < out@.len() ==> (#[trigger] out@[k]).0@ == e0[k].0@,
            forall|k: int|
                0 <= k < out@.len() && (#[trigger] e0[k]).0@ != "type"@ && e0[k].0@
                    != "budget_tokens"@ ==> out@[k] == e0[k],
            forall|k: int|
                0 <= k < out@.len() && (#[trigger] e0[k]).0@ == "type"@ ==> json_as_str(
                    out@[k].1,
                ) == Some("enabled"@),
            forall|k: int|
                0 <= k < out@.len() && (#[trigger] e0[k]).0@ == "budget_tokens"@ ==> out@[k].1
                    == Json::UInt(budget),
            forall|k: int|
                0 <= k < out@.len() ==> (json_wf(e0[k].1) ==> json_wf(#[trigger] out@[k].1)),
        decreases src@.len(),
    {
        let ghost consumed = e0.len() - src@.len();
        let (k, v) = src.remove(0);
        proof {
            assert(e0.skip(consumed as int)[0] == e0[consumed as int]);
            assert((k, v) == e0[consumed as int]);
            assert(src@ =~= e0.skip(consumed + 1));
        }
        proof {
            reveal_strlit("type");
            reveal_strlit("budget_tokens");
            assert("type"@.len() == 4);
            assert("budget_tokens"@.len() == 13);
            assert("type"@ != "budget_tokens"@);
        }
        if crate::strutil::str_eq(k.as_str(), "type") {
            out.push((k, Json::Str("enabled".to_string())));
        } else if crate::strutil::str_eq(k.as_str(), "budget_tokens") {
            saw_budget = true;
            out.push((k, Json::UInt(budget)));
        } else {
            out.push((k, v));
        }
    }
    if !saw_budget {
        out.push(("budget_tokens".to_string(), Json::UInt(budget)));
    }
    let r = Json::Obj(out);
    proof {
        assert(thinking_rewritten(t_in, r, budget));
        if json_wf(t_in) {
            let e1 = r->Obj_0@;
            assert forall|i: int| 0 <= i < e1.len() implies json_wf((#[trigger] e1[i]).1) by {
                if i < e0.len() {
                    assert(json_wf(e0[i].1));
                }
            }
            assert forall|i: int, k: int| 0 <= i < k < e1.len() implies (#[trigger] e1[i]).0@ != (
            #[trigger] e1[k]).0@ by {
                if k < e0.len() {
                    assert(e0[i].0@ != e0[k].0@);
                } else {
                    assert(e0[i].0@ != "budget_tokens"@);
                }
            }
            assert(json_wf(r));
        }
    }
    r
}

/// Convert a non-standard `thinking.type = "adaptive"` request to the
/// standard `enabled` form before forwarding, assigning a token budget
/// per `adaptive_budget`. `Some(true)` when a conversion happened,
/// `Some(false)` when a `thinking` member exists but is not adaptive,
/// `None` when the body has none; the body only changes on `Some(true)`.
pub fn convert_adaptive_thinking(body: &mut Json, config_budget: Option<u64>) -> (r: Option<
    bool,
>)
    ensures
        r is None <==> json_get(*old(body), "thinking"@) is None,
        r == Some(false) <==> (json_get(*old(body), "thinking"@) is Some
            && !thinking_is_adaptive(*old(body))),
        r == Some(true) <==> thinking_is_adaptive(*old(body)),
        !thinking_is_adaptive(*old(body)) ==> *final(body) == *old(body),
        thinking_is_adaptive(*old(body)) ==> adaptive_converted(
            *old(body),
            *final(body),
            adaptive_budget(*old(body), config_budget),
        ),
        json_wf(*old(body)) ==> json_wf(*final(body)),
        forall|d: int|
            crate::json::json_within_depth(*old(body), d) ==> crate::json::json_within_depth(
                *final(body),
                d,
            ),
{
    let present = body.get("thinking").is_some();
    if !present {
        return None;
    }
    let adaptive = match body.get("thinking") {
        Some(t) => value_is_adaptive(t),
        None => false,
    };
    if !adaptive {
        return Some(false);
    }
    let budget: u64 = match config_budget {
        Some(b) => b,
        None => match body.get("max_tokens") {
            Some(x) => match x.as_u64() {
                Some(mt) => if mt >= 1 {
                    mt - 1
                } else {
                    10000
                },
                None => 10000,
            },
            None => 10000,
        },
    };
    proof {
        assert(budget == adaptive_budget(*body, config_budget));
        assert(*body is Obj);
    }
    let ghost b_in = *body;
    let mut owned = Json::Null;
    core::mem::swap(body, &mut owned);
    let entries: Vec<(String, Json)> = match owned {
        Json::Obj(e) => e,
        _ => {
            proof {
                assert(false);
            }
            Vec::new()
        },
    };
    let ghost e0 = entries@;
    let mut src = entries;
    let mut out: Vec<(String, Json)> = Vec::new();
    while src.len() > 0
        invariant
            src@ =~= e0.skip(e0.len() - src@.len()),
            e0.len() >= src@.len(),
            out@.len() == e0.len() - src@.len(),
            forall|k: int| 0 <= k < out@.len() ==> (#[trigger] out@[k]).0@ == e0[k].0@,
            forall|k: int|
                0 <= k < out@.len() && ((#[trigger] e0[k]).0@ != "thinking"@
                    || !crate::json::type_is(e0[k].1, "adaptive"@)) ==> out@[k] == e0[k],
            forall|k: int|
                0 <= k < out@.len() && (#[trigger] e0[k]).0@ == "thinking"@
                    && crate::json::type_is(e0[k].1, "adaptive"@) ==> out@[k].0@ == "thinking"@
                    && thinking_rewritten(e0[k].1, out@[k].1, budget),
            forall|k: int|
                0 <= k < out@.len() ==> (json_wf(e0[k].1) ==> json_wf(#[trigger] out@[k].1)),
        decreases src@.len(),
    {
        let ghost consumed = e0.len() - src@.len();
        let (k, v) = src.remove(0);
        proof {
            assert(e0.skip(consumed as int)[0] == e0[consumed as int]);
            assert((k, v) == e0[consumed as int]);
            assert(src@ =~= e0.skip(consumed + 1));
        }
        if crate::strutil::str_eq(k.as_str(), "thinking") && value_is_adaptive(&v) {
            let nv = rebuild_thinking(v, budget);
            out.push((k, nv));
        } else {
            out.push((k, v));
        }
    }
    *body = Json::Obj(out);
    proof {
        assert(adaptive_converted(b_in, *body, budget));
        assert forall|d: int|
            crate::json::json_within_depth(b_in, d) implies crate::json::json_within_depth(
            *body,
            d,
        ) by {
            let e1 = (*body)->Obj_0@;
            assert(d > 0);
            assert forall|k: int| 0 <= k < e1.len() implies crate::json::json_within_depth(
                (#[trigger] e1[k]).1,
                d - 1,
            ) by {
                assert(crate::json::json_within_depth(e0[k].1, d - 1));
                if e0[k].0@ == "thinking"@ && crate::json::type_is(e0[k].1, "adaptive"@) {
                    lemma_thinking_rewritten_within(e0[k].1, e1[k].1, budget, d - 1);
                } else {
                    assert(e1[k] == e0[k]);
                }
            }
        }
        if json_wf(b_in) {
            let e1 = (*body)->Obj_0@;
            assert forall|i: int| 0 <= i < e1.len() implies json_wf((#[trigger] e1[i]).1) by {
                assert(json_wf(e0[i].1));
            }
            assert forall|i: int, k: int| 0 <= i < k < e1.len() implies (#[trigger] e1[i]).0@ != (
            #[trigger] e1[k]).0@ by {
                assert(e0[i].0@ != e0[k].0@);
            }
            assert(json_wf(*body));
        }
    }
    Some(true)
}

} // verus!
