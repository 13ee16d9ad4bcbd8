//! Observability: per-request records, the bounded ring of finished
//! requests, per-backend aggregates, and the stream observer that follows
//! a streamed response chunk by chunk.

use vstd::prelude::*;

verus! {

/// A routing decision recorded for one request.
#[derive(Debug)]
pub struct RoutingDecision {
    /// The backend the request was routed to.
    pub backend: String,
    /// Why it was chosen.
    pub reason: String,
}

/// An analysis blob attached to a finished response.
#[derive(Debug)]
pub struct ResponseAnalysis {
    /// A short human-readable summary.
    pub summary: String,
    /// Input tokens reported by the upstream, if any.
    pub input_tokens: Option<u64>,
    /// Output tokens reported by the upstream, if any.
    pub output_tokens: Option<u64>,
    /// The reported stop reason, if any.
    pub stop_reason: Option<String>,
}

/// A backend override handed down by an observability plugin.
#[derive(Debug)]
pub struct BackendOverride {
    /// The backend to use instead of the active one.
    pub backend: String,
    /// Why.
    pub reason: String,
}

/// Per-request observability span data. All instants are in milliseconds
/// since the Unix epoch.
#[derive(Debug)]
pub struct RequestRecord {
    pub id: String,
    pub started_at_ms: u64,
    pub first_byte_at_ms: Option<u64>,
    pub completed_at_ms: Option<u64>,
    pub latency_ms: Option<u64>,
    pub ttfb_ms: Option<u64>,
    pub backend: String,
    pub status: Option<u16>,
    pub timed_out: bool,
    pub request_bytes: u64,
    pub response_bytes: u64,
}

impl RequestRecord {
    /// A fresh record for a request entering now.
    pub fn new(id: String, backend: String, started_at_ms: u64) -> (r: RequestRecord)
        ensures
            r.id@ == id@,
            r.backend@ == backend@,
            r.started_at_ms == started_at_ms,
            r.first_byte_at_ms is None,
            r.completed_at_ms is None,
            r.latency_ms is None,
            r.ttfb_ms is None,
            r.status is None,
            !r.timed_out,
            r.request_bytes == 0,
            r.response_bytes == 0,
    {
        RequestRecord {
            id,
            started_at_ms,
            first_byte_at_ms: None,
            completed_at_ms: None,
            latency_ms: None,
            ttfb_ms: None,
            backend,
            status: None,
            timed_out: false,
            request_bytes: 0,
            response_bytes: 0,
        }
    }
}

/// The token count under `usage` for a key, when the body carries one.
pub open spec fn usage_u64(j: crate::json::Json, key: Seq<char>) -> Option<u64> {
    match crate::json::json_get(j, "usage"@) {
        Some(u) => match crate::json::json_get(u, key) {
            Some(x) => crate::json::json_as_u64(x),
            None => None,
        },
        None => None,
    }
}

/// The body's top-level `stop_reason`, when it is a string.
pub open spec fn stop_reason_of(j: crate::json::Json) -> Option<Seq<char>> {
    match crate::json::json_get(j, "stop_reason"@) {
        Some(x) => crate::json::json_as_str(x),
        None => None,
    }
}

/// Reads usage and stop-reason data out of a buffered response body.
pub struct ResponseParser;

impl ResponseParser {
    pub fn new() -> (r: Self) {
        ResponseParser
    }

    /// Extract `usage.input_tokens`, `usage.output_tokens` and
    /// `stop_reason` from a JSON response body; a body that does not
    /// parse yields an analysis with every field empty.
    pub fn parse_response(&self, body: &[u8]) -> (r: ResponseAnalysis)
        ensures
            r.summary@.len() == 0,
            crate::json::json_parse_spec(body@) is None ==> r.input_tokens is None
                && r.output_tokens is None && r.stop_reason is None,
            crate::json::json_parse_spec(body@) matches Some(j) ==> r.input_tokens == usage_u64(
                j,
                "input_tokens"@,
            ) && r.output_tokens == usage_u64(j, "output_tokens"@) && (match r.stop_reason {
                Some(s) => stop_reason_of(j) == Some(s@),
                None => stop_reason_of(j) is None,
            }),
    {
        match crate::json::parse_json(body) {
            None => ResponseAnalysis {
                summary: String::new(),
                input_tokens: None,
                output_tokens: None,
                stop_reason: None,
            },
            Some(j) => {
                let input_tokens = match j.get("usage") {
                    Some(u) => match u.get("input_tokens") {
                        Some(x) => x.as_u64(),
                        None => None,
                    },
                    None => None,
                };
                let output_tokens = match j.get("usage") {
                    Some(u) => match u.get("output_tokens") {
                        Some(x) => x.as_u64(),
                        None => None,
                    },
                    None => None,
                };
                let stop_reason = match j.get("stop_reason") {
                    Some(x) => match x.as_str() {
                        Some(s) => Some(s.to_string()),
                        None => None,
                    },
                    None => None,
                };
                ResponseAnalysis { summary: String::new(), input_tokens, output_tokens, stop_reason }
            },
        }
    }
}

/// The life of a streamed response, as the observer sees it. The span is
/// finalized exactly once: on end of stream, on error, on idle timeout, or
/// when the response is dropped early — whichever comes first.
pub struct StreamObserver {
    record: RequestRecord,
    finalized: bool,
}

impl StreamObserver {
    pub closed spec fn spec_record(self) -> RequestRecord {
        self.record
    }

    pub closed spec fn spec_finalized(self) -> bool {
        self.finalized
    }

    /// Begin observing a stream for the given record.
    pub fn new(record: RequestRecord) -> (r: Self)
        ensures
            r.spec_record() == record,
            !r.spec_finalized(),
    {
        StreamObserver { record, finalized: false }
    }

    /// A chunk of `n` bytes arrived at time `now_ms`: the first byte
    /// timestamp is set once, and the response byte counter grows by `n`,
    /// saturating.
    pub fn on_chunk(&mut self, n: u64, now_ms: u64)
        requires
            !old(self).spec_finalized(),
        ensures
            !final(self).spec_finalized(),
            final(self).spec_record().first_byte_at_ms == (match old(
                self,
            ).spec_record().first_byte_at_ms {
                Some(t) => Some(t),
                None => Some(now_ms),
            }),
            final(self).spec_record().response_bytes == (if old(
                self,
            ).spec_record().response_bytes + n <= u64::MAX {
                old(self).spec_record().response_bytes + n
            } else {
                u64::MAX as int
            }),
            final(self).spec_record().timed_out == old(self).spec_record().timed_out,
            final(self).spec_record().id == old(self).spec_record().id,
            final(self).spec_record().backend == old(self).spec_record().backend,
            final(self).spec_record().status == old(self).spec_record().status,
            final(self).spec_record().started_at_ms == old(self).spec_record().started_at_ms,
    {
        if self.record.first_byte_at_ms.is_none() {
            self.record.first_byte_at_ms = Some(now_ms);
        }
        self.record.response_bytes = self.record.response_bytes.saturating_add(n);
    }

    /// No byte arrived within the idle window: the record is marked timed
    /// out and the span finalized.
    pub fn on_idle_timeout(&mut self, hub: &mut ObservabilityHub, now_ms: u64)
        requires
            !old(self).spec_finalized(),
        ensures
            final(self).spec_finalized(),
            final(self).spec_record().timed_out,
            hub_recorded(
                old(hub),
                final(hub),
                RequestRecord { timed_out: true, ..old(self).spec_record() },
                now_ms,
            ),
    {
        self.record.timed_out = true;
        self.finalized = true;
        let finished = RequestRecord {
            id: self.record.id.clone(),
            backend: self.record.backend.clone(),
            ..self.record
        };
        proof {
            assert(finished == (RequestRecord {
                timed_out: true,
                ..old(self).spec_record()
            })) by {
                assert(finished.id@ == self.record.id@);
            }
        }
        hub.finish_request(finished, now_ms);
    }

    /// The stream ended, with or without an upstream error: the span is
    /// finalized once.
    pub fn on_end(&mut self, hub: &mut ObservabilityHub, now_ms: u64)
        ensures
            final(self).spec_finalized(),
            old(self).spec_finalized() ==> *final(hub) == *old(hub) && *final(self) == *old(
                self,
            ),
            !old(self).spec_finalized() ==> hub_recorded(
                old(hub),
                final(hub),
                old(self).spec_record(),
                now_ms,
            ),
    {
        if self.finalized {
            return ;
        }
        self.finalized = true;
        let finished = RequestRecord {
            id: self.record.id.clone(),
            backend: self.record.backend.clone(),
            ..self.record
        };
        proof {
            assert(finished == old(self).spec_record()) by {
                assert(finished.id@ == self.record.id@);
            }
        }
        hub.finish_request(finished, now_ms);
    }
}

/// Per-backend aggregate counters.
#[derive(Debug, Clone, Copy, PartialEq, Eq, Structural)]
pub struct BackendAccumulator {
    pub total: u64,
    pub success_2xx: u64,
    pub client_error_4xx: u64,
    pub server_error_5xx: u64,
    pub timeouts: u64,
    pub latency_total_ms: u64,
    pub latency_samples: u64,
    pub ttfb_total_ms: u64,
    pub ttfb_samples: u64,
}

/// Saturating add on `u64`, as a spec value.
pub open spec fn sat_add64(a: u64, b: u64) -> int {
    if a + b <= u64::MAX {
        a + b
    } else {
        u64::MAX as int
    }
}

/// Saturating add on `u64`, staying in `u64`.
pub open spec fn sat_add_u64(a: u64, b: u64) -> u64 {
    if a + b <= u64::MAX {
        (a + b) as u64
    } else {
        u64::MAX
    }
}

/// The all-zero accumulator.
pub open spec fn acc_zero() -> BackendAccumulator {
    BackendAccumulator {
        total: 0,
        success_2xx: 0,
        client_error_4xx: 0,
        server_error_5xx: 0,
        timeouts: 0,
        latency_total_ms: 0,
        latency_samples: 0,
        ttfb_total_ms: 0,
        ttfb_samples: 0,
    }
}

/// One finished record folded into an accumulator: the status-class
/// counter, the timeout counter — a timed-out flag or a 504 both count —
/// and the latency and time-to-first-byte sums, all saturating.
pub open spec fn acc_updated(a: BackendAccumulator, record: RequestRecord) -> BackendAccumulator {
    BackendAccumulator {
        total: sat_add_u64(a.total, 1),
        success_2xx: if record.status matches Some(s) && 200 <= s < 300 {
            sat_add_u64(a.success_2xx, 1)
        } else {
            a.success_2xx
        },
        client_error_4xx: if record.status matches Some(s) && 400 <= s < 500 {
            sat_add_u64(a.client_error_4xx, 1)
        } else {
            a.client_error_4xx
        },
        server_error_5xx: if record.status matches Some(s) && 500 <= s < 600 {
            sat_add_u64(a.server_error_5xx, 1)
        } else {
            a.server_error_5xx
        },
        timeouts: if record.timed_out || record.status == Some(504u16) {
            sat_add_u64(a.timeouts, 1)
        } else {
            a.timeouts
        },
        latency_total_ms: match record.latency_ms {
            Some(l) => sat_add_u64(a.latency_total_ms, l),
            None => a.latency_total_ms,
        },
        latency_samples: match record.latency_ms {
            Some(_) => sat_add_u64(a.latency_samples, 1),
            None => a.latency_samples,
        },
        ttfb_total_ms: match record.ttfb_ms {
            Some(t) => sat_add_u64(a.ttfb_total_ms, t),
            None => a.ttfb_total_ms,
        },
        ttfb_samples: match record.ttfb_ms {
            Some(_) => sat_add_u64(a.ttfb_samples, 1),
            None => a.ttfb_samples,
        },
    }
}

impl BackendAccumulator {
    /// An empty accumulator.
    pub fn new() -> (r: Self)
        ensures
            r == acc_zero(),
            r.total == 0 && r.success_2xx == 0 && r.client_error_4xx == 0 && r.server_error_5xx
                == 0 && r.timeouts == 0 && r.latency_total_ms == 0 && r.latency_samples == 0
                && r.ttfb_total_ms == 0 && r.ttfb_samples == 0,
    {
        BackendAccumulator {
            total: 0,
            success_2xx: 0,
            client_error_4xx: 0,
            server_error_5xx: 0,
            timeouts: 0,
            latency_total_ms: 0,
            latency_samples: 0,
            ttfb_total_ms: 0,
            ttfb_samples: 0,
        }
    }

    /// Fold one finished record in: the status class counter, the timeout
    /// counter — a timed-out flag or a 504 both count — and the latency
    /// and time-to-first-byte sums, all saturating.
    pub fn update(&mut self, record: &RequestRecord)
        ensures
            *final(self) == acc_updated(*old(self), *record),
            final(self).total == sat_add64(old(self).total, 1),
            final(self).success_2xx == (if record.status matches Some(s) && 200 <= s < 300 {
                sat_add64(old(self).success_2xx, 1)
            } else {
                old(self).success_2xx as int
            }),
            final(self).client_error_4xx == (if record.status matches Some(s) && 400 <= s < 500 {
                sat_add64(old(self).client_error_4xx, 1)
            } else {
                old(self).client_error_4xx as int
            }),
            final(self).server_error_5xx == (if record.status matches Some(s) && 500 <= s < 600 {
                sat_add64(old(self).server_error_5xx, 1)
            } else {
                old(self).server_error_5xx as int
            }),
            final(self).timeouts == (if record.timed_out || record.status == Some(504u16) {
                sat_add64(old(self).timeouts, 1)
            } else {
                old(self).timeouts as int
            }),
            final(self).latency_total_ms == (match record.latency_ms {
                Some(l) => sat_add64(old(self).latency_total_ms, l),
                None => old(self).latency_total_ms as int,
            }),
            final(self).latency_samples == (match record.latency_ms {
                Some(_) => sat_add64(old(self).latency_samples, 1),
                None => old(self).latency_samples as int,
            }),
            final(self).ttfb_total_ms == (match record.ttfb_ms {
                Some(t) => sat_add64(old(self).ttfb_total_ms, t),
                None => old(self).ttfb_total_ms as int,
            }),
            final(self).ttfb_samples == (match record.ttfb_ms {
                Some(_) => sat_add64(old(self).ttfb_samples, 1),
                None => old(self).ttfb_samples as int,
            }),
    {
        self.total = self.total.saturating_add(1);
        match record.status {
            Some(s) => {
                if 200 <= s && s < 300 {
                    self.success_2xx = self.success_2xx.saturating_add(1);
                } else if 400 <= s && s < 500 {
                    self.client_error_4xx = self.client_error_4xx.saturating_add(1);
                } else if 500 <= s && s < 600 {
                    self.server_error_5xx = self.server_error_5xx.saturating_add(1);
                }
            },
            None => (),
        }
        if record.timed_out || record.status == Some(504) {
            self.timeouts = self.timeouts.saturating_add(1);
        }
        match record.latency_ms {
            Some(l) => {
                self.latency_total_ms = self.latency_total_ms.saturating_add(l);
                self.latency_samples = self.latency_samples.saturating_add(1);
            },
            None => (),
        }
        match record.ttfb_ms {
            Some(t) => {
                self.ttfb_total_ms = self.ttfb_total_ms.saturating_add(t);
                self.ttfb_samples = self.ttfb_samples.saturating_add(1);
            },
            None => (),
        }
        proof {
            assert(*self == acc_updated(*old(self), *record));
        }
    }

    /// Average latency in whole milliseconds; zero without samples.
    pub fn avg_latency_ms(&self) -> (r: u64)
        ensures
            self.latency_samples == 0 ==> r == 0,
            self.latency_samples > 0 ==> r == self.latency_total_ms as int
                / self.latency_samples as int,
    {
        if self.latency_samples == 0 {
            0
        } else {
            self.latency_total_ms / self.latency_samples
        }
    }

    /// Average time to first byte in whole milliseconds; zero without
    /// samples.
    pub fn avg_ttfb_ms(&self) -> (r: u64)
        ensures
            self.ttfb_samples == 0 ==> r == 0,
            self.ttfb_samples > 0 ==> r == self.ttfb_total_ms as int / self.ttfb_samples as int,
    {
        if self.ttfb_samples == 0 {
            0
        } else {
            self.ttfb_total_ms / self.ttfb_samples
        }
    }
}

/// The value at the given percentile of a sorted latency list: the rank is
/// `round((len - 1) * numerator / denominator)`.
pub open spec fn percentile_rank(len: int, num: int, den: int) -> int {
    ((len - 1) * num + den / 2) / den
}

/// The latency at a percentile, expressed as `num / den`, of a sorted
/// list; `None` when the list is empty.
pub fn percentile(values: &Vec<u64>, num: u64, den: u64) -> (r: Option<u64>)
    requires
        den > 0,
        num <= den,
        (values@.len() as int - 1) * num + den / 2 <= u64::MAX,
    ensures
        values@.len() == 0 <==> r is None,
        values@.len() > 0 ==> r == Some(
            values@[percentile_rank(values@.len() as int, num as int, den as int)],
        ),
{
    if values.len() == 0 {
        return None;
    }
    proof {
        assert(values@.len() >= 1);
        vstd::arithmetic::mul::lemma_mul_inequality(
            num as int,
            den as int,
            (values@.len() - 1) as int,
        );
        vstd::arithmetic::div_mod::lemma_div_pos_is_pos(
            ((values@.len() - 1) * num + den / 2) as int,
            den as int,
        );
        vstd::arithmetic::mul::lemma_mul_is_commutative(
            num as int,
            (values@.len() - 1) as int,
        );
        assert((values@.len() - 1) * num <= (values@.len() - 1) * den);
        vstd::arithmetic::div_mod::lemma_div_is_ordered(
            ((values@.len() - 1) * num + den / 2) as int,
            ((values@.len() - 1) * den + den / 2) as int,
            den as int,
        );
        vstd::arithmetic::mul::lemma_mul_is_commutative(
            den as int,
            (values@.len() - 1) as int,
        );
        vstd::arithmetic::div_mod::lemma_hoist_over_denominator(
            (den / 2) as int,
            (values@.len() - 1) as int,
            den as nat,
        );
        assert(((values@.len() - 1) * den + den / 2) / (den as int) == (values@.len() - 1) + ((
        den as int) / 2) / (den as int));
        assert(((den as int) / 2) / (den as int) == 0) by {
            vstd::arithmetic::div_mod::lemma_basic_div((den as int) / 2, den as int);
        }
    }
    let len_minus = (values.len() - 1) as u64;
    let rank_num = len_minus.checked_mul(num);
    let rank: usize = match rank_num {
        Some(p) => {
            let q = p.checked_add(den / 2);
            match q {
                Some(t) => (t / den) as usize,
                None => {
                    proof {
                        assert(false);
                    }
                    0
                },
            }
        },
        None => {
            proof {
                assert(false);
            }
            0
        },
    };
    proof {
        assert(rank == percentile_rank(values@.len() as int, num as int, den as int));
        assert(0 <= rank < values@.len());
    }
    Some(values[rank])
}

/// Whether the new hub state records `record` finished at `now_ms` on top
/// of the old one: the ring has it appended — dropping the oldest entry
/// when full — and its backend's aggregate was folded.
pub open spec fn hub_recorded(
    h0: &ObservabilityHub,
    h1: &ObservabilityHub,
    record: RequestRecord,
    now_ms: u64,
) -> bool {
    let completed = RequestRecord {
        completed_at_ms: Some(now_ms),
        latency_ms: Some(((if now_ms >= record.started_at_ms {
            now_ms - record.started_at_ms
        } else {
            0
        }) as u64)),
        ttfb_ms: match record.first_byte_at_ms {
            Some(fb) => Some(
                ((if fb >= record.started_at_ms {
                    fb - record.started_at_ms
                } else {
                    0
                }) as u64),
            ),
            None => record.ttfb_ms,
        },
        ..record
    };
    &&& h1.spec_ring() == ring_push_record(h0.spec_ring(), h0.spec_capacity(), completed)
    &&& h1.spec_capacity() == h0.spec_capacity()
    &&& h1.spec_aggregates() == aggregates_folded(h0.spec_aggregates(), completed)
}

/// One finished record folded into the per-backend aggregates: the first
/// entry keyed by the record's backend is updated; when none exists a
/// fresh accumulator for that backend is appended.
pub open spec fn aggregates_folded(
    aggs: Seq<(Seq<char>, BackendAccumulator)>,
    record: RequestRecord,
) -> Seq<(Seq<char>, BackendAccumulator)>
    decreases aggs.len(),
{
    if aggs.len() == 0 {
        seq![(record.backend@, acc_updated(acc_zero(), record))]
    } else if aggs[0].0 == record.backend@ {
        seq![(aggs[0].0, acc_updated(aggs[0].1, record))] + aggs.drop_first()
    } else {
        seq![aggs[0]] + aggregates_folded(aggs.drop_first(), record)
    }
}

/// Folding skips every leading entry whose key is not the record's
/// backend.
proof fn lemma_aggregates_folded_skip(
    aggs: Seq<(Seq<char>, BackendAccumulator)>,
    record: RequestRecord,
    i: int,
)
    requires
        0 <= i <= aggs.len(),
        forall|k: int| 0 <= k < i ==> (#[trigger] aggs[k]).0 != record.backend@,
    ensures
        aggregates_folded(aggs, record) == aggs.take(i) + aggregates_folded(
            aggs.skip(i),
            record,
        ),
    decreases i,
{
    if i == 0 {
        assert(aggs.skip(0) =~= aggs);
        assert(aggs.take(0) + aggregates_folded(aggs, record) =~= aggregates_folded(
            aggs,
            record,
        ));
    } else {
        assert(aggs[0].0 != record.backend@);
        lemma_aggregates_folded_skip(aggs.drop_first(), record, i - 1);
        assert(aggs.drop_first().take(i - 1) =~= aggs.take(i).drop_first());
        assert(aggs.drop_first().skip(i - 1) =~= aggs.skip(i));
        assert(aggregates_folded(aggs, record) =~= aggs.take(i) + aggregates_folded(
            aggs.skip(i),
            record,
        ));
    }
}

/// Ring semantics: append, dropping the oldest entry exactly when full.
pub open spec fn ring_push_record(
    ring: Seq<RequestRecord>,
    capacity: nat,
    r: RequestRecord,
) -> Seq<RequestRecord> {
    if ring.len() >= capacity && ring.len() > 0 {
        ring.drop_first().push(r)
    } else {
        ring.push(r)
    }
}

/// The observability hub: the ring of finished request records, bounded by
/// its capacity, and one aggregate per backend.
pub struct ObservabilityHub {
    capacity: usize,
    ring: Vec<RequestRecord>,
    aggregates: Vec<(String, BackendAccumulator)>,
}

impl ObservabilityHub {
    pub closed spec fn spec_ring(self) -> Seq<RequestRecord> {
        self.ring@
    }

    pub closed spec fn spec_capacity(self) -> nat {
        self.capacity as nat
    }

    /// One aggregate per backend name, in order of first use.
    pub closed spec fn spec_aggregates(self) -> Seq<(Seq<char>, BackendAccumulator)> {
        self.aggregates@.map_values(|p: (String, BackendAccumulator)| (p.0@, p.1))
    }

    /// A hub that retains the last `capacity` records.
    pub fn new(capacity: usize) -> (r: Self)
        ensures
            r.spec_ring() == Seq::<RequestRecord>::empty(),
            r.spec_capacity() == capacity,
            r.spec_aggregates() == Seq::<(Seq<char>, BackendAccumulator)>::empty(),
    {
        let r = ObservabilityHub { capacity, ring: Vec::new(), aggregates: Vec::new() };
        proof {
            assert(r.spec_ring() =~= Seq::<RequestRecord>::empty());
            assert(r.spec_aggregates() =~= Seq::<(Seq<char>, BackendAccumulator)>::empty());
        }
        r
    }

    /// Open a span: a fresh record for the request, stamped now.
    pub fn start_request(&self, id: String, backend: String, now_ms: u64) -> (r: RequestRecord)
        ensures
            r.id@ == id@,
            r.backend@ == backend@,
            r.started_at_ms == now_ms,
            !r.timed_out,
            r.status is None,
            r.first_byte_at_ms is None,
            r.completed_at_ms is None,
            r.latency_ms is None,
            r.ttfb_ms is None,
            r.request_bytes == 0,
            r.response_bytes == 0,
    {
        RequestRecord::new(id, backend, now_ms)
    }

    /// Close a span: completion and latency stamps are filled in from
    /// `now_ms`, the backend aggregate is folded, and the record enters
    /// the ring, evicting the oldest when full.
    pub fn finish_request(&mut self, record: RequestRecord, now_ms: u64)
        ensures
            hub_recorded(old(self), final(self), record, now_ms),
    {
        let latency = if now_ms >= record.started_at_ms {
            now_ms - record.started_at_ms
        } else {
            0
        };
        let ttfb: Option<u64> = match record.first_byte_at_ms {
            Some(fb) => Some(
                if fb >= record.started_at_ms {
                    fb - record.started_at_ms
                } else {
                    0
                },
            ),
            None => record.ttfb_ms,
        };
        let completed = RequestRecord {
            completed_at_ms: Some(now_ms),
            latency_ms: Some(latency),
            ttfb_ms: ttfb,
            ..record
        };
        self.update_aggregates(&completed);
        if self.ring.len() >= self.capacity && self.ring.len() > 0 {
            self.ring.remove(0);
        }
        self.ring.push(completed);
        proof {
            assert(self.spec_ring() =~= ring_push_record(
                old(self).spec_ring(),
                old(self).spec_capacity(),
                RequestRecord {
                    completed_at_ms: Some(now_ms),
                    latency_ms: Some(latency),
                    ttfb_ms: ttfb,
                    ..record
                },
            ));
            assert(self.spec_aggregates() == aggregates_folded(
                old(self).spec_aggregates(),
                RequestRecord {
                    completed_at_ms: Some(now_ms),
                    latency_ms: Some(latency),
                    ttfb_ms: ttfb,
                    ..record
                },
            ));
        }
    }

    /// Fold a finished record into its backend's accumulator, creating the
    /// accumulator on first use.
    fn update_aggregates(&mut self, record: &RequestRecord)
        ensures
            final(self).spec_ring() == old(self).spec_ring(),
            final(self).spec_capacity() == old(self).spec_capacity(),
            final(self).spec_aggregates() == aggregates_folded(
                old(self).spec_aggregates(),
                *record,
            ),
    {
        let mut i: usize = 0;
        while i < self.aggregates.len()
            invariant
                i <= self.aggregates@.len(),
                *self == *old(self),
                forall|k: int| 0 <= k < i ==> (#[trigger] self.aggregates@[k]).0@
                    != record.backend@,
            decreases self.aggregates@.len() - i,
        {
            if crate::strutil::str_eq(self.aggregates[i].0.as_str(), record.backend.as_str()) {
                let mut acc = self.aggregates[i].1;
                acc.update(record);
                let key = self.aggregates[i].0.clone();
                self.aggregates[i] = (key, acc);
                proof {
                    let m0 = old(self).spec_aggregates();
                    lemma_aggregates_folded_skip(m0, *record, i as int);
                    assert(m0.skip(i as int)[0] == m0[i as int]);
                    assert(m0[i as int].0 == record.backend@);
                    assert(aggregates_folded(m0.skip(i as int), *record) =~= seq![
                        (m0[i as int].0, acc_updated(m0[i as int].1, *record)),
                    ] + m0.skip(i as int).drop_first());
                    assert(self.spec_aggregates() =~= aggregates_folded(m0, *record));
                }
                return ;
            }
            i = i + 1;
        }
        let mut acc = BackendAccumulator::new();
        acc.update(record);
        self.aggregates.push((record.backend.clone(), acc));
        proof {
            let m0 = old(self).spec_aggregates();
            lemma_aggregates_folded_skip(m0, *record, m0.len() as int);
            assert(m0.skip(m0.len() as int) =~= Seq::<(Seq<char>, BackendAccumulator)>::empty());
            assert(m0.take(m0.len() as int) =~= m0);
            assert(self.spec_aggregates() =~= aggregates_folded(m0, *record));
        }
    }

    /// The accumulator recorded for a backend, if any.
    pub fn aggregate_for(&self, backend: &str) -> (r: Option<BackendAccumulator>)
        ensures
            match r {
                Some(acc) => exists|i: int|
                    0 <= i < self.spec_aggregates().len() && (
                    #[trigger] self.spec_aggregates()[i]).0 == backend@
                        && self.spec_aggregates()[i].1 == acc,
                None => forall|i: int|
                    0 <= i < self.spec_aggregates().len() ==> (
                    #[trigger] self.spec_aggregates()[i]).0 != backend@,
            },
    {
        let mut i: usize = 0;
        while i < self.aggregates.len()
            invariant
                i <= self.aggregates@.len(),
                forall|k: int| 0 <= k < i ==> (#[trigger] self.aggregates@[k]).0@ != backend@,
            decreases self.aggregates@.len() - i,
        {
            if crate::strutil::str_eq(self.aggregates[i].0.as_str(), backend) {
                proof {
                    assert((self.spec_aggregates()[i as int]).0 == backend@);
                }
                return Some(self.aggregates[i].1);
            }
            i = i + 1;
        }
        proof {
            assert(forall|k: int| 0 <= k < self.spec_aggregates().len() ==> (
            #[trigger] self.spec_aggregates()[k]).0 == self.aggregates@[k].0@);
        }
        None
    }

    /// How many records the ring holds.
    pub fn ring_len(&self) -> (r: usize)
        ensures
            r == self.spec_ring().len(),
    {
        self.ring.len()
    }

    /// The `i`-th record of the ring, oldest first.
    pub fn nth_record(&self, i: usize) -> (r: Option<&RequestRecord>)
        ensures
            match r {
                Some(rec) => i < self.spec_ring().len() && *rec == self.spec_ring()[i as int],
                None => i >= self.spec_ring().len(),
            },
    {
        if i < self.ring.len() {
            Some(&self.ring[i])
        } else {
            None
        }
    }
}

} // verus!
