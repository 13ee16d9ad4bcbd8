//! Application-level error tracking: severity, categories, recovery
//! operations and graceful feature degradation.

use vstd::prelude::*;

verus! {

/// Severity level of an application error.
#[derive(Debug, Clone, Copy, PartialEq, Eq, Structural, PartialOrd, Ord)]
pub enum ErrorSeverity {
    /// Informational; no action needed.
    Info,
    /// Degraded but functional.
    Warning,
    /// A feature is unavailable.
    Error,
    /// The application is unstable.
    Critical,
}

/// Numeric rank of a severity, used to compare severities in contracts and
/// code: `Info < Warning < Error < Critical`.
pub open spec fn severity_rank(s: ErrorSeverity) -> int {
    match s {
        ErrorSeverity::Info => 0,
        ErrorSeverity::Warning => 1,
        ErrorSeverity::Error => 2,
        ErrorSeverity::Critical => 3,
    }
}

impl ErrorSeverity {
    /// The rank as an executable value.
    pub fn rank(&self) -> (r: u8)
        ensures
            r == severity_rank(*self),
    {
        match self {
            ErrorSeverity::Info => 0,
            ErrorSeverity::Warning => 1,
            ErrorSeverity::Error => 2,
            ErrorSeverity::Critical => 3,
        }
    }
}

/// Category of an error, used for filtering and display.
#[derive(Debug, Clone, Copy, PartialEq, Eq, Structural, Hash)]
pub enum ErrorCategory {
    /// Child process and terminal issues.
    Process,
    /// Network, proxy and upstream issues.
    Network,
    /// Configuration issues.
    Config,
    /// Backend issues.
    Backend,
    /// Inter-process communication issues.
    Ipc,
    /// General system issues.
    System,
}

/// A feature that can be degraded at runtime.
#[derive(Debug, Clone, Copy, PartialEq, Eq, Structural, Hash)]
pub enum Feature {
    /// Metrics collection.
    Metrics,
    /// Clipboard access.
    Clipboard,
    /// Configuration hot-reload.
    ConfigHotReload,
    /// Backend switching.
    BackendSwitch,
}

/// An application error with user-facing messaging.
#[derive(Debug, Clone, PartialEq)]
pub struct AppError {
    /// Unique identifier of this error instance.
    pub id: u64,
    /// When the error occurred, in milliseconds since the Unix epoch.
    pub timestamp_ms: u64,
    /// Severity level.
    pub severity: ErrorSeverity,
    /// Category.
    pub category: ErrorCategory,
    /// User-facing message.
    pub message: String,
    /// Technical details for the diagnostics panel.
    pub details: Option<String>,
    /// Suggestion shown to the user for recovering.
    pub recovery_hint: Option<String>,
    /// Whether the user has acknowledged the error.
    pub acknowledged: bool,
}

/// Mathematical image of an `AppError`, with strings as character sequences.
pub struct AppErrorModel {
    pub id: u64,
    pub timestamp_ms: u64,
    pub severity: ErrorSeverity,
    pub category: ErrorCategory,
    pub message: Seq<char>,
    pub details: Option<Seq<char>>,
    pub recovery_hint: Option<Seq<char>>,
    pub acknowledged: bool,
}

impl AppError {
    pub open spec fn model(self) -> AppErrorModel {
        AppErrorModel {
            id: self.id,
            timestamp_ms: self.timestamp_ms,
            severity: self.severity,
            category: self.category,
            message: self.message@,
            details: match self.details {
                Some(d) => Some(d@),
                None => None,
            },
            recovery_hint: match self.recovery_hint {
                Some(h) => Some(h@),
                None => None,
            },
            acknowledged: self.acknowledged,
        }
    }

    /// A field-by-field copy whose model equals this error's model.
    pub fn duplicate(&self) -> (r: AppError)
        ensures
            r.model() == self.model(),
    {
        AppError {
            id: self.id,
            timestamp_ms: self.timestamp_ms,
            severity: self.severity,
            category: self.category,
            message: self.message.clone(),
            details: match &self.details {
                Some(d) => Some(d.clone()),
                None => None,
            },
            recovery_hint: match &self.recovery_hint {
                Some(h) => Some(h.clone()),
                None => None,
            },
            acknowledged: self.acknowledged,
        }
    }
}

/// State of one automatic recovery operation.
#[derive(Debug, Clone, PartialEq)]
pub struct RecoveryState {
    /// What is being recovered.
    pub operation: String,
    /// Current attempt number.
    pub attempt: u32,
    /// Maximum attempts before giving up.
    pub max_attempts: u32,
    /// When the next retry will occur, in milliseconds since the Unix epoch.
    pub next_retry_ms: Option<u64>,
    /// Whether the recovery succeeded.
    pub succeeded: bool,
}

/// Mathematical image of a `RecoveryState`.
pub struct RecoveryModel {
    pub operation: Seq<char>,
    pub attempt: u32,
    pub max_attempts: u32,
    pub next_retry_ms: Option<u64>,
    pub succeeded: bool,
}

impl RecoveryState {
    pub open spec fn model(self) -> RecoveryModel {
        RecoveryModel {
            operation: self.operation@,
            attempt: self.attempt,
            max_attempts: self.max_attempts,
            next_retry_ms: self.next_retry_ms,
            succeeded: self.succeeded,
        }
    }

    /// A field-by-field copy whose model equals this state's model.
    pub fn duplicate(&self) -> (r: RecoveryState)
        ensures
            r.model() == self.model(),
    {
        RecoveryState {
            operation: self.operation.clone(),
            attempt: self.attempt,
            max_attempts: self.max_attempts,
            next_retry_ms: self.next_retry_ms,
            succeeded: self.succeeded,
        }
    }
}

/// The next id after `n`, saturating at the largest id.
pub open spec fn bump_id(n: u64) -> u64 {
    if n == u64::MAX {
        n
    } else {
        (n + 1) as u64
    }
}

/// The models of a list of errors, in order.
pub open spec fn err_models(s: Seq<AppError>) -> Seq<AppErrorModel> {
    Seq::new(s.len(), |i: int| s[i].model())
}

/// The models of a list of recovery states, in order.
pub open spec fn rec_models(s: Seq<RecoveryState>) -> Seq<RecoveryModel> {
    Seq::new(s.len(), |i: int| s[i].model())
}

/// The errors of one category, in order.
pub open spec fn errors_of_category(s: Seq<AppErrorModel>, c: ErrorCategory) -> Seq<
    AppErrorModel,
> {
    s.filter(|e: AppErrorModel| e.category == c)
}

/// The errors whose timestamp is at or after the cutoff, in order.
pub open spec fn kept_after(s: Seq<AppErrorModel>, cutoff: u64) -> Seq<AppErrorModel> {
    s.filter(|e: AppErrorModel| e.timestamp_ms >= cutoff)
}

/// The recoveries whose operation differs from `op`, in order.
pub open spec fn recs_other_than(s: Seq<RecoveryModel>, op: Seq<char>) -> Seq<RecoveryModel> {
    s.filter(|r: RecoveryModel| r.operation != op)
}

proof fn lemma_cat_step(s: Seq<AppErrorModel>, c: ErrorCategory, i: int)
    requires
        0 <= i < s.len(),
    ensures
        errors_of_category(s.take(i + 1), c) == if s[i].category == c {
            errors_of_category(s.take(i), c).push(s[i])
        } else {
            errors_of_category(s.take(i), c)
        },
{
    reveal_with_fuel(Seq::<AppErrorModel>::filter, 2);
    assert(s.take(i + 1).drop_last() =~= s.take(i));
    assert(s.take(i + 1).last() == s[i]);
}

proof fn lemma_kept_step(s: Seq<AppErrorModel>, cutoff: u64, i: int)
    requires
        0 <= i < s.len(),
    ensures
        kept_after(s.take(i + 1), cutoff) == if s[i].timestamp_ms >= cutoff {
            kept_after(s.take(i), cutoff).push(s[i])
        } else {
            kept_after(s.take(i), cutoff)
        },
{
    reveal_with_fuel(Seq::<AppErrorModel>::filter, 2);
    assert(s.take(i + 1).drop_last() =~= s.take(i));
    assert(s.take(i + 1).last() == s[i]);
}

proof fn lemma_recs_step(s: Seq<RecoveryModel>, op: Seq<char>, i: int)
    requires
        0 <= i < s.len(),
    ensures
        recs_other_than(s.take(i + 1), op) == if s[i].operation != op {
            recs_other_than(s.take(i), op).push(s[i])
        } else {
            recs_other_than(s.take(i), op)
        },
{
    reveal_with_fuel(Seq::<RecoveryModel>::filter, 2);
    assert(s.take(i + 1).drop_last() =~= s.take(i));
    assert(s.take(i + 1).last() == s[i]);
}

/// What the error list looks like after pushing `e` into a ring of the given
/// capacity: the oldest entry is dropped exactly when the list is full.
pub open spec fn ring_push(errors: Seq<AppErrorModel>, capacity: nat, e: AppErrorModel) -> Seq<
    AppErrorModel,
> {
    if errors.len() == capacity && errors.len() > 0 {
        errors.drop_first().push(e)
    } else {
        errors.push(e)
    }
}

/// Error registry: a bounded list of recent errors, the active recovery
/// operations, an overall health flag, and the set of degraded features.
pub struct ErrorRegistry {
    next_id: u64,
    errors: Vec<AppError>,
    capacity: usize,
    recoveries: Vec<RecoveryState>,
    healthy: bool,
    unhealthy_reason: Option<String>,
    degraded_features: Vec<Feature>,
}

impl ErrorRegistry {
    /// The recorded errors, as models, oldest first.
    pub closed spec fn errors_model(self) -> Seq<AppErrorModel> {
        err_models(self.errors@)
    }

    /// The active recovery operations, as models.
    pub closed spec fn recoveries_model(self) -> Seq<RecoveryModel> {
        rec_models(self.recoveries@)
    }

    pub closed spec fn spec_capacity(self) -> nat {
        self.capacity as nat
    }

    pub closed spec fn spec_next_id(self) -> u64 {
        self.next_id
    }

    pub closed spec fn spec_healthy(self) -> bool {
        self.healthy
    }

    pub closed spec fn degraded_model(self) -> Seq<Feature> {
        self.degraded_features@
    }

    /// An error counts against health while it is unacknowledged and at
    /// least a warning.
    pub open spec fn is_active_warning(e: AppErrorModel) -> bool {
        !e.acknowledged && severity_rank(e.severity) >= 1
    }

    /// Create a registry that retains at most `capacity` errors.
    pub fn new(capacity: usize) -> (r: Self)
        ensures
            r.spec_next_id() == 1,
            r.errors_model() == Seq::<AppErrorModel>::empty(),
            r.spec_capacity() == capacity,
            r.recoveries_model() == Seq::<RecoveryModel>::empty(),
            r.spec_healthy(),
            r.degraded_model() == Seq::<Feature>::empty(),
    {
        let r = ErrorRegistry {
            next_id: 1,
            errors: Vec::new(),
            capacity,
            recoveries: Vec::new(),
            healthy: true,
            unhealthy_reason: None,
            degraded_features: Vec::new(),
        };
        proof {
            assert(r.errors_model() =~= Seq::<AppErrorModel>::empty());
            assert(r.recoveries_model() =~= Seq::<RecoveryModel>::empty());
        }
        r
    }

    /// Record a new error with message only.
    pub fn record(
        &mut self,
        severity: ErrorSeverity,
        category: ErrorCategory,
        message: &str,
    ) -> (id: u64)
        ensures
            id == old(self).spec_next_id(),
            final(self).spec_next_id() == bump_id(old(self).spec_next_id()),
            final(self).spec_capacity() == old(self).spec_capacity(),
            exists|e: AppErrorModel|
                {
                    &&& e.id == id
                    &&& e.severity == severity
                    &&& e.category == category
                    &&& e.message == message@
                    &&& e.details is None
                    &&& e.recovery_hint is None
                    &&& !e.acknowledged
                    &&& final(self).errors_model() == ring_push(
                        old(self).errors_model(),
                        old(self).spec_capacity(),
                        e,
                    )
                },
            severity_rank(severity) >= 2 ==> !final(self).spec_healthy(),
            severity_rank(severity) < 2 ==> final(self).spec_healthy() == old(
                self,
            ).spec_healthy(),
            final(self).recoveries_model() == old(self).recoveries_model(),
            final(self).degraded_model() == old(self).degraded_model(),
    {
        self.record_with_details(severity, category, message, None)
    }

    /// Record a new error with optional technical details.
    pub fn record_with_details(
        &mut self,
        severity: ErrorSeverity,
        category: ErrorCategory,
        message: &str,
        details: Option<&str>,
    ) -> (id: u64)
        ensures
            id == old(self).spec_next_id(),
            final(self).spec_next_id() == bump_id(old(self).spec_next_id()),
            final(self).spec_capacity() == old(self).spec_capacity(),
            exists|e: AppErrorModel|
                {
                    &&& e.id == id
                    &&& e.severity == severity
                    &&& e.category == category
                    &&& e.message == message@
                    &&& e.details == (match details {
                        Some(d) => Some(d@),
                        None => None,
                    })
                    &&& e.recovery_hint is None
                    &&& !e.acknowledged
                    &&& final(self).errors_model() == ring_push(
                        old(self).errors_model(),
                        old(self).spec_capacity(),
                        e,
                    )
                },
            severity_rank(severity) >= 2 ==> !final(self).spec_healthy(),
            severity_rank(severity) < 2 ==> final(self).spec_healthy() == old(
                self,
            ).spec_healthy(),
            final(self).recoveries_model() == old(self).recoveries_model(),
            final(self).degraded_model() == old(self).degraded_model(),
    {
        let error = AppError {
            id: self.next_id,
            timestamp_ms: crate::clock::now_millis(),
            severity,
            category,
            message: message.to_owned(),
            details: match details {
                Some(d) => Some(d.to_owned()),
                None => None,
            },
            recovery_hint: None,
            acknowledged: false,
        };
        self.push_error(error)
    }

    /// Record a new error with details and a recovery hint.
    pub fn record_with_hint(
        &mut self,
        severity: ErrorSeverity,
        category: ErrorCategory,
        message: &str,
        details: Option<&str>,
        recovery_hint: &str,
    ) -> (id: u64)
        ensures
            id == old(self).spec_next_id(),
            final(self).spec_next_id() == bump_id(old(self).spec_next_id()),
            final(self).spec_capacity() == old(self).spec_capacity(),
            exists|e: AppErrorModel|
                {
                    &&& e.id == id
                    &&& e.severity == severity
                    &&& e.category == category
                    &&& e.message == message@
                    &&& e.recovery_hint == Some(recovery_hint@)
                    &&& !e.acknowledged
                    &&& final(self).errors_model() == ring_push(
                        old(self).errors_model(),
                        old(self).spec_capacity(),
                        e,
                    )
                },
            severity_rank(severity) >= 2 ==> !final(self).spec_healthy(),
            severity_rank(severity) < 2 ==> final(self).spec_healthy() == old(
                self,
            ).spec_healthy(),
            final(self).recoveries_model() == old(self).recoveries_model(),
            final(self).degraded_model() == old(self).degraded_model(),
    {
        let error = AppError {
            id: self.next_id,
            timestamp_ms: crate::clock::now_millis(),
            severity,
            category,
            message: message.to_owned(),
            details: match details {
                Some(d) => Some(d.to_owned()),
                None => None,
            },
            recovery_hint: Some(recovery_hint.to_owned()),
            acknowledged: false,
        };
        self.push_error(error)
    }

    /// Shared tail of the record operations: bump the id, update health for
    /// severe errors, and push into the bounded list.
    fn push_error(&mut self, error: AppError) -> (id: u64)
        requires
            error.id == old(self).spec_next_id(),
            !error.acknowledged,
        ensures
            id == old(self).spec_next_id(),
            final(self).spec_next_id() == bump_id(old(self).spec_next_id()),
            final(self).spec_capacity() == old(self).spec_capacity(),
            final(self).errors_model() == ring_push(
                old(self).errors_model(),
                old(self).spec_capacity(),
                error.model(),
            ),
            severity_rank(error.severity) >= 2 ==> !final(self).spec_healthy(),
            severity_rank(error.severity) < 2 ==> final(self).spec_healthy() == old(
                self,
            ).spec_healthy(),
            final(self).recoveries_model() == old(self).recoveries_model(),
            final(self).degraded_model() == old(self).degraded_model(),
    {
        let id = self.next_id;
        self.next_id = self.next_id.saturating_add(1);

        if error.severity.rank() >= 2 {
            self.healthy = false;
            self.unhealthy_reason = Some(error.message.clone());
        }

        if self.errors.len() == self.capacity && self.errors.len() > 0 {
            self.errors.remove(0);
        }
        self.errors.push(error);
        proof {
            assert(self.errors_model() =~= ring_push(
                old(self).errors_model(),
                old(self).spec_capacity(),
                error.model(),
            ));
        }
        id
    }

    /// The most recent unacknowledged error of at least warning severity,
    /// for the header display.
    pub fn current_error(&self) -> (r: Option<AppError>)
        ensures
            r is None ==> forall|i: int|
                0 <= i < self.errors_model().len() ==> !Self::is_active_warning(
                    #[trigger] self.errors_model()[i],
                ),
            r matches Some(e) ==> exists|i: int|
                {
                    &&& 0 <= i < self.errors_model().len()
                    &&& e.model() == self.errors_model()[i]
                    &&& Self::is_active_warning(#[trigger] self.errors_model()[i])
                    &&& forall|j: int|
                        i < j < self.errors_model().len() ==> !Self::is_active_warning(
                            #[trigger] self.errors_model()[j],
                        )
                },
    {
        let mut k: usize = self.errors.len();
        while k > 0
            invariant
                k <= self.errors.len(),
                forall|j: int|
                    k <= j < self.errors_model().len() ==> !Self::is_active_warning(
                        #[trigger] self.errors_model()[j],
                    ),
            decreases k,
        {
            k = k - 1;
            let e = &self.errors[k];
            if !e.acknowledged && e.severity.rank() >= 1 {
                let out = e.duplicate();
                proof {
                    assert(self.errors_model()[k as int] == self.errors@[k as int].model());
                    assert(Self::is_active_warning(self.errors_model()[k as int]));
                }
                return Some(out);
            }
            proof {
                assert(self.errors_model()[k as int] == self.errors@[k as int].model());
            }
        }
        None
    }

    /// All retained errors, oldest first.
    pub fn all_errors(&self) -> (r: Vec<AppError>)
        ensures
            err_models(r@) == self.errors_model(),
    {
        let mut out: Vec<AppError> = Vec::new();
        let mut i: usize = 0;
        while i < self.errors.len()
            invariant
                i <= self.errors.len(),
                err_models(out@) =~= self.errors_model().take(i as int),
            decreases self.errors.len() - i,
        {
            let ghost prev = out@;
            let dup = self.errors[i].duplicate();
            out.push(dup);
            proof {
                assert(err_models(prev).len() == prev.len());
                assert(self.errors_model().len() == self.errors@.len());
                assert(out@ == prev.push(dup));
                assert forall|j: int| 0 <= j < out@.len() implies err_models(out@)[j]
                    == self.errors_model().take(i + 1)[j] by {
                    assert(err_models(out@)[j] == out@[j].model());
                    if j < prev.len() {
                        assert(out@[j] == prev[j]);
                        assert(err_models(prev)[j] == prev[j].model());
                    } else {
                        assert(out@[j] == dup);
                        assert(self.errors_model()[i as int] == self.errors@[i as int].model());
                    }
                }
                assert(err_models(out@) =~= self.errors_model().take(i + 1));
            }
            i = i + 1;
        }
        proof {
            assert(self.errors_model().take(self.errors@.len() as int) =~= self.errors_model());
        }
        out
    }

    /// The retained errors of one category, oldest first.
    pub fn errors_by_category(&self, category: ErrorCategory) -> (r: Vec<AppError>)
        ensures
            err_models(r@) == errors_of_category(self.errors_model(), category),
    {
        let mut out: Vec<AppError> = Vec::new();
        let mut i: usize = 0;
        while i < self.errors.len()
            invariant
                i <= self.errors.len(),
                err_models(out@) =~= errors_of_category(
                    self.errors_model().take(i as int),
                    category,
                ),
            decreases self.errors.len() - i,
        {
            proof {
                lemma_cat_step(self.errors_model(), category, i as int);
                assert(self.errors_model()[i as int] == self.errors@[i as int].model());
            }
            if self.errors[i].category == category {
                out.push(self.errors[i].duplicate());
            }
            i = i + 1;
            proof {
                assert(err_models(out@) =~= errors_of_category(
                    self.errors_model().take(i as int),
                    category,
                ));
            }
        }
        proof {
            assert(self.errors_model().take(self.errors@.len() as int) =~= self.errors_model());
        }
        out
    }

    /// Acknowledge the error with the given id; the first match is marked.
    pub fn acknowledge(&mut self, error_id: u64)
        ensures
            final(self).errors_model().len() == old(self).errors_model().len(),
            forall|i: int|
                0 <= i < old(self).errors_model().len() ==> {
                    let e = #[trigger] old(self).errors_model()[i];
                    if e.id == error_id && (forall|j: int|
                        0 <= j < i ==> (#[trigger] old(self).errors_model()[j]).id != error_id) {
                        final(self).errors_model()[i] == AppErrorModel { acknowledged: true, ..e }
                    } else {
                        final(self).errors_model()[i] == e
                    }
                },
            final(self).spec_next_id() == old(self).spec_next_id(),
            final(self).spec_capacity() == old(self).spec_capacity(),
            final(self).spec_healthy() == old(self).spec_healthy(),
            final(self).recoveries_model() == old(self).recoveries_model(),
            final(self).degraded_model() == old(self).degraded_model(),
    {
        let mut i: usize = 0;
        while i < self.errors.len()
            invariant
                i <= self.errors.len(),
                self.errors@ =~= old(self).errors@,
                forall|j: int| 0 <= j < i ==> (#[trigger] old(self).errors_model()[j]).id
                    != error_id,
                self.next_id == old(self).next_id,
                self.capacity == old(self).capacity,
                self.healthy == old(self).healthy,
                self.unhealthy_reason == old(self).unhealthy_reason,
                self.recoveries == old(self).recoveries,
                self.degraded_features == old(self).degraded_features,
            decreases self.errors.len() - i,
        {
            if self.errors[i].id == error_id {
                let mut e = self.errors[i].duplicate();
                e.acknowledged = true;
                self.errors[i] = e;
                proof {
                    assert(self.errors_model()[i as int] == AppErrorModel {
                        acknowledged: true,
                        ..old(self).errors_model()[i as int]
                    });
                    assert(forall|j: int|
                        0 <= j < old(self).errors_model().len() && j != i
                            ==> self.errors_model()[j] == old(self).errors_model()[j]);
                }
                return ;
            }
            proof {
                assert(old(self).errors_model()[i as int] == old(self).errors@[i as int].model());
            }
            i = i + 1;
        }
    }

    /// Acknowledge every retained error.
    pub fn acknowledge_all(&mut self)
        ensures
            final(self).errors_model().len() == old(self).errors_model().len(),
            forall|i: int|
                0 <= i < old(self).errors_model().len() ==> final(self).errors_model()[i]
                    == (AppErrorModel {
                    acknowledged: true,
                    ..#[trigger] old(self).errors_model()[i]
                }),
            final(self).spec_next_id() == old(self).spec_next_id(),
            final(self).spec_capacity() == old(self).spec_capacity(),
            final(self).spec_healthy() == old(self).spec_healthy(),
            final(self).recoveries_model() == old(self).recoveries_model(),
            final(self).degraded_model() == old(self).degraded_model(),
    {
        let mut i: usize = 0;
        while i < self.errors.len()
            invariant
                i <= self.errors.len(),
                self.errors@.len() == old(self).errors@.len(),
                forall|j: int|
                    i <= j < old(self).errors_model().len() ==> self.errors@[j] == old(
                        self,
                    ).errors@[j],
                forall|j: int|
                    0 <= j < i ==> self.errors_model()[j] == (AppErrorModel {
                        acknowledged: true,
                        ..#[trigger] old(self).errors_model()[j]
                    }),
                self.next_id == old(self).next_id,
                self.capacity == old(self).capacity,
                self.healthy == old(self).healthy,
                self.unhealthy_reason == old(self).unhealthy_reason,
                self.recoveries == old(self).recoveries,
                self.degraded_features == old(self).degraded_features,
            decreases self.errors.len() - i,
        {
            let mut e = self.errors[i].duplicate();
            e.acknowledged = true;
            proof {
                assert(old(self).errors_model()[i as int] == old(self).errors@[i as int].model());
            }
            self.errors[i] = e;
            i = i + 1;
        }
    }

    /// Drop errors older than the duration, measured against the clock now:
    /// some cutoff reading is taken and `clear_older_than` applied to it.
    pub fn clear_old(&mut self, older_than_ms: u64)
        ensures
            exists|cutoff: u64|
                final(self).errors_model() == kept_after(old(self).errors_model(), cutoff),
            final(self).spec_next_id() == old(self).spec_next_id(),
            final(self).spec_capacity() == old(self).spec_capacity(),
            final(self).spec_healthy() == old(self).spec_healthy(),
            final(self).recoveries_model() == old(self).recoveries_model(),
            final(self).degraded_model() == old(self).degraded_model(),
    {
        let now = crate::clock::now_millis();
        let cutoff = now.saturating_sub(older_than_ms);
        self.clear_older_than(cutoff);
    }

    /// Drop every error whose timestamp is strictly before the cutoff.
    pub fn clear_older_than(&mut self, cutoff: u64)
        ensures
            final(self).errors_model() == kept_after(old(self).errors_model(), cutoff),
            final(self).spec_next_id() == old(self).spec_next_id(),
            final(self).spec_capacity() == old(self).spec_capacity(),
            final(self).spec_healthy() == old(self).spec_healthy(),
            final(self).recoveries_model() == old(self).recoveries_model(),
            final(self).degraded_model() == old(self).degraded_model(),
    {
        let mut kept: Vec<AppError> = Vec::new();
        let mut i: usize = 0;
        while i < self.errors.len()
            invariant
                i <= self.errors.len(),
                err_models(kept@) =~= kept_after(self.errors_model().take(i as int), cutoff),
            decreases self.errors.len() - i,
        {
            proof {
                lemma_kept_step(self.errors_model(), cutoff, i as int);
                assert(self.errors_model()[i as int] == self.errors@[i as int].model());
            }
            if self.errors[i].timestamp_ms >= cutoff {
                kept.push(self.errors[i].duplicate());
            }
            i = i + 1;
            proof {
                assert(err_models(kept@) =~= kept_after(
                    self.errors_model().take(i as int),
                    cutoff,
                ));
            }
        }
        proof {
            assert(self.errors_model().take(self.errors@.len() as int) =~= self.errors_model());
        }
        self.errors = kept;
    }

    /// Begin tracking a recovery operation, replacing any previous tracking
    /// of the same operation.
    pub fn start_recovery(&mut self, operation: &str, max_attempts: u32)
        ensures
            final(self).recoveries_model() == recs_other_than(
                old(self).recoveries_model(),
                operation@,
            ).push(
                RecoveryModel {
                    operation: operation@,
                    attempt: 1,
                    max_attempts,
                    next_retry_ms: None,
                    succeeded: false,
                },
            ),
            final(self).errors_model() == old(self).errors_model(),
            final(self).spec_next_id() == old(self).spec_next_id(),
            final(self).spec_capacity() == old(self).spec_capacity(),
            final(self).spec_healthy() == old(self).spec_healthy(),
            final(self).degraded_model() == old(self).degraded_model(),
    {
        let mut kept = self.recoveries_without(operation);
        kept.push(
            RecoveryState {
                operation: operation.to_owned(),
                attempt: 1,
                max_attempts,
                next_retry_ms: None,
                succeeded: false,
            },
        );
        proof {
            assert(rec_models(kept@) =~= recs_other_than(
                self.recoveries_model(),
                operation@,
            ).push(
                RecoveryModel {
                    operation: operation@,
                    attempt: 1,
                    max_attempts,
                    next_retry_ms: None,
                    succeeded: false,
                },
            ));
        }
        self.recoveries = kept;
    }

    /// The tracked recoveries with every entry for `operation` removed.
    fn recoveries_without(&self, operation: &str) -> (r: Vec<RecoveryState>)
        ensures
            rec_models(r@) == recs_other_than(self.recoveries_model(), operation@),
    {
        let mut kept: Vec<RecoveryState> = Vec::new();
        let mut i: usize = 0;
        while i < self.recoveries.len()
            invariant
                i <= self.recoveries.len(),
                rec_models(kept@) =~= recs_other_than(
                    self.recoveries_model().take(i as int),
                    operation@,
                ),
            decreases self.recoveries.len() - i,
        {
            proof {
                lemma_recs_step(self.recoveries_model(), operation@, i as int);
                assert(self.recoveries_model()[i as int] == self.recoveries@[i as int].model());
            }
            if !crate::strutil::str_eq(self.recoveries[i].operation.as_str(), operation) {
                kept.push(self.recoveries[i].duplicate());
            }
            i = i + 1;
            proof {
                assert(rec_models(kept@) =~= recs_other_than(
                    self.recoveries_model().take(i as int),
                    operation@,
                ));
            }
        }
        proof {
            assert(self.recoveries_model().take(self.recoveries@.len() as int)
                =~= self.recoveries_model());
        }
        kept
    }

    /// Update the attempt counter and next-retry time of a tracked
    /// operation; does nothing when the operation is not tracked.
    pub fn update_recovery(&mut self, operation: &str, attempt: u32, next_retry_ms: Option<u64>)
        ensures
            final(self).recoveries_model().len() == old(self).recoveries_model().len(),
            forall|i: int|
                0 <= i < old(self).recoveries_model().len() ==> {
                    let r = #[trigger] old(self).recoveries_model()[i];
                    if r.operation == operation@ && (forall|j: int|
                        0 <= j < i ==> (#[trigger] old(self).recoveries_model()[j]).operation
                            != operation@) {
                        final(self).recoveries_model()[i] == RecoveryModel {
                            attempt,
                            next_retry_ms,
                            ..r
                        }
                    } else {
                        final(self).recoveries_model()[i] == r
                    }
                },
            final(self).errors_model() == old(self).errors_model(),
            final(self).spec_next_id() == old(self).spec_next_id(),
            final(self).spec_capacity() == old(self).spec_capacity(),
            final(self).spec_healthy() == old(self).spec_healthy(),
            final(self).degraded_model() == old(self).degraded_model(),
    {
        let mut i: usize = 0;
        while i < self.recoveries.len()
            invariant
                i <= self.recoveries.len(),
                self.recoveries@ =~= old(self).recoveries@,
                forall|j: int| 0 <= j < i ==> (#[trigger] old(self).recoveries_model()[j]).operation
                    != operation@,
                self.errors == old(self).errors,
                self.next_id == old(self).next_id,
                self.capacity == old(self).capacity,
                self.healthy == old(self).healthy,
                self.unhealthy_reason == old(self).unhealthy_reason,
                self.degraded_features == old(self).degraded_features,
            decreases self.recoveries.len() - i,
        {
            if crate::strutil::str_eq(self.recoveries[i].operation.as_str(), operation) {
                let mut r = self.recoveries[i].duplicate();
                r.attempt = attempt;
                r.next_retry_ms = next_retry_ms;
                self.recoveries[i] = r;
                proof {
                    assert(self.recoveries_model()[i as int] == RecoveryModel {
                        attempt,
                        next_retry_ms,
                        ..old(self).recoveries_model()[i as int]
                    });
                    assert(forall|j: int|
                        0 <= j < old(self).recoveries_model().len() && j != i
                            ==> self.recoveries_model()[j] == old(self).recoveries_model()[j]);
                }
                return ;
            }
            proof {
                assert(old(self).recoveries_model()[i as int] == old(
                    self,
                ).recoveries@[i as int].model());
            }
            i = i + 1;
        }
    }

    /// Mark a recovery as succeeded: its tracking entry is removed, and
    /// health is restored when no recovery is active and no unacknowledged
    /// severe error remains.
    pub fn recovery_succeeded(&mut self, operation: &str)
        ensures
            final(self).recoveries_model() == recs_other_than(
                old(self).recoveries_model(),
                operation@,
            ),
            final(self).errors_model() == old(self).errors_model(),
            final(self).spec_next_id() == old(self).spec_next_id(),
            final(self).spec_capacity() == old(self).spec_capacity(),
            final(self).degraded_model() == old(self).degraded_model(),
            ({
                let no_recoveries = final(self).recoveries_model().len() == 0;
                let no_active = forall|i: int|
                    0 <= i < old(self).errors_model().len() ==> !(!(#[trigger] old(
                        self,
                    ).errors_model()[i]).acknowledged && severity_rank(
                        old(self).errors_model()[i].severity,
                    ) >= 2);
                if no_recoveries && no_active {
                    final(self).spec_healthy()
                } else {
                    final(self).spec_healthy() == old(self).spec_healthy()
                }
            }),
    {
        let kept = self.recoveries_without(operation);
        self.recoveries = kept;

        if self.recoveries.len() == 0 {
            let mut has_active: bool = false;
            let mut k: usize = 0;
            while k < self.errors.len()
                invariant
                    k <= self.errors.len(),
                    has_active == exists|j: int|
                        0 <= j < k && !(#[trigger] self.errors_model()[j]).acknowledged
                            && severity_rank(self.errors_model()[j].severity) >= 2,
                decreases self.errors.len() - k,
            {
                let e = &self.errors[k];
                proof {
                    assert(self.errors_model()[k as int] == self.errors@[k as int].model());
                }
                if !e.acknowledged && e.severity.rank() >= 2 {
                    has_active = true;
                }
                k = k + 1;
            }
            if !has_active {
                self.healthy = true;
                self.unhealthy_reason = None;
            }
        }
    }

    /// Mark a recovery as failed; the entry stays so the failure can be
    /// shown.
    pub fn recovery_failed(&mut self, operation: &str)
        ensures
            final(self).recoveries_model().len() == old(self).recoveries_model().len(),
            forall|i: int|
                0 <= i < old(self).recoveries_model().len() ==> {
                    let r = #[trigger] old(self).recoveries_model()[i];
                    if r.operation == operation@ && (forall|j: int|
                        0 <= j < i ==> (#[trigger] old(self).recoveries_model()[j]).operation
                            != operation@) {
                        final(self).recoveries_model()[i] == RecoveryModel {
                            succeeded: false,
                            ..r
                        }
                    } else {
                        final(self).recoveries_model()[i] == r
                    }
                },
            final(self).errors_model() == old(self).errors_model(),
            final(self).spec_next_id() == old(self).spec_next_id(),
            final(self).spec_capacity() == old(self).spec_capacity(),
            final(self).spec_healthy() == old(self).spec_healthy(),
            final(self).degraded_model() == old(self).degraded_model(),
    {
        let mut i: usize = 0;
        while i < self.recoveries.len()
            invariant
                i <= self.recoveries.len(),
                self.recoveries@ =~= old(self).recoveries@,
                forall|j: int| 0 <= j < i ==> (#[trigger] old(self).recoveries_model()[j]).operation
                    != operation@,
                self.errors == old(self).errors,
                self.next_id == old(self).next_id,
                self.capacity == old(self).capacity,
                self.healthy == old(self).healthy,
                self.unhealthy_reason == old(self).unhealthy_reason,
                self.degraded_features == old(self).degraded_features,
            decreases self.recoveries.len() - i,
        {
            if crate::strutil::str_eq(self.recoveries[i].operation.as_str(), operation) {
                let mut r = self.recoveries[i].duplicate();
                r.succeeded = false;
                self.recoveries[i] = r;
                proof {
                    assert(self.recoveries_model()[i as int] == RecoveryModel {
                        succeeded: false,
                        ..old(self).recoveries_model()[i as int]
                    });
                    assert(forall|j: int|
                        0 <= j < old(self).recoveries_model().len() && j != i
                            ==> self.recoveries_model()[j] == old(self).recoveries_model()[j]);
                }
                return ;
            }
            proof {
                assert(old(self).recoveries_model()[i as int] == old(
                    self,
                ).recoveries@[i as int].model());
            }
            i = i + 1;
        }
    }

    /// The recovery operations currently tracked.
    pub fn active_recoveries(&self) -> (r: Vec<RecoveryState>)
        ensures
            rec_models(r@) == self.recoveries_model(),
    {
        let mut out: Vec<RecoveryState> = Vec::new();
        let mut i: usize = 0;
        while i < self.recoveries.len()
            invariant
                i <= self.recoveries.len(),
                rec_models(out@) =~= self.recoveries_model().take(i as int),
            decreases self.recoveries.len() - i,
        {
            let ghost prev = out@;
            let dup = self.recoveries[i].duplicate();
            out.push(dup);
            proof {
                assert(rec_models(prev).len() == prev.len());
                assert(self.recoveries_model().len() == self.recoveries@.len());
                assert(out@ == prev.push(dup));
                assert forall|j: int| 0 <= j < out@.len() implies rec_models(out@)[j]
                    == self.recoveries_model().take(i + 1)[j] by {
                    assert(rec_models(out@)[j] == out@[j].model());
                    if j < prev.len() {
                        assert(out@[j] == prev[j]);
                        assert(rec_models(prev)[j] == prev[j].model());
                    } else {
                        assert(out@[j] == dup);
                        assert(self.recoveries_model()[i as int] == self.recoveries@[
                            i as int
                        ].model());
                    }
                }
                assert(rec_models(out@) =~= self.recoveries_model().take(i + 1));
            }
            i = i + 1;
        }
        proof {
            assert(self.recoveries_model().take(self.recoveries@.len() as int)
                =~= self.recoveries_model());
        }
        out
    }

    /// Whether the system is currently healthy.
    pub fn is_healthy(&self) -> (r: bool)
        ensures
            r == self.spec_healthy(),
    {
        self.healthy
    }

    /// Set the health flag and its reason directly.
    pub fn set_health(&mut self, healthy: bool, reason: Option<String>)
        ensures
            final(self).spec_healthy() == healthy,
            final(self).errors_model() == old(self).errors_model(),
            final(self).spec_next_id() == old(self).spec_next_id(),
            final(self).spec_capacity() == old(self).spec_capacity(),
            final(self).recoveries_model() == old(self).recoveries_model(),
            final(self).degraded_model() == old(self).degraded_model(),
    {
        self.healthy = healthy;
        self.unhealthy_reason = reason;
    }

    /// Mark a feature as degraded and record a warning saying why.
    pub fn degrade_feature(&mut self, feature: Feature, reason: &str)
        ensures
            final(self).degraded_model().contains(feature),
            forall|f: Feature|
                old(self).degraded_model().contains(f) ==> final(self).degraded_model().contains(
                    f,
                ),
            forall|f: Feature|
                final(self).degraded_model().contains(f) ==> (f == feature || old(
                    self,
                ).degraded_model().contains(f)),
            final(self).spec_next_id() == bump_id(old(self).spec_next_id()),
            exists|e: AppErrorModel|
                {
                    &&& e.id == old(self).spec_next_id()
                    &&& e.severity == ErrorSeverity::Warning
                    &&& e.category == ErrorCategory::System
                    &&& e.message == reason@
                    &&& !e.acknowledged
                    &&& final(self).errors_model() == ring_push(
                        old(self).errors_model(),
                        old(self).spec_capacity(),
                        e,
                    )
                },
            final(self).spec_healthy() == old(self).spec_healthy(),
            final(self).spec_capacity() == old(self).spec_capacity(),
            final(self).recoveries_model() == old(self).recoveries_model(),
    {
        let ghost orig = self.degraded_features@;
        if !self.has_degraded(feature) {
            self.degraded_features.push(feature);
            proof {
                assert(self.degraded_features@.last() == feature);
                assert(self.degraded_model().contains(feature));
                assert forall|f: Feature| orig.contains(f) implies self
                    .degraded_features@.contains(f) by {
                    let idx = choose|k: int| 0 <= k < orig.len() && orig[k] == f;
                    assert(self.degraded_features@[idx] == f);
                }
                assert forall|f: Feature| self.degraded_features@.contains(f) implies (f == feature
                    || orig.contains(f)) by {
                    let idx = choose|k: int|
                        0 <= k < self.degraded_features@.len() && self.degraded_features@[k] == f;
                    if idx < orig.len() {
                        assert(orig[idx] == f);
                    }
                }
            }
        }

        let error = AppError {
            id: self.next_id,
            timestamp_ms: crate::clock::now_millis(),
            severity: ErrorSeverity::Warning,
            category: ErrorCategory::System,
            message: reason.to_owned(),
            details: None,
            recovery_hint: None,
            acknowledged: false,
        };
        let ghost em = error.model();
        self.push_error(error);
        proof {
            assert(em.id == old(self).spec_next_id());
            assert(em.message == reason@);
            assert(self.errors_model() == ring_push(
                old(self).errors_model(),
                old(self).spec_capacity(),
                em,
            ));
        }
    }

    /// Whether the feature is in the degraded set.
    fn has_degraded(&self, feature: Feature) -> (r: bool)
        ensures
            r == self.degraded_model().contains(feature),
    {
        let mut i: usize = 0;
        while i < self.degraded_features.len()
            invariant
                i <= self.degraded_features.len(),
                forall|j: int| 0 <= j < i ==> self.degraded_features@[j] != feature,
            decreases self.degraded_features.len() - i,
        {
            if self.degraded_features[i] == feature {
                proof {
                    assert(self.degraded_model().contains(feature));
                }
                return true;
            }
            i = i + 1;
        }
        proof {
            assert(!self.degraded_model().contains(feature));
        }
        false
    }

    /// A feature is available while it is not degraded.
    pub fn is_feature_available(&self, feature: Feature) -> (r: bool)
        ensures
            r == !self.degraded_model().contains(feature),
    {
        !self.has_degraded(feature)
    }

    /// Remove a feature from the degraded set.
    pub fn restore_feature(&mut self, feature: Feature)
        ensures
            !final(self).degraded_model().contains(feature),
            forall|f: Feature|
                f != feature ==> (final(self).degraded_model().contains(f) == old(
                    self,
                ).degraded_model().contains(f)),
            final(self).errors_model() == old(self).errors_model(),
            final(self).spec_next_id() == old(self).spec_next_id(),
            final(self).spec_capacity() == old(self).spec_capacity(),
            final(self).spec_healthy() == old(self).spec_healthy(),
            final(self).recoveries_model() == old(self).recoveries_model(),
    {
        let mut kept: Vec<Feature> = Vec::new();
        let mut i: usize = 0;
        while i < self.degraded_features.len()
            invariant
                i <= self.degraded_features.len(),
                forall|j: int| 0 <= j < kept@.len() ==> kept@[j] != feature,
                forall|j: int|
                    0 <= j < kept@.len() ==> self.degraded_features@.contains(#[trigger] kept@[j]),
                forall|j: int|
                    0 <= j < i && self.degraded_features@[j] != feature ==> kept@.contains(
                        #[trigger] self.degraded_features@[j],
                    ),
            decreases self.degraded_features.len() - i,
        {
            let cur = self.degraded_features[i];
            if cur != feature {
                let ghost prev = kept@;
                kept.push(cur);
                proof {
                    assert(kept@ == prev.push(cur));
                    assert forall|j: int| 0 <= j < kept@.len() implies self
                        .degraded_features@.contains(#[trigger] kept@[j]) by {
                        if j < prev.len() {
                            assert(kept@[j] == prev[j]);
                        } else {
                            assert(kept@[j] == self.degraded_features@[i as int]);
                        }
                    }
                    assert forall|j: int|
                        0 <= j < i + 1 && self.degraded_features@[j] != feature implies kept@
                        .contains(#[trigger] self.degraded_features@[j]) by {
                        if j < i {
                            let k = choose|k: int|
                                0 <= k < prev.len() && prev[k] == self.degraded_features@[j];
                            assert(kept@[k] == self.degraded_features@[j]);
                        } else {
                            assert(kept@[kept@.len() - 1] == self.degraded_features@[j]);
                        }
                    }
                }
            }
            i = i + 1;
        }
        proof {
            assert forall|f: Feature|
                f != feature implies (kept@.contains(f) == old(
                self,
            ).degraded_features@.contains(f)) by {
                if kept@.contains(f) {
                    let k = choose|k: int| 0 <= k < kept@.len() && kept@[k] == f;
                    assert(self.degraded_features@.contains(kept@[k]));
                }
                if self.degraded_features@.contains(f) {
                    let k = choose|k: int|
                        0 <= k < self.degraded_features@.len() && self.degraded_features@[k] == f;
                    assert(kept@.contains(self.degraded_features@[k]));
                }
            }
            assert forall|k: int| 0 <= k < kept@.len() implies kept@[k] != feature by {}
            if kept@.contains(feature) {
                let k = choose|k: int| 0 <= k < kept@.len() && kept@[k] == feature;
                assert(false);
            }
        }
        self.degraded_features = kept;
    }

    /// The currently degraded features.
    pub fn degraded_features(&self) -> (r: Vec<Feature>)
        ensures
            r@ == self.degraded_model(),
    {
        let mut out: Vec<Feature> = Vec::new();
        let mut i: usize = 0;
        while i < self.degraded_features.len()
            invariant
                i <= self.degraded_features.len(),
                out@ =~= self.degraded_model().take(i as int),
            decreases self.degraded_features.len() - i,
        {
            out.push(self.degraded_features[i]);
            i = i + 1;
        }
        proof {
            assert(self.degraded_model().take(self.degraded_features@.len() as int)
                =~= self.degraded_model());
        }
        out
    }
}

impl Default for ErrorRegistry {
    /// A registry that retains the last 100 errors.
    fn default() -> (r: Self)
        ensures
            r.spec_capacity() == 100,
            r.spec_next_id() == 1,
            r.spec_healthy(),
    {
        ErrorRegistry::new(100)
    }
}

} // verus!
