//! Backend state: the active upstream, hot-swappable at runtime.
//!
//! The invariant is that the active backend id always names a backend of
//! the current configuration; switching is a no-op when the target is
//! already active, and replacing the configuration re-validates the active
//! id, falling back to the configured default or the first backend.

use crate::config::{AuthType, Backend, Config, Defaults};
use vstd::prelude::*;

verus! {

use vstd::string::StringSliceAdditionalSpecFns;

/// Errors of backend selection and configuration.
#[derive(Debug)]
pub enum BackendError {
    /// The requested backend does not exist in the configuration.
    BackendNotFound { backend: String },
    /// No backends are configured at all.
    NoBackendsConfigured,
    /// The backend exists but cannot be used, e.g. its key is missing.
    BackendNotConfigured { backend: String, reason: String },
}

/// One recorded backend switch.
#[derive(Debug)]
pub struct SwitchLogEntry {
    /// When the switch occurred, in milliseconds since the Unix epoch.
    pub timestamp_ms: u64,
    /// The previously active backend; `None` for the initial selection.
    pub old_backend: Option<String>,
    /// The backend switched to.
    pub new_backend: String,
}

/// The mathematical image of one switch-log entry: which backend was
/// active before and which became active. The wall-clock stamp is not
/// part of the model.
pub struct SwitchModel {
    pub old_backend: Option<Seq<char>>,
    pub new_backend: Seq<char>,
}

/// The model of a switch-log entry.
pub open spec fn switch_model(e: SwitchLogEntry) -> SwitchModel {
    SwitchModel {
        old_backend: match e.old_backend {
            Some(s) => Some(s@),
            None => None,
        },
        new_backend: e.new_backend@,
    }
}

/// The mathematical image of one backend configuration.
pub struct BackendModel {
    pub name: Seq<char>,
    pub display_name: Seq<char>,
    pub base_url: Seq<char>,
    pub auth_type: AuthType,
    pub auth_env_var: Seq<char>,
    pub model_opus: Option<Seq<char>>,
    pub model_sonnet: Option<Seq<char>>,
    pub model_haiku: Option<Seq<char>>,
}

/// The model of a backend.
pub open spec fn backend_model(b: Backend) -> BackendModel {
    BackendModel {
        name: b.name@,
        display_name: b.display_name@,
        base_url: b.base_url@,
        auth_type: b.auth_type,
        auth_env_var: b.auth_env_var@,
        model_opus: match b.model_opus {
            Some(s) => Some(s@),
            None => None,
        },
        model_sonnet: match b.model_sonnet {
            Some(s) => Some(s@),
            None => None,
        },
        model_haiku: match b.model_haiku {
            Some(s) => Some(s@),
            None => None,
        },
    }
}

/// The models of a backend list.
pub open spec fn backend_models(s: Seq<Backend>) -> Seq<BackendModel> {
    Seq::new(s.len(), |i: int| backend_model(s[i]))
}

/// The names of the configured backends, in order.
pub open spec fn config_names(c: Config) -> Seq<Seq<char>> {
    Seq::new(c.backends@.len(), |i: int| c.backends@[i].name@)
}

/// Whether a name is among the configured backends.
pub open spec fn has_backend(c: Config, name: Seq<char>) -> bool {
    exists|i: int| 0 <= i < c.backends@.len() && (#[trigger] c.backends@[i]).name@ == name
}

/// The name the state falls back to: the configured default when one is
/// named, else the first backend.
pub open spec fn fallback_name(c: Config) -> Seq<char> {
    if c.defaults.active@.len() == 0 {
        c.backends@[0].name@
    } else {
        c.defaults.active@
    }
}

/// The name a configuration replacement falls back to: the configured
/// default when one is named and actually exists, else the first backend.
/// Unlike `fallback_name` this never names an absent backend.
pub open spec fn valid_fallback_name(c: Config) -> Seq<char> {
    if c.defaults.active@.len() > 0 && has_backend(c, c.defaults.active@) {
        c.defaults.active@
    } else {
        c.backends@[0].name@
    }
}

/// A field-by-field copy of a backend, equal in model.
pub fn duplicate_backend(b: &Backend) -> (r: Backend)
    ensures
        backend_model(r) == backend_model(*b),
{
    Backend {
        name: b.name.clone(),
        display_name: b.display_name.clone(),
        base_url: b.base_url.clone(),
        auth_type: b.auth_type,
        auth_env_var: b.auth_env_var.clone(),
        model_opus: match &b.model_opus {
            Some(s) => Some(s.clone()),
            None => None,
        },
        model_sonnet: match &b.model_sonnet {
            Some(s) => Some(s.clone()),
            None => None,
        },
        model_haiku: match &b.model_haiku {
            Some(s) => Some(s.clone()),
            None => None,
        },
    }
}

/// Whether two default blocks carry the same values.
pub open spec fn defaults_equivalent(a: Defaults, b: Defaults) -> bool {
    &&& a.active@ == b.active@
    &&& a.timeout_seconds == b.timeout_seconds
    &&& a.connect_timeout_seconds == b.connect_timeout_seconds
    &&& a.idle_timeout_seconds == b.idle_timeout_seconds
    &&& a.pool_idle_timeout_seconds == b.pool_idle_timeout_seconds
    &&& a.pool_max_idle_per_host == b.pool_max_idle_per_host
    &&& a.max_retries == b.max_retries
    &&& a.retry_backoff_base_ms == b.retry_backoff_base_ms
}

/// A field-by-field copy of the defaults, equal in value.
pub fn duplicate_defaults(d: &Defaults) -> (r: Defaults)
    ensures
        defaults_equivalent(r, *d),
{
    Defaults {
        active: d.active.clone(),
        timeout_seconds: d.timeout_seconds,
        connect_timeout_seconds: d.connect_timeout_seconds,
        idle_timeout_seconds: d.idle_timeout_seconds,
        pool_idle_timeout_seconds: d.pool_idle_timeout_seconds,
        pool_max_idle_per_host: d.pool_max_idle_per_host,
        max_retries: d.max_retries,
        retry_backoff_base_ms: d.retry_backoff_base_ms,
    }
}

/// A field-by-field copy of a configuration, equal in model.
pub fn duplicate_config(c: &Config) -> (r: Config)
    ensures
        defaults_equivalent(r.defaults, c.defaults),
        backend_models(r.backends@) == backend_models(c.backends@),
{
    let defaults = duplicate_defaults(&c.defaults);
    let mut backends: Vec<Backend> = Vec::new();
    let mut i: usize = 0;
    while i < c.backends.len()
        invariant
            i <= c.backends@.len(),
            backends@.len() == i,
            forall|k: int| 0 <= k < i ==> backend_model(#[trigger] backends@[k]) == backend_model(
                c.backends@[k],
            ),
        decreases c.backends@.len() - i,
    {
        backends.push(duplicate_backend(&c.backends[i]));
        i = i + 1;
    }
    let r = Config { defaults, backends };
    proof {
        assert(backend_models(r.backends@) =~= backend_models(c.backends@));
    }
    r
}

/// Backend state with hot-swap support: the current configuration, the
/// active backend id — always one of the configured names — and the
/// append-only switch log.
pub struct BackendState {
    active_backend: String,
    config: Config,
    switch_log: Vec<SwitchLogEntry>,
}

impl BackendState {
    /// The active backend id.
    pub closed spec fn spec_active(self) -> Seq<char> {
        self.active_backend@
    }

    /// The current configuration.
    pub closed spec fn spec_config(self) -> Config {
        self.config
    }

    /// The switch log's model: one entry per recorded switch, oldest
    /// first.
    pub closed spec fn spec_log(self) -> Seq<SwitchModel> {
        self.switch_log@.map_values(|e: SwitchLogEntry| switch_model(e))
    }

    /// How many switches the log records.
    pub open spec fn spec_log_len(self) -> nat {
        self.spec_log().len()
    }

    /// The invariant: the active id names a configured backend.
    pub open spec fn wf(self) -> bool {
        has_backend(self.spec_config(), self.spec_active())
    }

    /// Build the state from a configuration: fails when no backends are
    /// configured, or when the named default is absent; otherwise the
    /// fallback backend becomes active and the log records the selection.
    pub fn from_config(config: Config) -> (r: Result<Self, BackendError>)
        ensures
            config.backends@.len() == 0 <==> r matches Err(BackendError::NoBackendsConfigured),
            (config.backends@.len() > 0 && config.defaults.active@.len() > 0 && !has_backend(
                config,
                config.defaults.active@,
            )) <==> (r matches Err(BackendError::BackendNotFound { backend }) && backend@
                == config.defaults.active@),
            r matches Ok(s) ==> s.wf() && s.spec_active() == fallback_name(config)
                && s.spec_config() == config && s.spec_log() == seq![
                SwitchModel { old_backend: None, new_backend: fallback_name(config) },
            ],
    {
        if config.backends.len() == 0 {
            return Err(BackendError::NoBackendsConfigured);
        }
        let active_backend: String = if config.defaults.active.as_str().is_empty() {
            config.backends[0].name.clone()
        } else {
            if !config_has(&config, config.defaults.active.as_str()) {
                return Err(
                    BackendError::BackendNotFound { backend: config.defaults.active.clone() },
                );
            }
            config.defaults.active.clone()
        };
        let entry = SwitchLogEntry {
            timestamp_ms: crate::clock::now_millis(),
            old_backend: None,
            new_backend: active_backend.clone(),
        };
        let mut switch_log: Vec<SwitchLogEntry> = Vec::new();
        switch_log.push(entry);
        let ghost cfg = config;
        let s = BackendState { active_backend, config, switch_log };
        proof {
            assert(s.spec_log() =~= seq![
                SwitchModel { old_backend: None, new_backend: fallback_name(cfg) },
            ]);
        }
        Ok(s)
    }

    /// The currently active backend id.
    pub fn get_active_backend(&self) -> (r: String)
        ensures
            r@ == self.spec_active(),
    {
        self.active_backend.clone()
    }

    /// The configuration of the currently active backend; present whenever
    /// the invariant holds.
    pub fn get_active_backend_config(&self) -> (r: Result<Backend, BackendError>)
        ensures
            self.wf() ==> (r matches Ok(b) && backend_model(b).name == self.spec_active()),
            r matches Ok(b) ==> exists|i: int|
                0 <= i < self.spec_config().backends@.len() && backend_model(b) == backend_model(
                    #[trigger] self.spec_config().backends@[i],
                ) && backend_model(b).name == self.spec_active(),
    {
        self.lookup(self.active_backend.as_str())
    }

    /// One consistent snapshot of the configuration and the active
    /// backend id, taken together so a request never sees two different
    /// configurations.
    pub fn get_config_and_active_backend(&self) -> (r: (Config, String))
        ensures
            defaults_equivalent(r.0.defaults, self.spec_config().defaults),
            backend_models(r.0.backends@) == backend_models(self.spec_config().backends@),
            r.1@ == self.spec_active(),
    {
        (duplicate_config(&self.config), self.active_backend.clone())
    }

    /// The configuration of a backend by name.
    pub fn get_backend_config(&self, backend_id: &str) -> (r: Result<Backend, BackendError>)
        ensures
            r matches Ok(b) ==> exists|i: int|
                0 <= i < self.spec_config().backends@.len() && backend_model(b) == backend_model(
                    #[trigger] self.spec_config().backends@[i],
                ) && backend_model(b).name == backend_id@,
            r is Err <==> !has_backend(self.spec_config(), backend_id@),
    {
        self.lookup(backend_id)
    }

    /// Find a backend by name and return a copy of its configuration.
    fn lookup(&self, backend_id: &str) -> (r: Result<Backend, BackendError>)
        ensures
            r matches Ok(b) ==> exists|i: int|
                0 <= i < self.spec_config().backends@.len() && backend_model(b) == backend_model(
                    #[trigger] self.spec_config().backends@[i],
                ) && backend_model(b).name == backend_id@,
            r is Err <==> !has_backend(self.spec_config(), backend_id@),
    {
        let mut i: usize = 0;
        while i < self.config.backends.len()
            invariant
                i <= self.config.backends@.len(),
                forall|k: int|
                    0 <= k < i ==> (#[trigger] self.config.backends@[k]).name@ != backend_id@,
            decreases self.config.backends@.len() - i,
        {
            if crate::strutil::str_eq(self.config.backends[i].name.as_str(), backend_id) {
                let b = duplicate_backend(&self.config.backends[i]);
                proof {
                    assert(self.spec_config() == self.config);
                    assert(backend_model(b) == backend_model(
                        self.spec_config().backends@[i as int],
                    ));
                }
                return Ok(b);
            }
            i = i + 1;
        }
        Err(BackendError::BackendNotFound { backend: backend_id.to_owned() })
    }

    /// Whether a backend id exists in the current configuration.
    pub fn validate_backend(&self, backend_id: &str) -> (r: bool)
        ensures
            r == has_backend(self.spec_config(), backend_id@),
    {
        config_has(&self.config, backend_id)
    }

    /// The configured backend ids, in order.
    pub fn list_backends(&self) -> (r: Vec<String>)
        ensures
            r@.len() == config_names(self.spec_config()).len(),
            forall|i: int| 0 <= i < r@.len() ==> (#[trigger] r@[i])@ == config_names(
                self.spec_config(),
            )[i],
    {
        let mut out: Vec<String> = Vec::new();
        let mut i: usize = 0;
        while i < self.config.backends.len()
            invariant
                i <= self.config.backends@.len(),
                out@.len() == i,
                forall|k: int| 0 <= k < i ==> (#[trigger] out@[k])@
                    == self.config.backends@[k].name@,
            decreases self.config.backends@.len() - i,
        {
            out.push(self.config.backends[i].name.clone());
            i = i + 1;
        }
        out
    }

    /// Switch to a different backend: fails — and changes nothing — when
    /// the target is unknown; does nothing when it is already active;
    /// otherwise updates the active id atomically and appends a log entry.
    pub fn switch_backend(&mut self, backend_id: &str) -> (r: Result<(), BackendError>)
        ensures
            final(self).spec_config() == old(self).spec_config(),
            !has_backend(old(self).spec_config(), backend_id@) ==> (r matches Err(
                BackendError::BackendNotFound { backend },
            ) && backend@ == backend_id@ && final(self).spec_active() == old(self).spec_active()
                && final(self).spec_log() == old(self).spec_log()),
            has_backend(old(self).spec_config(), backend_id@) ==> r is Ok
                && final(self).spec_active() == backend_id@,
            (has_backend(old(self).spec_config(), backend_id@) && old(self).spec_active()
                != backend_id@) ==> final(self).spec_log() == old(self).spec_log().push(
                SwitchModel {
                    old_backend: Some(old(self).spec_active()),
                    new_backend: backend_id@,
                },
            ),
            (has_backend(old(self).spec_config(), backend_id@) && old(self).spec_active()
                == backend_id@) ==> final(self).spec_log() == old(self).spec_log(),
            old(self).wf() ==> final(self).wf(),
    {
        if !config_has(&self.config, backend_id) {
            return Err(BackendError::BackendNotFound { backend: backend_id.to_owned() });
        }
        if crate::strutil::str_eq(self.active_backend.as_str(), backend_id) {
            return Ok(());
        }
        let entry = SwitchLogEntry {
            timestamp_ms: crate::clock::now_millis(),
            old_backend: Some(self.active_backend.clone()),
            new_backend: backend_id.to_owned(),
        };
        self.switch_log.push(entry);
        self.active_backend = backend_id.to_owned();
        proof {
            assert(self.spec_log() =~= old(self).spec_log().push(
                SwitchModel {
                    old_backend: Some(old(self).spec_active()),
                    new_backend: backend_id@,
                },
            ));
        }
        Ok(())
    }

    /// How many switches the log records.
    pub fn switch_log_len(&self) -> (r: usize)
        ensures
            r == self.spec_log_len(),
    {
        self.switch_log.len()
    }

    /// Replace the configuration: fails — and changes nothing — when the
    /// new one has no backends; keeps the active backend when it still
    /// exists, else falls back — to the new default only when that default
    /// actually exists, to the first backend otherwise — and appends a log
    /// entry. A successful replacement always re-establishes the
    /// invariant.
    pub fn update_config(&mut self, new_config: Config) -> (r: Result<(), BackendError>)
        ensures
            new_config.backends@.len() == 0 <==> r matches Err(
                BackendError::NoBackendsConfigured,
            ),
            new_config.backends@.len() == 0 ==> *final(self) == *old(self),
            new_config.backends@.len() > 0 ==> r is Ok && final(self).spec_config() == new_config
                && final(self).wf() && {
                if has_backend(new_config, old(self).spec_active()) {
                    final(self).spec_active() == old(self).spec_active()
                        && final(self).spec_log() == old(self).spec_log()
                } else {
                    final(self).spec_active() == valid_fallback_name(new_config)
                        && final(self).spec_log() == old(self).spec_log().push(
                        SwitchModel {
                            old_backend: Some(old(self).spec_active()),
                            new_backend: valid_fallback_name(new_config),
                        },
                    )
                }
            },
    {
        if new_config.backends.len() == 0 {
            return Err(BackendError::NoBackendsConfigured);
        }
        if !config_has(&new_config, self.active_backend.as_str()) {
            let new_active: String = if !new_config.defaults.active.as_str().is_empty()
                && config_has(&new_config, new_config.defaults.active.as_str()) {
                new_config.defaults.active.clone()
            } else {
                new_config.backends[0].name.clone()
            };
            proof {
                assert(new_active@ == valid_fallback_name(new_config));
                assert(has_backend(new_config, new_active@));
            }
            let entry = SwitchLogEntry {
                timestamp_ms: crate::clock::now_millis(),
                old_backend: Some(self.active_backend.clone()),
                new_backend: new_active.clone(),
            };
            self.switch_log.push(entry);
            self.active_backend = new_active;
            proof {
                assert(self.spec_log() =~= old(self).spec_log().push(
                    SwitchModel {
                        old_backend: Some(old(self).spec_active()),
                        new_backend: valid_fallback_name(new_config),
                    },
                ));
            }
        }
        self.config = new_config;
        Ok(())
    }

    /// A copy of the switch log, oldest entry first.
    pub fn get_switch_log(&self) -> (r: Vec<SwitchLogEntry>)
        ensures
            r@.map_values(|e: SwitchLogEntry| switch_model(e)) == self.spec_log(),
    {
        let mut out: Vec<SwitchLogEntry> = Vec::new();
        let mut i: usize = 0;
        while i < self.switch_log.len()
            invariant
                i <= self.switch_log@.len(),
                out@.len() == i,
                forall|k: int| 0 <= k < i ==> switch_model(#[trigger] out@[k]) == switch_model(
                    self.switch_log@[k],
                ),
            decreases self.switch_log@.len() - i,
        {
            let e = &self.switch_log[i];
            out.push(
                SwitchLogEntry {
                    timestamp_ms: e.timestamp_ms,
                    old_backend: match &e.old_backend {
                        Some(s) => Some(s.clone()),
                        None => None,
                    },
                    new_backend: e.new_backend.clone(),
                },
            );
            i = i + 1;
        }
        proof {
            assert(out@.map_values(|e: SwitchLogEntry| switch_model(e)) =~= self.spec_log());
        }
        out
    }
}

/// The backend a configuration names, as a copy equal in model; `None`
/// exactly when the name is absent.
pub fn find_backend_in(config: &Config, backend_id: &str) -> (r: Option<Backend>)
    ensures
        r matches Some(b) ==> exists|i: int|
            0 <= i < config.backends@.len() && backend_model(b) == backend_model(
                #[trigger] config.backends@[i],
            ) && backend_model(b).name == backend_id@,
        r is None <==> !has_backend(*config, backend_id@),
{
    let mut i: usize = 0;
    while i < config.backends.len()
        invariant
            i <= config.backends@.len(),
            forall|k: int| 0 <= k < i ==> (#[trigger] config.backends@[k]).name@ != backend_id@,
        decreases config.backends@.len() - i,
    {
        if crate::strutil::str_eq(config.backends[i].name.as_str(), backend_id) {
            let b = duplicate_backend(&config.backends[i]);
            proof {
                assert(backend_model(b) == backend_model(config.backends@[i as int]));
            }
            return Some(b);
        }
        i = i + 1;
    }
    None
}

/// Whether a configuration names a backend.
fn config_has(config: &Config, backend_id: &str) -> (r: bool)
    ensures
        r == has_backend(*config, backend_id@),
{
    let mut i: usize = 0;
    while i < config.backends.len()
        invariant
            i <= config.backends@.len(),
            forall|k: int| 0 <= k < i ==> (#[trigger] config.backends@[k]).name@ != backend_id@,
        decreases config.backends@.len() - i,
    {
        if crate::strutil::str_eq(config.backends[i].name.as_str(), backend_id) {
            return true;
        }
        i = i + 1;
    }
    false
}

/// The backend model id the active backend maps a client model to: the
/// first family slot — opus, then sonnet, then haiku — whose family name
/// occurs in the client's model string, when that slot is mapped.
pub open spec fn resolve_model_spec(b: Backend, client: Seq<u8>) -> Option<Seq<char>> {
    if crate::strutil::contains_seq(client, "opus"@.map_values(|c: char| c as u8)) && b.model_opus
        is Some {
        Some(b.model_opus->Some_0@)
    } else if crate::strutil::contains_seq(client, "sonnet"@.map_values(|c: char| c as u8))
        && b.model_sonnet is Some {
        Some(b.model_sonnet->Some_0@)
    } else if crate::strutil::contains_seq(client, "haiku"@.map_values(|c: char| c as u8))
        && b.model_haiku is Some {
        Some(b.model_haiku->Some_0@)
    } else {
        None
    }
}

impl Backend {
    /// The backend model id this backend maps a client-visible model name
    /// to, going by its family slots.
    pub fn resolve_model(&self, client_model: &str) -> (r: Option<String>)
        ensures
            match r {
                Some(m) => resolve_model_spec(*self, client_model.spec_bytes()) == Some(m@),
                None => resolve_model_spec(*self, client_model.spec_bytes()) is None,
            },
    {
        let cb = client_model.as_bytes();
        let opus: [u8; 4] = [111, 112, 117, 115];
        let sonnet: [u8; 6] = [115, 111, 110, 110, 101, 116];
        let haiku: [u8; 5] = [104, 97, 105, 107, 117];
        proof {
            reveal_strlit("opus");
            reveal_strlit("sonnet");
            reveal_strlit("haiku");
            assert(opus@ =~= "opus"@.map_values(|c: char| c as u8));
            assert(sonnet@ =~= "sonnet"@.map_values(|c: char| c as u8));
            assert(haiku@ =~= "haiku"@.map_values(|c: char| c as u8));
        }
        if crate::strutil::contains_bytes(cb, opus.as_slice()) && self.model_opus.is_some() {
            match &self.model_opus {
                Some(m) => Some(m.clone()),
                None => None,
            }
        } else if crate::strutil::contains_bytes(cb, sonnet.as_slice())
            && self.model_sonnet.is_some() {
            match &self.model_sonnet {
                Some(m) => Some(m.clone()),
                None => None,
            }
        } else if crate::strutil::contains_bytes(cb, haiku.as_slice())
            && self.model_haiku.is_some() {
            match &self.model_haiku {
                Some(m) => Some(m.clone()),
                None => None,
            }
        } else {
            None
        }
    }
}

} // verus!
