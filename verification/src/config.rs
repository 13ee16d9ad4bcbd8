//! Configuration model: defaults, backends, and the authentication header.
//!
//! Durations are carried as plain integers (seconds or milliseconds), and
//! timestamps as milliseconds since the Unix epoch.

use vstd::prelude::*;

verus! {

/// Default settings for the proxy.
#[derive(Debug, Clone, PartialEq)]
pub struct Defaults {
    /// Name of the backend that is active by default.
    pub active: String,
    /// Total request timeout in seconds.
    pub timeout_seconds: u32,
    /// Connection timeout in seconds.
    pub connect_timeout_seconds: u32,
    /// Idle timeout between streamed chunks, in seconds.
    pub idle_timeout_seconds: u32,
    /// Idle timeout for pooled connections, in seconds.
    pub pool_idle_timeout_seconds: u32,
    /// Maximum idle connections kept per host.
    pub pool_max_idle_per_host: u32,
    /// Maximum retry attempts for connection errors.
    pub max_retries: u32,
    /// Base backoff in milliseconds between retries.
    pub retry_backoff_base_ms: u64,
}

impl Default for Defaults {
    fn default() -> (r: Self)
        ensures
            r.active@ == "anthropic"@,
            r.timeout_seconds == 30,
            r.connect_timeout_seconds == 5,
            r.idle_timeout_seconds == 60,
            r.pool_idle_timeout_seconds == 90,
            r.pool_max_idle_per_host == 8,
            r.max_retries == 3,
            r.retry_backoff_base_ms == 100,
    {
        Defaults {
            active: "anthropic".to_string(),
            timeout_seconds: 30,
            connect_timeout_seconds: 5,
            idle_timeout_seconds: 60,
            pool_idle_timeout_seconds: 90,
            pool_max_idle_per_host: 8,
            max_retries: 3,
            retry_backoff_base_ms: 100,
        }
    }
}

/// How requests to a backend are authenticated.
#[derive(Debug, Clone, Copy, PartialEq, Eq, Structural)]
pub enum AuthType {
    /// `x-api-key: <key>` header.
    ApiKey,
    /// `Authorization: Bearer <key>` header.
    Bearer,
    /// No header is injected; the client's own credentials pass through.
    Passthrough,
}

/// One named upstream provider configuration.
#[derive(Debug, Clone, PartialEq)]
pub struct Backend {
    /// Unique identifier, e.g. `glm`.
    pub name: String,
    /// Name shown in the interface.
    pub display_name: String,
    /// Base URL of the provider's API.
    pub base_url: String,
    /// How requests are authenticated.
    pub auth_type: AuthType,
    /// Environment variable that holds the key.
    pub auth_env_var: String,
    /// Backend model id for the `opus` family slot, if mapped.
    pub model_opus: Option<String>,
    /// Backend model id for the `sonnet` family slot, if mapped.
    pub model_sonnet: Option<String>,
    /// Backend model id for the `haiku` family slot, if mapped.
    pub model_haiku: Option<String>,
}

impl Default for Backend {
    fn default() -> (r: Self)
        ensures
            r.name@ == "anthropic"@,
            r.auth_type is ApiKey,
            r.model_opus is None,
            r.model_sonnet is None,
            r.model_haiku is None,
    {
        Backend {
            name: "anthropic".to_string(),
            display_name: "Anthropic".to_string(),
            base_url: "https://api.anthropic.com".to_string(),
            auth_type: AuthType::ApiKey,
            auth_env_var: "ANTHROPIC_API_KEY".to_string(),
            model_opus: None,
            model_sonnet: None,
            model_haiku: None,
        }
    }
}

/// Root configuration document.
#[derive(Debug, Clone, PartialEq)]
pub struct Config {
    pub defaults: Defaults,
    pub backends: Vec<Backend>,
}

impl Default for Config {
    fn default() -> (r: Self)
        ensures
            r.backends@.len() == 1,
    {
        let mut backends: Vec<Backend> = Vec::new();
        backends.push(Backend::default());
        Config { defaults: Defaults::default(), backends }
    }
}

/// Build the authentication header for a backend from its resolved key.
///
/// The key is whatever the environment provided for the backend's variable;
/// `None` means the variable was absent. Passthrough backends never inject a
/// header; key-based backends inject one exactly when a key is present.
pub fn build_auth_header(auth_type: AuthType, key: Option<String>) -> (r: Option<(String, String)>)
    ensures
        r is Some <==> (!(auth_type is Passthrough) && key is Some),
        auth_type is ApiKey ==> (key matches Some(k) ==> r matches Some(h) && h.0@
            == "x-api-key"@ && h.1@ == k@),
        auth_type is Bearer ==> (key matches Some(k) ==> r matches Some(h) && h.0@
            == "Authorization"@ && h.1@ == "Bearer "@ + k@),
{
    match (auth_type, key) {
        (AuthType::ApiKey, Some(k)) => Some(("x-api-key".to_string(), k)),
        (AuthType::Bearer, Some(k)) => {
            let mut v = "Bearer ".to_string();
            v.append(k.as_str());
            Some(("Authorization".to_string(), v))
        },
        _ => None,
    }
}

} // verus!
