//! Core of a local reverse proxy that sits between a CLI client and one of
//! several upstream LLM providers. The proxy can swap the active upstream at
//! runtime, rewrites model identifiers between the client's vocabulary and
//! each backend's vocabulary, and normalizes the thinking-block lifecycle so
//! a conversation stays coherent across backend switches.
//!
//! This crate holds the verified data plane: the SSE codec, the content
//! fingerprint, the thinking-block registry, the model map, backend state,
//! routing rules, the retry planner, and the observability records. The
//! network, terminal and process plumbing around it is ordinary Rust kept
//! outside the library.

pub mod backend;
pub mod clock;
pub mod config;
pub mod errors;
pub mod input;
pub mod json;
pub mod metrics;
pub mod model_map;
pub mod pool;
pub mod pty;
pub mod registry;
pub mod router;
pub mod shutdown;
pub mod sse;
pub mod strutil;
pub mod thinking;
pub mod timeout;
pub mod transform;
pub mod ui;
pub mod upstream;
