//! Lifecycle state for the wrapped terminal child process.

use std::collections::VecDeque;
use vstd::prelude::*;

verus! {

/// Startup sequence of the wrapped child: not yet spawned, attached but not
/// yet producing output, then ready. Input is buffered until `Ready` so that
/// nothing typed during startup is lost.
#[derive(Debug, Clone, PartialEq)]
pub enum PtyLifecycleState {
    /// Terminal not yet attached; input is buffered.
    Pending { buffer: VecDeque<Vec<u8>> },
    /// Terminal attached but the child has produced no output yet.
    Attached { buffer: VecDeque<Vec<u8>> },
    /// The child produced output; input goes directly to the terminal.
    Ready,
}

impl Default for PtyLifecycleState {
    fn default() -> (r: Self)
        ensures
            r matches PtyLifecycleState::Pending { buffer } && buffer@.len() == 0,
    {
        PtyLifecycleState::Pending { buffer: VecDeque::new() }
    }
}

impl PtyLifecycleState {
    /// True when input may be sent directly to the terminal.
    pub fn is_ready(&self) -> (r: bool)
        ensures
            r == (self is Ready),
    {
        matches!(self, PtyLifecycleState::Ready)
    }

    /// True while input is still being buffered.
    pub fn is_buffering(&self) -> (r: bool)
        ensures
            r == !(self is Ready),
    {
        matches!(self, PtyLifecycleState::Pending { .. } | PtyLifecycleState::Attached { .. })
    }
}

} // verus!
