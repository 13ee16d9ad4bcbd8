//! Graceful-shutdown bookkeeping: the shutdown flag and the count of
//! active connections the listener waits to drain. Signal handling and
//! the drain loop itself are plumbing around this state.

use vstd::prelude::*;

verus! {

/// The shutdown flag and the active-connection counter.
pub struct ShutdownManager {
    shutting_down: bool,
    active_connections: usize,
}

impl ShutdownManager {
    pub closed spec fn spec_shutting_down(self) -> bool {
        self.shutting_down
    }

    pub closed spec fn spec_active(self) -> nat {
        self.active_connections as nat
    }

    /// Not shutting down, nothing active.
    pub fn new() -> (r: Self)
        ensures
            !r.spec_shutting_down(),
            r.spec_active() == 0,
    {
        ShutdownManager { shutting_down: false, active_connections: 0 }
    }

    /// Whether the shutdown signal was received.
    pub fn is_shutting_down(&self) -> (r: bool)
        ensures
            r == self.spec_shutting_down(),
    {
        self.shutting_down
    }

    /// Record the shutdown signal; it never clears.
    pub fn begin_shutdown(&mut self)
        ensures
            final(self).spec_shutting_down(),
            final(self).spec_active() == old(self).spec_active(),
    {
        self.shutting_down = true;
    }

    /// One more connection is active.
    pub fn increment_connections(&mut self)
        ensures
            final(self).spec_active() == (if old(self).spec_active() + 1 <= usize::MAX {
                (old(self).spec_active() + 1) as int
            } else {
                old(self).spec_active() as int
            }) as nat,
            final(self).spec_shutting_down() == old(self).spec_shutting_down(),
    {
        self.active_connections = self.active_connections.saturating_add(1);
    }

    /// One connection finished; never goes below zero.
    pub fn decrement_connections(&mut self)
        ensures
            final(self).spec_active() == (if old(self).spec_active() >= 1 {
                old(self).spec_active() - 1
            } else {
                0int
            }) as nat,
            final(self).spec_shutting_down() == old(self).spec_shutting_down(),
    {
        self.active_connections = self.active_connections.saturating_sub(1);
    }

    /// How many connections are still active; the drain loop may stop
    /// waiting when this reaches zero.
    pub fn active_connections(&self) -> (r: usize)
        ensures
            r == self.spec_active(),
    {
        self.active_connections
    }
}

impl Default for ShutdownManager {
    fn default() -> (r: Self)
        ensures
            !r.spec_shutting_down(),
            r.spec_active() == 0,
    {
        ShutdownManager::new()
    }
}

} // verus!
