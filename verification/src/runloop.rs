//! The cooperative-stop state of an event loop.
//!
//! The loop itself — a worker thread draining an event queue — is outside
//! work; what the handler decides through its context is plain state, kept
//! here.

use vstd::prelude::*;

verus! {

/// The runloop error: an event was sent to a runloop that has stopped.
#[derive(Clone, Copy, PartialEq, Eq, Structural, Debug)]
pub struct RunloopError;

/// A context that is passed to the handler during a runloop run. The handler
/// sets the stop flag to make the loop exit after it returns.
#[derive(Clone, Copy, PartialEq, Eq, Structural, Debug)]
pub struct Context {
    /// Whether the runloop has been told to stop.
    pub is_stopped: bool,
}

impl Context {
    /// Constructs a running context.
    pub fn new() -> (r: Context)
        ensures
            !r.spec_is_stopped(),
    {
        Context { is_stopped: false }
    }

    /// Whether the runloop has been told to stop.
    pub open spec fn spec_is_stopped(&self) -> bool {
        self.is_stopped
    }

    /// Stops the runloop.
    pub fn stop(&mut self)
        ensures
            final(self).spec_is_stopped(),
    {
        self.is_stopped = true;
    }

    /// Whether the runloop has stopped.
    pub fn is_stopped(&self) -> (r: bool)
        ensures
            r == self.spec_is_stopped(),
    {
        self.is_stopped
    }
}

} // verus!
