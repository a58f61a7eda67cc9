use vstd::prelude::*;

verus! {

/// The process-wide shutdown event, modeled as a monotonic one-shot flag:
/// any session or an outside interrupt may request shutdown, a duplicate
/// request is a no-op rather than an error, and once the event has fired it
/// never resets. The transport layer couples this state to its own
/// notification primitive so that blocked readers are released.
pub struct GroundControl {
    shutdown: bool,
}

impl GroundControl {
    pub closed spec fn spec_shutdown(self) -> bool {
        self.shutdown
    }

    /// A fresh coordinator: shutdown has not been requested yet.
    pub fn init() -> (c: GroundControl)
        ensures
            !c.spec_shutdown(),
    {
        GroundControl { shutdown: false }
    }

    /// Request shutdown. Idempotent, and the event can never be un-fired.
    pub fn signal_shutdown(&mut self)
        ensures
            final(self).spec_shutdown(),
    {
        self.shutdown = true;
    }

    /// Observe whether shutdown has been requested. Level-triggered: once it
    /// answers true, it answers true on every later call.
    pub fn is_shutdown(&self) -> (r: bool)
        ensures
            r == self.spec_shutdown(),
    {
        self.shutdown
    }
}

} // verus!
