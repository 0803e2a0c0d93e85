//! The per-session shutdown latch: a one-shot flag wrapping a broadcast
//! subscription.
//!
//! Each session owns one `Shutdown`.  The embedding application awaits the
//! broadcast receiver (an asynchronous operation that cannot live here) and
//! then flips the latch with [`Shutdown::note_received`]; once flipped it
//! stays flipped, so later waits return at once.
use tokio::sync::broadcast;
use vstd::prelude::*;

verus! {

/// Listens for the server's shutdown signal.
pub struct Shutdown {
    /// Whether the signal (or the channel's closure) has been observed.
    pub is_shutdown: bool,
    /// The subscription to the server-wide shutdown broadcast; the
    /// application awaits it and reports back through `note_received`.
    pub notify: broadcast::Receiver<()>,
}

impl Shutdown {
    /// A latch that has not yet seen the signal.
    pub fn new(notify: broadcast::Receiver<()>) -> (s: Shutdown)
        ensures
            !s.is_shutdown,
    {
        Shutdown { is_shutdown: false, notify }
    }

    /// Whether the signal has been observed.
    pub fn is_shutdown(&self) -> (r: bool)
        ensures
            r == self.is_shutdown,
    {
        self.is_shutdown
    }

    /// Flips the latch permanently: called exactly when a wait on the
    /// broadcast receiver returned, by signal or closure.
    pub fn note_received(&mut self)
        ensures
            final(self).is_shutdown,
    {
        self.is_shutdown = true;
    }
}

} // verus!
