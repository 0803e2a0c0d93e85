//! The listener's bookkeeping: connection admission under a fixed permit
//! pool, and bounded exponential backoff for accept retries.
//!
//! The running server backs the pool with an asynchronous semaphore and
//! performs the sleeps; the rules fixed here say when a connection may be
//! admitted and when a failing listening socket becomes fatal.
use vstd::prelude::*;

verus! {

/// Default size of the admission pool: how many connections may be live at
/// once.
pub const MAX_CONNECTIONS: usize = 250;

/// A fixed pool of connection permits.  A connection is accepted only while
/// a permit is free; the permit is held for the whole session and released
/// exactly once when the session ends.
pub struct Admission {
    pub available: usize,
    pub capacity: usize,
}

impl Admission {
    /// A full pool of `capacity` permits.
    pub fn new(capacity: usize) -> (a: Admission)
        ensures
            a.available == capacity,
            a.capacity == capacity,
    {
        Admission { available: capacity, capacity }
    }

    /// Draws one permit.  With the pool exhausted nothing is drawn and the
    /// accept loop must wait for a release; this is the backpressure that
    /// bounds concurrent sessions.
    pub fn try_acquire(&mut self) -> (r: bool)
        ensures
            final(self).capacity == old(self).capacity,
            old(self).available == 0 ==> !r && final(self).available == 0,
            old(self).available > 0 ==> r && final(self).available == old(self).available - 1,
    {
        if self.available > 0 {
            self.available = self.available - 1;
            true
        } else {
            false
        }
    }

    /// Returns one permit, making exactly one further admission possible.
    pub fn release(&mut self)
        requires
            old(self).available < old(self).capacity,
        ensures
            final(self).capacity == old(self).capacity,
            final(self).available == old(self).available + 1,
    {
        self.available = self.available + 1;
    }
}

/// The accept loop's retry schedule: one second after the first failure,
/// doubling each time, fatal once it passes 64 seconds.
pub struct Backoff {
    pub delay: u64,
}

impl Backoff {
    /// A fresh schedule, starting at one second.
    pub fn new() -> (b: Backoff)
        ensures
            b.delay == 1,
    {
        Backoff { delay: 1 }
    }

    /// On a failed accept: how many seconds to sleep before retrying, or
    /// nothing when the schedule is exhausted and the error must propagate
    /// as fatal.
    pub fn on_error(&mut self) -> (r: Option<u64>)
        ensures
            old(self).delay > 64 ==> r is None && final(self).delay == old(self).delay,
            old(self).delay <= 64 ==> r == Some(old(self).delay) && final(self).delay == old(
                self,
            ).delay * 2,
    {
        if self.delay > 64 {
            None
        } else {
            let d = self.delay;
            self.delay = d * 2;
            Some(d)
        }
    }
}

} // verus!
