//! A ticket spin lock: an acquirer draws the next ticket and waits until the
//! counter of served tickets reaches it; a release serves the next ticket.

use vstd::prelude::*;
use std::sync::atomic::{AtomicUsize, Ordering};

verus! {

/// A ticket spin lock. The counters are atomics of the standard library,
/// whose values carry no specification here: what a ticket or the counter of
/// served tickets holds is left unstated, and waiting for a turn is the
/// caller's loop.
pub struct SpinLock {
    current: AtomicUsize,
    next: AtomicUsize,
}

impl SpinLock {
    /// A lock with no ticket drawn and none served.
    pub fn new() -> (r: Self) {
        SpinLock { current: AtomicUsize::new(0), next: AtomicUsize::new(0) }
    }

    /// Draws the next ticket.
    pub fn take_ticket(&self) -> (r: usize) {
        self.next.fetch_add(1, Ordering::Relaxed)
    }

    /// The ticket being served.
    pub fn now_serving(&self) -> (r: usize) {
        self.current.load(Ordering::Acquire)
    }

    /// Serves the next ticket.
    pub fn release(&self) {
        self.current.fetch_add(1, Ordering::Release);
    }
}

} // verus!
