//! The ticket lock in its exclusive-access form.

use vstd::prelude::*;
use std::sync::atomic::{AtomicUsize, Ordering};

verus! {

/// A ticket lock. The counters are atomics of the standard library, whose
/// values carry no specification here: what a ticket or the counter of served
/// tickets holds is left unstated.
pub struct TicketLock {
    current: AtomicUsize,
    next: AtomicUsize,
}

impl TicketLock {
    /// A lock with no ticket drawn and none served.
    pub fn new() -> (r: Self) {
        TicketLock { current: AtomicUsize::new(0), next: AtomicUsize::new(0) }
    }

    /// Draws the next ticket.
    pub fn take_ticket(&mut self) -> (r: usize) {
        self.next.fetch_add(1, Ordering::Relaxed)
    }

    /// The ticket being served.
    pub fn now_serving(&mut self) -> (r: usize) {
        self.current.load(Ordering::Acquire)
    }

    /// Serves the next ticket.
    pub fn release(&mut self) {
        self.current.fetch_add(1, Ordering::Release);
    }
}

} // verus!
