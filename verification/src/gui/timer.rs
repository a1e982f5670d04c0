//! The flags of a repeating timer, shared between the timer's thread and
//! the viewer.

use std::sync::atomic::{AtomicBool, Ordering};

use vstd::prelude::*;

verus! {

/// The state of one started timer.
///
/// The timer's thread raises the pending flag each period; once per frame
/// the viewer moves it into the active flag, which [`TimerHandle::timeout`]
/// reads.
pub struct TimerHandle {
    pending_state: AtomicBool,
    active_state: AtomicBool,
}

impl TimerHandle {
    /// A timer that has not fired.
    pub fn new() -> (h: Self) {
        TimerHandle { pending_state: AtomicBool::new(false), active_state: AtomicBool::new(false) }
    }

    /// Whether the timer fired before the current frame.
    ///
    /// The flag is written by other threads; no value is promised.
    #[inline]
    pub fn timeout(&self) -> (r: bool) {
        self.active_state.load(Ordering::Relaxed)
    }

    /// Called by the timer's thread when a period ends.
    pub fn fire(&self) {
        self.pending_state.store(true, Ordering::Relaxed);
    }

    /// Called once per frame: what fired since the last frame becomes
    /// active, and the pending flag is lowered.
    pub fn advance(&self) {
        let state = self.pending_state.load(Ordering::Relaxed);
        self.active_state.store(state, Ordering::Relaxed);
        self.pending_state.store(false, Ordering::Relaxed);
    }
}

} // verus!
