use vstd::prelude::*;
use std::sync::Arc;
use std::sync::atomic::{AtomicBool, Ordering};

verus! {

/// A flag that a timer raises at a steady pace, telling a scan when it is
/// time to show progress again.
#[derive(Debug)]
pub struct Throttle {
    /// Raised by the timer, taken down by `can_update`.
    pub trigger: Arc<AtomicBool>,
}

impl Throttle {
    /// Takes the flag down and tells whether it was up, that is whether the
    /// timer ticked since the last call. When the timer ticks depends on
    /// the clock, so nothing is promised of the answer.
    pub fn can_update(&self) -> (ticked: bool) {
        self.trigger.swap(false, Ordering::Relaxed)
    }
}

} // verus!
