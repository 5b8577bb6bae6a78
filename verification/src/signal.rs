//! The shutdown flag that a termination signal sets and the event loop
//! reads.

use std::sync::atomic::{AtomicBool, Ordering};
use std::sync::Arc;
use vstd::prelude::*;

verus! {

/// The shared shutdown flag. It is false until a termination signal is
/// delivered; the handler that sets it lives with the event loop.
pub struct Sig {
    pub stat: Arc<AtomicBool>,
}

impl Sig {
    /// A bridge over the flag `stat`.
    pub fn new(stat: Arc<AtomicBool>) -> (s: Sig)
        ensures
            s.stat == stat,
    {
        Sig { stat }
    }

    /// Whether the flag is set at this moment. Another thread may set it at
    /// any time, so nothing is known of the answer.
    pub fn is_set(&self) -> bool {
        self.stat.load(Ordering::Relaxed)
    }
}

} // verus!
