//! A one-way cooperative cancellation signal shared with a host thread.
use std::sync::Arc;
use std::sync::atomic::{AtomicBool, Ordering};
use vstd::prelude::*;

verus! {

/// A one-way cooperative cancellation signal shared with an editor or host thread.
/// Cancellation is not a deadline, thread termination, or retroactive invalidation.
#[derive(Clone, Debug)]
pub struct CancellationToken {
    flag: Arc<AtomicBool>,
}

/// `AtomicBool::store` of `true`, relaxed. The store neither unwinds nor opens an invariant;
/// nothing is claimed of later loads, which other threads may race with.
#[verifier::external_body]
fn raise_flag(flag: &AtomicBool)
    opens_invariants none
    no_unwind
{
    flag.store(true, Ordering::Relaxed)
}

impl CancellationToken {
    /// A token that has not been cancelled.
    pub fn new() -> (t: Self) {
        CancellationToken { flag: Arc::new(AtomicBool::new(false)) }
    }

    /// Signals cancellation to every holder of this token. Never unwinds.
    pub fn cancel(&self)
        opens_invariants none
        no_unwind
    {
        raise_flag(&self.flag)
    }

    /// Whether some holder has cancelled. The answer may change at any time.
    pub fn is_cancelled(&self) -> (r: bool) {
        self.flag.load(Ordering::Relaxed)
    }
}

impl Default for CancellationToken {
    fn default() -> (t: Self) {
        Self::new()
    }
}

} // verus!
