//! The cooperative cancellation flag shared between a sieve run and the
//! thread controlling it.

use vstd::prelude::*;

use std::sync::atomic::AtomicBool;
use std::sync::atomic::Ordering;

verus! {

/// A boolean cell that a controlling thread sets and the engine polls.
///
/// Two polls may disagree — another thread owns the writes — so no contract
/// constrains what `is_set` returns; the engine states what holds of its
/// output whichever way every poll went.
pub struct CancelFlag {
    flag: AtomicBool,
}

impl CancelFlag {
    /// A fresh, unset flag.
    pub fn new() -> CancelFlag {
        CancelFlag { flag: AtomicBool::new(false) }
    }

    /// Polls the flag without blocking.
    pub fn is_set(&self) -> bool {
        self.flag.load(Ordering::SeqCst)
    }

    /// Requests cancellation. The flag is a one-way latch: nothing clears it.
    pub fn set(&self) {
        self.flag.store(true, Ordering::SeqCst);
    }
}

} // verus!
