//! A counter that several threads can share.
use vstd::prelude::*;
use vstd::rwlock::{RwLock, RwLockPredicate};
use std::sync::Arc;

verus! {

/// Any count may be stored.
pub struct AnyCount;

impl RwLockPredicate<usize> for AnyCount {
    open spec fn inv(self, v: usize) -> bool {
        true
    }
}

/// A counter behind a reader-writer lock; clones share the count.
#[derive(Clone)]
pub struct ConcurrentCounter(Arc<RwLock<usize, AnyCount>>);

impl ConcurrentCounter {
    /// A counter that starts at `val`.
    pub fn new(val: usize) -> Self {
        ConcurrentCounter(Arc::new(RwLock::new(val, Ghost(AnyCount))))
    }

    /// Adds `by` to the count, wrapping around past `usize::MAX`.
    pub fn increment(&self, by: usize) {
        let (counter, handle) = self.0.acquire_write();
        handle.release_write(counter.wrapping_add(by));
    }

    /// Adds `by` to the count if the count is `test`, wrapping around past
    /// `usize::MAX`.
    pub fn compare_and_inc(&self, test: usize, by: usize) {
        let (counter, handle) = self.0.acquire_write();
        if counter == test {
            handle.release_write(counter.wrapping_add(by));
        } else {
            handle.release_write(counter);
        }
    }

    /// The count.
    pub fn get(&self) -> usize {
        let handle = self.0.acquire_read();
        let counter = *handle.borrow();
        handle.release_read();
        counter
    }
}

} // verus!
