//! Counters behind a common interface.
//!
//! The exercise races many callers against a mutex-guarded counter and an
//! atomic one; the counting discipline itself is sequential and is what
//! this module verifies: both counters start at zero, `add` increments by
//! exactly one, and `get` reports the exact count. The thread fan-out that
//! drives them belongs to the callers.

use vstd::prelude::*;

verus! {

/// A counter that can be incremented and read through a shared interface.
pub trait ThreadSafetyCounter: Sized {
    /// The abstract count the counter holds.
    spec fn count(&self) -> nat;

    /// Increments the count by one.
    fn add(&mut self)
        requires
            old(self).count() < usize::MAX,
        ensures
            final(self).count() == old(self).count() + 1,
    ;

    /// Reads the count.
    fn get(&self) -> (r: usize)
        ensures
            r == self.count(),
    ;
}

/// The counter variant a mutex would guard.
pub struct LockCounter(pub usize);

impl LockCounter {
    /// A fresh counter at zero.
    pub fn new() -> (r: LockCounter)
        ensures
            r.count() == 0,
    {
        LockCounter(0)
    }
}

impl ThreadSafetyCounter for LockCounter {
    open spec fn count(&self) -> nat {
        self.0 as nat
    }

    fn add(&mut self) {
        self.0 = self.0 + 1;
    }

    fn get(&self) -> usize {
        self.0
    }
}

/// The counter variant an atomic integer would back.
pub struct AtomicCounter(pub usize);

impl AtomicCounter {
    /// A fresh counter at zero.
    pub fn new() -> (r: AtomicCounter)
        ensures
            r.count() == 0,
    {
        AtomicCounter(0)
    }
}

impl ThreadSafetyCounter for AtomicCounter {
    open spec fn count(&self) -> nat {
        self.0 as nat
    }

    fn add(&mut self) {
        self.0 = self.0 + 1;
    }

    fn get(&self) -> usize {
        self.0
    }
}

/// Adds `n` to a counter, one increment at a time, and returns the final
/// count — the work the exercise splits across its ten threads.
pub fn add_many<T: ThreadSafetyCounter>(counter: &mut T, n: usize) -> (r: usize)
    requires
        old(counter).count() + n <= usize::MAX,
    ensures
        final(counter).count() == old(counter).count() + n,
        r == final(counter).count(),
{
    let mut i: usize = 0;
    while i < n
        invariant
            i <= n,
            counter.count() == old(counter).count() + i,
            old(counter).count() + n <= usize::MAX,
        decreases n - i,
    {
        counter.add();
        i = i + 1;
    }
    counter.get()
}

} // verus!
