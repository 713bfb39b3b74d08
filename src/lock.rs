use vstd::prelude::*;
use std::sync::atomic::{AtomicU32, Ordering};

verus! {

/// Value of a lock word that nobody holds.
pub const FREE: u32 = 0;

/// Value of a lock word that a lane holds.
pub const LOCKED: u32 = 1;

/// A lane gave up on a lock after spinning the number of times it was allowed.
#[derive(Clone, Copy, Debug, PartialEq, Eq)]
pub struct LockTimeout {
    pub attempts: u32,
}

/// A spin lock on one atomic word. Taking it is an atomic exchange that
/// writes `LOCKED` and succeeds when the word held anything else; waiters are
/// served in no particular order.
#[derive(Debug)]
pub struct SpinLock {
    word: AtomicU32,
}

impl SpinLock {
    /// A lock that nobody holds.
    pub fn new() -> (r: Self) {
        SpinLock { word: AtomicU32::new(FREE) }
    }

    /// One atomic exchange: true when it took the lock. Whether it does
    /// depends on the other lanes, so nothing more is promised.
    pub fn try_acquire(&self) -> (r: bool) {
        self.word.swap(LOCKED, Ordering::Acquire) != LOCKED
    }

    /// Spins on `try_acquire` at most `max_attempts` times. `Ok(n)` says the
    /// lock was taken by exchange number `n` (from 0); `Err` says every one of
    /// the `max_attempts` exchanges found it held, so a stuck lock surfaces as
    /// an error instead of a hang.
    pub fn acquire(&self, max_attempts: u32) -> (r: Result<u32, LockTimeout>)
        ensures
            r matches Ok(n) ==> n < max_attempts,
            r matches Err(e) ==> e.attempts == max_attempts,
            max_attempts == 0 ==> r is Err,
    {
        let mut n: u32 = 0;
        while n < max_attempts
            invariant
                n <= max_attempts,
            decreases max_attempts - n,
        {
            if self.try_acquire() {
                return Ok(n);
            }
            n = n + 1;
        }
        Err(LockTimeout { attempts: max_attempts })
    }

    /// Hands the lock back by writing `FREE`.
    pub fn release(&self) {
        self.word.store(FREE, Ordering::Release);
    }
}

} // verus!
