//! The mutex kernel continuations block on: every poll queues the
//! polling task's waker first, then tries to take the lock; unlocking
//! releases it and wakes every queued waiter, which re-contend.

use vstd::prelude::*;
use crate::task::TaskId;

verus! {

/// A suspension-based mutex and the value it guards.
pub struct AsyncMutex<T> {
    pub value: T,
    pub locked: bool,
    /// Tasks whose wakers are queued, most recent first.
    pub waiters: Vec<TaskId>,
}

/// Witness that the suspension mutex is held.
pub struct AsyncMutexGuard {
    pub taken: bool,
}

impl<T> AsyncMutex<T> {
    /// A new, unlocked mutex with no waiters.
    pub fn new(value: T) -> (m: AsyncMutex<T>)
        ensures
            m.value == value,
            !m.locked,
            m.waiters@.len() == 0,
    {
        AsyncMutex { value, locked: false, waiters: Vec::new() }
    }

    /// One poll of a lock attempt: the polling task's waker is queued
    /// first in every case — a spurious wake is harmless — then the
    /// lock is taken if free; otherwise the task should sleep until
    /// woken.
    pub fn lock(&mut self, task: TaskId) -> (r: Option<AsyncMutexGuard>)
        ensures
            final(self).waiters@ == seq![task] + old(self).waiters@,
            final(self).value == old(self).value,
            final(self).locked,
            !old(self).locked ==> r == Some((AsyncMutexGuard { taken: true })),
            old(self).locked ==> r is None,
    {
        self.waiters.insert(0, task);
        if self.locked {
            None
        } else {
            self.locked = true;
            Some(AsyncMutexGuard { taken: true })
        }
    }

    /// Releases the lock and drains the queue; every task handed back
    /// must be woken so the waiters race for the lock again.
    pub fn unlock(&mut self, g: AsyncMutexGuard) -> (r: Vec<TaskId>)
        requires
            old(self).locked,
            g.taken,
        ensures
            final(self).value == old(self).value,
            !final(self).locked,
            final(self).waiters@.len() == 0,
            r@.len() == old(self).waiters@.len(),
            forall|j: int| 0 <= j < r@.len()
                ==> r@[j] == old(self).waiters@[old(self).waiters@.len() - 1 - j],
    {
        self.locked = false;
        let mut woken: Vec<TaskId> = Vec::new();
        let ghost before = self.waiters@;
        while self.waiters.len() > 0
            invariant
                self.waiters@ == before.subrange(0,
                    before.len() - woken@.len() as int),
                woken@.len() <= before.len(),
                forall|j: int| 0 <= j < woken@.len()
                    ==> woken@[j] == before[before.len() - 1 - j],
                !self.locked,
                self.value == old(self).value,
            decreases self.waiters@.len(),
        {
            let t = self.waiters.pop().unwrap();
            woken.push(t);
        }
        proof {
            assert(woken@.len() == before.len());
        }
        woken
    }
}

} // verus!
