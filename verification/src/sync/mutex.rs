//! The kernel mutex: taking it begins a critical section — interrupts
//! go off and the prior flag rides in the guard — and releasing it
//! restores the flag. On one CPU a second take would deadlock, so a
//! held mutex may not be locked again.

use vstd::prelude::*;
use crate::machine::Machine;

verus! {

/// A mutex and the value it guards.
pub struct Mutex<T> {
    pub value: T,
    pub locked: bool,
}

/// Witness that a mutex is held, carrying the interrupt flag its
/// critical section must restore.
pub struct MutexGuard {
    pub taken: bool,
    pub saved_iflag: bool,
}

impl<T> Mutex<T> {
    /// A new, unlocked mutex around `value`.
    pub fn new(value: T) -> (m: Mutex<T>)
        ensures
            m.value == value,
            !m.locked,
    {
        Mutex { value, locked: false }
    }

    /// Whether the mutex is held; callable only with interrupts off.
    pub fn locked(&self, _critical: &crate::critical::Critical) -> (r: bool)
        ensures
            r == self.locked,
    {
        self.locked
    }

    /// Takes the mutex, entering a critical section: interrupts are
    /// off until the guard is given back.
    pub fn lock(&mut self, m: &mut Machine) -> (g: MutexGuard)
        requires
            !old(self).locked,
        ensures
            final(self).locked,
            final(self).value == old(self).value,
            g.taken,
            g.saved_iflag == old(m).iflag,
            *final(m) == (Machine { iflag: false, ..*old(m) }),
    {
        let crit = crate::critical::begin(m);
        self.locked = true;
        MutexGuard { taken: true, saved_iflag: crit.saved_iflag }
    }

    /// Releases the mutex against its guard, restoring the interrupt
    /// flag the critical section saved.
    pub fn unlock(&mut self, m: &mut Machine, g: MutexGuard)
        requires
            old(self).locked,
            g.taken,
        ensures
            !final(self).locked,
            final(self).value == old(self).value,
            *final(m) == (Machine { iflag: g.saved_iflag, ..*old(m) }),
    {
        self.locked = false;
        crate::critical::end(m, crate::critical::Critical { saved_iflag: g.saved_iflag });
    }
}

} // verus!
