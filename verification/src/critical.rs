//! Critical sections: interrupts are disabled on entry and the previous
//! interrupt-enable flag is restored on exit, so sections nest.

use vstd::prelude::*;
use crate::machine::Machine;

verus! {

/// Witness of an open critical section, carrying the interrupt-enable
/// flag to restore when it ends.
pub struct Critical {
    pub saved_iflag: bool,
}

/// Enters a critical section: clears the interrupt flag and records its
/// previous value.
pub fn begin(m: &mut Machine) -> (c: Critical)
    ensures
        c.saved_iflag == old(m).iflag,
        *final(m) == (Machine { iflag: false, ..*old(m) }),
{
    let c = Critical { saved_iflag: m.iflag };
    m.iflag = false;
    c
}

/// Leaves a critical section, restoring the interrupt flag it saved.
pub fn end(m: &mut Machine, c: Critical)
    ensures
        *final(m) == (Machine { iflag: c.saved_iflag, ..*old(m) }),
{
    m.iflag = c.saved_iflag;
}

} // verus!
