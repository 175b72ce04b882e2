//! File objects reachable through handles. The console is the one
//! built-in file; its bytes move through the console driver, outside
//! the kernel model, so the kernel side only tags the kind.

use vstd::prelude::*;

verus! {

/// A file object's backing.
pub enum File {
    /// The boot console: writes go to the screen, reads come from the
    /// keyboard queue.
    Console,
}

} // verus!
