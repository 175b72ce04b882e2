//! A verified model of a small x86-64 microkernel: reference-counted
//! physical frame allocation, recursive page tables, a slab kernel heap,
//! a cooperative task runtime, and the object/handle/syscall layer.
//!
//! The hardware itself (ports, CR3, TLB) is outside what a verifier can
//! see, so the machine state the kernel logic reads and writes — page
//! contents, page-table entries, the current address-space root, the
//! temporary mapping window, the interrupt flag — is held in an explicit
//! [`machine::Machine`] value that every operation takes by reference.

pub mod bounded;
pub mod crabapi;
pub mod critical;
pub mod fs;
pub mod interface;
pub mod interrupt;
pub mod machine;
pub mod mem;
pub mod object;
pub mod sync;
pub mod syscall;
pub mod task;
pub mod util;

use vstd::prelude::*;

verus! {

/// Size in bytes of one physical or virtual page.
pub const PAGE_SIZE: usize = 0x1000;

} // verus!
