//! Memory management: the physical frame allocator, the recursive page
//! tables, the kernel heap, the kernel-virtual page allocator, and user
//! pointer validation.

use vstd::prelude::*;

pub mod kalloc;
pub mod kvirt;
pub mod page;
pub mod phys;
pub mod user;

verus! {

/// No physical frame, no heap slot, or an allocation table is full.
#[derive(Clone, Copy, PartialEq, Eq, Structural, Debug)]
pub struct MemoryExhausted;

} // verus!
