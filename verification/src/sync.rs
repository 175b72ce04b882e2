//! Synchronization primitives: the spin-free kernel mutex, the shared
//! reference box, and the suspension-based mutex kernel continuations
//! block on.

pub mod arc;
pub mod async_mutex;
pub mod mutex;
