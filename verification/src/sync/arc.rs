//! A counted box: the payload and its reference count in one place.
//! Shared kernel objects live in the object store, which tracks the
//! counts of everything handles can reach; this box carries the same
//! count-and-payload shape for values that are not yet registered
//! there.

use vstd::prelude::*;
use crate::mem::MemoryExhausted;

verus! {

/// A payload with its reference count.
pub struct Arc<T> {
    pub ref_count: u64,
    pub object: T,
}

impl<T> Arc<T> {
    /// Boxes `object` with one reference.
    pub fn new(object: T) -> (r: Result<Arc<T>, MemoryExhausted>)
        ensures
            r is Ok,
            r is Ok ==> r->Ok_0.object == object && r->Ok_0.ref_count == 1,
    {
        Ok(Arc { ref_count: 1, object })
    }
}

} // verus!
