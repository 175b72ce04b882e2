//! A cell set exactly once at boot: setting it twice, or reading it
//! before it is set, is a kernel bug and is excluded here.

use vstd::prelude::*;

verus! {

/// A value installed once during early boot.
pub struct EarlyInit<T> {
    pub value: Option<T>,
}

impl<T> EarlyInit<T> {
    /// An empty cell.
    pub fn new() -> (r: EarlyInit<T>)
        ensures
            r.value is None,
    {
        EarlyInit { value: None }
    }

    /// Installs the value; the cell must still be empty.
    pub fn set(cell: &mut EarlyInit<T>, value: T)
        requires
            old(cell).value is None,
        ensures
            final(cell).value == Some(value),
    {
        cell.value = Some(value);
    }

    /// Reads the installed value; the cell must be set.
    pub fn get(&self) -> (r: &T)
        requires
            self.value is Some,
        ensures
            *r == self.value->Some_0,
    {
        match &self.value {
            Some(v) => v,
            None => unreached(),
        }
    }
}

} // verus!
