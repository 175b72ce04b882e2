//! The user-side view of the syscall ABI: raw handles and the decoding
//! of RAX words back into results, the inverse of the kernel's
//! encoding.

use vstd::prelude::*;
use crate::interface;
use crate::interface::{error_code_spec, SysError, SysResult};

verus! {

/// A raw handle as user code holds it.
#[derive(Clone, Copy, PartialEq, Eq, Structural, Debug)]
pub struct Handle(pub u64);

impl Handle {
    /// Wraps a raw handle word; the caller vouches that the kernel
    /// issued it.
    pub fn from_raw(handle: u64) -> (r: Handle)
        ensures
            r.0 == handle,
    {
        Handle(handle)
    }

    /// The raw handle word.
    pub fn as_raw(&self) -> (r: u64)
        ensures
            r == self.0,
    {
        self.0
    }
}

/// The raw RAX word a syscall came back with.
#[derive(Clone, Copy, PartialEq, Eq, Structural, Debug)]
pub struct SyscallResult(pub u64);

/// A value the successful half of an RAX word can decode into.
pub trait FromSysOk: Sized {
    /// Reads the value out of the success word.
    fn from_sys_ok(raw: u64) -> Self;
}

impl FromSysOk for u64 {
    fn from_sys_ok(raw: u64) -> Self {
        raw
    }
}

impl FromSysOk for Handle {
    fn from_sys_ok(raw: u64) -> Self {
        Handle(raw)
    }
}

impl SyscallResult {
    /// Splits the word into success or error, by bit 63 and the error
    /// codes; the exact inverse of the kernel's encoding.
    pub fn decode(self) -> (r: SysResult<u64>)
        ensures
            self.0 & 0x8000_0000_0000_0000 == 0 ==> r == SysResult::<u64>::Ok(self.0),
            forall|e: SysError| self.0 == error_code_spec(e)
                ==> r == SysResult::<u64>::Err(e),
    {
        interface::decode_result(self.0)
    }
}

/// The console as user code reaches it: whatever the kernel installed
/// as the task's first handle.
#[derive(Clone, Copy, PartialEq, Eq, Structural, Debug)]
pub struct Console(pub Handle);

/// Hands out the console's well-known handle.
pub fn console() -> (r: Console)
    ensures
        r.0.0 == 1,
{
    Console(Handle(1))
}

/// An open file as user code holds it.
#[derive(Clone, Copy, PartialEq, Eq, Structural, Debug)]
pub struct File(pub Handle);

} // verus!
