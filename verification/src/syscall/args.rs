//! Decoding of syscall arguments from registers.

use vstd::prelude::*;
use crate::interface::{SysError, SysResult};
use crate::object::Handle;

verus! {

/// A value a syscall argument register can decode into.
pub trait UserArg: Sized {
    /// Reads the value from one argument register.
    fn from_reg(reg: u64) -> (r: SysResult<Self>);
}

impl UserArg for u64 {
    fn from_reg(reg: u64) -> (r: SysResult<u64>) {
        Ok(reg)
    }
}

impl UserArg for Handle {
    fn from_reg(reg: u64) -> (r: SysResult<Handle>) {
        match Handle::from_u64(reg) {
            Some(h) => Ok(h),
            None => Err(SysError::BadHandle),
        }
    }
}

impl UserArg for Option<Handle> {
    fn from_reg(reg: u64) -> (r: SysResult<Option<Handle>>) {
        Ok(Handle::from_u64(reg))
    }
}

/// Reads a handle argument, rejecting the zero register value.
pub fn handle_from_reg(reg: u64) -> (r: SysResult<Handle>)
    ensures
        reg != 0 ==> r == SysResult::<Handle>::Ok(Handle(reg)),
        reg == 0 ==> r == SysResult::<Handle>::Err(SysError::BadHandle),
{
    match Handle::from_u64(reg) {
        Some(h) => Ok(h),
        None => Err(SysError::BadHandle),
    }
}

} // verus!
