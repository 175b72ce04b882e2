//! The user↔kernel interface: syscall numbers, error codes, and the
//! encoding of syscall results into the RAX register.
//!
//! A syscall returns a single `u64`. Errors are distinguished by bit 63:
//! a successful result is at most `2^63 - 1` and therefore has bit 63
//! clear, while every error code has bit 63 set and its low bits identify
//! the error.

use vstd::prelude::*;

verus! {

/// Returned in RAX by a syscall that succeeds without a value.
pub const OK: u64 = 0;

/// Largest value a syscall can return successfully.
pub const MAX_SYS_RESULT: u64 = 0x7fff_ffff_ffff_ffff;

/// One operation of the syscall set, selected by the number in RAX.
#[derive(Clone, Copy, PartialEq, Eq, Structural, Debug)]
pub enum Syscall {
    AllocPage,
    ReleasePage,
    ModifyPage,
    ReleaseHandle,
    CloneHandle,
    CreatePageContext,
    Debug,
    SetPageContext,
    GetPageContext,
    CreateTask,
    Exit,
    MapPhysicalMemory,
    ReadFile,
    WriteFile,
    OpenFile,
}

/// Every error a syscall can report to user code.
#[derive(Clone, Copy, PartialEq, Eq, Structural, Debug)]
pub enum SysError {
    BadSyscall,
    BadPointer,
    AlreadyMapped,
    MemoryExhausted,
    IllegalValue,
    WrongObjectKind,
    BadHandle,
    IoError,
    NoFile,
}

pub type SysResult<T> = Result<T, SysError>;

/// The number that selects `s`, as user code places it in RAX.
pub open spec fn syscall_number_spec(s: Syscall) -> u64 {
    match s {
        Syscall::AllocPage => 1,
        Syscall::ReleasePage => 2,
        Syscall::ModifyPage => 3,
        Syscall::ReleaseHandle => 4,
        Syscall::CloneHandle => 5,
        Syscall::CreatePageContext => 6,
        Syscall::Debug => 7,
        Syscall::SetPageContext => 8,
        Syscall::GetPageContext => 9,
        Syscall::CreateTask => 10,
        Syscall::Exit => 11,
        Syscall::MapPhysicalMemory => 12,
        Syscall::ReadFile => 13,
        Syscall::WriteFile => 14,
        Syscall::OpenFile => 15,
    }
}

/// The encoded value of `e`: bit 63 set, low bits naming the error.
pub open spec fn error_code_spec(e: SysError) -> u64 {
    match e {
        SysError::BadSyscall => 0xffff_ffff_0000_0001,
        SysError::BadPointer => 0xffff_ffff_0000_0002,
        SysError::AlreadyMapped => 0xffff_ffff_0000_0003,
        SysError::MemoryExhausted => 0xffff_ffff_0000_0004,
        SysError::IllegalValue => 0xffff_ffff_0000_0005,
        SysError::WrongObjectKind => 0xffff_ffff_0000_0006,
        SysError::BadHandle => 0xffff_ffff_0000_0007,
        SysError::IoError => 0xffff_ffff_0000_0008,
        SysError::NoFile => 0xffff_ffff_0000_0009,
    }
}

/// Decodes the syscall number in RAX; `None` selects no operation.
pub open spec fn syscall_from_number_spec(n: u64) -> Option<Syscall> {
    if n == 1 { Some(Syscall::AllocPage) }
    else if n == 2 { Some(Syscall::ReleasePage) }
    else if n == 3 { Some(Syscall::ModifyPage) }
    else if n == 4 { Some(Syscall::ReleaseHandle) }
    else if n == 5 { Some(Syscall::CloneHandle) }
    else if n == 6 { Some(Syscall::CreatePageContext) }
    else if n == 7 { Some(Syscall::Debug) }
    else if n == 8 { Some(Syscall::SetPageContext) }
    else if n == 9 { Some(Syscall::GetPageContext) }
    else if n == 10 { Some(Syscall::CreateTask) }
    else if n == 11 { Some(Syscall::Exit) }
    else if n == 12 { Some(Syscall::MapPhysicalMemory) }
    else if n == 13 { Some(Syscall::ReadFile) }
    else if n == 14 { Some(Syscall::WriteFile) }
    else if n == 15 { Some(Syscall::OpenFile) }
    else { None }
}

impl SysError {
    /// The value placed in RAX when this error is returned.
    pub fn code(self) -> (r: u64)
        ensures
            r == error_code_spec(self),
    {
        match self {
            SysError::BadSyscall => 0xffff_ffff_0000_0001,
            SysError::BadPointer => 0xffff_ffff_0000_0002,
            SysError::AlreadyMapped => 0xffff_ffff_0000_0003,
            SysError::MemoryExhausted => 0xffff_ffff_0000_0004,
            SysError::IllegalValue => 0xffff_ffff_0000_0005,
            SysError::WrongObjectKind => 0xffff_ffff_0000_0006,
            SysError::BadHandle => 0xffff_ffff_0000_0007,
            SysError::IoError => 0xffff_ffff_0000_0008,
            SysError::NoFile => 0xffff_ffff_0000_0009,
        }
    }
}

impl Syscall {
    /// The syscall's number in the calling convention.
    pub fn number(self) -> (r: u64)
        ensures
            r == syscall_number_spec(self),
    {
        match self {
            Syscall::AllocPage => 1,
            Syscall::ReleasePage => 2,
            Syscall::ModifyPage => 3,
            Syscall::ReleaseHandle => 4,
            Syscall::CloneHandle => 5,
            Syscall::CreatePageContext => 6,
            Syscall::Debug => 7,
            Syscall::SetPageContext => 8,
            Syscall::GetPageContext => 9,
            Syscall::CreateTask => 10,
            Syscall::Exit => 11,
            Syscall::MapPhysicalMemory => 12,
            Syscall::ReadFile => 13,
            Syscall::WriteFile => 14,
            Syscall::OpenFile => 15,
        }
    }

    /// Selects the operation named by the number in RAX.
    pub fn from_number(n: u64) -> (r: Option<Syscall>)
        ensures
            r == syscall_from_number_spec(n),
    {
        if n == 1 { Some(Syscall::AllocPage) }
        else if n == 2 { Some(Syscall::ReleasePage) }
        else if n == 3 { Some(Syscall::ModifyPage) }
        else if n == 4 { Some(Syscall::ReleaseHandle) }
        else if n == 5 { Some(Syscall::CloneHandle) }
        else if n == 6 { Some(Syscall::CreatePageContext) }
        else if n == 7 { Some(Syscall::Debug) }
        else if n == 8 { Some(Syscall::SetPageContext) }
        else if n == 9 { Some(Syscall::GetPageContext) }
        else if n == 10 { Some(Syscall::CreateTask) }
        else if n == 11 { Some(Syscall::Exit) }
        else if n == 12 { Some(Syscall::MapPhysicalMemory) }
        else if n == 13 { Some(Syscall::ReadFile) }
        else if n == 14 { Some(Syscall::WriteFile) }
        else if n == 15 { Some(Syscall::OpenFile) }
        else { None }
    }
}

/// The RAX word that reports `r` to user code.
pub open spec fn encode_result_spec(r: SysResult<u64>) -> u64 {
    match r {
        Ok(v) => v,
        Err(e) => error_code_spec(e),
    }
}

/// Encodes a syscall result into the RAX register word.
///
/// A successful value of at most [`MAX_SYS_RESULT`] keeps bit 63 clear;
/// every error sets bit 63 and carries its code in the low bits.
pub fn encode_result(r: SysResult<u64>) -> (w: u64)
    requires
        r is Ok ==> r->Ok_0 <= MAX_SYS_RESULT,
    ensures
        w == encode_result_spec(r),
        r is Ok ==> w & 0x8000_0000_0000_0000 == 0,
        r is Err ==> w & 0x8000_0000_0000_0000 != 0,
{
    match r {
        Ok(v) => {
            proof {
                assert(v <= 0x7fff_ffff_ffff_ffffu64 ==> v & 0x8000_0000_0000_0000 == 0)
                    by (bit_vector);
            }
            v
        }
        Err(e) => {
            let c = e.code();
            proof {
                assert(forall|x: u64|
                    0xffff_ffff_0000_0001u64 <= x <= 0xffff_ffff_0000_0009u64
                        ==> #[trigger] (x & 0x8000_0000_0000_0000) != 0) by (bit_vector);
            }
            c
        }
    }
}

/// Reads an RAX word back into a result, as user-side code does.
///
/// This is the inverse of [`encode_result`] on every word an encoded
/// syscall result can take.
pub fn decode_result(w: u64) -> (r: SysResult<u64>)
    ensures
        w & 0x8000_0000_0000_0000 == 0 ==> r == SysResult::<u64>::Ok(w),
        forall|e: SysError| w == error_code_spec(e) ==> r == SysResult::<u64>::Err(e),
{
    proof {
        assert(forall|x: u64| x & 0x8000_0000_0000_0000 == 0 ==> x <= 0x7fff_ffff_ffff_ffffu64)
            by (bit_vector);
    }
    if w == 0xffff_ffff_0000_0001 { Err(SysError::BadSyscall) }
    else if w == 0xffff_ffff_0000_0002 { Err(SysError::BadPointer) }
    else if w == 0xffff_ffff_0000_0003 { Err(SysError::AlreadyMapped) }
    else if w == 0xffff_ffff_0000_0004 { Err(SysError::MemoryExhausted) }
    else if w == 0xffff_ffff_0000_0005 { Err(SysError::IllegalValue) }
    else if w == 0xffff_ffff_0000_0006 { Err(SysError::WrongObjectKind) }
    else if w == 0xffff_ffff_0000_0007 { Err(SysError::BadHandle) }
    else if w == 0xffff_ffff_0000_0008 { Err(SysError::IoError) }
    else if w == 0xffff_ffff_0000_0009 { Err(SysError::NoFile) }
    else { Ok(w) }
}

/// Law: decoding an encoded result gives the result back, for every
/// successful value user code can receive and for every error.
pub fn decode_encode_round_trip(r: SysResult<u64>) -> (d: SysResult<u64>)
    requires
        r is Ok ==> r->Ok_0 <= MAX_SYS_RESULT,
    ensures
        d == r,
{
    let w = encode_result(r);
    let d = decode_result(w);
    proof {
        if r is Ok {
            let v = r->Ok_0;
            assert(v <= 0x7fff_ffff_ffff_ffffu64 ==> v & 0x8000_0000_0000_0000 == 0)
                by (bit_vector);
        }
    }
    d
}

} // verus!
