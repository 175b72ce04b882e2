use crabos::interface::{decode_result, encode_result, SysError, SysResult, Syscall};
use crabos::object::Handle;
use crabos::syscall::args::{handle_from_reg, UserArg};

#[test]
fn ok_values_keep_bit63_clear() {
    assert_eq!(encode_result(Ok(0)), 0);
    assert_eq!(encode_result(Ok(128)), 128);
    assert_eq!(encode_result(Ok(0x7fff_ffff_ffff_ffff)), 0x7fff_ffff_ffff_ffff);
    assert_eq!(encode_result(Ok(42)) & 0x8000_0000_0000_0000, 0);
}

#[test]
fn error_codes_set_bit63() {
    let cases = [
        (SysError::BadSyscall, 0xffff_ffff_0000_0001u64),
        (SysError::BadPointer, 0xffff_ffff_0000_0002),
        (SysError::AlreadyMapped, 0xffff_ffff_0000_0003),
        (SysError::MemoryExhausted, 0xffff_ffff_0000_0004),
        (SysError::IllegalValue, 0xffff_ffff_0000_0005),
        (SysError::WrongObjectKind, 0xffff_ffff_0000_0006),
        (SysError::BadHandle, 0xffff_ffff_0000_0007),
        (SysError::IoError, 0xffff_ffff_0000_0008),
        (SysError::NoFile, 0xffff_ffff_0000_0009),
    ];
    for (e, code) in cases {
        let w = encode_result(Err(e));
        assert_eq!(w, code);
        assert_ne!(w & 0x8000_0000_0000_0000, 0);
        assert_eq!(decode_result(w), Err(e));
    }
}

#[test]
fn decode_inverts_encode() {
    assert_eq!(decode_result(encode_result(Ok(7))), Ok(7));
    assert_eq!(
        decode_result(encode_result(Err(SysError::BadHandle))),
        Err(SysError::BadHandle)
    );
}

#[test]
fn syscall_numbers_round_trip() {
    for n in 1u64..=15 {
        let s = Syscall::from_number(n).unwrap();
        assert_eq!(s.number(), n);
    }
    assert!(Syscall::from_number(0).is_none());
    assert!(Syscall::from_number(16).is_none());
    assert!(Syscall::from_number(999).is_none());
}

#[test]
fn user_side_decoding_matches() {
    let r = crabos::crabapi::SyscallResult(5).decode();
    assert_eq!(r, Ok(5));
    let r = crabos::crabapi::SyscallResult(0xffff_ffff_0000_0007).decode();
    assert_eq!(r, Err(SysError::BadHandle));
    assert_eq!(crabos::crabapi::console().0.as_raw(), 1);
}

#[test]
fn round_trip_law_runs() {
    assert_eq!(
        crabos::interface::decode_encode_round_trip(Ok(1234)),
        Ok(1234)
    );
    assert_eq!(
        crabos::interface::decode_encode_round_trip(Err(SysError::NoFile)),
        Err(SysError::NoFile)
    );
}

#[test]
fn register_arguments_decode() {
    assert_eq!(handle_from_reg(5), Ok(Handle(5)));
    assert_eq!(handle_from_reg(0), Err(SysError::BadHandle));
    assert_eq!(u64::from_reg(9), Ok(9));
    let h: SysResult<Handle> = Handle::from_reg(3);
    assert_eq!(h, Ok(Handle(3)));
    let n: SysResult<Option<Handle>> = Option::<Handle>::from_reg(0);
    assert_eq!(n, Ok(None));
}
