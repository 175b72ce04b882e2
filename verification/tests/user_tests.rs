use crabos::critical::Critical;
use crabos::machine::machine_new;
use crabos::mem::user::{validate_available, validate_page_align, PageRange};
use crabos::interface::SysError;

#[test]
fn alignment_is_checked() {
    assert!(validate_page_align(0x1000).is_ok());
    assert!(validate_page_align(0).is_ok());
    assert_eq!(validate_page_align(0x1001), Err(SysError::BadPointer));
}

#[test]
fn ranges_stay_inside_user_space() {
    let pr = PageRange::new(0x4000_0000, 2).unwrap();
    assert_eq!(pr.base_page, 0x4000_0000);
    assert_eq!(pr.page_count, 2);
    assert_eq!(PageRange::new(0x4000_0001, 1), Err(SysError::BadPointer));
    assert_eq!(
        PageRange::new(0x0000_8000_0000_0000, 1),
        Err(SysError::BadPointer)
    );
    assert_eq!(
        PageRange::new(0x0000_7fff_ffff_f000, 2),
        Err(SysError::BadPointer)
    );
    assert_eq!(
        PageRange::new(0x1000, u64::MAX / 2),
        Err(SysError::MemoryExhausted)
    );
}

#[test]
fn containing_covers_the_span() {
    let pr = PageRange::containing(0x4000_0123, 0x2000).unwrap();
    assert_eq!(pr.base_page, 0x4000_0000);
    assert_eq!(pr.page_count, 3);
    let pr = PageRange::containing(0x4000_0000, 0x1000).unwrap();
    assert_eq!(pr.page_count, 1);
    let pages = pr.pages();
    assert_eq!(pages, vec![0x4000_0000]);
}

#[test]
fn empty_tables_leave_everything_available() {
    let m = machine_new();
    let pr = PageRange::new(0x4000_0000, 4).unwrap();
    let crit = Critical { saved_iflag: false };
    assert!(validate_available(&m, &pr, &crit).is_ok());
}

#[test]
fn borrowing_needs_mapped_pages() {
    let m = machine_new();
    let crit = Critical { saved_iflag: false };
    // nothing is mapped in an empty machine
    assert!(crabos::mem::user::borrow_slice(&m, 0x4000_0000, 4, 1, &crit).is_err());
    assert!(crabos::mem::user::borrow(&m, 0x4000_0000, 8, &crit).is_err());
}
