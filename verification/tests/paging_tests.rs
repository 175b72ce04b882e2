use crabos::critical;
use crabos::machine::{machine_new, Machine};
use crabos::mem::page::{self, is_mapped, modify, unmap, MapError, PageCtx, PageFlags,
    PmlEntry};
use crabos::mem::phys::{alloc_frame, phys_init, BiosMemoryRegion, RawPhys};

fn boot_with_root() -> Machine {
    let mut m = machine_new();
    let regions = vec![BiosMemoryRegion {
        begin: RawPhys(0x100000),
        size: 0x400000,
        kind: 1,
        acpi_ex_attrs: 0,
    }];
    phys_init(&mut m, &regions, RawPhys(0x100000));
    let root = alloc_frame(&mut m).unwrap();
    m.cr3 = root.into_raw().0;
    let crit = critical::begin(&mut m);
    page::init_ref_counts(&mut m, &crit);
    critical::end(&mut m, crit);
    m
}

#[test]
fn map_then_unmap_restores_the_mapping() {
    let mut m = boot_with_root();
    let v = 0x4000_0000u64;
    assert!(!is_mapped(&m, v));
    let f = alloc_frame(&mut m).unwrap();
    let fr = f.raw;
    page::map(&mut m, f, v, PageFlags { bits: 0x7 }).unwrap();
    assert!(is_mapped(&m, v));
    unmap(&mut m, v).unwrap();
    assert!(!is_mapped(&m, v));
    // the frame went back to the allocator
    let again = alloc_frame(&mut m).unwrap();
    assert_eq!(again.raw, fr);
}

#[test]
fn mapping_twice_reports_already_mapped_and_keeps_the_first() {
    let mut m = boot_with_root();
    let v = 0x4000_0000u64;
    let f1 = alloc_frame(&mut m).unwrap();
    let first = f1.raw;
    page::map(&mut m, f1, v, PageFlags { bits: 0x7 }).unwrap();
    let f2 = alloc_frame(&mut m).unwrap();
    let second = f2.raw;
    let r = page::map(&mut m, f2, v, PageFlags { bits: 0x7 });
    assert_eq!(r, Err(MapError::AlreadyMapped));
    // the original mapping is intact
    let crit = critical::Critical { saved_iflag: false };
    let e = page::entry(&m, v, &crit).unwrap();
    assert_eq!(e.0 & 0xffff_ffff_ffff_f000, first);
    // the refused frame's reference was dropped, so it is free again
    assert_eq!(crabos::mem::phys::ref_count(&m, second), Some(0));
    assert_eq!(alloc_frame(&mut m).unwrap().raw, second);
}

#[test]
fn modify_rewrites_flags_and_keeps_the_frame() {
    let mut m = boot_with_root();
    let v = 0x4000_0000u64;
    let f = alloc_frame(&mut m).unwrap();
    let fr = f.raw;
    page::map(&mut m, f, v, PageFlags { bits: 0x7 }).unwrap();
    modify(&mut m, v, PageFlags { bits: 0x1 }).unwrap();
    let crit = critical::Critical { saved_iflag: false };
    let e = page::entry(&m, v, &crit).unwrap();
    assert_eq!(e.0, fr | 0x1);
    assert_eq!(modify(&mut m, 0x5000_0000, PageFlags { bits: 0x1 }),
        Err(page::NotMapped));
}

#[test]
fn round_trip_law_restores_the_allocator() {
    let mut m = boot_with_root();
    let v = 0x4000_0000u64;
    // build the table path once, then clear the leaf
    let f = alloc_frame(&mut m).unwrap();
    page::map(&mut m, f, v, PageFlags { bits: 0x7 }).unwrap();
    unmap(&mut m, v).unwrap();
    let r = page::map_unmap_round_trip(&mut m, v, PageFlags { bits: 0x7 });
    assert!(r.is_some());
    assert!(!is_mapped(&m, v));
}

#[test]
fn new_address_space_copies_the_kernel_half() {
    let mut m = boot_with_root();
    let crit = critical::begin(&mut m);
    page::init_kernel_pml4_entries(&mut m, &crit).unwrap();
    critical::end(&mut m, crit);
    let root = m.cr3;
    let ctx = PageCtx::new(&mut m).unwrap();
    let p = ctx.pml4.raw;
    assert_ne!(p, root);
    for i in 256..511 {
        assert_eq!(m.mem.read_word(p, i), m.mem.read_word(root, i));
        assert_ne!(m.mem.read_word(p, i), 0);
    }
    // the recursive slot points at the table itself
    assert_eq!(m.mem.read_word(p, 511), p | 0x3);
    // the user half is empty
    for i in 0..256 {
        assert_eq!(m.mem.read_word(p, i), 0);
    }
}

#[test]
fn walk_yields_each_reference_once() {
    let mut m = boot_with_root();
    let before = page::each_phys(&m);
    assert_eq!(before, vec![m.cr3]);
    let f = alloc_frame(&mut m).unwrap();
    let fr = f.raw;
    page::map(&mut m, f, 0x4000_0000, PageFlags { bits: 0x7 }).unwrap();
    let refs = page::each_phys(&m);
    // root, three fresh tables, one data frame
    assert_eq!(refs.len(), 5);
    assert_eq!(refs[0], m.cr3);
    assert_eq!(refs.iter().filter(|&&x| x == fr).count(), 1);
    for w in &refs {
        assert_eq!(w & 0xfff, 0);
    }
}

#[test]
fn entry_helpers_decode_the_word() {
    let e = PmlEntry(0x123000 | 0x7);
    assert_eq!(e.raw_phys(), Some(RawPhys(0x123000)));
    assert_eq!(e.flags().bits, 0x7);
    let mut e2 = PmlEntry(0x123000 | 0x7);
    e2.set_flags(PageFlags { bits: 0x1 });
    assert_eq!(e2.0, 0x123000 | 0x1);
    assert_eq!(PmlEntry(0x6).raw_phys(), None);
}

#[test]
fn lookup_takes_a_counted_reference() {
    let mut m = boot_with_root();
    let v = 0x4000_0000u64;
    let f = alloc_frame(&mut m).unwrap();
    let fr = f.raw;
    page::map(&mut m, f, v, PageFlags { bits: 0x7 }).unwrap();
    let p = page::virt_to_phys(&mut m, v).unwrap();
    assert_eq!(p.raw, fr);
    assert_eq!(crabos::mem::phys::ref_count(&m, fr), Some(2));
    p.release(&mut m);
    assert_eq!(crabos::mem::phys::ref_count(&m, fr), Some(1));
    assert!(page::virt_to_phys(&mut m, 0x7000_0000).is_err());
}
