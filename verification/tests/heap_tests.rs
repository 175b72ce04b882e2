use crabos::critical;
use crabos::machine::{machine_new, Machine};
use crabos::mem::kalloc::{alloc_layout, free_layout, heap_round_trip_law, SizeClass};
use crabos::mem::kvirt::{alloc_page, free_page};
use crabos::mem::page;
use crabos::mem::phys::{alloc_frame, phys_init, BiosMemoryRegion, RawPhys};

fn boot_with_root() -> Machine {
    let mut m = machine_new();
    let regions = vec![BiosMemoryRegion {
        begin: RawPhys(0x100000),
        size: 0x400000,
        kind: 1,
        acpi_ex_attrs: 0,
    }];
    phys_init(&mut m, &regions, RawPhys(0x100000));
    let root = alloc_frame(&mut m).unwrap();
    m.cr3 = root.into_raw().0;
    let crit = critical::begin(&mut m);
    page::init_ref_counts(&mut m, &crit);
    critical::end(&mut m, crit);
    m.kv_next = 0x3000_0000;
    m
}

#[test]
fn alloc_free_restores_the_class() {
    let mut m = boot_with_root();
    let ptr = alloc_layout(&mut m, 16, 8).unwrap();
    let before = m.heap.classes[0].free.len();
    free_layout(&mut m, ptr, 16, 8);
    assert_eq!(m.heap.classes[0].free.len(), before + 1);
    let ptr2 = alloc_layout(&mut m, 16, 8).unwrap();
    assert_eq!(ptr2, ptr);
    assert_eq!(m.heap.classes[0].free.len(), before);
}

#[test]
fn one_page_serves_256_sixteen_byte_objects() {
    let mut m = boot_with_root();
    let kv0 = m.kv_next;
    for _ in 0..256 {
        alloc_layout(&mut m, 16, 8).unwrap();
    }
    // exactly one kernel-virtual page consumed
    assert_eq!(m.kv_next, kv0 + 4096);
    alloc_layout(&mut m, 16, 8).unwrap();
    assert_eq!(m.kv_next, kv0 + 8192);
}

#[test]
fn layouts_pick_the_first_fitting_class() {
    let mut m = boot_with_root();
    let p = alloc_layout(&mut m, 100, 8).unwrap();
    // served from the 128-byte class
    assert_eq!(m.heap.classes[3].free.len(), 4096 / 128 - 1);
    free_layout(&mut m, p, 100, 8);
    assert_eq!(m.heap.classes[3].free.len(), 4096 / 128);
    let c = SizeClass::new(64);
    assert!(c.fits(64, 64));
    assert!(!c.fits(65, 1));
    assert!(!c.fits(1, 128));
}

#[test]
fn heap_round_trip_law_runs() {
    let mut m = boot_with_root();
    assert!(heap_round_trip_law(&mut m, 512, 8).is_some());
    assert_eq!(m.heap.classes[5].free.len(), 4096 / 512);
}

fn backing_frame(m: &mut Machine, page_addr: u64) -> u64 {
    let c = critical::begin(m);
    let e = page::entry(m, page_addr, &c).expect("the page is mapped");
    critical::end(m, c);
    e.raw_phys().expect("the entry points at a frame").0
}

#[test]
fn reused_kernel_pages_come_back_wiped() {
    let mut m = boot_with_root();
    let a = alloc_page(&mut m).unwrap();
    let d = backing_frame(&mut m, a);
    // scribble into the backing frame, give the page back, take it
    // out again: the allocator wipes it before handing it out
    m.mem.write_word(d, 3, 0xdead_beef);
    free_page(&mut m, a);
    assert_eq!(alloc_page(&mut m).unwrap(), a);
    assert_eq!(m.mem.read_word(d, 3), 0);
}

#[test]
fn reused_heap_slots_come_back_wiped() {
    let mut m = boot_with_root();
    let ptr = alloc_layout(&mut m, 16, 8).unwrap();
    let pg = ptr & !0xfffu64;
    let d = backing_frame(&mut m, pg);
    let w = ((ptr - pg) / 8) as usize;
    m.mem.write_word(d, w, 0x5555_5555);
    free_layout(&mut m, ptr, 16, 8);
    assert_eq!(alloc_layout(&mut m, 16, 8).unwrap(), ptr);
    assert_eq!(m.mem.read_word(d, w), 0);
}

#[test]
fn kernel_pages_are_reused_lifo() {
    let mut m = boot_with_root();
    let a = alloc_page(&mut m).unwrap();
    let b = alloc_page(&mut m).unwrap();
    assert_eq!(b, a + 4096);
    free_page(&mut m, a);
    free_page(&mut m, b);
    assert_eq!(alloc_page(&mut m).unwrap(), b);
    assert_eq!(alloc_page(&mut m).unwrap(), a);
}
