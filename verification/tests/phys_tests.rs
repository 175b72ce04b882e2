use crabos::critical;
use crabos::machine::{machine_new, Machine};
use crabos::mem::phys::{self, alloc_frame, phys_init, BiosMemoryRegion, Phys, RawPhys};
use crabos::mem::page;

fn one_region() -> Vec<BiosMemoryRegion> {
    vec![BiosMemoryRegion {
        begin: RawPhys(0x100000),
        size: 0x100000,
        kind: 1,
        acpi_ex_attrs: 0,
    }]
}

fn boot_machine() -> Machine {
    let mut m = machine_new();
    phys_init(&mut m, &one_region(), RawPhys(0x100000));
    // the boot root lives below the managed regions
    m.cr3 = 0x1000;
    let crit = critical::begin(&mut m);
    page::init_ref_counts(&mut m, &crit);
    critical::end(&mut m, crit);
    m
}

#[test]
fn region_gives_exactly_256_frames() {
    let mut m = boot_machine();
    let mut seen: Vec<u64> = Vec::new();
    for _ in 0..256 {
        let p = alloc_frame(&mut m).unwrap();
        let raw = p.into_raw().0;
        // aligned, fresh, and inside the region
        assert_eq!(raw & 0xfff, 0);
        assert!((0x100000..0x200000).contains(&raw));
        assert!(!seen.contains(&raw));
        seen.push(raw);
    }
    assert!(alloc_frame(&mut m).is_err());
}

#[test]
fn freed_frame_is_reused_first() {
    let mut m = boot_machine();
    let mut held: Vec<Phys> = Vec::new();
    for _ in 0..256 {
        held.push(alloc_frame(&mut m).unwrap());
    }
    assert!(alloc_frame(&mut m).is_err());
    let chosen = held.remove(17);
    let chosen_raw = chosen.raw;
    chosen.release(&mut m);
    let next = alloc_frame(&mut m).unwrap();
    assert_eq!(next.raw, chosen_raw);
}

#[test]
fn frames_come_back_zero_filled() {
    let mut m = boot_machine();
    let p = alloc_frame(&mut m).unwrap();
    let f = p.raw;
    // scribble, free, and allocate again
    m.mem.write_word(f, 3, 0xdead_beef);
    m.mem.write_word(f, 511, 7);
    p.release(&mut m);
    let q = alloc_frame(&mut m).unwrap();
    assert_eq!(q.raw, f);
    for i in 0..512 {
        assert_eq!(m.mem.read_word(f, i), 0);
    }
}

#[test]
fn clone_counts_and_last_drop_frees_once() {
    let mut m = boot_machine();
    let p = alloc_frame(&mut m).unwrap();
    let f = p.raw;
    assert_eq!(phys::ref_count(&m, f), Some(1));
    let q = p.clone_ref(&mut m);
    assert_eq!(phys::ref_count(&m, f), Some(2));
    q.release(&mut m);
    // one reference left: still allocated
    assert_eq!(phys::ref_count(&m, f), Some(1));
    assert_ne!(m.free_head, f);
    p.release(&mut m);
    // both gone: on the free list exactly once
    assert_eq!(phys::ref_count(&m, f), Some(0));
    assert_eq!(m.free_head, f);
}

#[test]
fn raw_round_trip_is_identity_and_keeps_counts() {
    let mut m = boot_machine();
    let p = alloc_frame(&mut m).unwrap();
    let f = p.raw;
    assert_eq!(phys::ref_count(&m, f), Some(1));
    let raw = p.into_raw();
    assert_eq!(raw.0, f);
    let p2 = Phys::from_raw(raw);
    assert_eq!(p2.raw, f);
    // the counter never moved
    assert_eq!(phys::ref_count(&m, f), Some(1));
    p2.release(&mut m);
    assert_eq!(phys::ref_count(&m, f), Some(0));
}

#[test]
fn clone_release_law_runs() {
    let mut m = boot_machine();
    let p = alloc_frame(&mut m).unwrap();
    let f = p.raw;
    phys::clone_release_law(p, &mut m);
    assert_eq!(phys::ref_count(&m, f), Some(0));
    assert_eq!(m.free_head, f);
}

#[test]
fn regions_below_the_boundary_are_clamped() {
    let mut m = machine_new();
    let regions = vec![
        // fully below the boundary: rejected
        BiosMemoryRegion { begin: RawPhys(0x1000), size: 0x2000, kind: 1, acpi_ex_attrs: 0 },
        // straddles the boundary: clamped to it
        BiosMemoryRegion { begin: RawPhys(0xf0000), size: 0x20000, kind: 1, acpi_ex_attrs: 0 },
        // reserved kind: rejected
        BiosMemoryRegion { begin: RawPhys(0x300000), size: 0x10000, kind: 2, acpi_ex_attrs: 0 },
    ];
    phys_init(&mut m, &regions, RawPhys(0x100000));
    m.cr3 = 0x1000;
    let crit = critical::begin(&mut m);
    page::init_ref_counts(&mut m, &crit);
    critical::end(&mut m, crit);
    // only [0x100000, 0x110000) survives: 16 frames
    for _ in 0..16 {
        let p = alloc_frame(&mut m).unwrap();
        assert!((0x100000..0x110000).contains(&p.raw));
    }
    assert!(alloc_frame(&mut m).is_err());
}

#[test]
fn distinctness_law_runs() {
    let mut m = boot_machine();
    let (a, b) = phys::alloc_distinct_law(&mut m).unwrap();
    assert_ne!(a.raw, b.raw);
    assert_eq!(a.raw & 0xfff, 0);
    assert_eq!(b.raw & 0xfff, 0);
}
