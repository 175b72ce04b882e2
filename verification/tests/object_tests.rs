use crabos::critical;
use crabos::machine::{machine_new, Machine};
use crabos::mem::page;
use crabos::mem::phys::{phys_init, BiosMemoryRegion, RawPhys};
use crabos::object::{self, clone_release_round_trip, drop_ref, Handle, Object, ObjectKind};
use crabos::task::TaskId;

fn plain_machine() -> Machine {
    let mut m = machine_new();
    let regions = vec![BiosMemoryRegion {
        begin: RawPhys(0x100000),
        size: 0x100000,
        kind: 1,
        acpi_ex_attrs: 0,
    }];
    phys_init(&mut m, &regions, RawPhys(0x100000));
    m.cr3 = 0x1000;
    let crit = critical::begin(&mut m);
    page::init_ref_counts(&mut m, &crit);
    critical::end(&mut m, crit);
    m
}

#[test]
fn handles_grow_strictly_within_a_task() {
    let mut o = object::init();
    let t = TaskId(1);
    let mut last = 0u64;
    for _ in 0..10 {
        let r = Object::new(&mut o, ObjectKind::File(crabos::object::file::File::Console));
        let h = object::put(&mut o, t, r).unwrap();
        assert!(h.0 > last);
        last = h.0;
    }
    assert_eq!(last, 10);
}

#[test]
fn releasing_a_handle_reopens_its_number_space() {
    let mut o = object::init();
    let mut m = plain_machine();
    let t = TaskId(1);
    let r1 = Object::new(&mut o, ObjectKind::Task(TaskId(9)));
    let h1 = object::put(&mut o, t, r1).unwrap();
    let r2 = Object::new(&mut o, ObjectKind::Task(TaskId(9)));
    let h2 = object::put(&mut o, t, r2).unwrap();
    assert_eq!((h1.0, h2.0), (1, 2));
    let back = object::release(&mut o, t, h1).unwrap();
    drop_ref(&mut o, &mut m, back);
    // the next handle still exceeds every handle ever issued
    let r3 = Object::new(&mut o, ObjectKind::Task(TaskId(9)));
    let h3 = object::put(&mut o, t, r3).unwrap();
    assert_eq!(h3.0, 3);
}

#[test]
fn clone_then_release_restores_the_table() {
    let mut o = object::init();
    let mut m = plain_machine();
    let t = TaskId(1);
    let r = Object::new(&mut o, ObjectKind::Task(TaskId(4)));
    let h = object::put(&mut o, t, r).unwrap();
    let count_before = o.store[0].count;
    let entries_before: Vec<u64> =
        o.tables[0].entries.iter().map(|e| e.0).collect();
    // the pair of operations CloneHandle / ReleaseHandle
    let obj = object::get(&mut o, t, h).unwrap();
    let h2 = object::put(&mut o, t, obj).unwrap();
    assert!(h2.0 > h.0);
    let back = object::release(&mut o, t, h2).unwrap();
    drop_ref(&mut o, &mut m, back);
    let entries_after: Vec<u64> =
        o.tables[0].entries.iter().map(|e| e.0).collect();
    assert_eq!(entries_after, entries_before);
    assert_eq!(o.store[0].count, count_before);
}

#[test]
fn clone_release_handle_law_runs() {
    let mut o = object::init();
    let mut m = plain_machine();
    let t = TaskId(1);
    let r = Object::new(&mut o, ObjectKind::Task(TaskId(4)));
    let h = object::put(&mut o, t, r).unwrap();
    let got = clone_release_round_trip(&mut o, &mut m, t, h);
    assert!(got.is_some());
    assert_eq!(o.store[0].count, 1);
    assert_eq!(o.tables[0].entries.len(), 1);
}

#[test]
fn last_reference_tears_the_object_down() {
    let mut o = object::init();
    let mut m = plain_machine();
    let r = Object::new(&mut o, ObjectKind::Task(TaskId(2)));
    let r2 = object::clone_ref(&mut o, &r);
    assert_eq!(o.store[0].count, 2);
    drop_ref(&mut o, &mut m, r2);
    assert_eq!(o.store[0].count, 1);
    assert!(o.store[0].object.is_some());
    drop_ref(&mut o, &mut m, r);
    assert!(o.store[0].object.is_none());
}

#[test]
fn zero_is_no_handle() {
    assert!(Handle::from_u64(0).is_none());
    let h = Handle::from_u64(7).unwrap();
    assert_eq!(h.into_u64(), 7);
}

#[test]
fn unknown_handles_are_refused() {
    let mut o = object::init();
    let t = TaskId(1);
    assert!(object::get(&mut o, t, Handle(3)).is_none());
    assert!(object::release(&mut o, t, Handle(3)).is_err());
}

#[test]
fn task_teardown_drops_the_whole_table() {
    let mut o = object::init();
    let mut m = plain_machine();
    let t = TaskId(1);
    let r1 = Object::new(&mut o, ObjectKind::Task(TaskId(5)));
    object::put(&mut o, t, r1).unwrap();
    let r2 = Object::new(&mut o, ObjectKind::Task(TaskId(6)));
    object::put(&mut o, t, r2).unwrap();
    assert_eq!(o.tables.len(), 1);
    object::drop_all_for_task(&mut o, &mut m, t);
    assert_eq!(o.tables.len(), 0);
    // both objects lost their only reference
    assert!(o.store[0].object.is_none());
    assert!(o.store[1].object.is_none());
}
