use crabos::critical;
use crabos::interrupt::{Interrupt, TrapFrame};
use crabos::machine::machine_new;
use crabos::sync::arc::Arc;
use crabos::sync::async_mutex::AsyncMutex;
use crabos::sync::mutex::Mutex;
use crabos::task::{self, TaskEmbryo, TaskId, TaskState};
use crabos::util::early_init::EarlyInit;

#[test]
fn trap_frames_classify_their_vectors() {
    let mut f = TrapFrame::new(0x1234, 0x5678);
    assert_eq!(f.rip, 0x1234);
    assert_eq!(f.rsp, 0x5678);
    assert_eq!(f.cs, 0x1b);
    assert_eq!(f.ss, 0x23);
    assert_eq!(f.rflags, 0x200);
    f.interrupt_vector = 0x7f;
    assert_eq!(f.interrupt(), Interrupt::Syscall);
    f.interrupt_vector = 0x0e;
    assert_eq!(f.interrupt(), Interrupt::PageFault);
    f.interrupt_vector = 0x20;
    assert_eq!(f.interrupt(), Interrupt::Irq(0));
    f.interrupt_vector = 0x0d;
    assert_eq!(f.interrupt(), Interrupt::Exception(0x0d));
    f.interrupt_vector = 0x99;
    assert_eq!(f.interrupt(), Interrupt::Other(0x99));
}

#[test]
fn a_task_posts_its_frame_through_its_run_handle() {
    let mut k = task::init(machine_new(), crabos::object::init());
    let obj = crabos::object::Object::new(
        &mut k.objects,
        crabos::object::ObjectKind::Task(TaskId(9)),
    );
    let id = task::spawn(&mut k, obj, 0x1111, 0x2222).unwrap();
    let embryo = TaskEmbryo { task_id: id };
    let mut run = embryo.setup(TrapFrame::new(0x1111, 0x2222));
    run.trap_frame().regs.rax = 55;
    run.run(&mut k);
    match &k.tasks[0].state {
        TaskState::User(f) => {
            assert_eq!(f.rip, 0x1111);
            assert_eq!(f.regs.rax, 55);
        }
        _ => panic!("the frame should be posted"),
    }
}

#[test]
fn the_once_cell_holds_one_value() {
    let mut cell: EarlyInit<u32> = EarlyInit::new();
    assert!(cell.value.is_none());
    EarlyInit::set(&mut cell, 17);
    assert_eq!(*cell.get(), 17);
}

#[test]
fn the_mutex_begins_and_ends_a_critical_section() {
    let mut m = Mutex::new(3u32);
    let mut mach = machine_new();
    mach.iflag = true;
    let g = m.lock(&mut mach);
    // interrupts are off while the mutex is held
    assert!(!mach.iflag);
    assert!(m.locked);
    m.unlock(&mut mach, g);
    assert!(!m.locked);
    // the prior flag comes back
    assert!(mach.iflag);
    let crit = critical::begin(&mut mach);
    assert!(!m.locked(&crit));
    critical::end(&mut mach, crit);
}

#[test]
fn the_suspension_mutex_wakes_every_waiter() {
    let mut m = AsyncMutex::new(0u32);
    let g = m.lock(TaskId(1)).expect("free mutex");
    assert!(m.lock(TaskId(2)).is_none());
    assert!(m.lock(TaskId(3)).is_none());
    // unlocking releases the lock and drains every queued waker
    let woken = m.unlock(g);
    assert_eq!(woken.len(), 3);
    assert!(woken.contains(&TaskId(1)));
    assert!(woken.contains(&TaskId(2)));
    assert!(woken.contains(&TaskId(3)));
    assert!(!m.locked);
    assert!(m.waiters.is_empty());
}

#[test]
fn the_counted_box_starts_at_one() {
    let a = Arc::new(7u64).unwrap();
    assert_eq!(a.ref_count, 1);
    assert_eq!(a.object, 7);
}
