use crabos::critical;
use crabos::interrupt::TrapFrame;
use crabos::machine::{machine_new, Machine};
use crabos::mem::page::{self, is_mapped};
use crabos::mem::phys::{self, alloc_frame, phys_init, BiosMemoryRegion, RawPhys};
use crabos::object::{self, Object, ObjectKind};
use crabos::syscall::{self, dispatch_syscall, get_set_page_context_round_trip, start};
use crabos::task::{self, Kernel, Resume, TaskId, TaskState};

fn boot_kernel() -> Kernel {
    let mut m = machine_new();
    let regions = vec![BiosMemoryRegion {
        begin: RawPhys(0x100000),
        size: 0x400000,
        kind: 1,
        acpi_ex_attrs: 0,
    }];
    phys_init(&mut m, &regions, RawPhys(0x100000));
    let root = alloc_frame(&mut m).unwrap();
    m.cr3 = root.into_raw().0;
    let crit = critical::begin(&mut m);
    page::init_ref_counts(&mut m, &crit);
    page::init_kernel_pml4_entries(&mut m, &crit).unwrap();
    critical::end(&mut m, crit);
    let mut k = task::init(m, object::init());
    let ctx = page::current_ctx(&mut k.machine);
    let obj = Object::new(&mut k.objects, ObjectKind::PageCtx(ctx));
    task::spawn(&mut k, obj, 0x1000_0000, 0x2000_0000).unwrap();
    k
}

fn run_syscall(k: &mut Kernel, rax: u64, rdi: u64, rsi: u64, rdx: u64) -> u64 {
    let mut frame = TrapFrame::new(0x1000_0000, 0x2000_0000);
    frame.regs.rax = rax;
    frame.regs.rdi = rdi;
    frame.regs.rsi = rsi;
    frame.regs.rdx = rdx;
    let _ = dispatch_syscall(k, &mut frame);
    // the result sits in the calling task's saved frame
    let f = k
        .tasks
        .iter()
        .find(|s| s.task.id == TaskId(1))
        .expect("the calling task is still scheduled");
    match &f.state {
        TaskState::User(f) => f.regs.rax,
        _ => panic!("the syscall should leave the task ready for user mode"),
    }
}

#[test]
fn the_first_task_reaches_user_mode() {
    let mut k = boot_kernel();
    match start(&mut k) {
        Resume::User(id, f) => {
            assert_eq!(id, TaskId(1));
            assert_eq!(f.rip, 0x1000_0000);
            assert_eq!(f.rsp, 0x2000_0000);
            assert_eq!(k.current, Some(TaskId(1)));
        }
        _ => panic!("the spawned task should run"),
    }
}

#[test]
fn unknown_syscall_numbers_come_back_as_bad_syscall() {
    let mut k = boot_kernel();
    start(&mut k);
    let rax = run_syscall(&mut k, 999, 0, 0, 0);
    assert_eq!(rax, 0xffff_ffff_0000_0001);
    assert_ne!(rax & 0x8000_0000_0000_0000, 0);
}

#[test]
fn debug_returns_ok() {
    let mut k = boot_kernel();
    start(&mut k);
    assert_eq!(run_syscall(&mut k, 7, 0, 0, 0), 0);
}

#[test]
fn pages_can_be_allocated_written_flags_and_released() {
    let mut k = boot_kernel();
    start(&mut k);
    let v = 0x4000_0000u64;
    // AllocPage(virt, 2 pages, WRITE)
    assert_eq!(run_syscall(&mut k, 1, v, 2, 2), 0);
    assert!(is_mapped(&k.machine, v));
    assert!(is_mapped(&k.machine, v + 0x1000));
    assert!(!is_mapped(&k.machine, v + 0x2000));
    // mapping the same range again is refused
    assert_eq!(run_syscall(&mut k, 1, v, 1, 2), 0xffff_ffff_0000_0003);
    // ModifyPage to read-only
    assert_eq!(run_syscall(&mut k, 3, v, 2, 0), 0);
    // ReleasePage(virt, 2)
    assert_eq!(run_syscall(&mut k, 2, v, 2, 0), 0);
    assert!(!is_mapped(&k.machine, v));
    assert!(!is_mapped(&k.machine, v + 0x1000));
    // releasing unmapped pages is a bad pointer
    assert_eq!(run_syscall(&mut k, 2, v, 1, 0), 0xffff_ffff_0000_0002);
}

#[test]
fn exhausting_memory_rolls_a_partial_allocation_back() {
    let mut k = boot_kernel();
    start(&mut k);
    let v = 0x4000_0000u64;
    // far more pages than the machine's 4 MiB region can back
    assert_eq!(run_syscall(&mut k, 1, v, 2000, 2), 0xffff_ffff_0000_0004);
    // the partially mapped prefix was unmapped again before reporting
    assert!(!is_mapped(&k.machine, v));
    assert!(!is_mapped(&k.machine, v + 0x1000));
    // and its frames came back: a small allocation of the same base
    // succeeds instead of tripping over a stranded prefix
    assert_eq!(run_syscall(&mut k, 1, v, 1, 2), 0);
    assert!(is_mapped(&k.machine, v));
}

#[test]
fn waking_a_running_task_changes_nothing() {
    let mut k = boot_kernel();
    start(&mut k);
    // the task is in user mode; a stray wake must not discard that
    task::wake(&mut k, TaskId(1));
    assert!(matches!(k.tasks[0].state, TaskState::User(_)));
}

#[test]
fn illegal_flag_bits_are_refused() {
    let mut k = boot_kernel();
    start(&mut k);
    assert_eq!(run_syscall(&mut k, 1, 0x4000_0000, 1, 0xff), 0xffff_ffff_0000_0005);
}

#[test]
fn create_and_switch_address_spaces() {
    let mut k = boot_kernel();
    start(&mut k);
    let old_root = k.machine.cr3;
    let old_count = phys::ref_count(&k.machine, old_root).unwrap();
    // CreatePageContext hands the task its first handle
    let handle = run_syscall(&mut k, 6, 0, 0, 0);
    assert_eq!(handle, 1);
    // SetPageContext loads the new space
    assert_eq!(run_syscall(&mut k, 8, handle, 0, 0), 0);
    let new_root = k.machine.cr3;
    assert_ne!(new_root, old_root);
    // the old root gave one reference unit back
    assert_eq!(
        phys::ref_count(&k.machine, old_root).unwrap(),
        old_count - 1
    );
    // the new space shares the kernel half with the old one
    for i in 256..511 {
        assert_eq!(
            k.machine.mem.read_word(new_root, i),
            k.machine.mem.read_word(old_root, i)
        );
    }
}

#[test]
fn setting_the_current_context_changes_nothing() {
    let mut k = boot_kernel();
    start(&mut k);
    let root = k.machine.cr3;
    let count = phys::ref_count(&k.machine, root).unwrap();
    // GetPageContext then SetPageContext of the same handle
    let handle = run_syscall(&mut k, 9, 0, 0, 0);
    assert_eq!(handle, 1);
    assert_eq!(run_syscall(&mut k, 8, handle, 0, 0), 0);
    assert_eq!(k.machine.cr3, root);
    assert_eq!(phys::ref_count(&k.machine, root).unwrap(), count);
}

#[test]
fn page_context_round_trip_law_runs() {
    let mut k = boot_kernel();
    start(&mut k);
    let root = k.machine.cr3;
    let r = get_set_page_context_round_trip(&mut k);
    assert!(r.is_some());
    assert_eq!(k.machine.cr3, root);
}

#[test]
fn clone_and_release_handles_through_syscalls() {
    let mut k = boot_kernel();
    start(&mut k);
    let h1 = run_syscall(&mut k, 6, 0, 0, 0);
    let h2 = run_syscall(&mut k, 5, h1, 0, 0);
    assert!(h2 > h1);
    assert_eq!(run_syscall(&mut k, 4, h2, 0, 0), 0);
    // releasing it again fails
    assert_eq!(run_syscall(&mut k, 4, h2, 0, 0), 0xffff_ffff_0000_0007);
    // handle zero never names anything
    assert_eq!(run_syscall(&mut k, 4, 0, 0, 0), 0xffff_ffff_0000_0007);
}

#[test]
fn spawned_tasks_share_time_round_robin() {
    let mut k = boot_kernel();
    let ctx2 = page::current_ctx(&mut k.machine);
    let obj2 = Object::new(&mut k.objects, ObjectKind::PageCtx(ctx2));
    task::spawn(&mut k, obj2, 0x1100_0000, 0x2100_0000).unwrap();
    start(&mut k);
    let mut frame = TrapFrame::new(0, 0);
    // let both continuations hand over their first frames
    for _ in 0..3 {
        syscall::switch(&mut k, &mut frame);
    }
    // then count who runs over a stretch of timer ticks
    let mut runs = [0u32; 3];
    for _ in 0..10 {
        match syscall::switch(&mut k, &mut frame) {
            Resume::User(TaskId(id), _) => runs[id as usize] += 1,
            _ => {}
        }
    }
    assert!(runs[1] >= 4 && runs[2] >= 4);
    assert!(runs[1].abs_diff(runs[2]) <= 1);
}

#[test]
fn exit_removes_the_task_and_its_handles() {
    let mut k = boot_kernel();
    start(&mut k);
    let h = run_syscall(&mut k, 6, 0, 0, 0);
    assert_eq!(h, 1);
    let mut frame = TrapFrame::new(0x1000_0000, 0x2000_0000);
    frame.regs.rax = 11;
    let r = dispatch_syscall(&mut k, &mut frame);
    // nothing is left to run
    assert!(matches!(r, Resume::Idle));
    assert!(k.tasks.is_empty());
}

#[test]
fn create_task_schedules_a_second_task() {
    let mut k = boot_kernel();
    start(&mut k);
    let h = run_syscall(&mut k, 6, 0, 0, 0);
    assert_eq!(run_syscall(&mut k, 10, h, 0x1200_0000, 0x2200_0000), 0);
    assert_eq!(k.tasks.len(), 2);
    assert_eq!(k.tasks[1].task.id, TaskId(2));
    assert!(matches!(k.tasks[1].state, TaskState::Wake));
}

#[test]
fn wakes_are_idempotent() {
    let mut k = boot_kernel();
    task::wake(&mut k, TaskId(1));
    task::wake(&mut k, TaskId(1));
    assert!(matches!(k.tasks[0].state, TaskState::Wake));
    // waking an unknown task does nothing
    task::wake(&mut k, TaskId(77));
}

#[test]
fn file_syscalls_park_on_io() {
    let mut k = boot_kernel();
    start(&mut k);
    // install a console object as the task's first handle
    let console = Object::new(
        &mut k.objects,
        ObjectKind::File(crabos::object::file::File::Console),
    );
    let h = object::put(&mut k.objects, TaskId(1), console).unwrap();
    // WriteFile needs a mapped buffer
    let v = 0x4000_0000u64;
    assert_eq!(run_syscall(&mut k, 1, v, 1, 2), 0);
    let mut frame = TrapFrame::new(0x1000_0000, 0x2000_0000);
    frame.regs.rax = 14;
    frame.regs.rdi = h.into_u64();
    frame.regs.rsi = v;
    frame.regs.rdx = 128;
    let r = dispatch_syscall(&mut k, &mut frame);
    let id = match r {
        Resume::Io(id, syscall::IoRequest::WriteFile { buf, .. }) => {
            assert_eq!(buf.addr, v);
            assert_eq!(buf.len, 128);
            id
        }
        _ => panic!("the write should park on the driver"),
    };
    // the driver completes with the byte count; the task resumes
    syscall::complete_io(&mut k, id, Ok(128));
    match &k.tasks[0].state {
        TaskState::User(f) => {
            assert_eq!(f.regs.rax, 128);
            assert_eq!(f.regs.rax & 0x8000_0000_0000_0000, 0);
        }
        _ => panic!("the task should be ready for user mode"),
    }
}

#[test]
fn bad_buffers_fail_file_syscalls_at_once() {
    let mut k = boot_kernel();
    start(&mut k);
    let console = Object::new(
        &mut k.objects,
        ObjectKind::File(crabos::object::file::File::Console),
    );
    let h = object::put(&mut k.objects, TaskId(1), console).unwrap();
    // an unmapped buffer is a bad pointer
    let rax = run_syscall(&mut k, 14, h.into_u64(), 0x4000_0000, 16);
    assert_eq!(rax, 0xffff_ffff_0000_0002);
    // the wrong object kind is refused
    let hctx = run_syscall(&mut k, 6, 0, 0, 0);
    let rax = run_syscall(&mut k, 14, hctx, 0x4000_0000, 16);
    assert_eq!(rax, 0xffff_ffff_0000_0006);
}
