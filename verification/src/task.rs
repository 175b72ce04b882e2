//! The cooperative task runtime: one CPU, user tasks preempted by the
//! timer, kernel work per task as a suspensible state machine polled
//! by the scheduler.

use vstd::prelude::*;
use crate::interrupt::TrapFrame;
use crate::machine::Machine;
use crate::object::{ObjectRef, Objects};

pub use crate::syscall::{complete_io, dispatch_syscall, poll_task, start, switch};

verus! {

/// The unit of scheduling, allocated in strictly increasing order.
#[derive(Clone, Copy, PartialEq, Eq, Structural, Debug)]
pub struct TaskId(pub u64);

/// What a task is doing, exactly one of these at any moment.
pub enum TaskState {
    /// User mode entered the kernel; the continuation will be polled.
    SyscallEntry(TrapFrame),
    /// Ready to resume kernel-side work.
    Wake,
    /// Waiting for a waker.
    Sleep,
    /// Ready to return to user mode with these registers.
    User(TrapFrame),
}

/// A task: its identity and an owned reference to its address space.
pub struct Task {
    pub id: TaskId,
    pub page_ctx: ObjectRef,
}

/// The per-task kernel continuation: the state machine standing in
/// for the task's suspended kernel computation.
pub struct TaskCont {
    /// The registers the task first enters user mode with.
    pub trap_frame: TrapFrame,
    /// Whether the first step, which hands that frame to the
    /// scheduler, has run.
    pub started: bool,
    /// The syscall frame of an I/O step in flight, kept so the result
    /// register can be filled in when the driver completes it.
    pub pending_frame: Option<TrapFrame>,
}

/// One scheduler slot: the task, its state and its continuation live
/// and die together.
pub struct TaskSlot {
    pub task: Task,
    pub state: TaskState,
    pub cont: TaskCont,
}

/// The whole kernel: machine state, objects and handles, and the
/// scheduler's task slots.
pub struct Kernel {
    pub machine: Machine,
    pub objects: Objects,
    pub tasks: Vec<TaskSlot>,
    pub current: Option<TaskId>,
    pub next_task_id: u64,
}

impl Kernel {
    /// Task ids are sorted and below the allocator's next id.
    pub open spec fn tasks_wf(self) -> bool {
        &&& forall|i: int, j: int| 0 <= i < j < self.tasks@.len()
                ==> (#[trigger] self.tasks@[i]).task.id.0
                    < (#[trigger] self.tasks@[j]).task.id.0
        &&& forall|i: int| 0 <= i < self.tasks@.len()
                ==> (#[trigger] self.tasks@[i]).task.id.0 < self.next_task_id
        &&& self.next_task_id >= 1
    }

    /// Whether a task with this id is scheduled.
    pub open spec fn has_task(self, id: TaskId) -> bool {
        exists|i: int| 0 <= i < self.tasks@.len()
            && (#[trigger] self.tasks@[i]).task.id == id
    }

    /// Index of the task with this id.
    pub open spec fn task_index(self, id: TaskId) -> int {
        choose|i: int| 0 <= i < self.tasks@.len()
            && (#[trigger] self.tasks@[i]).task.id == id
    }
}

/// A fresh kernel around a booted machine: no tasks, task ids start
/// at 1.
pub fn init(machine: Machine, objects: Objects) -> (k: Kernel)
    ensures
        k.tasks_wf(),
        k.machine == machine,
        k.objects == objects,
        k.tasks@.len() == 0,
        k.current is None,
        k.next_task_id == 1,
{
    Kernel { machine, objects, tasks: Vec::new(), current: None, next_task_id: 1 }
}

proof fn lemma_task_index(k: Kernel, id: TaskId, i: int)
    requires
        k.tasks_wf(),
        0 <= i < k.tasks@.len(),
        k.tasks@[i].task.id == id,
    ensures
        k.has_task(id),
        k.task_index(id) == i,
{
    assert(k.has_task(id));
    let j = k.task_index(id);
    if i < j {
        assert(k.tasks@[i].task.id.0 < k.tasks@[j].task.id.0);
    } else if j < i {
        assert(k.tasks@[j].task.id.0 < k.tasks@[i].task.id.0);
    }
}

fn find_task(k: &Kernel, id: TaskId) -> (r: Option<usize>)
    requires
        k.tasks_wf(),
    ensures
        match r {
            Some(i) => i < k.tasks@.len() && k.tasks@[i as int].task.id == id
                && k.has_task(id) && k.task_index(id) == i,
            None => !k.has_task(id),
        },
{
    let n = k.tasks.len();
    let mut i: usize = 0;
    while i < n
        invariant
            k.tasks_wf(),
            n == k.tasks@.len(),
            i <= n,
            forall|j: int| 0 <= j < i ==> (#[trigger] k.tasks@[j]).task.id != id,
        decreases n - i,
    {
        if k.tasks[i].task.id.0 == id.0 {
            proof {
                lemma_task_index(*k, id, i as int);
            }
            return Some(i);
        }
        i += 1;
    }
    proof {
        if k.has_task(id) {
            let j = k.task_index(id);
        }
    }
    None
}

/// Pins the index of a slot whose id is known.
pub proof fn lemma_task_index_pub(k: Kernel, id: TaskId, i: int)
    requires
        k.tasks_wf(),
        0 <= i < k.tasks@.len(),
        k.tasks@[i].task.id == id,
    ensures
        k.has_task(id),
        k.task_index(id) == i,
{
    lemma_task_index(k, id, i);
}

/// Index of the task with the given id, if it is scheduled.
pub fn find_task_index(k: &Kernel, id: TaskId) -> (r: Option<usize>)
    requires
        k.tasks_wf(),
    ensures
        match r {
            Some(i) => i < k.tasks@.len() && k.tasks@[i as int].task.id == id
                && k.has_task(id) && k.task_index(id) == i,
            None => !k.has_task(id),
        },
{
    find_task(k, id)
}

/// Allocates the next task id; ids never repeat.
pub fn alloc_task_id(k: &mut Kernel) -> (r: TaskId)
    requires
        old(k).tasks_wf(),
        old(k).next_task_id < u64::MAX,
    ensures
        final(k).tasks_wf(),
        r.0 == old(k).next_task_id,
        final(k).next_task_id == old(k).next_task_id + 1,
        *final(k) == (Kernel { next_task_id: final(k).next_task_id, ..*old(k) }),
{
    let id = k.next_task_id;
    k.next_task_id = id + 1;
    TaskId(id)
}

/// Schedules a new task: owns the given address-space reference, wakes
/// immediately, and will first enter user mode at `rip` with stack
/// `rsp`. Everything is inserted in one step, so a task is never half
/// registered.
pub fn spawn(k: &mut Kernel, page_ctx: ObjectRef, rip: u64, rsp: u64)
    -> (r: Result<TaskId, crate::mem::MemoryExhausted>)
    requires
        old(k).tasks_wf(),
        old(k).next_task_id < u64::MAX,
    ensures
        final(k).tasks_wf(),
        final(k).machine == old(k).machine,
        final(k).objects == old(k).objects,
        final(k).current == old(k).current,
        final(k).next_task_id == old(k).next_task_id + 1,
        r is Ok,
        r is Ok ==> {
            let id = r->Ok_0;
            &&& id.0 == old(k).next_task_id
            &&& final(k).tasks@.len() == old(k).tasks@.len() + 1
            &&& final(k).tasks@.last().task.id == id
            &&& final(k).tasks@.last().state is Wake
            &&& !final(k).tasks@.last().cont.started
            &&& final(k).tasks@.last().cont.trap_frame == crate::interrupt::TrapFrame::new_spec(rip, rsp)
            &&& forall|i: int| 0 <= i < old(k).tasks@.len()
                ==> final(k).tasks@[i] == old(k).tasks@[i]
        },
{
    let id = alloc_task_id(k);
    let frame = TrapFrame::new(rip, rsp);
    let slot = TaskSlot {
        task: Task { id, page_ctx },
        state: TaskState::Wake,
        cont: TaskCont { trap_frame: frame, started: false, pending_frame: None },
    };
    k.tasks.push(slot);
    Ok(id)
}

/// The task the scheduler last dispatched.
pub fn current(k: &Kernel) -> (r: TaskId)
    requires
        k.current is Some,
    ensures
        r == k.current->Some_0,
{
    k.current.unwrap()
}

/// A fresh owned reference to the current task's address space.
pub fn get_page_ctx(k: &mut Kernel) -> (r: Option<ObjectRef>)
    requires
        old(k).tasks_wf(),
        old(k).objects.wf(),
        old(k).current is Some,
        forall|i: int| 0 <= i < old(k).tasks@.len()
            ==> (#[trigger] old(k).tasks@[i]).task.page_ctx.id
                    < old(k).objects.store@.len()
                && old(k).objects.store@[old(k).tasks@[i].task.page_ctx.id as int].count
                    < u64::MAX,
    ensures
        final(k).tasks_wf(),
        final(k).objects.wf(),
        final(k).machine == old(k).machine,
        final(k).tasks == old(k).tasks,
        final(k).current == old(k).current,
        final(k).next_task_id == old(k).next_task_id,
        final(k).objects.tables == old(k).objects.tables,
        final(k).objects.store@.len() == old(k).objects.store@.len(),
        forall|id: int| 0 <= id < old(k).objects.store@.len()
            ==> (#[trigger] final(k).objects.store@[id]).object
                    == old(k).objects.store@[id].object,
        r is Some ==> {
            let pid = old(k).tasks@[old(k).task_index(old(k).current->Some_0)]
                .task.page_ctx.id;
            &&& old(k).has_task(old(k).current->Some_0)
            &&& r->Some_0.id == pid
            &&& final(k).objects.store@ == old(k).objects.store@.update(
                pid as int,
                crate::object::ObjectSlot {
                    count: (old(k).objects.store@[pid as int].count + 1) as u64,
                    ..old(k).objects.store@[pid as int]
                },
            )
        },
        r is None ==> *final(k) == *old(k)
            && !old(k).has_task(old(k).current->Some_0),
{
    let cur = k.current.unwrap();
    let i = match find_task(k, cur) {
        Some(i) => i,
        None => {
            return None;
        }
    };
    let id = k.tasks[i].task.page_ctx.id;
    let r = crate::object::clone_ref(&mut k.objects, &ObjectRef { id });
    Some(r)
}

/// Moves a sleeping task to `Wake`; waking an already awake task
/// changes nothing else, so wakes are idempotent. An unknown id is
/// ignored.
pub fn wake(k: &mut Kernel, task_id: TaskId)
    requires
        old(k).tasks_wf(),
    ensures
        final(k).tasks_wf(),
        final(k).machine == old(k).machine,
        final(k).objects == old(k).objects,
        final(k).current == old(k).current,
        final(k).tasks@.len() == old(k).tasks@.len(),
        old(k).has_task(task_id) ==> {
            let i = old(k).task_index(task_id);
            &&& (old(k).tasks@[i].state is Sleep || old(k).tasks@[i].state is Wake
                ==> final(k).tasks@[i].state is Wake)
            &&& (!(old(k).tasks@[i].state is Sleep || old(k).tasks@[i].state is Wake)
                ==> final(k).tasks@[i].state == old(k).tasks@[i].state)
            &&& final(k).tasks@[i].task == old(k).tasks@[i].task
            &&& final(k).tasks@[i].cont == old(k).tasks@[i].cont
            &&& forall|j: int| 0 <= j < old(k).tasks@.len() && j != i
                ==> final(k).tasks@[j] == old(k).tasks@[j]
        },
        !old(k).has_task(task_id) ==> *final(k) == *old(k),
{
    let i = match find_task(k, task_id) {
        Some(i) => i,
        None => {
            return;
        }
    };
    // only a task that sleeps, or was already woken, moves to Wake: a
    // saved user frame or an entered syscall is never discarded
    let sleeping = match &k.tasks[i].state {
        TaskState::Sleep => true,
        TaskState::Wake => true,
        _ => false,
    };
    if !sleeping {
        return;
    }
    k.tasks[i].state = TaskState::Wake;
    proof {
        assert forall|a: int, b: int| 0 <= a < b < k.tasks@.len() implies
            (#[trigger] k.tasks@[a]).task.id.0 < (#[trigger] k.tasks@[b]).task.id.0 by {
            assert(old(k).tasks@[a].task.id.0 < old(k).tasks@[b].task.id.0);
        }
    }
}

/// Records the incoming trap frame into the current task, when it was
/// running user code.
pub fn save_current_task(k: &mut Kernel, frame: &TrapFrame) -> (r: Option<TaskId>)
    requires
        old(k).tasks_wf(),
    ensures
        final(k).tasks_wf(),
        r == old(k).current,
        final(k).machine == old(k).machine,
        final(k).objects == old(k).objects,
        final(k).current == old(k).current,
        final(k).next_task_id == old(k).next_task_id,
        final(k).tasks@.len() == old(k).tasks@.len(),
        forall|j: int| 0 <= j < old(k).tasks@.len()
            ==> (#[trigger] final(k).tasks@[j]).task == old(k).tasks@[j].task
                && final(k).tasks@[j].cont == old(k).tasks@[j].cont,
        // only the interrupted task's frame is overwritten, and only
        // when it was running user code
        old(k).current is Some && old(k).has_task(old(k).current->Some_0) ==> {
            let i = old(k).task_index(old(k).current->Some_0);
            &&& (old(k).tasks@[i].state is User
                ==> final(k).tasks@[i].state == TaskState::User(*frame))
            &&& (!(old(k).tasks@[i].state is User)
                ==> final(k).tasks@[i].state == old(k).tasks@[i].state)
            &&& (forall|j: int| 0 <= j < old(k).tasks@.len() && j != i
                ==> (#[trigger] final(k).tasks@[j]).state == old(k).tasks@[j].state)
        },
        !(old(k).current is Some && old(k).has_task(old(k).current->Some_0))
            ==> *final(k) == *old(k),
{
    let cur = match k.current {
        Some(c) => c,
        None => {
            return None;
        }
    };
    let i = match find_task(k, cur) {
        Some(i) => i,
        None => {
            return Some(cur);
        }
    };
    let is_user = match &k.tasks[i].state {
        TaskState::User(_) => true,
        _ => false,
    };
    if is_user {
        k.tasks[i].state = TaskState::User(*frame);
        proof {
            assert forall|a: int, b: int| 0 <= a < b < k.tasks@.len() implies
                (#[trigger] k.tasks@[a]).task.id.0
                    < (#[trigger] k.tasks@[b]).task.id.0 by {
                assert(old(k).tasks@[a].task.id.0 < old(k).tasks@[b].task.id.0);
            }
        }
    }
    Some(cur)
}

/// Whether slot `i` can be dispatched.
pub open spec fn runnable(k: Kernel, i: int) -> bool {
    !(k.tasks@[i].state is Sleep)
}

/// The round-robin rule: slot `i` is the first runnable one whose id
/// strictly follows `prev_id`; when no runnable id follows, `i` is
/// the first runnable slot from the start, so the task that just ran
/// comes around last.
pub open spec fn rr_pick(k: Kernel, prev_id: u64, i: int) -> bool {
    &&& 0 <= i < k.tasks@.len()
    &&& runnable(k, i)
    &&& (k.tasks@[i].task.id.0 > prev_id ==> forall|j: int| 0 <= j < i
            ==> !(runnable(k, j) && (#[trigger] k.tasks@[j]).task.id.0 > prev_id))
    &&& (k.tasks@[i].task.id.0 <= prev_id ==> {
        &&& forall|j: int| 0 <= j < k.tasks@.len()
            ==> !(runnable(k, j) && (#[trigger] k.tasks@[j]).task.id.0 > prev_id)
        &&& forall|j: int| 0 <= j < i ==> !runnable(k, j)
    })
}

/// Round-robin selection: the first runnable task whose id follows
/// `prev`, wrapping to the smallest runnable id, so that the task
/// that just ran is preferred last.
pub fn find_next_work_item(k: &Kernel, prev: Option<TaskId>) -> (r: Option<usize>)
    requires
        k.tasks_wf(),
    ensures
        match r {
            Some(i) => i < k.tasks@.len() && runnable(*k, i as int)
                && rr_pick(*k, (if prev is Some { prev->Some_0.0 } else { 0u64 }),
                    i as int),
            None => forall|j: int| 0 <= j < k.tasks@.len() ==> !runnable(*k, j),
        },
{
    let prev_id: u64 = match prev {
        Some(p) => p.0,
        None => 0,
    };
    let n = k.tasks.len();
    // tasks after the previous one
    let mut i: usize = 0;
    while i < n
        invariant
            k.tasks_wf(),
            n == k.tasks@.len(),
            i <= n,
            prev_id == (if prev is Some { prev->Some_0.0 } else { 0u64 }),
            forall|j: int| 0 <= j < i
                ==> !(runnable(*k, j) && (#[trigger] k.tasks@[j]).task.id.0 > prev_id),
        decreases n - i,
    {
        let runnable_now = match &k.tasks[i].state {
            TaskState::Sleep => false,
            _ => true,
        };
        if k.tasks[i].task.id.0 > prev_id && runnable_now {
            proof {
                assert(runnable(*k, i as int));
                assert(rr_pick(*k, prev_id, i as int));
                assert(prev_id == (if prev is Some { prev->Some_0.0 } else { 0u64 }));
            }
            return Some(i);
        }
        i += 1;
    }
    // wrap around, the previous task included last
    let mut i: usize = 0;
    while i < n
        invariant
            k.tasks_wf(),
            n == k.tasks@.len(),
            i <= n,
            prev_id == (if prev is Some { prev->Some_0.0 } else { 0u64 }),
            forall|j: int| 0 <= j < n
                ==> !(runnable(*k, j) && (#[trigger] k.tasks@[j]).task.id.0 > prev_id),
            forall|j: int| 0 <= j < i ==> !runnable(*k, j),
        decreases n - i,
    {
        let runnable_now = match &k.tasks[i].state {
            TaskState::Sleep => false,
            _ => true,
        };
        if runnable_now {
            proof {
                assert(runnable(*k, i as int));
                assert(rr_pick(*k, prev_id, i as int));
                assert(prev_id == (if prev is Some { prev->Some_0.0 } else { 0u64 }));
            }
            return Some(i);
        }
        i += 1;
    }
    None
}

/// A task's first continuation step: hand its initial trap frame to
/// the scheduler by entering the `User` state.
pub struct TaskEmbryo {
    pub task_id: TaskId,
}

impl TaskEmbryo {
    /// Binds the task's initial user frame.
    pub fn setup(self, trap_frame: TrapFrame) -> (r: TaskRun)
        ensures
            r.task_id == self.task_id,
            r.trap_frame == trap_frame,
    {
        TaskRun { task_id: self.task_id, trap_frame }
    }
}

/// A task's kernel-side handle on its own user frame.
pub struct TaskRun {
    pub task_id: TaskId,
    pub trap_frame: TrapFrame,
}

impl TaskRun {
    /// Posts the held frame as the task's `User` state, asking the
    /// scheduler to resume user mode with it.
    pub fn run(&mut self, k: &mut Kernel)
        requires
            old(k).tasks_wf(),
        ensures
            final(k).tasks_wf(),
            *final(self) == *old(self),
            final(k).machine == old(k).machine,
            final(k).objects == old(k).objects,
            old(k).has_task(old(self).task_id) ==> {
                let i = old(k).task_index(old(self).task_id);
                final(k).tasks@[i].state == TaskState::User(old(self).trap_frame)
            },
    {
        let i = match find_task(k, self.task_id) {
            Some(i) => i,
            None => {
                return;
            }
        };
        k.tasks[i].state = TaskState::User(self.trap_frame);
        proof {
            assert forall|a: int, b: int| 0 <= a < b < k.tasks@.len() implies
                (#[trigger] k.tasks@[a]).task.id.0
                    < (#[trigger] k.tasks@[b]).task.id.0 by {
                assert(old(k).tasks@[a].task.id.0 < old(k).tasks@[b].task.id.0);
            }
        }
    }

    /// The frame the task will resume with.
    pub fn trap_frame(&mut self) -> (r: &mut TrapFrame)
        ensures
            *r == old(self).trap_frame,
            *final(self) == (TaskRun { trap_frame: *final(r), ..*old(self) }),
    {
        &mut self.trap_frame
    }
}

/// What woke a task's kernel continuation.
pub enum Trap {
    Syscall,
}

/// The outcome of one scheduling pass.
pub enum Resume {
    User(TaskId, TrapFrame),
    Io(TaskId, crate::syscall::IoRequest),
    Idle,
}

} // verus!
