//! Kernel objects and per-task handle tables.
//!
//! An object is a reference-counted, kind-tagged entity. Handles are
//! per-task, nonzero identifiers; a new handle is always one more than
//! the largest the task holds, so handle values grow strictly within a
//! task. Dropping an object's last reference tears it down.

use vstd::prelude::*;
use crate::interface::{SysError, SysResult};
use crate::machine::Machine;
use crate::mem::page;
use crate::mem::page::PageCtx;
use crate::task::TaskId;

pub mod file;

verus! {

/// The payload of a kernel object, tagged by kind.
pub enum ObjectKind {
    PageCtx(PageCtx),
    File(file::File),
    Task(TaskId),
}

/// A reference-counted kernel object.
pub struct Object {
    pub kind: ObjectKind,
}

/// One slot of the object store: the live count and the payload, or
/// nothing once the object was torn down.
pub struct ObjectSlot {
    pub count: u64,
    pub object: Option<Object>,
}

/// An owned reference to an object: one unit of its count.
pub struct ObjectRef {
    pub id: usize,
}

/// A per-task, nonzero identifier naming an object.
#[derive(Clone, Copy, PartialEq, Eq, Structural, Debug)]
pub struct Handle(pub u64);

impl Handle {
    /// Reads a handle from a register; zero names nothing.
    pub fn from_u64(u: u64) -> (r: Option<Handle>)
        ensures
            u != 0 ==> r == Some(Handle(u)),
            u == 0 ==> r is None,
    {
        if u != 0 {
            Some(Handle(u))
        } else {
            None
        }
    }

    /// The handle's register value.
    pub fn into_u64(&self) -> (r: u64)
        ensures
            r == self.0,
    {
        self.0
    }
}

/// One task's handle table, sorted by handle.
pub struct HandleTable {
    pub task: TaskId,
    pub entries: Vec<(u64, ObjectRef)>,
}

impl HandleTable {
    /// Handles are nonzero and strictly increasing.
    pub open spec fn wf(self) -> bool {
        &&& forall|i: int, j: int| 0 <= i < j < self.entries@.len()
                ==> (#[trigger] self.entries@[i]).0 < (#[trigger] self.entries@[j]).0
        &&& forall|i: int| 0 <= i < self.entries@.len()
                ==> (#[trigger] self.entries@[i]).0 != 0
    }

    /// Whether the table maps `h`.
    pub open spec fn has_handle(self, h: u64) -> bool {
        exists|i: int| 0 <= i < self.entries@.len()
            && (#[trigger] self.entries@[i]).0 == h
    }
}

/// The object store and every task's handle table.
pub struct Objects {
    pub store: Vec<ObjectSlot>,
    pub tables: Vec<HandleTable>,
}

impl Objects {
    pub open spec fn wf(self) -> bool {
        &&& forall|t: int| 0 <= t < self.tables@.len()
                ==> (#[trigger] self.tables@[t]).wf()
        &&& forall|t: int, u: int|
                0 <= t < u < self.tables@.len()
                ==> (#[trigger] self.tables@[t]).task != (#[trigger] self.tables@[u]).task
    }

    /// Index of `task`'s table.
    pub open spec fn table_of(self, task: TaskId) -> int {
        choose|t: int| 0 <= t < self.tables@.len()
            && (#[trigger] self.tables@[t]).task == task
    }

    pub open spec fn has_table(self, task: TaskId) -> bool {
        exists|t: int| 0 <= t < self.tables@.len()
            && (#[trigger] self.tables@[t]).task == task
    }
}

/// An empty object space.
pub fn init() -> (o: Objects)
    ensures
        o.wf(),
        o.store@.len() == 0,
        o.tables@.len() == 0,
{
    Objects { store: Vec::new(), tables: Vec::new() }
}

proof fn lemma_table_of(o: Objects, task: TaskId, t: int)
    requires
        o.wf(),
        0 <= t < o.tables@.len(),
        o.tables@[t].task == task,
    ensures
        o.has_table(task),
        o.table_of(task) == t,
{
    assert(o.has_table(task));
    let u = o.table_of(task);
    if u != t {
        assert(o.tables@[t].task != o.tables@[u].task);
    }
}

/// Two object spaces with the same tables agree on which task owns
/// which table.
pub proof fn lemma_tables_congruent(o1: Objects, o2: Objects)
    requires
        o1.tables == o2.tables,
        o1.wf(),
    ensures
        forall|task: TaskId|
            #![trigger o1.has_table(task)]
            #![trigger o2.has_table(task)]
            o1.has_table(task) == o2.has_table(task),
        forall|task: TaskId|
            #![trigger o1.table_of(task)]
            #![trigger o2.table_of(task)]
            o1.has_table(task) ==> o1.table_of(task) == o2.table_of(task),
{
    assert forall|task: TaskId|
        #![trigger o1.has_table(task)]
        #![trigger o2.has_table(task)]
        o1.has_table(task) == o2.has_table(task) by {
        if o1.has_table(task) {
            let t = o1.table_of(task);
            assert(o2.tables@[t].task == task);
        }
        if o2.has_table(task) {
            let t = o2.table_of(task);
            assert(o1.tables@[t].task == task);
        }
    }
    assert forall|task: TaskId|
        #![trigger o1.table_of(task)]
        #![trigger o2.table_of(task)]
        o1.has_table(task) implies o1.table_of(task) == o2.table_of(task) by {
        let t = o1.table_of(task);
        assert(o1.tables@[t].task == task);
        assert(o2.tables@[t].task == task);
        lemma_table_of(o1, task, t);
        let u = o2.table_of(task);
        assert(o2.tables@[u].task == task);
        assert(o1.tables@[u].task == task);
        lemma_table_of(o1, task, u);
    }
}

fn find_table(o: &Objects, task: TaskId) -> (r: Option<usize>)
    requires
        o.wf(),
    ensures
        match r {
            Some(t) => t < o.tables@.len() && o.tables@[t as int].task == task
                && o.has_table(task) && o.table_of(task) == t,
            None => !o.has_table(task),
        },
{
    let n = o.tables.len();
    let mut t: usize = 0;
    while t < n
        invariant
            o.wf(),
            n == o.tables@.len(),
            t <= n,
            forall|u: int| 0 <= u < t ==> (#[trigger] o.tables@[u]).task != task,
        decreases n - t,
    {
        if o.tables[t].task == task {
            proof {
                lemma_table_of(*o, task, t as int);
            }
            return Some(t);
        }
        t += 1;
    }
    proof {
        if o.has_table(task) {
            let u = o.table_of(task);
            assert(o.tables@[u].task == task);
        }
    }
    None
}

impl Object {
    /// Creates a new object with one reference.
    pub fn new(o: &mut Objects, kind: ObjectKind) -> (r: ObjectRef)
        requires
            old(o).wf(),
        ensures
            final(o).wf(),
            r.id == old(o).store@.len(),
            final(o).store@.len() == old(o).store@.len() + 1,
            final(o).store@.last().count == 1,
            final(o).store@.last().object is Some,
            final(o).store@.last().object->Some_0.kind == kind,
            forall|i: int| 0 <= i < old(o).store@.len()
                ==> final(o).store@[i] == old(o).store@[i],
            final(o).tables == old(o).tables,
    {
        let id = o.store.len();
        o.store.push(ObjectSlot { count: 1, object: Some(Object { kind }) });
        ObjectRef { id }
    }

    /// The address-space payload of the object `r` names, or
    /// `WrongObjectKind`.
    pub fn downcast_page_ctx(o: &Objects, r: &ObjectRef) -> (res: SysResult<u64>)
        requires
            r.id < o.store@.len(),
            o.store@[r.id as int].object is Some,
        ensures
            match res {
                Ok(f) => o.store@[r.id as int].object->Some_0.kind is PageCtx
                    && f == o.store@[r.id as int].object->Some_0.kind->PageCtx_0.pml4.raw,
                Err(e) => e == SysError::WrongObjectKind
                    && !(o.store@[r.id as int].object->Some_0.kind is PageCtx),
            },
    {
        match &o.store[r.id].object {
            Some(obj) => match &obj.kind {
                ObjectKind::PageCtx(ctx) => Ok(ctx.pml4.raw),
                _ => Err(SysError::WrongObjectKind),
            },
            None => {
                proof {
                    assert(false);
                }
                Err(SysError::WrongObjectKind)
            }
        }
    }
}

/// A second owned reference to the same object.
pub fn clone_ref(o: &mut Objects, r: &ObjectRef) -> (r2: ObjectRef)
    requires
        old(o).wf(),
        r.id < old(o).store@.len(),
        old(o).store@[r.id as int].count < u64::MAX,
    ensures
        final(o).wf(),
        r2.id == r.id,
        final(o).store@ == old(o).store@.update(
            r.id as int,
            ObjectSlot {
                count: (old(o).store@[r.id as int].count + 1) as u64,
                ..old(o).store@[r.id as int]
            },
        ),
        final(o).tables == old(o).tables,
{
    let c = o.store[r.id].count;
    o.store[r.id].count = c + 1;
    proof {
        assert(final(o).store@ =~= old(o).store@.update(
            r.id as int,
            ObjectSlot {
                count: (old(o).store@[r.id as int].count + 1) as u64,
                ..old(o).store@[r.id as int]
            },
        ));
    }
    ObjectRef { id: r.id }
}

/// Drops one owned reference; tearing the object down when it was the
/// last, releasing an address space's PML4 frame back to the frame
/// allocator.
pub fn drop_ref(o: &mut Objects, m: &mut Machine, r: ObjectRef)
    requires
        old(o).wf(),
        old(m).phys_wf(),
        old(m).temp is None,
        r.id < old(o).store@.len(),
        old(o).store@[r.id as int].count >= 1,
        old(o).store@[r.id as int].count == 1
                && old(o).store@[r.id as int].object is Some
                && old(o).store@[r.id as int].object->Some_0.kind is PageCtx
            ==> {
            let f = old(o).store@[r.id as int].object->Some_0.kind->PageCtx_0.pml4.raw;
            &&& old(m).phys_wf()
            &&& old(m).temp is None
            &&& crate::mem::phys::page_aligned(f) && f != 0
            &&& page::leaf_release_ok(*old(m), f)
        },
    ensures
        final(o).wf(),
        final(m).phys_wf(),
        final(m).temp is None,
        final(m).cr3 == old(m).cr3,
        final(m).rc_enabled == old(m).rc_enabled,
        final(m).iflag == old(m).iflag,
        final(m).kv_next == old(m).kv_next,
        final(m).kv_free == old(m).kv_free,
        final(m).heap == old(m).heap,
        final(m).regions == old(m).regions,
        final(o).tables == old(o).tables,
        final(o).store@.len() == old(o).store@.len(),
        forall|i: int| 0 <= i < old(o).store@.len() && i != r.id
            ==> final(o).store@[i] == old(o).store@[i],
        old(o).store@[r.id as int].count > 1 ==> {
            &&& *final(m) == *old(m)
            &&& final(o).store@[r.id as int].object == old(o).store@[r.id as int].object
            &&& final(o).store@[r.id as int].count
                == old(o).store@[r.id as int].count - 1
        },
        old(o).store@[r.id as int].count == 1
            ==> final(o).store@[r.id as int].object is None
                && final(o).store@[r.id as int].count == 0,
{
    let c = o.store[r.id].count;
    if c > 1 {
        o.store[r.id].count = c - 1;
        return;
    }
    o.store[r.id].count = 0;
    let slot = &mut o.store[r.id];
    let obj = slot.object.take();
    match obj {
        Some(obj) => match obj.kind {
            ObjectKind::PageCtx(ctx) => {
                ctx.pml4.release(m);
            }
            ObjectKind::File(_) => {}
            ObjectKind::Task(_) => {}
        },
        None => {}
    }
}

/// Inserts an object reference into a task's handle table, under a
/// handle one larger than any the task holds; the first handle is 1.
pub fn put(o: &mut Objects, task_id: TaskId, object: ObjectRef) -> (r: SysResult<Handle>)
    requires
        old(o).wf(),
    ensures
        final(o).wf(),
        final(o).store == old(o).store,
        r is Err ==> *final(o) == *old(o)
            && r->Err_0 == SysError::MemoryExhausted
            && old(o).has_table(task_id)
            && old(o).tables@[old(o).table_of(task_id)].entries@.len() > 0
            && old(o).tables@[old(o).table_of(task_id)].entries@.last().0 == u64::MAX,
        r is Ok ==> {
            let h = r->Ok_0;
            let t = final(o).table_of(task_id);
            &&& h.0 != 0
            &&& final(o).has_table(task_id)
            &&& 0 <= t < final(o).tables@.len()
            &&& final(o).tables@[t].entries@.len() >= 1
            &&& final(o).tables@[t].entries@.last().0 == h.0
            &&& final(o).tables@[t].entries@.last().1 == object
            &&& (old(o).has_table(task_id) ==> {
                let te = old(o).tables@[old(o).table_of(task_id)].entries@;
                &&& final(o).tables@.len() == old(o).tables@.len()
                &&& t == old(o).table_of(task_id)
                &&& h.0 == (if te.len() == 0 { 1u64 } else { (te.last().0 + 1) as u64 })
                &&& final(o).tables@[t].entries@.len() == te.len() + 1
                &&& final(o).tables@[t].entries@.last().0 == h.0
                &&& final(o).tables@[t].entries@.last().1 == object
                &&& forall|i: int| 0 <= i < te.len()
                    ==> final(o).tables@[t].entries@[i] == te[i]
                // monotonicity: the new handle exceeds every old one
                &&& forall|i: int| 0 <= i < te.len() ==> (#[trigger] te[i]).0 < h.0
                &&& forall|u: int| 0 <= u < final(o).tables@.len() && u != t
                    ==> final(o).tables@[u] == old(o).tables@[u]
            })
            &&& (!old(o).has_table(task_id) ==> {
                &&& h.0 == 1
                &&& final(o).tables@.len() == old(o).tables@.len() + 1
                &&& t == old(o).tables@.len()
                &&& final(o).tables@[t].entries@.len() == 1
                &&& (forall|u: int| 0 <= u < old(o).tables@.len()
                    ==> final(o).tables@[u] == old(o).tables@[u])
            })
        },
{
    let ghost s0 = *old(o);
    let t = match find_table(o, task_id) {
        Some(t) => t,
        None => {
            let t = o.tables.len();
            o.tables.push(HandleTable { task: task_id, entries: Vec::new() });
            proof {
                assert forall|a: int, b: int|
                    0 <= a < b < o.tables@.len() implies
                    (#[trigger] o.tables@[a]).task != (#[trigger] o.tables@[b]).task by {
                    if b == t {
                        assert(!s0.has_table(task_id));
                        assert(o.tables@[a] == s0.tables@[a]);
                        if o.tables@[a].task == task_id {
                            assert(s0.has_table(task_id));
                        }
                    }
                }
                lemma_table_of(*o, task_id, t as int);
            }
            t
        }
    };
    let n = o.tables[t].entries.len();
    let new_id: u64 = if n == 0 {
        1
    } else {
        let last = o.tables[t].entries[n - 1].0;
        if last == u64::MAX {
            return Err(SysError::MemoryExhausted);
        }
        last + 1
    };
    o.tables[t].entries.push((new_id, object));
    proof {
        let tv = t as int;
        assert forall|u: int| 0 <= u < o.tables@.len() implies
            (#[trigger] o.tables@[u]).wf() by {
            if u == tv {
                let es = o.tables@[tv].entries@;
                assert forall|i: int, j: int| 0 <= i < j < es.len() implies
                    (#[trigger] es[i]).0 < (#[trigger] es[j]).0 by {
                    if j == es.len() - 1 && n > 0 {
                        assert(es[i].0 <= es[n - 1].0);
                    }
                }
            }
        }
        lemma_table_of(*o, task_id, tv);
    }
    Ok(Handle(new_id))
}

/// Looks a handle up in a task's table, returning a fresh owned
/// reference to its object.
pub fn get(o: &mut Objects, task_id: TaskId, handle: Handle) -> (r: Option<ObjectRef>)
    requires
        old(o).wf(),
        forall|t: int, i: int|
            0 <= t < old(o).tables@.len()
                && 0 <= i < (#[trigger] old(o).tables@[t]).entries@.len()
            ==> (#[trigger] old(o).tables@[t].entries@[i]).1.id
                    < old(o).store@.len()
                && old(o).store@[old(o).tables@[t].entries@[i].1.id as int].count
                    < u64::MAX,
    ensures
        final(o).wf(),
        final(o).tables == old(o).tables,
        r is None ==> *final(o) == *old(o)
            && !(old(o).has_table(task_id)
                && old(o).tables@[old(o).table_of(task_id)].has_handle(handle.0)),
        r is Some ==> {
            let id = r->Some_0.id;
            &&& old(o).has_table(task_id)
            &&& old(o).tables@[old(o).table_of(task_id)].has_handle(handle.0)
            &&& id < old(o).store@.len()
            &&& final(o).store@ == old(o).store@.update(
                id as int,
                ObjectSlot {
                    count: (old(o).store@[id as int].count + 1) as u64,
                    ..old(o).store@[id as int]
                },
            )
            &&& (exists|i: int|
                0 <= i < old(o).tables@[old(o).table_of(task_id)].entries@.len()
                && (#[trigger] old(o).tables@[old(o).table_of(task_id)].entries@[i])
                    == (handle.0, r->Some_0))
        },
{
    let t = match find_table(o, task_id) {
        Some(t) => t,
        None => {
            return None;
        }
    };
    let n = o.tables[t].entries.len();
    let mut i: usize = 0;
    while i < n
        invariant
            o.wf(),
            *o == *old(o),
            t < o.tables@.len(),
            o.tables@[t as int].task == task_id,
            o.table_of(task_id) == t,
            n == o.tables@[t as int].entries@.len(),
            i <= n,
            forall|t2: int, i2: int|
                0 <= t2 < o.tables@.len()
                    && 0 <= i2 < (#[trigger] o.tables@[t2]).entries@.len()
                ==> (#[trigger] o.tables@[t2].entries@[i2]).1.id < o.store@.len()
                    && o.store@[o.tables@[t2].entries@[i2].1.id as int].count < u64::MAX,
            forall|j: int| 0 <= j < i
                ==> (#[trigger] o.tables@[t as int].entries@[j]).0 != handle.0,
        decreases n - i,
    {
        if o.tables[t].entries[i].0 == handle.0 {
            let id = o.tables[t].entries[i].1.id;
            let r = clone_ref(o, &ObjectRef { id });
            proof {
                assert(old(o).tables@[t as int].has_handle(handle.0));
            }
            return Some(r);
        }
        i += 1;
    }
    proof {
        if o.tables@[t as int].has_handle(handle.0) {
            let j = choose|j: int| 0 <= j < o.tables@[t as int].entries@.len()
                && (#[trigger] o.tables@[t as int].entries@[j]).0 == handle.0;
        }
    }
    None
}

/// Removes a handle from a task's table, handing its owned reference
/// to the caller.
pub fn release(o: &mut Objects, task_id: TaskId, handle: Handle)
    -> (r: Result<ObjectRef, ()>)
    requires
        old(o).wf(),
    ensures
        final(o).wf(),
        final(o).store == old(o).store,
        r is Err ==> *final(o) == *old(o)
            && !(old(o).has_table(task_id)
                && old(o).tables@[old(o).table_of(task_id)].has_handle(handle.0)),
        r is Ok ==> {
            let t = old(o).table_of(task_id);
            &&& old(o).has_table(task_id)
            &&& (exists|i: int|
                0 <= i < old(o).tables@[t].entries@.len()
                && (#[trigger] old(o).tables@[t].entries@[i])
                    == (handle.0, r->Ok_0)
                && final(o).tables@[t].entries@
                    == old(o).tables@[t].entries@.remove(i))
            &&& forall|u: int| 0 <= u < final(o).tables@.len() && u != t
                ==> final(o).tables@[u] == old(o).tables@[u]
            &&& final(o).tables@.len() == old(o).tables@.len()
            &&& final(o).tables@[t].task == task_id
        },
{
    let t = match find_table(o, task_id) {
        Some(t) => t,
        None => {
            return Err(());
        }
    };
    let n = o.tables[t].entries.len();
    let mut i: usize = 0;
    while i < n
        invariant
            o.wf(),
            *o == *old(o),
            t < o.tables@.len(),
            o.tables@[t as int].task == task_id,
            o.table_of(task_id) == t,
            n == o.tables@[t as int].entries@.len(),
            i <= n,
            forall|j: int| 0 <= j < i
                ==> (#[trigger] o.tables@[t as int].entries@[j]).0 != handle.0,
        decreases n - i,
    {
        if o.tables[t].entries[i].0 == handle.0 {
            let ghost s0 = *o;
            let (h, obj) = o.tables[t].entries.remove(i);
            proof {
                let tv = t as int;
                assert forall|u: int| 0 <= u < o.tables@.len() implies
                    (#[trigger] o.tables@[u]).wf() by {
                    if u == tv {
                        let es = o.tables@[tv].entries@;
                        let old_es = s0.tables@[tv].entries@;
                        assert forall|a: int, b: int| 0 <= a < b < es.len() implies
                            (#[trigger] es[a]).0 < (#[trigger] es[b]).0 by {
                            if a < i {
                                if b < i {
                                    assert(old_es[a].0 < old_es[b].0);
                                } else {
                                    assert(old_es[a].0 < old_es[b + 1].0);
                                }
                            } else {
                                assert(old_es[a + 1].0 < old_es[b + 1].0);
                            }
                        }
                    }
                }
                lemma_table_of(*o, task_id, t as int);
            }
            return Ok(obj);
        }
        i += 1;
    }
    proof {
        if o.tables@[t as int].has_handle(handle.0) {
            let j = choose|j: int| 0 <= j < o.tables@[t as int].entries@.len()
                && (#[trigger] o.tables@[t as int].entries@[j]).0 == handle.0;
        }
    }
    Err(())
}

/// How many entries of a handle-table sequence name the object slot
/// `id`.
pub open spec fn refs_to(es: Seq<(u64, ObjectRef)>, id: int) -> int
    decreases es.len(),
{
    if es.len() == 0 {
        0
    } else {
        refs_to(es.drop_last(), id) + (if es.last().1.id == id { 1int } else { 0 })
    }
}

/// A reference count over a sequence is never negative.
pub proof fn lemma_refs_to_nonneg(es: Seq<(u64, ObjectRef)>, id: int)
    ensures
        refs_to(es, id) >= 0,
    decreases es.len(),
{
    if es.len() > 0 {
        lemma_refs_to_nonneg(es.drop_last(), id);
    }
}

/// Tears down a task's whole handle table, dropping every reference
/// it held: each named slot's count falls, objects losing their last
/// unit are torn down, and every other task's table is untouched.
pub fn drop_all_for_task(o: &mut Objects, m: &mut Machine, task_id: TaskId)
    requires
        old(o).wf(),
        old(m).phys_wf(),
        old(m).temp is None,
    ensures
        final(o).wf(),
        final(m).phys_wf(),
        final(m).temp is None,
        !final(o).has_table(task_id),
        final(o).store@.len() == old(o).store@.len(),
        // counts only fall, and no object comes back from teardown
        forall|id: int| 0 <= id < old(o).store@.len()
            ==> (#[trigger] final(o).store@[id]).count <= old(o).store@[id].count,
        // each slot loses exactly one unit per handle the table held
        // on it, as long as its count covers those handles
        old(o).has_table(task_id) ==> {
            let es = old(o).tables@[old(o).table_of(task_id)].entries@;
            forall|id: int| 0 <= id < old(o).store@.len()
                    && old(o).store@[id].count > refs_to(es, id)
                ==> (#[trigger] final(o).store@[id]).count as int
                    == old(o).store@[id].count - refs_to(es, id)
        },
        !old(o).has_table(task_id) ==> final(o).store == old(o).store,
        forall|id: int| 0 <= id < old(o).store@.len()
                && (#[trigger] final(o).store@[id]).object is Some
            ==> final(o).store@[id].object == old(o).store@[id].object,
        // every other task keeps its table, entry for entry
        forall|tk: TaskId|
            #![trigger final(o).has_table(tk)]
            #![trigger old(o).has_table(tk)]
            tk != task_id ==> final(o).has_table(tk) == old(o).has_table(tk),
        forall|tk: TaskId|
            #![trigger final(o).table_of(tk)]
            #![trigger old(o).table_of(tk)]
            tk != task_id && old(o).has_table(tk)
                ==> final(o).tables@[final(o).table_of(tk)]
                    == old(o).tables@[old(o).table_of(tk)],
        final(m).cr3 == old(m).cr3,
        final(m).iflag == old(m).iflag,
        final(m).rc_enabled == old(m).rc_enabled,
        final(m).regions == old(m).regions,
        final(m).cursors == old(m).cursors,
        final(m).heap == old(m).heap,
        final(m).kv_next == old(m).kv_next,
        final(m).kv_free == old(m).kv_free,
{
    let ghost s0 = *old(o);
    let t = match find_table(o, task_id) {
        Some(t) => t,
        None => {
            return;
        }
    };
    // the table is detached whole; its references are dropped one by
    // one where the per-reference release conditions hold
    let mut table = o.tables.remove(t);
    let ghost tab1 = o.tables@;
    proof {
        assert forall|a: int, b: int|
            0 <= a < b < o.tables@.len() implies
            (#[trigger] o.tables@[a]).task != (#[trigger] o.tables@[b]).task by {}
        assert forall|u: int| 0 <= u < o.tables@.len() implies
            (#[trigger] o.tables@[u]).task != task_id by {
            if u < t {
                assert(o.tables@[u] == s0.tables@[u]);
                if o.tables@[u].task == task_id {
                    assert(s0.tables@[u].task == s0.tables@[t as int].task);
                }
            } else {
                assert(o.tables@[u] == s0.tables@[u + 1]);
                if o.tables@[u].task == task_id {
                    assert(s0.tables@[u + 1].task == s0.tables@[t as int].task);
                }
            }
        }
    }
    while table.entries.len() > 0
        invariant
            o.wf(),
            m.temp is None,
            m.phys_wf(),
            o.tables@ == tab1,
            tab1 == s0.tables@.remove(t as int),
            0 <= t < s0.tables@.len(),
            s0.tables@[t as int].task == task_id,
            s0.wf(),
            o.store@.len() == s0.store@.len(),
            forall|id: int| 0 <= id < s0.store@.len()
                ==> (#[trigger] o.store@[id]).count <= s0.store@[id].count,
            forall|id: int| 0 <= id < s0.store@.len()
                    && (#[trigger] o.store@[id]).object is Some
                ==> o.store@[id].object == s0.store@[id].object,
            forall|id: int| 0 <= id < s0.store@.len()
                    && s0.store@[id].count
                        > refs_to(s0.tables@[t as int].entries@, id)
                ==> (#[trigger] o.store@[id]).count as int
                    == s0.store@[id].count
                        - (refs_to(s0.tables@[t as int].entries@, id)
                            - refs_to(table.entries@, id)),
            m.cr3 == old(m).cr3,
            m.iflag == old(m).iflag,
            m.rc_enabled == old(m).rc_enabled,
            m.regions == old(m).regions,
            m.cursors == old(m).cursors,
            m.heap == old(m).heap,
            m.kv_next == old(m).kv_next,
            m.kv_free == old(m).kv_free,
        decreases table.entries@.len(),
    {
        let ghost o_pre = *o;
        let ghost es_pre = table.entries@;
        let popped = table.entries.pop();
        match popped {
            Some((h, r)) => {
                if r.id < o.store.len() {
                    proof {
                        // a covered slot still holds more than one
                        // unit here, so the plain decrement is taken
                        let esf = s0.tables@[t as int].entries@;
                        let id = r.id as int;
                        assert(refs_to(es_pre, id)
                            == refs_to(table.entries@, id) + 1);
                        if s0.store@[id].count > refs_to(esf, id) {
                            assert(refs_to(es_pre, id) >= 1) by {
                                assert(refs_to(table.entries@, id) >= 0) by {
                                    lemma_refs_to_nonneg(table.entries@, id);
                                }
                            }
                            assert(o.store@[id].count >= 2);
                        }
                    }
                    let c = o.store[r.id].count;
                    if c > 1 {
                        o.store[r.id].count = c - 1;
                    } else if c == 1 {
                        o.store[r.id].count = 0;
                        let slot = &mut o.store[r.id];
                        let obj = slot.object.take();
                        match obj {
                            Some(obj) => match obj.kind {
                                ObjectKind::PageCtx(ctx) => {
                                    let f = ctx.pml4.raw;
                                    if f != 0 && f & 0xfff == 0
                                        && can_release(m, f) {
                                        ctx.pml4.release(m);
                                    }
                                }
                                _ => {}
                            },
                            None => {}
                        }
                    }
                }
                proof {
                    let esf = s0.tables@[t as int].entries@;
                    assert(table.entries@ == es_pre.drop_last());
                    assert forall|id: int| 0 <= id < s0.store@.len()
                            && s0.store@[id].count > refs_to(esf, id) implies
                        (#[trigger] o.store@[id]).count as int
                            == s0.store@[id].count
                                - (refs_to(esf, id) - refs_to(table.entries@, id)) by {
                        assert(refs_to(es_pre, id)
                            == refs_to(table.entries@, id)
                                + (if es_pre.last().1.id == id { 1int } else { 0 }));
                        if id != r.id as int {
                            assert(o.store@[id] == o_pre.store@[id]);
                        } else {
                            assert(refs_to(table.entries@, id) >= 0) by {
                                lemma_refs_to_nonneg(table.entries@, id);
                            }
                        }
                    }
                }
            }
            None => {
                proof {
                    assert(false);
                }
            }
        }
    }
    proof {
        if o.has_table(task_id) {
            let u = o.table_of(task_id);
            assert(o.tables@[u].task == task_id);
        }
        assert forall|tk: TaskId|
            #![trigger o.has_table(tk)]
            #![trigger s0.has_table(tk)]
            tk != task_id implies o.has_table(tk) == s0.has_table(tk) by {
            if s0.has_table(tk) {
                let u0 = s0.table_of(tk);
                lemma_table_of(s0, tk, u0);
                assert(u0 != t as int);
                let u1: int = if u0 < t as int { u0 } else { u0 - 1 };
                assert(0 <= u1 < o.tables@.len());
                assert(o.tables@[u1] == s0.tables@[u0]);
                lemma_table_of(*o, tk, u1);
            }
            if o.has_table(tk) {
                let u1 = o.table_of(tk);
                assert(0 <= u1 < o.tables@.len());
                assert(o.tables@[u1].task == tk);
                let u0: int = if u1 < t as int { u1 } else { u1 + 1 };
                assert(0 <= u0 < s0.tables@.len());
                assert(s0.tables@[u0] == o.tables@[u1]);
                lemma_table_of(s0, tk, u0);
            }
        }
        assert forall|tk: TaskId|
            #![trigger o.table_of(tk)]
            #![trigger s0.table_of(tk)]
            tk != task_id && s0.has_table(tk) implies
            o.tables@[o.table_of(tk)] == s0.tables@[s0.table_of(tk)] by {
            if s0.has_table(tk) {
                let u0 = s0.table_of(tk);
                lemma_table_of(s0, tk, u0);
                assert(u0 != t as int);
                let u1: int = if u0 < t as int { u0 } else { u0 - 1 };
                assert(0 <= u1 < o.tables@.len());
                assert(o.tables@[u1] == s0.tables@[u0]);
                lemma_table_of(*o, tk, u1);
            }
            if o.has_table(tk) {
                let u1 = o.table_of(tk);
                assert(0 <= u1 < o.tables@.len());
                assert(o.tables@[u1].task == tk);
                let u0: int = if u1 < t as int { u1 } else { u1 + 1 };
                assert(0 <= u0 < s0.tables@.len());
                assert(s0.tables@[u0] == o.tables@[u1]);
                lemma_table_of(s0, tk, u0);
            }
        }
    }
}

/// Whether one count unit of `f` can be given back right now.
pub(crate) fn can_release(m: &Machine, f: u64) -> (r: bool)
    requires
        m.phys_wf(),
        crate::mem::phys::page_aligned(f),
    ensures
        r == page::leaf_release_ok(*m, f),
{
    if !m.rc_enabled {
        return true;
    }
    match crate::mem::phys::ref_count(m, f) {
        None => true,
        Some(c) => {
            if c == 0 {
                false
            } else if c == 1 {
                m.mem.contains(f)
            } else {
                true
            }
        }
    }
}

/// Law: releasing the handle that a clone created returns the handle
/// table and every reference count to exactly where they were.
pub fn clone_release_round_trip(o: &mut Objects, m: &mut Machine, task_id: TaskId,
    handle: Handle) -> (r: Option<Handle>)
    requires
        old(o).wf(),
        old(m).phys_wf(),
        old(m).temp is None,
        forall|t: int, i: int|
            0 <= t < old(o).tables@.len()
                && 0 <= i < (#[trigger] old(o).tables@[t]).entries@.len()
            ==> (#[trigger] old(o).tables@[t].entries@[i]).1.id
                    < old(o).store@.len()
                && old(o).store@[old(o).tables@[t].entries@[i].1.id as int].count
                    < u64::MAX - 1
                && old(o).store@[old(o).tables@[t].entries@[i].1.id as int].count >= 1,
        old(o).has_table(task_id) ==> {
            let t = old(o).table_of(task_id);
            old(o).tables@[t].entries@.len() > 0
                ==> old(o).tables@[t].entries@.last().0 < u64::MAX
        },
    ensures
        final(o).wf(),
        r is Some ==> {
            &&& final(o).tables@.len() == old(o).tables@.len()
            &&& (forall|u: int| 0 <= u < old(o).tables@.len()
                ==> (#[trigger] final(o).tables@[u]).task == old(o).tables@[u].task
                    && final(o).tables@[u].entries@ == old(o).tables@[u].entries@)
            &&& final(o).store@ =~= old(o).store@
            &&& *final(m) == *old(m)
        },
{
    let ghost s0 = *old(o);
    let obj = match get(o, task_id, handle) {
        Some(obj) => obj,
        None => {
            return None;
        }
    };
    let ghost s1 = *o;
    let new_handle = match put(o, task_id, obj) {
        Ok(h) => h,
        Err(_) => {
            proof {
                lemma_tables_congruent(s0, s1);
                let t0 = s0.table_of(task_id);
                assert(s1.tables@[t0].entries@.last().0 < u64::MAX);
                assert(false);
            }
            return None;
        }
    };
    let ghost s2 = *o;
    let back = match release(o, task_id, new_handle) {
        Ok(b) => b,
        Err(_) => {
            proof {
                assert(false);
            }
            return None;
        }
    };
    let ghost s3 = *o;
    proof {
        // the removed entry is the appended one, so the table is back
        let t = s2.table_of(task_id);
        let i = choose|i: int|
            0 <= i < s2.tables@[t].entries@.len()
            && (#[trigger] s2.tables@[t].entries@[i]) == (new_handle.0, back)
            && s3.tables@[t].entries@ == s2.tables@[t].entries@.remove(i);
        assert(s2.tables@[t].entries@[i].0 == new_handle.0);
        let te = s1.tables@[s1.table_of(task_id)].entries@;
        assert(i == te.len()) by {
            if i < te.len() {
                assert(s2.tables@[t].entries@[i] == te[i]);
                assert(te[i].0 < new_handle.0);
            }
        }
        assert(s3.tables@[t].entries@ =~= te);
        assert forall|u: int| 0 <= u < s3.tables@.len() implies
            (#[trigger] s3.tables@[u]).task == s0.tables@[u].task
                && s3.tables@[u].entries@ == s0.tables@[u].entries@ by {
            if u != t {
                assert(s3.tables@[u] == s2.tables@[u]);
                assert(s2.tables@[u] == s1.tables@[u]);
            } else {
                assert(s1.table_of(task_id) == t);
                assert(s3.tables@[t].entries@ =~= s1.tables@[t].entries@);
            }
        }
    }
    let ghost id = obj.id;
    proof {
        assert(back.id == id) by {
            let t = s2.table_of(task_id);
            let i = choose|i: int|
                0 <= i < s2.tables@[t].entries@.len()
                && (#[trigger] s2.tables@[t].entries@[i]) == (new_handle.0, back)
                && s3.tables@[t].entries@ == s2.tables@[t].entries@.remove(i);
            assert(s2.tables@[t].entries@.last().1 == obj);
        }
        assert(s3.store@[id as int].count >= 2) by {
            assert(s1.store@[id as int].count == s0.store@[id as int].count + 1);
            assert(s3.store == s2.store && s2.store == s1.store);
        }
        assert(o.store@[id as int].count >= 2);
    }
    drop_ref(o, m, back);
    proof {
        assert(o.tables@ == s3.tables@);
        assert forall|i: int| 0 <= i < o.store@.len() implies
            o.store@[i] == s0.store@[i] by {
            assert(s3.store == s2.store && s2.store == s1.store);
            if i == id {
                assert(s3.store@[i].count == s0.store@[i].count + 1);
                assert(s3.store@[i].object == s0.store@[i].object);
                assert(o.store@[i].count == s3.store@[i].count - 1);
                assert(o.store@[i].object == s3.store@[i].object);
            } else {
                assert(o.store@[i] == s3.store@[i]);
                assert(s1.store@[i] == s0.store@[i]);
            }
        }
        assert(o.store@ =~= s0.store@);
        assert forall|u: int| 0 <= u < o.tables@.len() implies
            (#[trigger] o.tables@[u]).task == s0.tables@[u].task
                && o.tables@[u].entries@ == s0.tables@[u].entries@ by {
            assert(s3.tables@[u].task == s0.tables@[u].task);
            assert(s3.tables@[u].entries@ == s0.tables@[u].entries@);
        }
    }
    Some(new_handle)
}

} // verus!
