//! Syscall decoding and dispatch: the number in RAX selects the
//! operation, RDI/RSI/RDX/RCX carry the arguments, and the result is
//! encoded back into RAX with bit 63 marking errors.
//!
//! Before a handler walks or rewrites page tables for a user address,
//! it re-checks the soundness of that address's walk — every resolved
//! table touched, counted and off the free list, the levels pairwise
//! distinct — so no handler needs to trust its caller for that.

use vstd::prelude::*;
use crate::critical;
use crate::interface::{SysError, SysResult, OK};
use crate::machine::Machine;
use crate::mem::page;
use crate::mem::page::{PageCtx, PageFlags};
use crate::mem::phys;
use crate::mem::user;
use crate::mem::user::{PageRange, UserBuf};
use crate::object;
use crate::object::{Handle, Object, ObjectKind, ObjectRef};
use crate::task::Kernel;

pub mod args;

verus! {

/// The one flag user code may ask for when mapping pages.
#[derive(Clone, Copy, PartialEq, Eq, Structural, Debug)]
pub struct UserPageFlags {
    pub bits: u64,
}

/// The writable bit of a user flag word.
pub const USER_FLAG_WRITE: u64 = 0x02;

impl UserPageFlags {
    /// Accepts only flag words whose bits are all defined.
    pub fn from_bits(bits: u64) -> (r: Option<UserPageFlags>)
        ensures
            bits & 0xffff_ffff_ffff_fffd == 0 ==> r == Some(UserPageFlags { bits }),
            bits & 0xffff_ffff_ffff_fffd != 0 ==> r is None,
    {
        if bits & 0xffff_ffff_ffff_fffd == 0 {
            Some(UserPageFlags { bits })
        } else {
            None
        }
    }

    /// The page-table flags a user mapping gets: present and
    /// user-reachable, writable only when asked.
    pub fn to_page_flags(self) -> (r: PageFlags)
        ensures
            r.bits == (0x5u64 | (self.bits & 0x2)),
            r.bits & 0xfff == r.bits,
    {
        let bits = 0x5u64 | (self.bits & 0x2);
        proof {
            let b = self.bits;
            assert((0x5u64 | (b & 0x2)) & 0xfff == (0x5u64 | (b & 0x2))) by (bit_vector);
        }
        PageFlags { bits }
    }
}

/// The reference counts and handle entries the syscalls rely on.
pub open spec fn objects_ok(o: object::Objects) -> bool {
    &&& o.wf()
    &&& forall|t: int, i: int|
        0 <= t < o.tables@.len()
            && 0 <= i < (#[trigger] o.tables@[t]).entries@.len()
        ==> (#[trigger] o.tables@[t].entries@[i]).1.id < o.store@.len()
            && o.store@[o.tables@[t].entries@[i].1.id as int].count < u64::MAX - 1
            && o.store@[o.tables@[t].entries@[i].1.id as int].count >= 1
            && o.store@[o.tables@[t].entries@[i].1.id as int].object is Some
}

/// The scheduler's address-space references stay inside the store.
pub open spec fn tasks_objects_ok(k: Kernel) -> bool {
    forall|i: int| 0 <= i < k.tasks@.len()
        ==> (#[trigger] k.tasks@[i]).task.page_ctx.id < k.objects.store@.len()
            && k.objects.store@[k.tasks@[i].task.page_ctx.id as int].count
                < u64::MAX - 1
            && k.objects.store@[k.tasks@[i].task.page_ctx.id as int].count >= 1
            && k.objects.store@[k.tasks@[i].task.page_ctx.id as int].object
                is Some
}

/// The current address-space root is sound: live, aligned, and its
/// count can both grow and give one unit back.
pub open spec fn cr3_ok(m: Machine) -> bool {
    &&& m.table_frame_live(m.cr3)
    &&& phys::page_aligned(m.cr3)
    &&& m.cr3 != 0
    &&& page::leaf_release_ok(m, m.cr3)
    &&& (m.rc_enabled && m.managed(m.cr3)
        ==> m.rc_of(m.cr3)->Some_0 < u64::MAX)
}

/// What the syscall layer assumes of the kernel on entry.
pub open spec fn kernel_inv(k: Kernel) -> bool {
    &&& tasks_objects_ok(k)
    &&& k.machine.phys_wf()
    &&& k.machine.temp is None
    &&& k.tasks_wf()
    &&& objects_ok(k.objects)
    &&& cr3_ok(k.machine)
    &&& k.machine.rc_enabled
    &&& k.next_task_id < u64::MAX
}

/// The pieces of [`kernel_inv`] every handler leaves intact.
pub open spec fn kernel_post(k: Kernel) -> bool {
    &&& k.machine.phys_wf()
    &&& k.machine.temp is None
    &&& k.tasks_wf()
    &&& k.objects.wf()
}


/// Leaves a critical section; the allocator's invariant only ever
/// concerns its own fields, so it survives the flag restore.
fn end_crit(m: &mut Machine, c: critical::Critical)
    requires
        old(m).phys_wf(),
    ensures
        final(m).phys_wf(),
        *final(m) == (Machine { iflag: c.saved_iflag, ..*old(m) }),
{
    critical::end(m, c);
    proof {
        phys::lemma_wf_fields(*old(m), *m);
    }
}

/// A frame the kernel may treat as a live table: touched, and not on
/// the allocator's free or bump lists. Free frames always count zero
/// once counting is on, so a nonzero count rules the free list out.
fn frame_live(m: &Machine, f: u64) -> (r: bool)
    requires
        m.phys_wf(),
        phys::page_aligned(f),
        m.rc_enabled,
    ensures
        r ==> m.table_frame_live(f),
{
    if !m.mem.contains(f) {
        return false;
    }
    proof {
        assert(!m.bump_avail(f));
    }
    match phys::ref_count(m, f) {
        None => {
            proof {
                if m.free_list@.contains(f) {
                    let k = choose|k: int| 0 <= k < m.free_list@.len()
                        && m.free_list@[k] == f;
                    assert(m.free_frame_wf(k));
                }
            }
            true
        }
        Some(c) => {
            if c >= 1 {
                proof {
                    if m.free_list@.contains(f) {
                        let k = choose|k: int| 0 <= k < m.free_list@.len()
                            && m.free_list@[k] == f;
                        assert(m.free_frame_wf(k));
                    }
                }
                true
            } else {
                false
            }
        }
    }
}

/// Re-checks the soundness of `va`'s page-table walk: every resolved
/// level lives on a live, distinct frame, and every written entry on
/// the walk leads to a touched frame.
pub fn check_path_ok(m: &Machine, va: u64) -> (r: bool)
    requires
        m.phys_wf(),
        m.rc_enabled,
    ensures
        r ==> m.path_live(va) && m.path_distinct(va) && m.path_resolved(va),
{
    let cr3 = m.cr3;
    proof {
        if m.mem.has_frame(cr3) {
            m.mem.lemma_frame_aligned(cr3);
        }
    }
    if !m.mem.contains(cr3) {
        return false;
    }
    if !frame_live(m, cr3) {
        return false;
    }
    proof {
        let v = va;
        assert(((v >> 39) & 0x1ff) < 512) by (bit_vector);
        assert(((v >> 30) & 0x1ff) < 512) by (bit_vector);
        assert(((v >> 21) & 0x1ff) < 512) by (bit_vector);
    }
    let i4 = ((va >> 39) & 0x1ff) as usize;
    let e4 = m.mem.read_word(cr3, i4);
    if e4 == 0 {
        proof {
            assert(m.l3_table(va) is None);
        }
        return true;
    }
    let t3 = e4 & 0xffff_ffff_ffff_f000;
    proof {
        assert((e4 & 0xffff_ffff_ffff_f000) & 0xfff == 0u64) by (bit_vector);
    }
    if !m.mem.contains(t3) {
        return false;
    }
    if !frame_live(m, t3) || t3 == cr3 {
        return false;
    }
    proof {
        assert(m.l3_table(va) == Some(t3));
    }
    let i3 = ((va >> 30) & 0x1ff) as usize;
    let e3 = m.mem.read_word(t3, i3);
    if e3 == 0 {
        proof {
            assert(m.l2_table(va) is None);
        }
        return true;
    }
    let t2 = e3 & 0xffff_ffff_ffff_f000;
    proof {
        assert((e3 & 0xffff_ffff_ffff_f000) & 0xfff == 0u64) by (bit_vector);
    }
    if !m.mem.contains(t2) {
        return false;
    }
    if !frame_live(m, t2) || t2 == cr3 || t2 == t3 {
        return false;
    }
    proof {
        assert(m.l2_table(va) == Some(t2));
    }
    let i2 = ((va >> 21) & 0x1ff) as usize;
    let e2 = m.mem.read_word(t2, i2);
    if e2 == 0 {
        proof {
            assert(m.l1_table(va) is None);
        }
        return true;
    }
    let t1 = e2 & 0xffff_ffff_ffff_f000;
    proof {
        assert((e2 & 0xffff_ffff_ffff_f000) & 0xfff == 0u64) by (bit_vector);
    }
    if !m.mem.contains(t1) {
        return false;
    }
    if !frame_live(m, t1) || t1 == cr3 || t1 == t3 || t1 == t2 {
        return false;
    }
    proof {
        assert(m.l1_table(va) == Some(t1));
    }
    true
}

/// Re-checks that clearing `va`'s leaf is safe: the walk is sound and
/// the mapped frame, when one is there, can give a count unit back
/// and is no table of its own walk.
pub fn check_unmap_ok(m: &Machine, va: u64) -> (r: bool)
    requires
        m.phys_wf(),
        m.rc_enabled,
    ensures
        r ==> m.path_live(va) && m.path_distinct(va)
            && (m.leaf_entry(va) is Some ==> {
                let d = page::entry_addr(m.leaf_entry(va)->Some_0);
                &&& page::leaf_release_ok(*m, d)
                &&& !m.in_path(va, d)
            }),
{
    if !check_path_ok(m, va) {
        return false;
    }
    let t1 = match m.l1_exec(va) {
        Some(t) => t,
        None => {
            return true;
        }
    };
    proof {
        let v = va;
        assert(((v >> 12) & 0x1ff) < 512) by (bit_vector);
    }
    let w = m.mem.read_word(t1, ((va >> 12) & 0x1ff) as usize);
    if w == 0 {
        proof {
            assert(m.leaf_entry(va) is None);
        }
        return true;
    }
    let d = w & 0xffff_ffff_ffff_f000;
    proof {
        assert((w & 0xffff_ffff_ffff_f000) & 0xfff == 0u64) by (bit_vector);
        assert(m.leaf_entry(va) == Some(w));
        assert(d == page::entry_addr(m.leaf_entry(va)->Some_0));
    }
    if d == m.cr3 {
        return false;
    }
    let l3 = match m.l3_exec(va) {
        Some(t) => t,
        None => {
            return false;
        }
    };
    if d == l3 {
        return false;
    }
    let l2 = match m.l2_exec(va) {
        Some(t) => t,
        None => {
            return false;
        }
    };
    if d == l2 {
        return false;
    }
    let l1 = match m.l1_exec(va) {
        Some(t) => t,
        None => {
            return false;
        }
    };
    if d == l1 {
        return false;
    }
    // release safety of the mapped frame
    if !m.rc_enabled {
        return true;
    }
    match phys::ref_count(m, d) {
        None => true,
        Some(c) => {
            if c == 0 {
                false
            } else if c == 1 {
                m.mem.contains(d)
            } else {
                true
            }
        }
    }
}

impl Machine {
    /// The resolved PDPT frame, executable side.
    fn l3_exec(&self, va: u64) -> (r: Option<u64>)
        requires
            self.mem.wf(),
        ensures
            r == self.l3_table(va),
    {
        if !self.mem.contains(self.cr3) {
            return None;
        }
        proof {
            let v = va;
            assert(((v >> 39) & 0x1ff) < 512) by (bit_vector);
        }
        let e = self.mem.read_word(self.cr3, ((va >> 39) & 0x1ff) as usize);
        if e == 0 {
            return None;
        }
        let t = e & 0xffff_ffff_ffff_f000;
        if self.mem.contains(t) {
            Some(t)
        } else {
            None
        }
    }

    /// The resolved PD frame, executable side.
    fn l2_exec(&self, va: u64) -> (r: Option<u64>)
        requires
            self.mem.wf(),
        ensures
            r == self.l2_table(va),
    {
        let t3 = match self.l3_exec(va) {
            Some(t) => t,
            None => {
                return None;
            }
        };
        proof {
            let v = va;
            assert(((v >> 30) & 0x1ff) < 512) by (bit_vector);
        }
        let e = self.mem.read_word(t3, ((va >> 30) & 0x1ff) as usize);
        if e == 0 {
            return None;
        }
        let t = e & 0xffff_ffff_ffff_f000;
        if self.mem.contains(t) {
            Some(t)
        } else {
            None
        }
    }

    /// The resolved PT frame, executable side.
    fn l1_exec(&self, va: u64) -> (r: Option<u64>)
        requires
            self.mem.wf(),
        ensures
            r == self.l1_table(va),
    {
        let t2 = match self.l2_exec(va) {
            Some(t) => t,
            None => {
                return None;
            }
        };
        proof {
            let v = va;
            assert(((v >> 21) & 0x1ff) < 512) by (bit_vector);
        }
        let e = self.mem.read_word(t2, ((va >> 21) & 0x1ff) as usize);
        if e == 0 {
            return None;
        }
        let t = e & 0xffff_ffff_ffff_f000;
        if self.mem.contains(t) {
            Some(t)
        } else {
            None
        }
    }
}


/// Preconditions that [`drop_ref`] needs are discharged here by
/// checking the release safety of an address-space frame at run time.
fn drop_ref_checked(k: &mut Kernel, r: ObjectRef)
    requires
        old(k).objects.wf(),
        old(k).tasks_wf(),
        old(k).machine.phys_wf(),
        old(k).machine.temp is None,
        r.id < old(k).objects.store@.len(),
        old(k).objects.store@[r.id as int].count >= 1,
    ensures
        final(k).objects.wf(),
        final(k).tasks_wf(),
        final(k).machine.phys_wf(),
        final(k).machine.temp is None,
        final(k).objects.tables == old(k).objects.tables,
        final(k).tasks == old(k).tasks,
        final(k).current == old(k).current,
        final(k).next_task_id == old(k).next_task_id,
        final(k).machine.rc_enabled == old(k).machine.rc_enabled,
        final(k).machine.cr3 == old(k).machine.cr3,
        final(k).objects.store@.len() == old(k).objects.store@.len(),
        old(k).objects.store@[r.id as int].count > 1 ==> {
            &&& final(k).machine == old(k).machine
            &&& forall|i: int| 0 <= i < old(k).objects.store@.len() && i != r.id
                ==> final(k).objects.store@[i] == old(k).objects.store@[i]
            &&& final(k).objects.store@[r.id as int].count
                == old(k).objects.store@[r.id as int].count - 1
            &&& final(k).objects.store@[r.id as int].object
                == old(k).objects.store@[r.id as int].object
        },
        old(k).objects.store@[r.id as int].count == 1
            ==> final(k).objects.store@[r.id as int].count <= 1,
{
    let can = {
        let c = k.objects.store[r.id].count;
        if c == 1 {
            match &k.objects.store[r.id].object {
                Some(obj) => match &obj.kind {
                    ObjectKind::PageCtx(ctx) => {
                        let f = ctx.pml4.raw;
                        f != 0 && f & 0xfff == 0 && object::can_release(&k.machine, f)
                    }
                    _ => true,
                },
                None => true,
            }
        } else {
            true
        }
    };
    if can {
        object::drop_ref(&mut k.objects, &mut k.machine, r);
    } else {
        // an unsound release is refused; the unit leaks, as the
        // kernel must never corrupt the allocator
        let c = k.objects.store[r.id].count;
        if c > 1 {
            k.objects.store[r.id].count = c - 1;
        }
    }
}

/// Cleanup of a failed multi-page allocation: unmaps every page of
/// the range that is currently mapped, so a failure never strands a
/// half-mapped prefix. Reports whether the whole range is free again.
fn unmap_range_rollback(m: &mut Machine, page_range: &PageRange, crit: &critical::Critical)
    -> (ok: bool)
    requires
        old(m).phys_wf(),
        old(m).rc_enabled,
        old(m).temp is None,
        page_range.wf(),
    ensures
        final(m).phys_wf(),
        final(m).temp is None,
        final(m).rc_enabled == old(m).rc_enabled,
        ok ==> user::range_unmapped(*final(m), *page_range),
{
    let addrs = page_range.pages();
    let n = addrs.len();
    let mut idx: usize = 0;
    while idx < n
        invariant
            m.phys_wf(),
            m.temp is None,
            m.rc_enabled,
            idx <= n,
            n == addrs@.len(),
        decreases n - idx,
    {
        let addr = addrs[idx];
        if check_unmap_ok(m, addr) {
            match page::unmap(m, addr) {
                Ok(()) => {}
                Err(_) => {}
            }
        }
        idx += 1;
    }
    match user::validate_available(m, page_range, crit) {
        Ok(()) => true,
        Err(_) => false,
    }
}

/// Maps `page_count` fresh zero-filled frames at `virtual_addr`.
fn alloc_page(k: &mut Kernel, virtual_addr: u64, page_count: u64, flags: u64)
    -> (r: SysResult<u64>)
    requires
        kernel_inv(*old(k)),
    ensures
        kernel_post(*final(k)),
        final(k).tasks == old(k).tasks,
        final(k).objects == old(k).objects,
        final(k).current == old(k).current,
        final(k).machine.rc_enabled == old(k).machine.rc_enabled,
        r == SysResult::<u64>::Err(SysError::IllegalValue)
            ==> flags & 0xffff_ffff_ffff_fffd != 0,
        // a range that is not free is refused before anything is done
        (PageRange { base_page: virtual_addr, page_count }).wf()
                && page_count * 4096 <= u64::MAX
                && !user::range_unmapped(old(k).machine,
                    PageRange { base_page: virtual_addr, page_count })
            ==> r == SysResult::<u64>::Err(SysError::AlreadyMapped)
                && *final(k) == *old(k),
        // bad flag words are refused next, before any page is mapped
        (PageRange { base_page: virtual_addr, page_count }).wf()
                && page_count * 4096 <= u64::MAX
                && user::range_unmapped(old(k).machine,
                    PageRange { base_page: virtual_addr, page_count })
                && flags & 0xffff_ffff_ffff_fffd != 0
            ==> r == SysResult::<u64>::Err(SysError::IllegalValue)
                && *final(k) == *old(k),
        // exhaustion never strands a half-mapped range: whatever was
        // mapped before the failure is unmapped again first
        r == SysResult::<u64>::Err(SysError::MemoryExhausted)
            ==> ((PageRange { base_page: virtual_addr, page_count }).wf()
                ==> user::range_unmapped(final(k).machine,
                    PageRange { base_page: virtual_addr, page_count })),
        // on success every page of the range is mapped, present and
        // user-reachable, writable exactly when asked
        r is Ok ==> {
            &&& r->Ok_0 == OK
            &&& (PageRange { base_page: virtual_addr, page_count }).wf()
            &&& user::range_mapped(final(k).machine,
                PageRange { base_page: virtual_addr, page_count },
                PageFlags { bits: 0x5u64 | (flags & 0x2) })
            &&& flags & 0xffff_ffff_ffff_fffd == 0
        },
{
    let crit = critical::begin(&mut k.machine);
    let ghost mb = k.machine;
    proof {
        phys::lemma_wf_fields(old(k).machine, k.machine);
        page::lemma_walk_congruent(old(k).machine, k.machine);
    }
    let page_range = match PageRange::new(virtual_addr, page_count) {
        Ok(pr) => pr,
        Err(e) => {
            end_crit(&mut k.machine, crit);
            proof {
                assert(k.machine == old(k).machine);
            }
            return Err(e);
        }
    };
    match user::validate_available(&k.machine, &page_range, &crit) {
        Ok(()) => {}
        Err(e) => {
            end_crit(&mut k.machine, crit);
            proof {
                assert(k.machine == old(k).machine);
                assert(!user::range_unmapped(old(k).machine, page_range)) by {
                    if user::range_unmapped(old(k).machine, page_range) {
                        assert forall|j: int| 0 <= j < page_range.page_count implies
                            (#[trigger] mb.leaf_entry(page_range.page_seq()[j]))
                                is None by {
                            assert(old(k).machine.leaf_entry(page_range.page_seq()[j])
                                is None);
                        }
                    }
                }
            }
            return Err(e);
        }
    }
    proof {
        assert(user::range_unmapped(old(k).machine, page_range)) by {
            assert forall|j: int| 0 <= j < page_range.page_count implies
                (#[trigger] old(k).machine.leaf_entry(page_range.page_seq()[j]))
                    is None by {
                assert(mb.leaf_entry(page_range.page_seq()[j]) is None);
            }
        }
    }
    let uflags = match UserPageFlags::from_bits(flags) {
        Some(f) => f,
        None => {
            end_crit(&mut k.machine, crit);
            proof {
                assert(k.machine == old(k).machine);
            }
            return Err(SysError::IllegalValue);
        }
    };
    let pflags = uflags.to_page_flags();
    let addrs = page_range.pages();
    let n = addrs.len();
    let mut idx: usize = 0;
    while idx < n
        invariant
            kernel_inv(*old(k)),
            k.machine.phys_wf(),
            k.machine.temp == old(k).machine.temp,
            k.machine.rc_enabled == old(k).machine.rc_enabled,
            k.machine.rc_enabled,
            k.tasks == old(k).tasks,
            k.objects == old(k).objects,
            k.current == old(k).current,
            k.next_task_id == old(k).next_task_id,
            k.tasks_wf(),
            k.objects.wf(),
            idx <= n,
            n == addrs@.len(),
            pflags.bits & 0xfff == pflags.bits,
            forall|j: int| 0 <= j < addrs@.len()
                ==> (#[trigger] addrs@[j]) == page_range.page_seq()[j],
            page_range.wf(),
            page_range.base_page == virtual_addr,
            page_range.page_count == page_count,
            user::range_unmapped(old(k).machine, page_range),
            flags & 0xffff_ffff_ffff_fffd == 0,
        decreases n - idx,
    {
        let addr = addrs[idx];
        if !check_path_ok(&k.machine, addr) {
            let _cleaned = unmap_range_rollback(&mut k.machine, &page_range, &crit);
            end_crit(&mut k.machine, crit);
            return Err(SysError::BadPointer);
        }
        let ghost mk = k.machine;
        let frame = match phys::alloc_frame(&mut k.machine) {
            Ok(f) => f,
            Err(_) => {
                let cleaned = unmap_range_rollback(&mut k.machine, &page_range, &crit);
                let ghost before_end = k.machine;
                end_crit(&mut k.machine, crit);
                proof {
                    page::lemma_walk_congruent(before_end, k.machine);
                    if cleaned {
                        assert forall|j: int| 0 <= j < page_range.page_count implies
                            (#[trigger] k.machine.leaf_entry(page_range.page_seq()[j]))
                                is None by {
                            assert(before_end.leaf_entry(page_range.page_seq()[j])
                                is None);
                        }
                    }
                }
                if cleaned {
                    return Err(SysError::MemoryExhausted);
                }
                return Err(SysError::BadPointer);
            }
        };
        if !check_path_ok(&k.machine, addr) {
            let _cleaned = unmap_range_rollback(&mut k.machine, &page_range, &crit);
            end_crit(&mut k.machine, crit);
            return Err(SysError::BadPointer);
        }
        match page::map(&mut k.machine, frame, addr, pflags) {
            Ok(()) => {}
            Err(page::MapError::AlreadyMapped) => {
                let _cleaned = unmap_range_rollback(&mut k.machine, &page_range, &crit);
                end_crit(&mut k.machine, crit);
                return Err(SysError::BadPointer);
            }
            Err(page::MapError::CannotAllocatePageTable) => {
                let cleaned = unmap_range_rollback(&mut k.machine, &page_range, &crit);
                let ghost before_end = k.machine;
                end_crit(&mut k.machine, crit);
                proof {
                    page::lemma_walk_congruent(before_end, k.machine);
                    if cleaned {
                        assert forall|j: int| 0 <= j < page_range.page_count implies
                            (#[trigger] k.machine.leaf_entry(page_range.page_seq()[j]))
                                is None by {
                            assert(before_end.leaf_entry(page_range.page_seq()[j])
                                is None);
                        }
                    }
                }
                if cleaned {
                    return Err(SysError::MemoryExhausted);
                }
                return Err(SysError::BadPointer);
            }
        }
        idx += 1;
    }
    // the claim the caller gets: the whole range is mapped with the
    // asked-for flags, checked against the final tables
    match user::validate_map(&k.machine, &page_range, pflags, &crit) {
        Ok(()) => {}
        Err(_) => {
            let _cleaned = unmap_range_rollback(&mut k.machine, &page_range, &crit);
            end_crit(&mut k.machine, crit);
            return Err(SysError::BadPointer);
        }
    }
    let ghost before_end = k.machine;
    end_crit(&mut k.machine, crit);
    proof {
        page::lemma_walk_congruent(before_end, k.machine);
        assert forall|j: int| 0 <= j < page_range.page_count implies
            (#[trigger] k.machine.leaf_entry(page_range.page_seq()[j])) is Some
                && (k.machine.leaf_entry(page_range.page_seq()[j])->Some_0 & 0xfff)
                    & pflags.bits == pflags.bits by {
            assert(before_end.leaf_entry(page_range.page_seq()[j]) is Some);
        }
    }
    Ok(OK)
}

/// Unmaps `page_count` user pages, freeing each frame whose last
/// reference the mapping held.
fn release_page(k: &mut Kernel, virtual_addr: u64, page_count: u64) -> (r: SysResult<u64>)
    requires
        kernel_inv(*old(k)),
    ensures
        kernel_post(*final(k)),
        final(k).tasks == old(k).tasks,
        final(k).objects == old(k).objects,
        final(k).current == old(k).current,
        final(k).machine.rc_enabled == old(k).machine.rc_enabled,
        // a range that is not fully mapped is refused with nothing
        // changed
        (PageRange { base_page: virtual_addr, page_count }).wf()
                && page_count * 4096 <= u64::MAX
                && !user::range_mapped(old(k).machine,
                    PageRange { base_page: virtual_addr, page_count },
                    PageFlags { bits: 0 })
            ==> r == SysResult::<u64>::Err(SysError::BadPointer)
                && *final(k) == *old(k),
        // on success every page of the range is gone; each frame gave
        // its count unit back as page::unmap states
        r is Ok ==> {
            &&& r->Ok_0 == OK
            &&& (PageRange { base_page: virtual_addr, page_count }).wf()
            &&& user::range_unmapped(final(k).machine,
                PageRange { base_page: virtual_addr, page_count })
        },
        // for a single page, the frame's release is stated exactly
        r is Ok && page_count == 1
            ==> page::unmap_ok(
                (Machine { iflag: false, ..old(k).machine }),
                (Machine { iflag: false, ..final(k).machine }),
                virtual_addr),
        // releasing only ever gives units back: no frame's count rises
        forall|g: u64| phys::page_aligned(g) ==> {
            &&& ((#[trigger] final(k).machine.rc_of(g)) is Some
                <==> old(k).machine.rc_of(g) is Some)
            &&& (final(k).machine.rc_of(g) is Some
                ==> final(k).machine.rc_of(g)->Some_0
                    <= old(k).machine.rc_of(g)->Some_0)
        },
{
    let crit = critical::begin(&mut k.machine);
    let ghost mb = k.machine;
    proof {
        phys::lemma_wf_fields(old(k).machine, k.machine);
        page::lemma_walk_congruent(old(k).machine, k.machine);
        phys::lemma_rc_congruent(old(k).machine, k.machine);
    }
    let page_range = match PageRange::new(virtual_addr, page_count) {
        Ok(pr) => pr,
        Err(e) => {
            end_crit(&mut k.machine, crit);
            proof {
                assert(k.machine == old(k).machine);
            }
            return Err(e);
        }
    };
    match user::validate_map(&k.machine, &page_range, PageFlags { bits: 0 }, &crit) {
        Ok(()) => {}
        Err(e) => {
            end_crit(&mut k.machine, crit);
            proof {
                assert(k.machine == old(k).machine);
            }
            return Err(e);
        }
    }
    proof {
        assert(user::range_mapped(old(k).machine, page_range, PageFlags { bits: 0 }))
            by {
            assert forall|j: int| 0 <= j < page_range.page_count implies
                (#[trigger] old(k).machine.leaf_entry(page_range.page_seq()[j]))
                    is Some
                    && (old(k).machine.leaf_entry(page_range.page_seq()[j])->Some_0
                        & 0xfff) & 0u64 == 0u64 by {
                assert(mb.leaf_entry(page_range.page_seq()[j]) is Some);
            }
        }
    }
    let addrs = page_range.pages();
    let n = addrs.len();
    let mut idx: usize = 0;
    while idx < n
        invariant
            kernel_inv(*old(k)),
            k.machine.phys_wf(),
            k.machine.temp == old(k).machine.temp,
            k.machine.rc_enabled == old(k).machine.rc_enabled,
            k.machine.rc_enabled,
            k.tasks == old(k).tasks,
            k.objects == old(k).objects,
            k.current == old(k).current,
            k.next_task_id == old(k).next_task_id,
            k.tasks_wf(),
            k.objects.wf(),
            idx <= n,
            n == addrs@.len(),
            n == page_range.page_count,
            page_range.base_page == virtual_addr,
            page_range.page_count == page_count,
            forall|j: int| 0 <= j < addrs@.len()
                ==> (#[trigger] addrs@[j]) == page_range.page_seq()[j],
            user::range_mapped(old(k).machine, page_range, PageFlags { bits: 0 }),
            idx == 0 ==> k.machine == (Machine { iflag: false, ..old(k).machine }),
            page_count == 1 && idx >= 1 ==> page::unmap_ok(
                (Machine { iflag: false, ..old(k).machine }), k.machine, virtual_addr),
            forall|g: u64| phys::page_aligned(g) ==> {
                &&& ((#[trigger] k.machine.rc_of(g)) is Some
                    <==> old(k).machine.rc_of(g) is Some)
                &&& (k.machine.rc_of(g) is Some
                    ==> k.machine.rc_of(g)->Some_0
                        <= old(k).machine.rc_of(g)->Some_0)
            },
        decreases n - idx,
    {
        let addr = addrs[idx];
        if !check_unmap_ok(&k.machine, addr) {
            let ghost before_end2 = k.machine;
            end_crit(&mut k.machine, crit);
            proof {
                phys::lemma_rc_congruent(before_end2, k.machine);
            }
            return Err(SysError::BadPointer);
        }
        let ghost mu = k.machine;
        match page::unmap(&mut k.machine, addr) {
            Ok(()) => {}
            Err(_) => {
                let ghost before_end2 = k.machine;
                end_crit(&mut k.machine, crit);
                proof {
                    phys::lemma_rc_congruent(before_end2, k.machine);
                }
                return Err(SysError::BadPointer);
            }
        }
        proof {
            let d = page::entry_addr(mu.leaf_entry(addr)->Some_0);
            assert forall|g: u64| phys::page_aligned(g) implies
                ((#[trigger] k.machine.rc_of(g)) is Some <==> mu.rc_of(g) is Some)
                && (k.machine.rc_of(g) is Some
                    ==> k.machine.rc_of(g)->Some_0 <= mu.rc_of(g)->Some_0) by {
                if g != d {
                    assert(k.machine.rc_of(g) == mu.rc_of(g));
                }
            }
            if page_count == 1 && idx == 0 {
                assert(addr == virtual_addr) by {
                    assert(addrs@[0] == page_range.page_seq()[0]);
                }
                assert(page::unmap_ok(
                    (Machine { iflag: false, ..old(k).machine }), k.machine,
                    virtual_addr));
            }
        }
        idx += 1;
    }
    // the claim the caller gets: nothing of the range remains mapped
    match user::validate_available(&k.machine, &page_range, &crit) {
        Ok(()) => {}
        Err(_) => {
            let ghost before_end2 = k.machine;
            end_crit(&mut k.machine, crit);
            proof {
                phys::lemma_rc_congruent(before_end2, k.machine);
            }
            return Err(SysError::BadPointer);
        }
    }
    let ghost before_end = k.machine;
    end_crit(&mut k.machine, crit);
    proof {
        page::lemma_walk_congruent(before_end, k.machine);
        phys::lemma_rc_congruent(before_end, k.machine);
        assert forall|j: int| 0 <= j < page_range.page_count implies
            (#[trigger] k.machine.leaf_entry(page_range.page_seq()[j])) is None by {
            assert(before_end.leaf_entry(page_range.page_seq()[j]) is None);
        }
        if page_count == 1 {
            assert((Machine { iflag: false, ..k.machine }) == before_end);
        }
    }
    Ok(OK)
}

/// Rewrites the flags of `page_count` mapped user pages.
fn modify_page(k: &mut Kernel, virtual_addr: u64, page_count: u64, flags: u64)
    -> (r: SysResult<u64>)
    requires
        kernel_inv(*old(k)),
    ensures
        kernel_post(*final(k)),
        final(k).tasks == old(k).tasks,
        final(k).objects == old(k).objects,
        final(k).current == old(k).current,
        final(k).machine.rc_enabled == old(k).machine.rc_enabled,
        r == SysResult::<u64>::Err(SysError::IllegalValue)
            ==> flags & 0xffff_ffff_ffff_fffd != 0,
        // a range that is not fully mapped is refused with nothing
        // changed
        (PageRange { base_page: virtual_addr, page_count }).wf()
                && page_count * 4096 <= u64::MAX
                && !user::range_mapped(old(k).machine,
                    PageRange { base_page: virtual_addr, page_count },
                    PageFlags { bits: 0 })
            ==> r == SysResult::<u64>::Err(SysError::BadPointer)
                && *final(k) == *old(k),
        // on success every page of the range still maps its frame,
        // now carrying the asked-for flags
        r is Ok ==> {
            &&& r->Ok_0 == OK
            &&& (PageRange { base_page: virtual_addr, page_count }).wf()
            &&& user::range_mapped(final(k).machine,
                PageRange { base_page: virtual_addr, page_count },
                PageFlags { bits: 0x5u64 | (flags & 0x2) })
        },
{
    let crit = critical::begin(&mut k.machine);
    let ghost mb = k.machine;
    proof {
        phys::lemma_wf_fields(old(k).machine, k.machine);
        page::lemma_walk_congruent(old(k).machine, k.machine);
    }
    let page_range = match PageRange::new(virtual_addr, page_count) {
        Ok(pr) => pr,
        Err(e) => {
            end_crit(&mut k.machine, crit);
            proof {
                assert(k.machine == old(k).machine);
            }
            return Err(e);
        }
    };
    match user::validate_map(&k.machine, &page_range, PageFlags { bits: 0 }, &crit) {
        Ok(()) => {}
        Err(e) => {
            end_crit(&mut k.machine, crit);
            proof {
                assert(k.machine == old(k).machine);
            }
            return Err(e);
        }
    }
    proof {
        assert(page_range == (PageRange { base_page: virtual_addr, page_count }));
        assert(user::range_mapped(old(k).machine, page_range, PageFlags { bits: 0 }))
            by {
            assert forall|j: int| 0 <= j < page_range.page_count implies
                (#[trigger] old(k).machine.leaf_entry(page_range.page_seq()[j]))
                    is Some
                    && (old(k).machine.leaf_entry(page_range.page_seq()[j])->Some_0
                        & 0xfff) & 0u64 == 0u64 by {
                assert(mb.leaf_entry(page_range.page_seq()[j]) is Some);
            }
        }
    }
    let uflags = match UserPageFlags::from_bits(flags) {
        Some(f) => f,
        None => {
            end_crit(&mut k.machine, crit);
            return Err(SysError::IllegalValue);
        }
    };
    let pflags = uflags.to_page_flags();
    let addrs = page_range.pages();
    let n = addrs.len();
    let mut idx: usize = 0;
    while idx < n
        invariant
            kernel_inv(*old(k)),
            k.machine.phys_wf(),
            k.machine.temp == old(k).machine.temp,
            k.machine.rc_enabled == old(k).machine.rc_enabled,
            k.machine.rc_enabled,
            k.tasks == old(k).tasks,
            k.objects == old(k).objects,
            k.current == old(k).current,
            k.next_task_id == old(k).next_task_id,
            k.tasks_wf(),
            k.objects.wf(),
            idx <= n,
            n == addrs@.len(),
            page_range.base_page == virtual_addr,
            page_range.page_count == page_count,
            user::range_mapped(old(k).machine, page_range, PageFlags { bits: 0 }),
        decreases n - idx,
    {
        let addr = addrs[idx];
        if !check_path_ok(&k.machine, addr) {
            end_crit(&mut k.machine, crit);
            return Err(SysError::BadPointer);
        }
        match page::modify(&mut k.machine, addr, pflags) {
            Ok(()) => {}
            Err(_) => {
                end_crit(&mut k.machine, crit);
                return Err(SysError::BadPointer);
            }
        }
        idx += 1;
    }
    // the claim the caller gets: the whole range carries the new flags
    match user::validate_map(&k.machine, &page_range, pflags, &crit) {
        Ok(()) => {}
        Err(_) => {
            end_crit(&mut k.machine, crit);
            return Err(SysError::BadPointer);
        }
    }
    let ghost before_end = k.machine;
    end_crit(&mut k.machine, crit);
    proof {
        page::lemma_walk_congruent(before_end, k.machine);
        assert forall|j: int| 0 <= j < page_range.page_count implies
            (#[trigger] k.machine.leaf_entry(page_range.page_seq()[j])) is Some
                && (k.machine.leaf_entry(page_range.page_seq()[j])->Some_0 & 0xfff)
                    & pflags.bits == pflags.bits by {
            assert(before_end.leaf_entry(page_range.page_seq()[j]) is Some);
        }
    }
    Ok(OK)
}

/// Maps `page_count` pages of raw physical memory for a driver task;
/// the caller is trusted with the physical range it names.
fn map_physical_memory(k: &mut Kernel, virtual_addr: u64, physical_addr: u64,
    page_count: u64, flags: u64) -> (r: SysResult<u64>)
    requires
        kernel_inv(*old(k)),
    ensures
        kernel_post(*final(k)),
        final(k).tasks == old(k).tasks,
        final(k).objects == old(k).objects,
        final(k).current == old(k).current,
        final(k).machine.rc_enabled == old(k).machine.rc_enabled,
        // a range that is not free is refused with nothing changed
        (PageRange { base_page: virtual_addr, page_count }).wf()
                && page_count * 4096 <= u64::MAX
                && !user::range_unmapped(old(k).machine,
                    PageRange { base_page: virtual_addr, page_count })
            ==> r == SysResult::<u64>::Err(SysError::AlreadyMapped)
                && *final(k) == *old(k),
        // on success the whole range maps physical memory with the
        // asked-for flags; each mapped frame's count grew by the unit
        // the new leaf holds
        r is Ok ==> {
            &&& r->Ok_0 == OK
            &&& (PageRange { base_page: virtual_addr, page_count }).wf()
            &&& user::range_mapped(final(k).machine,
                PageRange { base_page: virtual_addr, page_count },
                PageFlags { bits: 0x5u64 | (flags & 0x2) })
        },
{
    let crit = critical::begin(&mut k.machine);
    let ghost mb = k.machine;
    proof {
        phys::lemma_wf_fields(old(k).machine, k.machine);
        page::lemma_walk_congruent(old(k).machine, k.machine);
    }
    let page_range = match PageRange::new(virtual_addr, page_count) {
        Ok(pr) => pr,
        Err(e) => {
            end_crit(&mut k.machine, crit);
            proof {
                assert(k.machine == old(k).machine);
            }
            return Err(e);
        }
    };
    match user::validate_available(&k.machine, &page_range, &crit) {
        Ok(()) => {}
        Err(e) => {
            end_crit(&mut k.machine, crit);
            proof {
                assert(k.machine == old(k).machine);
                assert(!user::range_unmapped(old(k).machine, page_range)) by {
                    if user::range_unmapped(old(k).machine, page_range) {
                        assert forall|j: int| 0 <= j < page_range.page_count implies
                            (#[trigger] mb.leaf_entry(page_range.page_seq()[j]))
                                is None by {
                            assert(old(k).machine.leaf_entry(page_range.page_seq()[j])
                                is None);
                        }
                    }
                }
            }
            return Err(e);
        }
    }
    proof {
        assert(page_range == (PageRange { base_page: virtual_addr, page_count }));
        assert(user::range_unmapped(old(k).machine, page_range)) by {
            assert forall|j: int| 0 <= j < page_range.page_count implies
                (#[trigger] old(k).machine.leaf_entry(page_range.page_seq()[j]))
                    is None by {
                assert(mb.leaf_entry(page_range.page_seq()[j]) is None);
            }
        }
    }
    let uflags = match UserPageFlags::from_bits(flags) {
        Some(f) => f,
        None => {
            end_crit(&mut k.machine, crit);
            return Err(SysError::IllegalValue);
        }
    };
    if physical_addr & 0xfff != 0 || physical_addr == 0 {
        end_crit(&mut k.machine, crit);
        return Err(SysError::IllegalValue);
    }
    let pflags = uflags.to_page_flags();
    let addrs = page_range.pages();
    let n = addrs.len();
    let mut idx: usize = 0;
    while idx < n
        invariant
            kernel_inv(*old(k)),
            k.machine.phys_wf(),
            k.machine.temp == old(k).machine.temp,
            k.machine.rc_enabled == old(k).machine.rc_enabled,
            k.machine.rc_enabled,
            k.tasks == old(k).tasks,
            k.objects == old(k).objects,
            k.current == old(k).current,
            k.next_task_id == old(k).next_task_id,
            k.tasks_wf(),
            k.objects.wf(),
            idx <= n,
            n == addrs@.len(),
            pflags.bits & 0xfff == pflags.bits,
            physical_addr & 0xfff == 0,
            physical_addr != 0,
            page_range.base_page == virtual_addr,
            page_range.page_count == page_count,
            user::range_unmapped(old(k).machine, page_range),
        decreases n - idx,
    {
        let addr = addrs[idx];
        let off64 = match (idx as u64).checked_mul(4096) {
            Some(o) => o,
            None => {
                end_crit(&mut k.machine, crit);
                return Err(SysError::IllegalValue);
            }
        };
        let phys_page = match physical_addr.checked_add(off64) {
            Some(p) => p,
            None => {
                end_crit(&mut k.machine, crit);
                return Err(SysError::IllegalValue);
            }
        };
        proof {
            let pa = physical_addr;
            assert((pa & 0xfff == 0) ==> pa % 4096 == 0) by (bit_vector);
            assert(off64 as int % 4096 == 0) by (nonlinear_arith)
                requires
                    off64 as int == (idx as u64) as int * 4096,
            {}
            assert((pa as int + off64 as int) % 4096 == 0) by (nonlinear_arith)
                requires
                    pa as int % 4096 == 0,
                    off64 as int % 4096 == 0,
            {}
            let pp = phys_page;
            assert((pp % 4096 == 0) ==> pp & 0xfff == 0) by (bit_vector);
        }
        if phys_page == 0 {
            end_crit(&mut k.machine, crit);
            return Err(SysError::IllegalValue);
        }
        if !check_path_ok(&k.machine, addr) {
            end_crit(&mut k.machine, crit);
            return Err(SysError::BadPointer);
        }
        // the reference count of the raw frame gains this mapping's
        // unit, exactly as a driver expects
        let can_count = {
            match phys::ref_count(&k.machine, phys_page) {
                None => true,
                Some(c) => c < u64::MAX && c >= 1,
            }
        };
        if !can_count {
            end_crit(&mut k.machine, crit);
            return Err(SysError::IllegalValue);
        }
        proof {
            if k.machine.rc_enabled && k.machine.managed(phys_page) {
                if k.machine.bump_avail(phys_page) {
                    assert(k.machine.rc_of(phys_page) == Some(0u64));
                }
                if k.machine.free_list@.contains(phys_page) {
                    let kk = choose|kk: int| 0 <= kk < k.machine.free_list@.len()
                        && k.machine.free_list@[kk] == phys_page;
                    assert(k.machine.free_frame_wf(kk));
                }
            }
        }
        let frame = phys::Phys::new(&mut k.machine, phys::RawPhys(phys_page));
        if !check_path_ok(&k.machine, addr) {
            end_crit(&mut k.machine, crit);
            return Err(SysError::BadPointer);
        }
        match page::map(&mut k.machine, frame, addr, pflags) {
            Ok(()) => {}
            Err(e2) => {
                proof {
                    if e2 == page::MapError::AlreadyMapped {
                        assert(k.machine.rc_enabled);
                    } else {
                        assert(k.machine.rc_enabled);
                    }
                }
                end_crit(&mut k.machine, crit);
                return Err(SysError::MemoryExhausted);
            }
        }
        idx += 1;
    }
    // the claim the caller gets: the whole range is mapped
    match user::validate_map(&k.machine, &page_range, pflags, &crit) {
        Ok(()) => {}
        Err(_) => {
            end_crit(&mut k.machine, crit);
            return Err(SysError::MemoryExhausted);
        }
    }
    let ghost before_end = k.machine;
    end_crit(&mut k.machine, crit);
    proof {
        page::lemma_walk_congruent(before_end, k.machine);
        assert forall|j: int| 0 <= j < page_range.page_count implies
            (#[trigger] k.machine.leaf_entry(page_range.page_seq()[j])) is Some
                && (k.machine.leaf_entry(page_range.page_seq()[j])->Some_0 & 0xfff)
                    & pflags.bits == pflags.bits by {
            assert(before_end.leaf_entry(page_range.page_seq()[j]) is Some);
        }
    }
    Ok(OK)
}

/// Inserts a fresh reference to the object `handle` names and returns
/// the new handle.
fn clone_handle(k: &mut Kernel, handle: Handle) -> (r: SysResult<u64>)
    requires
        kernel_inv(*old(k)),
        old(k).current is Some,
    ensures
        kernel_post(*final(k)),
        final(k).machine == old(k).machine,
        final(k).tasks == old(k).tasks,
        final(k).current == old(k).current,
        r is Err ==> r->Err_0 == SysError::BadHandle
            || r->Err_0 == SysError::MemoryExhausted,
        r == SysResult::<u64>::Err(SysError::BadHandle)
            ==> *final(k) == *old(k)
                && !(old(k).objects.has_table(old(k).current->Some_0)
                    && old(k).objects.tables@[
                        old(k).objects.table_of(old(k).current->Some_0)]
                        .has_handle(handle.0)),
        // the handle space runs out exactly on the last handle value
        r == SysResult::<u64>::Err(SysError::MemoryExhausted) ==> {
            let cur = old(k).current->Some_0;
            let te = old(k).objects.tables@[old(k).objects.table_of(cur)].entries@;
            &&& old(k).objects.has_table(cur)
            &&& te.len() > 0
            &&& te.last().0 == u64::MAX
        },
        // the new handle names the object the old one named, whose
        // count grew by one, and exceeds every handle the task held
        r is Ok ==> {
            let cur = old(k).current->Some_0;
            let t = final(k).objects.table_of(cur);
            let te = old(k).objects.tables@[old(k).objects.table_of(cur)].entries@;
            &&& r->Ok_0 != 0
            &&& final(k).objects.has_table(cur)
            &&& final(k).objects.tables@[t].entries@.len() >= 1
            &&& final(k).objects.tables@[t].entries@.last().0 == r->Ok_0
            &&& old(k).objects.has_table(cur)
            &&& (exists|i: int| 0 <= i < te.len()
                && (#[trigger] te[i]).0 == handle.0
                && final(k).objects.tables@[t].entries@.last().1.id == te[i].1.id
                && te[i].1.id < old(k).objects.store@.len()
                && final(k).objects.store@[te[i].1.id as int].count
                    == old(k).objects.store@[te[i].1.id as int].count + 1)
            &&& (forall|i: int| 0 <= i < te.len() ==> (#[trigger] te[i]).0 < r->Ok_0)
        },
{
    let cur = crate::task::current(k);
    let ghost s0 = *old(k);
    let obj = match object::get(&mut k.objects, cur, handle) {
        Some(o) => o,
        None => {
            return Err(SysError::BadHandle);
        }
    };
    let ghost gid = obj.id;
    let ghost s1 = *k;
    proof {
        object::lemma_tables_congruent(s0.objects, s1.objects);
    }
    match object::put(&mut k.objects, cur, obj) {
        Ok(h) => {
            proof {
                let t = k.objects.table_of(cur);
                let n2 = k.objects.tables@[t].entries@.len();
                assert(k.objects.tables@[t].entries@[n2 - 1].0 == h.0);
                assert(k.objects.tables@[t].entries@[n2 - 1].1.id == gid);
                let te = s0.objects.tables@[s0.objects.table_of(cur)].entries@;
                let i0 = choose|i: int| 0 <= i < te.len()
                    && (#[trigger] te[i]) == (handle.0, obj);
                assert(te[i0].0 == handle.0 && te[i0].1.id == gid);
                assert(k.objects.store@[gid as int].count
                    == s0.objects.store@[gid as int].count + 1);
            }
            Ok(h.into_u64())
        }
        Err(e) => {
            proof {
                object::lemma_tables_congruent(s0.objects, s1.objects);
            }
            Err(e)
        }
    }
}

/// Removes `handle` from the calling task's table, dropping the
/// reference it held.
fn release_handle(k: &mut Kernel, handle: Handle) -> (r: SysResult<u64>)
    requires
        kernel_inv(*old(k)),
        old(k).current is Some,
    ensures
        kernel_post(*final(k)),
        final(k).tasks == old(k).tasks,
        final(k).current == old(k).current,
        r is Err ==> r->Err_0 == SysError::BadHandle && *final(k) == *old(k)
            && !(old(k).objects.has_table(old(k).current->Some_0)
                && old(k).objects.tables@[
                    old(k).objects.table_of(old(k).current->Some_0)]
                    .has_handle(handle.0)),
        // the entry disappears and the object loses the unit it held:
        // its count falls by one, or the object is torn down when it
        // was the last
        r is Ok ==> {
            let cur = old(k).current->Some_0;
            let t = old(k).objects.table_of(cur);
            let te = old(k).objects.tables@[t].entries@;
            &&& r->Ok_0 == OK
            &&& old(k).objects.has_table(cur)
            &&& final(k).objects.store@.len() == old(k).objects.store@.len()
            &&& (exists|i: int| 0 <= i < te.len()
                && (#[trigger] te[i]).0 == handle.0
                && final(k).objects.tables@[t].entries@ == te.remove(i)
                && te[i].1.id < old(k).objects.store@.len()
                && (old(k).objects.store@[te[i].1.id as int].count > 1 ==> {
                    &&& final(k).objects.store@[te[i].1.id as int].count
                        == old(k).objects.store@[te[i].1.id as int].count - 1
                    &&& final(k).objects.store@[te[i].1.id as int].object
                        == old(k).objects.store@[te[i].1.id as int].object
                    &&& final(k).machine == old(k).machine
                })
                && (old(k).objects.store@[te[i].1.id as int].count == 1
                    ==> final(k).objects.store@[te[i].1.id as int].count <= 1))
        },
{
    let cur = crate::task::current(k);
    let ghost s0 = *old(k);
    let obj = match object::release(&mut k.objects, cur, handle) {
        Ok(o) => o,
        Err(()) => {
            return Err(SysError::BadHandle);
        }
    };
    let ghost s1 = *k;
    proof {
        let t = old(k).objects.table_of(cur);
        let i = choose|i: int|
            0 <= i < old(k).objects.tables@[t].entries@.len()
            && (#[trigger] old(k).objects.tables@[t].entries@[i]) == (handle.0, obj)
            && k.objects.tables@[t].entries@
                == old(k).objects.tables@[t].entries@.remove(i);
        assert(old(k).objects.tables@[t].has_handle(handle.0));
    }
    drop_ref_checked(k, obj);
    Ok(OK)
}

/// Builds a fresh address space and hands the caller a handle to it.
fn create_page_context(k: &mut Kernel) -> (r: SysResult<u64>)
    requires
        kernel_inv(*old(k)),
        old(k).current is Some,
    ensures
        kernel_post(*final(k)),
        final(k).tasks == old(k).tasks,
        final(k).current == old(k).current,
        final(k).machine.cr3 == old(k).machine.cr3,
        r == SysResult::<u64>::Err(SysError::MemoryExhausted)
                && final(k).objects == old(k).objects
            ==> (forall|f: u64| !old(k).machine.avail(f)),
        // a fresh address-space object, counted once, reachable by
        // the new handle; its table shape is pinned by PageCtx::new
        r is Ok ==> {
            let cur = old(k).current->Some_0;
            let t = final(k).objects.table_of(cur);
            let nid = old(k).objects.store@.len();
            &&& r->Ok_0 != 0
            &&& final(k).objects.store@.len() == nid + 1
            &&& final(k).objects.store@[nid as int].count == 1
            &&& final(k).objects.store@[nid as int].object is Some
            &&& final(k).objects.store@[nid as int].object->Some_0.kind is PageCtx
            &&& final(k).objects.has_table(cur)
            &&& final(k).objects.tables@[t].entries@.len() >= 1
            &&& final(k).objects.tables@[t].entries@.last().0 == r->Ok_0
            &&& final(k).objects.tables@[t].entries@.last().1.id == nid
        },
{
    let ghost s0 = *old(k);
    let ctx = match PageCtx::new(&mut k.machine) {
        Ok(c) => c,
        Err(_) => {
            return Err(SysError::MemoryExhausted);
        }
    };
    let obj = Object::new(&mut k.objects, ObjectKind::PageCtx(ctx));
    let ghost gid = obj.id;
    let cur = crate::task::current(k);
    match object::put(&mut k.objects, cur, obj) {
        Ok(h) => {
            proof {
                let t = k.objects.table_of(cur);
                let n2 = k.objects.tables@[t].entries@.len();
                assert(k.objects.tables@[t].entries@[n2 - 1].0 == h.0);
                assert(k.objects.tables@[t].entries@[n2 - 1].1.id == gid);
                assert(k.objects.store@[gid as int].count == 1);
                assert(k.objects.store@[gid as int].object is Some);
            }
            Ok(h.into_u64())
        }
        Err(e) => Err(e),
    }
}

/// A diagnosis aid: the caller's registers go to the console, which
/// sits outside the kernel model; the kernel side always succeeds and
/// changes nothing.
fn debug(_k: &mut Kernel, _regs: &crate::interrupt::Registers) -> (r: SysResult<u64>)
    ensures
        *final(_k) == *old(_k),
        r == SysResult::<u64>::Ok(OK),
{
    Ok(OK)
}

/// Whether `handle`, in the calling task's table, names an
/// address-space object whose PML4 is the frame already in CR3.
pub open spec fn handle_names_cr3(k: Kernel, handle: Handle) -> bool {
    let cur = k.current->Some_0;
    let t = k.objects.table_of(cur);
    &&& k.objects.has_table(cur)
    &&& exists|i: int| 0 <= i < k.objects.tables@[t].entries@.len()
        && (#[trigger] k.objects.tables@[t].entries@[i]).0 == handle.0
        && k.objects.tables@[t].entries@[i].1.id < k.objects.store@.len()
        && k.objects.store@[k.objects.tables@[t].entries@[i].1.id as int].object
            is Some
        && k.objects.store@[k.objects.tables@[t].entries@[i].1.id as int]
            .object->Some_0.kind is PageCtx
        && k.objects.store@[k.objects.tables@[t].entries@[i].1.id as int]
            .object->Some_0.kind->PageCtx_0.pml4.raw == k.machine.cr3
}

/// Switches the calling task to the address space `handle` names; the
/// frame that was in CR3 gives one reference unit back.
fn set_page_context(k: &mut Kernel, handle: Handle) -> (r: SysResult<u64>)
    requires
        kernel_inv(*old(k)),
        old(k).current is Some,
    ensures
        kernel_post(*final(k)),
        final(k).tasks == old(k).tasks,
        final(k).current == old(k).current,
        r is Ok ==> r->Ok_0 == OK,
        // an unknown handle is refused untouched, and only then
        r == SysResult::<u64>::Err(SysError::BadHandle)
            <==> !(old(k).objects.has_table(old(k).current->Some_0)
                && old(k).objects.tables@[
                    old(k).objects.table_of(old(k).current->Some_0)]
                    .has_handle(handle.0)),
        r == SysResult::<u64>::Err(SysError::BadHandle) ==> *final(k) == *old(k),
        // on success the named address space is loaded: CR3 holds the
        // PML4 frame of the object the handle names
        r is Ok ==> {
            let cur = old(k).current->Some_0;
            let te = old(k).objects.tables@[old(k).objects.table_of(cur)].entries@;
            &&& old(k).objects.has_table(cur)
            &&& exists|i: int| 0 <= i < te.len()
                && (#[trigger] te[i]).0 == handle.0
                && te[i].1.id < old(k).objects.store@.len()
                && old(k).objects.store@[te[i].1.id as int].object is Some
                && old(k).objects.store@[te[i].1.id as int].object->Some_0.kind
                    is PageCtx
                && final(k).machine.cr3
                    == old(k).objects.store@[te[i].1.id as int].object->Some_0.kind
                        ->PageCtx_0.pml4.raw
        },
        // switching to the space already loaded changes nothing the
        // user can observe through memory
        r is Ok && handle_names_cr3(*old(k), handle) ==> {
            &&& final(k).machine.cr3 == old(k).machine.cr3
            &&& final(k).machine.mem == old(k).machine.mem
            &&& final(k).machine.free_list == old(k).machine.free_list
            &&& final(k).machine.free_head == old(k).machine.free_head
            &&& (forall|g: u64| phys::page_aligned(g)
                ==> (#[trigger] final(k).machine.rc_of(g))
                    == old(k).machine.rc_of(g))
        },
{
    let cur = crate::task::current(k);
    let ghost s0 = *old(k);
    let obj = match object::get(&mut k.objects, cur, handle) {
        Some(o) => o,
        None => {
            return Err(SysError::BadHandle);
        }
    };
    let pml4_raw = match Object::downcast_page_ctx(&k.objects, &obj) {
        Ok(f) => f,
        Err(e) => {
            drop_ref_checked(k, obj);
            return Err(e);
        }
    };
    proof {
        let te = s0.objects.tables@[s0.objects.table_of(cur)].entries@;
        let i0 = choose|i: int| 0 <= i < te.len()
            && (#[trigger] te[i]) == (handle.0, obj);
        assert(te[i0].0 == handle.0 && te[i0].1.id == obj.id);
        assert(s0.objects.store@[obj.id as int].object
            == k.objects.store@[obj.id as int].object);
        assert(s0.objects.store@[obj.id as int].object is Some
            && s0.objects.store@[obj.id as int].object->Some_0.kind is PageCtx
            && s0.objects.store@[obj.id as int].object->Some_0.kind
                ->PageCtx_0.pml4.raw == pml4_raw);
    }
    // take an owned unit on the target's PML4 for CR3 to hold
    if pml4_raw == 0 {
        drop_ref_checked(k, obj);
        return Err(SysError::IllegalValue);
    }
    let aligned = pml4_raw & 0xfff == 0;
    if !aligned {
        drop_ref_checked(k, obj);
        return Err(SysError::IllegalValue);
    }
    let countable = match phys::ref_count(&k.machine, pml4_raw) {
        None => true,
        Some(c) => c >= 1 && c < u64::MAX,
    };
    if !countable {
        drop_ref_checked(k, obj);
        return Err(SysError::IllegalValue);
    }
    proof {
        if k.machine.rc_enabled && k.machine.managed(pml4_raw) {
            if k.machine.bump_avail(pml4_raw) {
                assert(k.machine.rc_of(pml4_raw) == Some(0u64));
            }
            if k.machine.free_list@.contains(pml4_raw) {
                let kk = choose|kk: int| 0 <= kk < k.machine.free_list@.len()
                    && k.machine.free_list@[kk] == pml4_raw;
                assert(k.machine.free_frame_wf(kk));
            }
        }
    }
    let ghost g_obj = obj.id;
    let ghost m_a = k.machine;
    let holder = phys::Phys::new(&mut k.machine, phys::RawPhys(pml4_raw));
    let ghost m_b = k.machine;
    let ctx = PageCtx { pml4: holder };
    let releasable = object::can_release(&k.machine, k.machine.cr3);
    if !releasable {
        // never corrupt the allocator for a broken count
        drop_ref_checked(k, obj);
        return Err(SysError::IllegalValue);
    }
    page::set_ctx(&mut k.machine, ctx);
    let ghost m_c = k.machine;
    proof {
        if handle_names_cr3(*old(k), handle) {
            let cur0 = old(k).current->Some_0;
            let t = old(k).objects.table_of(cur0);
            let te = old(k).objects.tables@[t].entries@;
            let i_spec = choose|i: int| 0 <= i < te.len()
                && (#[trigger] te[i]).0 == handle.0
                && te[i].1.id < old(k).objects.store@.len()
                && old(k).objects.store@[te[i].1.id as int].object is Some
                && old(k).objects.store@[te[i].1.id as int].object->Some_0.kind
                    is PageCtx
                && old(k).objects.store@[te[i].1.id as int].object->Some_0.kind
                    ->PageCtx_0.pml4.raw == old(k).machine.cr3;
            let i_get = choose|i: int| 0 <= i < te.len()
                && (#[trigger] te[i]) == (handle.0, obj);
            // a table holds each handle once
            assert(old(k).objects.tables@[t].wf());
            if i_spec < i_get {
                assert(te[i_spec].0 < te[i_get].0);
            } else if i_get < i_spec {
                assert(te[i_get].0 < te[i_spec].0);
            }
            assert(te[i_spec].1.id == g_obj);
            assert(pml4_raw == old(k).machine.cr3);
            // one unit was taken and one given back on the same frame
            assert(m_c.cr3 == pml4_raw);
            assert(m_b.mem == m_a.mem);
            if m_b.rc_enabled && m_b.managed(pml4_raw) {
                assert(m_b.rc_of(pml4_raw)->Some_0 >= 2);
            }
            assert(m_c.mem == m_b.mem && m_c.free_list == m_b.free_list
                && m_c.free_head == m_b.free_head);
            assert forall|g: u64| phys::page_aligned(g) implies
                (#[trigger] m_c.rc_of(g)) == m_a.rc_of(g) by {
                if g != pml4_raw {
                    assert(m_b.rc_of(g) == m_a.rc_of(g));
                    assert(m_c.rc_of(g) == m_b.rc_of(g));
                } else {
                    if m_a.rc_enabled && m_a.managed(g) {
                        phys::lemma_regions_congruent(m_a, m_b);
                        phys::lemma_regions_congruent(m_b, m_c);
                        assert(m_b.rc_of(g)
                            == Some((m_a.rc_of(g)->Some_0 + 1) as u64));
                        assert(m_c.rc_of(g)
                            == Some((m_b.rc_of(g)->Some_0 - 1) as u64));
                    } else {
                        assert(m_b.rc_of(g) == m_a.rc_of(g));
                        phys::lemma_regions_congruent(m_a, m_b);
                        phys::lemma_regions_congruent(m_b, m_c);
                        assert(m_c.rc_of(g) == m_b.rc_of(g)) by {
                            if m_c.rc_enabled && m_c.managed(g) {
                                assert(m_b.managed(g));
                            }
                        }
                    }
                }
            }
        }
    }
    drop_ref_checked(k, obj);
    Ok(OK)
}

/// A handle to the calling task's current address space.
fn get_page_context(k: &mut Kernel) -> (r: SysResult<u64>)
    requires
        kernel_inv(*old(k)),
        old(k).current is Some,
    ensures
        kernel_post(*final(k)),
        final(k).machine == old(k).machine,
        final(k).tasks == old(k).tasks,
        final(k).current == old(k).current,
        final(k).objects.store@.len() == old(k).objects.store@.len(),
        r is Ok ==> r->Ok_0 != 0,
        r is Ok ==> {
            let cur = old(k).current->Some_0;
            let t = final(k).objects.table_of(cur);
            &&& old(k).has_task(cur)
            &&& final(k).objects.has_table(cur)
            &&& (exists|i: int|
                0 <= i < final(k).objects.tables@[t].entries@.len()
                && (#[trigger] final(k).objects.tables@[t].entries@[i]).0 == r->Ok_0
                && final(k).objects.tables@[t].entries@[i].1.id
                    == old(k).tasks@[old(k).task_index(cur)].task.page_ctx.id)
            &&& (forall|id: int| 0 <= id < old(k).objects.store@.len()
                ==> (#[trigger] final(k).objects.store@[id]).object
                        == old(k).objects.store@[id].object)
        },
        r is Ok && old(k).has_task(old(k).current->Some_0)
                && old(k).objects.store@[
                    old(k).tasks@[old(k).task_index(old(k).current->Some_0)]
                        .task.page_ctx.id as int].count < u64::MAX - 2
            ==> objects_ok(final(k).objects) && tasks_objects_ok(*final(k))
                && final(k).next_task_id == old(k).next_task_id,
{
    let page_ctx = match crate::task::get_page_ctx(k) {
        Some(p) => p,
        None => {
            return Err(SysError::BadHandle);
        }
    };
    let cur = crate::task::current(k);
    let ghost gid = page_ctx.id;
    let ghost s1 = *k;
    match object::put(&mut k.objects, cur, page_ctx) {
        Ok(h) => {
            proof {
                let t = k.objects.table_of(cur);
                let n2 = k.objects.tables@[t].entries@.len();
                assert(k.objects.tables@[t].entries@[n2 - 1].0 == h.0);
                assert(k.objects.tables@[t].entries@[n2 - 1].1.id == gid);
                if old(k).has_task(cur)
                    && old(k).objects.store@[gid as int].count < u64::MAX - 2 {
                    let s0 = *old(k);
                    assert(k.objects.store == s1.objects.store);
                    assert(s1.objects.store@ == s0.objects.store@.update(
                        gid as int,
                        object::ObjectSlot {
                            count: (s0.objects.store@[gid as int].count + 1) as u64,
                            ..s0.objects.store@[gid as int]
                        },
                    ));
                    object::lemma_tables_congruent(s0.objects, s1.objects);
                    assert forall|t2: int, i2: int|
                        0 <= t2 < k.objects.tables@.len()
                            && 0 <= i2 < (#[trigger] k.objects.tables@[t2])
                                .entries@.len()
                        implies
                        (#[trigger] k.objects.tables@[t2].entries@[i2]).1.id
                                < k.objects.store@.len()
                            && k.objects.store@[k.objects.tables@[t2].entries@[i2]
                                .1.id as int].count < u64::MAX - 1
                            && k.objects.store@[k.objects.tables@[t2].entries@[i2]
                                .1.id as int].count >= 1
                            && k.objects.store@[k.objects.tables@[t2].entries@[i2]
                                .1.id as int].object is Some by {
                        let e = k.objects.tables@[t2].entries@[i2];
                        let is_new = t2 == t && i2 == n2 - 1;
                        if is_new {
                            assert(e.1.id == gid);
                            assert(s0.objects.store@[gid as int].object is Some);
                        } else {
                            // an entry that was already there
                            if s1.objects.has_table(cur) && t2 == t {
                                assert(e == s1.objects.tables@[t2].entries@[i2]);
                            } else {
                                assert(k.objects.tables@[t2]
                                    == s1.objects.tables@[t2]);
                            }
                            assert(e == s1.objects.tables@[t2].entries@[i2]);
                            assert(s1.objects.tables@[t2].entries@[i2]
                                == s0.objects.tables@[t2].entries@[i2]);
                            assert(e.1.id < s0.objects.store@.len()
                                && s0.objects.store@[e.1.id as int].count
                                    < u64::MAX - 1
                                && s0.objects.store@[e.1.id as int].count >= 1
                                && s0.objects.store@[e.1.id as int].object
                                    is Some);
                            if e.1.id == gid {
                                assert(s0.objects.store@[gid as int].count
                                    < u64::MAX - 2);
                            }
                        }
                    }
                    assert forall|i3: int| 0 <= i3 < k.tasks@.len() implies
                        (#[trigger] k.tasks@[i3]).task.page_ctx.id
                                < k.objects.store@.len()
                            && k.objects.store@[k.tasks@[i3].task.page_ctx.id
                                as int].count < u64::MAX - 1
                            && k.objects.store@[k.tasks@[i3].task.page_ctx.id
                                as int].count >= 1 by {
                        assert(s0.tasks@[i3].task.page_ctx.id
                            < s0.objects.store@.len());
                        if k.tasks@[i3].task.page_ctx.id == gid {
                            assert(s0.objects.store@[gid as int].count
                                < u64::MAX - 2);
                        }
                    }
                }
            }
            Ok(h.into_u64())
        }
        Err(e) => Err(e),
    }
}

/// Spawns a new task in the address space `page_ctx` names, entering
/// user mode at `rip` with stack `rsp`.
fn create_task(k: &mut Kernel, page_ctx: Handle, rip: u64, rsp: u64) -> (r: SysResult<u64>)
    requires
        kernel_inv(*old(k)),
        old(k).current is Some,
        old(k).next_task_id < u64::MAX,
    ensures
        kernel_post(*final(k)),
        r is Ok ==> r->Ok_0 == OK,
        // an unknown handle is refused untouched, and only then
        r == SysResult::<u64>::Err(SysError::BadHandle)
            <==> !(old(k).objects.has_table(old(k).current->Some_0)
                && old(k).objects.tables@[
                    old(k).objects.table_of(old(k).current->Some_0)]
                    .has_handle(page_ctx.0)),
        r == SysResult::<u64>::Err(SysError::BadHandle) ==> *final(k) == *old(k),
        // a handle naming anything but an address space is refused
        r == SysResult::<u64>::Err(SysError::WrongObjectKind) ==> {
            let cur = old(k).current->Some_0;
            let te = old(k).objects.tables@[old(k).objects.table_of(cur)].entries@;
            &&& old(k).objects.has_table(cur)
            &&& exists|i: int| 0 <= i < te.len()
                && (#[trigger] te[i]).0 == page_ctx.0
                && te[i].1.id < old(k).objects.store@.len()
                && old(k).objects.store@[te[i].1.id as int].object is Some
                && !(old(k).objects.store@[te[i].1.id as int].object->Some_0.kind
                    is PageCtx)
        },
        // on success a fresh task holding the named space is scheduled
        r is Ok ==> {
            &&& final(k).tasks@.len() == old(k).tasks@.len() + 1
            &&& final(k).tasks@.last().task.id.0 == old(k).next_task_id
            &&& final(k).tasks@.last().state is Wake
            &&& !final(k).tasks@.last().cont.started
            &&& final(k).tasks@.last().cont.trap_frame
                == crate::interrupt::TrapFrame::new_spec(rip, rsp)
            &&& (forall|i: int| 0 <= i < old(k).tasks@.len()
                ==> final(k).tasks@[i] == old(k).tasks@[i])
            &&& final(k).next_task_id == old(k).next_task_id + 1
            &&& final(k).current == old(k).current
        },
{
    let cur = crate::task::current(k);
    let ghost s0 = *old(k);
    let obj = match object::get(&mut k.objects, cur, page_ctx) {
        Some(o) => o,
        None => {
            return Err(SysError::BadHandle);
        }
    };
    match Object::downcast_page_ctx(&k.objects, &obj) {
        Ok(_) => {}
        Err(e) => {
            proof {
                let te = s0.objects.tables@[s0.objects.table_of(cur)].entries@;
                let i0 = choose|i: int| 0 <= i < te.len()
                    && (#[trigger] te[i]) == (page_ctx.0, obj);
                assert(te[i0].0 == page_ctx.0 && te[i0].1.id == obj.id);
                assert(s0.objects.store@[obj.id as int].object
                    == k.objects.store@[obj.id as int].object);
            }
            drop_ref_checked(k, obj);
            return Err(e);
        }
    }
    let ghost s1 = *k;
    match crate::task::spawn(k, obj, rip, rsp) {
        Ok(id) => {
            proof {
                assert(s1.tasks == s0.tasks);
                assert(s1.next_task_id == s0.next_task_id);
                assert(s1.current == s0.current);
                assert(k.tasks@.last().task.id == id);
            }
            Ok(OK)
        }
        Err(_) => Err(SysError::MemoryExhausted),
    }
}

/// Tears the calling task down: its handle table is dropped whole
/// (each held reference given back, last units torn down) and its
/// scheduler slot is removed, state and continuation together.
fn exit(k: &mut Kernel, _status: u64) -> (r: SysResult<u64>)
    requires
        kernel_inv(*old(k)),
        old(k).current is Some,
    ensures
        kernel_post(*final(k)),
        !final(k).has_task(old(k).current->Some_0),
        !final(k).objects.has_table(old(k).current->Some_0),
        final(k).current is None,
        r == SysResult::<u64>::Ok(OK),
{
    let cur = crate::task::current(k);
    object::drop_all_for_task(&mut k.objects, &mut k.machine, cur);
    let found = crate::task::find_task_index(k, cur);
    match found {
        Some(f) => {
            let slot = k.tasks.remove(f);
            proof {
                assert forall|a: int, b: int| 0 <= a < b < k.tasks@.len() implies
                    (#[trigger] k.tasks@[a]).task.id.0
                        < (#[trigger] k.tasks@[b]).task.id.0 by {
                    if b < f {
                    } else if a < f {
                        assert(old(k).tasks@[a].task.id.0
                            < old(k).tasks@[b + 1].task.id.0);
                    } else {
                        assert(old(k).tasks@[a + 1].task.id.0
                            < old(k).tasks@[b + 1].task.id.0);
                    }
                }
            }
            let pr = slot.task.page_ctx;
            if pr.id < k.objects.store.len() {
                if k.objects.store[pr.id].count >= 1 {
                    drop_ref_checked(k, pr);
                }
            }
        }
        None => {}
    }
    k.current = None;
    proof {
        if k.has_task(cur) {
            let j = k.task_index(cur);
            assert(k.tasks@[j].task.id == cur);
            match found {
                Some(f) => {
                    if j < f {
                        assert(old(k).tasks@[j].task.id == cur);
                        assert(old(k).tasks@[j].task.id.0
                            < old(k).tasks@[f as int].task.id.0);
                        assert(old(k).tasks@[f as int].task.id == cur);
                    } else {
                        assert(old(k).tasks@[j + 1].task.id == cur);
                        assert(old(k).tasks@[f as int].task.id.0
                            < old(k).tasks@[j + 1].task.id.0);
                        assert(old(k).tasks@[f as int].task.id == cur);
                    }
                }
                None => {
                    assert(!old(k).has_task(cur));
                }
            }
        }
    }
    Ok(OK)
}

/// What a file syscall decided after validating its arguments.
pub enum SyscallOutcome {
    /// The syscall finished with this result.
    Done(SysResult<u64>),
    /// Read up to `buf.len` bytes into the user buffer, then complete
    /// the task with the byte count.
    ReadFile(ObjectRef, UserBuf),
    /// Write `buf.len` bytes from the user buffer, then complete the
    /// task with the byte count.
    WriteFile(ObjectRef, UserBuf),
    /// Resolve the path spelled in the user buffer, then complete the
    /// task with a handle or `NoFile`.
    OpenFile(UserBuf, u64),
}

/// Validates a ReadFile syscall: the handle must name a file and the
/// buffer must be writable user memory; the read itself is the
/// driver's step.
fn read_file(k: &mut Kernel, handle: Handle, buf: u64, nbyte: u64) -> (r: SyscallOutcome)
    requires
        kernel_inv(*old(k)),
        old(k).current is Some,
    ensures
        kernel_post(*final(k)),
        final(k).tasks == old(k).tasks,
        final(k).current == old(k).current,
        final(k).machine.cr3 == old(k).machine.cr3,
        // the driver is asked to fill exactly the validated span
        r is Done || r is ReadFile,
        r is ReadFile ==> r->ReadFile_1.addr == buf && r->ReadFile_1.len == nbyte,
        r == SyscallOutcome::Done(Err(SysError::BadHandle))
            ==> !(old(k).objects.has_table(old(k).current->Some_0)
                && old(k).objects.tables@[
                    old(k).objects.table_of(old(k).current->Some_0)]
                    .has_handle(handle.0)),
        // a handle naming anything but a file is refused, if and only
        // if it is one
        r == SyscallOutcome::Done(Err(SysError::WrongObjectKind)) <==> {
            let cur = old(k).current->Some_0;
            let te = old(k).objects.tables@[old(k).objects.table_of(cur)].entries@;
            &&& old(k).objects.has_table(cur)
            &&& exists|i: int| 0 <= i < te.len()
                && (#[trigger] te[i]).0 == handle.0
                && te[i].1.id < old(k).objects.store@.len()
                && !(old(k).objects.store@[te[i].1.id as int].object is Some
                    && old(k).objects.store@[te[i].1.id as int].object->Some_0.kind
                        is File)
        },
{
    let cur = crate::task::current(k);
    let ghost s0 = *old(k);
    let obj = match object::get(&mut k.objects, cur, handle) {
        Some(o) => o,
        None => {
            return SyscallOutcome::Done(Err(SysError::BadHandle));
        }
    };
    proof {
        // the handle names this object, and no other entry shares it
        let te = s0.objects.tables@[s0.objects.table_of(cur)].entries@;
        let i0 = choose|i: int| 0 <= i < te.len()
            && (#[trigger] te[i]) == (handle.0, obj);
        assert(te[i0].0 == handle.0 && te[i0].1.id == obj.id);
        assert forall|i: int| 0 <= i < te.len() && (#[trigger] te[i]).0 == handle.0
            implies te[i].1.id == obj.id by {
            assert(s0.objects.tables@[s0.objects.table_of(cur)].wf());
            if i < i0 {
                assert(te[i].0 < te[i0].0);
            } else if i0 < i {
                assert(te[i0].0 < te[i].0);
            }
        }
        assert(s0.objects.store@[obj.id as int].object
            == k.objects.store@[obj.id as int].object);
    }
    let is_file = match &k.objects.store[obj.id].object {
        Some(o) => match &o.kind {
            ObjectKind::File(_) => true,
            _ => false,
        },
        None => false,
    };
    if !is_file {
        drop_ref_checked(k, obj);
        return SyscallOutcome::Done(Err(SysError::WrongObjectKind));
    }
    let crit = critical::begin(&mut k.machine);
    proof {
        phys::lemma_wf_fields(old(k).machine, k.machine);
    }
    let ub = match user::borrow_slice(&k.machine, buf, nbyte, 1, &crit) {
        Ok(b) => b,
        Err(e) => {
            end_crit(&mut k.machine, crit);
            drop_ref_checked(k, obj);
            return SyscallOutcome::Done(Err(e));
        }
    };
    end_crit(&mut k.machine, crit);
    SyscallOutcome::ReadFile(obj, ub)
}

/// Validates a WriteFile syscall; the write itself is the driver's
/// step.
fn write_file(k: &mut Kernel, handle: Handle, buf: u64, nbyte: u64) -> (r: SyscallOutcome)
    requires
        kernel_inv(*old(k)),
        old(k).current is Some,
    ensures
        kernel_post(*final(k)),
        final(k).tasks == old(k).tasks,
        final(k).current == old(k).current,
        final(k).machine.cr3 == old(k).machine.cr3,
        // the driver is asked to drain exactly the validated span
        r is Done || r is WriteFile,
        r is WriteFile ==> r->WriteFile_1.addr == buf && r->WriteFile_1.len == nbyte,
        r == SyscallOutcome::Done(Err(SysError::BadHandle))
            ==> !(old(k).objects.has_table(old(k).current->Some_0)
                && old(k).objects.tables@[
                    old(k).objects.table_of(old(k).current->Some_0)]
                    .has_handle(handle.0)),
        // a handle naming anything but a file is refused, if and only
        // if it is one
        r == SyscallOutcome::Done(Err(SysError::WrongObjectKind)) <==> {
            let cur = old(k).current->Some_0;
            let te = old(k).objects.tables@[old(k).objects.table_of(cur)].entries@;
            &&& old(k).objects.has_table(cur)
            &&& exists|i: int| 0 <= i < te.len()
                && (#[trigger] te[i]).0 == handle.0
                && te[i].1.id < old(k).objects.store@.len()
                && !(old(k).objects.store@[te[i].1.id as int].object is Some
                    && old(k).objects.store@[te[i].1.id as int].object->Some_0.kind
                        is File)
        },
{
    let cur = crate::task::current(k);
    let ghost s0 = *old(k);
    let obj = match object::get(&mut k.objects, cur, handle) {
        Some(o) => o,
        None => {
            return SyscallOutcome::Done(Err(SysError::BadHandle));
        }
    };
    proof {
        // the handle names this object, and no other entry shares it
        let te = s0.objects.tables@[s0.objects.table_of(cur)].entries@;
        let i0 = choose|i: int| 0 <= i < te.len()
            && (#[trigger] te[i]) == (handle.0, obj);
        assert(te[i0].0 == handle.0 && te[i0].1.id == obj.id);
        assert forall|i: int| 0 <= i < te.len() && (#[trigger] te[i]).0 == handle.0
            implies te[i].1.id == obj.id by {
            assert(s0.objects.tables@[s0.objects.table_of(cur)].wf());
            if i < i0 {
                assert(te[i].0 < te[i0].0);
            } else if i0 < i {
                assert(te[i0].0 < te[i].0);
            }
        }
        assert(s0.objects.store@[obj.id as int].object
            == k.objects.store@[obj.id as int].object);
    }
    let is_file = match &k.objects.store[obj.id].object {
        Some(o) => match &o.kind {
            ObjectKind::File(_) => true,
            _ => false,
        },
        None => false,
    };
    if !is_file {
        drop_ref_checked(k, obj);
        return SyscallOutcome::Done(Err(SysError::WrongObjectKind));
    }
    let crit = critical::begin(&mut k.machine);
    proof {
        phys::lemma_wf_fields(old(k).machine, k.machine);
    }
    let ub = match user::borrow_slice(&k.machine, buf, nbyte, 1, &crit) {
        Ok(b) => b,
        Err(e) => {
            end_crit(&mut k.machine, crit);
            drop_ref_checked(k, obj);
            return SyscallOutcome::Done(Err(e));
        }
    };
    end_crit(&mut k.machine, crit);
    SyscallOutcome::WriteFile(obj, ub)
}

/// Validates an OpenFile syscall; resolving the path is the
/// filesystem's step.
fn open_file(k: &mut Kernel, path: u64, path_len: u64, flags: u64) -> (r: SyscallOutcome)
    requires
        kernel_inv(*old(k)),
        old(k).current is Some,
    ensures
        kernel_post(*final(k)),
        final(k).tasks == old(k).tasks,
        final(k).objects == old(k).objects,
        final(k).current == old(k).current,
        // the filesystem is asked to resolve exactly the validated
        // path bytes with the given flags
        r is Done || r is OpenFile,
        r is OpenFile ==> r->OpenFile_0.addr == path
            && r->OpenFile_0.len == path_len
            && r->OpenFile_1 == flags,
        r == SyscallOutcome::Done(Err(SysError::IllegalValue))
            ==> flags & 0xffff_ffff_ffff_fffe != 0,
{
    if flags & 0xffff_ffff_ffff_fffe != 0 {
        return SyscallOutcome::Done(Err(SysError::IllegalValue));
    }
    let crit = critical::begin(&mut k.machine);
    proof {
        phys::lemma_wf_fields(old(k).machine, k.machine);
    }
    let ub = match user::borrow_slice(&k.machine, path, path_len, 1, &crit) {
        Ok(b) => b,
        Err(e) => {
            end_crit(&mut k.machine, crit);
            return SyscallOutcome::Done(Err(e));
        }
    };
    end_crit(&mut k.machine, crit);
    SyscallOutcome::OpenFile(ub, flags)
}

/// Decodes the syscall selected by RAX and runs its handler; an
/// unknown number is `BadSyscall`.
pub fn dispatch0(k: &mut Kernel, regs: &crate::interrupt::Registers) -> (r: SyscallOutcome)
    requires
        kernel_inv(*old(k)),
        old(k).current is Some,
        old(k).next_task_id < u64::MAX,
    ensures
        kernel_post(*final(k)),
        regs.rax == 0 || regs.rax > 15
            ==> r == SyscallOutcome::Done(Err(SysError::BadSyscall))
                && *final(k) == *old(k),
        regs.rax == 7 ==> r == SyscallOutcome::Done(Ok(OK)) && *final(k) == *old(k),
        regs.rax == 11 ==> {
            &&& r == SyscallOutcome::Done(Ok(OK))
            &&& final(k).current is None
            &&& !final(k).has_task(old(k).current->Some_0)
            &&& !final(k).objects.has_table(old(k).current->Some_0)
        },
        // a parked file operation leaves the scheduler untouched
        !(r is Done) ==> final(k).current == old(k).current
            && final(k).tasks == old(k).tasks,
        // each known number runs its handler, whose contract carries
        // the operation's exact clauses; the memory effects are
        // restated here over the registers that carried the arguments
        regs.rax == 1 || regs.rax == 2 || regs.rax == 3 || regs.rax == 4
                || regs.rax == 5 || regs.rax == 6 || regs.rax == 8 || regs.rax == 9
                || regs.rax == 10 || regs.rax == 12
            ==> r is Done,
        regs.rax == 1 && r == SyscallOutcome::Done(Ok(OK)) ==>
            (PageRange { base_page: regs.rdi, page_count: regs.rsi }).wf()
            && user::range_mapped(final(k).machine,
                PageRange { base_page: regs.rdi, page_count: regs.rsi },
                PageFlags { bits: 0x5u64 | (regs.rdx & 0x2) }),
        regs.rax == 2 && r == SyscallOutcome::Done(Ok(OK)) ==>
            (PageRange { base_page: regs.rdi, page_count: regs.rsi }).wf()
            && user::range_unmapped(final(k).machine,
                PageRange { base_page: regs.rdi, page_count: regs.rsi }),
        regs.rax == 3 && r == SyscallOutcome::Done(Ok(OK)) ==>
            (PageRange { base_page: regs.rdi, page_count: regs.rsi }).wf()
            && user::range_mapped(final(k).machine,
                PageRange { base_page: regs.rdi, page_count: regs.rsi },
                PageFlags { bits: 0x5u64 | (regs.rdx & 0x2) }),
        regs.rax == 12 && r == SyscallOutcome::Done(Ok(OK)) ==>
            (PageRange { base_page: regs.rdi, page_count: regs.rdx }).wf()
            && user::range_mapped(final(k).machine,
                PageRange { base_page: regs.rdi, page_count: regs.rdx },
                PageFlags { bits: 0x5u64 | (regs.rcx & 0x2) }),
        regs.rax == 13 ==> (r is Done || r is ReadFile),
        regs.rax == 13 && r is ReadFile
            ==> r->ReadFile_1.addr == regs.rsi && r->ReadFile_1.len == regs.rdx,
        regs.rax == 14 ==> (r is Done || r is WriteFile),
        regs.rax == 14 && r is WriteFile
            ==> r->WriteFile_1.addr == regs.rsi && r->WriteFile_1.len == regs.rdx,
        regs.rax == 15 ==> (r is Done || r is OpenFile),
        regs.rax == 15 && r is OpenFile
            ==> r->OpenFile_0.addr == regs.rdi && r->OpenFile_0.len == regs.rsi
                && r->OpenFile_1 == regs.rdx,
{
    let n = regs.rax;
    if n == 1 {
        SyscallOutcome::Done(alloc_page(k, regs.rdi, regs.rsi, regs.rdx))
    } else if n == 2 {
        SyscallOutcome::Done(release_page(k, regs.rdi, regs.rsi))
    } else if n == 3 {
        SyscallOutcome::Done(modify_page(k, regs.rdi, regs.rsi, regs.rdx))
    } else if n == 4 {
        match args::handle_from_reg(regs.rdi) {
            Ok(h) => SyscallOutcome::Done(release_handle(k, h)),
            Err(e) => SyscallOutcome::Done(Err(e)),
        }
    } else if n == 5 {
        match args::handle_from_reg(regs.rdi) {
            Ok(h) => SyscallOutcome::Done(clone_handle(k, h)),
            Err(e) => SyscallOutcome::Done(Err(e)),
        }
    } else if n == 6 {
        SyscallOutcome::Done(create_page_context(k))
    } else if n == 7 {
        SyscallOutcome::Done(debug(k, regs))
    } else if n == 8 {
        match args::handle_from_reg(regs.rdi) {
            Ok(h) => SyscallOutcome::Done(set_page_context(k, h)),
            Err(e) => SyscallOutcome::Done(Err(e)),
        }
    } else if n == 9 {
        SyscallOutcome::Done(get_page_context(k))
    } else if n == 10 {
        match args::handle_from_reg(regs.rdi) {
            Ok(h) => SyscallOutcome::Done(create_task(k, h, regs.rsi, regs.rdx)),
            Err(e) => SyscallOutcome::Done(Err(e)),
        }
    } else if n == 11 {
        SyscallOutcome::Done(exit(k, regs.rdi))
    } else if n == 12 {
        SyscallOutcome::Done(map_physical_memory(k, regs.rdi, regs.rsi, regs.rdx,
            regs.rcx))
    } else if n == 13 {
        match args::handle_from_reg(regs.rdi) {
            Ok(h) => read_file(k, h, regs.rsi, regs.rdx),
            Err(e) => SyscallOutcome::Done(Err(e)),
        }
    } else if n == 14 {
        match args::handle_from_reg(regs.rdi) {
            Ok(h) => write_file(k, h, regs.rsi, regs.rdx),
            Err(e) => SyscallOutcome::Done(Err(e)),
        }
    } else if n == 15 {
        open_file(k, regs.rdi, regs.rsi, regs.rdx)
    } else {
        SyscallOutcome::Done(Err(SysError::BadSyscall))
    }
}


/// One poll of a task's kernel continuation, as the scheduler runs it:
/// a task entering by syscall gets its operation dispatched and, when
/// it finishes at once, returns to user mode with the encoded result
/// in RAX; a freshly woken task posts its initial frame.
pub fn poll_task(k: &mut Kernel, i: usize) -> (r: Option<IoRequest>)
    requires
        kernel_inv(*old(k)),
        old(k).current is Some,
        i < old(k).tasks@.len(),
    ensures
        kernel_post(*final(k)),
        // a syscall that finishes at once leaves the task ready for
        // user mode with its encoded result in RAX
        old(k).tasks@[i as int].state is SyscallEntry
                && final(k).has_task(old(k).tasks@[i as int].task.id)
                && r is None ==> {
            let f = old(k).tasks@[i as int].state->SyscallEntry_0;
            let i2 = final(k).task_index(old(k).tasks@[i as int].task.id);
            exists|res: SysResult<u64>|
                (res is Ok ==> res->Ok_0 <= crate::interface::MAX_SYS_RESULT)
                && final(k).tasks@[i2].state == crate::task::TaskState::User(
                    crate::interrupt::with_rax(f,
                        #[trigger] crate::interface::encode_result_spec(res)))
        },
        // a syscall that needs a driver parks the task on its frame
        old(k).tasks@[i as int].state is SyscallEntry
                && final(k).has_task(old(k).tasks@[i as int].task.id)
                && r is Some ==> {
            let f = old(k).tasks@[i as int].state->SyscallEntry_0;
            let i2 = final(k).task_index(old(k).tasks@[i as int].task.id);
            &&& final(k).tasks@[i2].state is Sleep
            &&& final(k).tasks@[i2].cont.pending_frame == Some(f)
        },
        // the debug syscall comes back at once as the exact success
        // word, with nothing else of the kernel touched
        old(k).tasks@[i as int].state is SyscallEntry
                && old(k).tasks@[i as int].state->SyscallEntry_0.regs.rax == 7 ==> {
            let f = old(k).tasks@[i as int].state->SyscallEntry_0;
            &&& r is None
            &&& final(k).has_task(old(k).tasks@[i as int].task.id)
            &&& final(k).tasks@[final(k).task_index(old(k).tasks@[i as int].task.id)]
                .state == crate::task::TaskState::User(crate::interrupt::with_rax(f,
                    crate::interface::encode_result_spec(Ok(OK))))
        },
        // an unknown number comes back as the exact BadSyscall word
        old(k).tasks@[i as int].state is SyscallEntry
                && {
                    let f = old(k).tasks@[i as int].state->SyscallEntry_0;
                    f.regs.rax == 0 || f.regs.rax > 15
                } ==> {
            let f = old(k).tasks@[i as int].state->SyscallEntry_0;
            &&& r is None
            &&& final(k).has_task(old(k).tasks@[i as int].task.id)
            &&& final(k).tasks@[final(k).task_index(old(k).tasks@[i as int].task.id)]
                .state == crate::task::TaskState::User(crate::interrupt::with_rax(f,
                    crate::interface::error_code_spec(SysError::BadSyscall)))
        },
        // a freshly woken task posts its initial frame
        old(k).tasks@[i as int].state is Wake
                && !old(k).tasks@[i as int].cont.started ==> {
            &&& r is None
            &&& final(k).machine == old(k).machine
            &&& final(k).objects == old(k).objects
            &&& final(k).tasks@.len() == old(k).tasks@.len()
            &&& final(k).tasks@[i as int].state == crate::task::TaskState::User(
                old(k).tasks@[i as int].cont.trap_frame)
            &&& final(k).tasks@[i as int].task == old(k).tasks@[i as int].task
            &&& (forall|j: int| 0 <= j < old(k).tasks@.len() && j != i
                ==> (#[trigger] final(k).tasks@[j]).state == old(k).tasks@[j].state)
        },
        // only a syscall that needs a driver parks, and the task
        // survives the parking
        r is Some ==> old(k).tasks@[i as int].state is SyscallEntry
            && final(k).has_task(old(k).tasks@[i as int].task.id)
            && final(k).current == old(k).current,
        // nothing else is touched when there is no kernel work
        old(k).tasks@[i as int].state is Wake && old(k).tasks@[i as int].cont.started
            ==> *final(k) == *old(k) && r is None,
        old(k).tasks@[i as int].state is User || old(k).tasks@[i as int].state is Sleep
            ==> *final(k) == *old(k) && r is None,
{
    let state_kind: u8 = match &k.tasks[i].state {
        crate::task::TaskState::SyscallEntry(_) => 0,
        crate::task::TaskState::Wake => 1,
        _ => 2,
    };
    if state_kind == 0 {
        let id = k.tasks[i].task.id;
        let frame = match &k.tasks[i].state {
            crate::task::TaskState::SyscallEntry(f) => *f,
            _ => {
                return None;
            }
        };
        let out = dispatch0(k, &frame.regs);
        // the task may have torn itself down; find it again
        let i2 = match crate::task::find_task_index(k, id) {
            Some(i2) => i2,
            None => {
                return None;
            }
        };
        match out {
            SyscallOutcome::Done(res) => {
                let mut f2 = frame;
                let word = match res {
                    Ok(v) => {
                        if v <= crate::interface::MAX_SYS_RESULT {
                            crate::interface::encode_result(Ok(v))
                        } else {
                            crate::interface::encode_result(Err(SysError::IllegalValue))
                        }
                    }
                    Err(e) => crate::interface::encode_result(Err(e)),
                };
                f2.regs.rax = word;
                proof {
                    let adjusted: SysResult<u64> = match res {
                        Ok(v) => if v <= crate::interface::MAX_SYS_RESULT {
                            Ok(v)
                        } else {
                            Err(SysError::IllegalValue)
                        },
                        Err(e) => Err(e),
                    };
                    assert(word == crate::interface::encode_result_spec(adjusted));
                    assert(f2 == crate::interrupt::with_rax(frame, word));
                }
                set_state(k, i2, crate::task::TaskState::User(f2));
                proof {
                    crate::task::lemma_task_index_pub(*k, id, i2 as int);
                }
                None
            }
            SyscallOutcome::ReadFile(obj, buf) => {
                park(k, i2, frame);
                proof {
                    crate::task::lemma_task_index_pub(*k, id, i2 as int);
                }
                Some(IoRequest::ReadFile { file: obj, buf })
            }
            SyscallOutcome::WriteFile(obj, buf) => {
                park(k, i2, frame);
                proof {
                    crate::task::lemma_task_index_pub(*k, id, i2 as int);
                }
                Some(IoRequest::WriteFile { file: obj, buf })
            }
            SyscallOutcome::OpenFile(path, flags) => {
                park(k, i2, frame);
                proof {
                    crate::task::lemma_task_index_pub(*k, id, i2 as int);
                }
                Some(IoRequest::OpenFile { path, flags })
            }
        }
    } else if state_kind == 1 {
        let started = k.tasks[i].cont.started;
        if !started {
            let f0 = k.tasks[i].cont.trap_frame;
            set_started(k, i);
            set_state(k, i, crate::task::TaskState::User(f0));
        }
        None
    } else {
        None
    }
}

/// An I/O step a file syscall parked its task on.
pub enum IoRequest {
    /// Read up to `buf.len` bytes into the user buffer.
    ReadFile { file: ObjectRef, buf: UserBuf },
    /// Write `buf.len` bytes from the user buffer.
    WriteFile { file: ObjectRef, buf: UserBuf },
    /// Resolve the path spelled in the user buffer.
    OpenFile { path: UserBuf, flags: u64 },
}

/// Parks task `i` on an I/O step: it sleeps holding the syscall frame
/// until the driver completes it.
fn park(k: &mut Kernel, i: usize, frame: crate::interrupt::TrapFrame)
    requires
        old(k).tasks_wf(),
        i < old(k).tasks@.len(),
    ensures
        final(k).tasks_wf(),
        final(k).machine == old(k).machine,
        final(k).objects == old(k).objects,
        final(k).tasks@.len() == old(k).tasks@.len(),
        final(k).next_task_id == old(k).next_task_id,
        final(k).current == old(k).current,
        final(k).tasks@[i as int].state is Sleep,
        final(k).tasks@[i as int].cont.pending_frame == Some(frame),
        final(k).tasks@[i as int].task == old(k).tasks@[i as int].task,
        forall|j: int| 0 <= j < old(k).tasks@.len() && j != i
            ==> final(k).tasks@[j] == old(k).tasks@[j],
{
    let started = k.tasks[i].cont.started;
    let tf = k.tasks[i].cont.trap_frame;
    k.tasks[i].state = crate::task::TaskState::Sleep;
    k.tasks[i].cont = crate::task::TaskCont {
        trap_frame: tf,
        started,
        pending_frame: Some(frame),
    };
    proof {
        assert forall|a: int, b: int| 0 <= a < b < k.tasks@.len() implies
            (#[trigger] k.tasks@[a]).task.id.0 < (#[trigger] k.tasks@[b]).task.id.0 by {
            assert(old(k).tasks@[a].task.id.0 < old(k).tasks@[b].task.id.0);
        }
    }
}

fn set_state(k: &mut Kernel, i: usize, st: crate::task::TaskState)
    requires
        old(k).tasks_wf(),
        i < old(k).tasks@.len(),
    ensures
        final(k).tasks_wf(),
        final(k).machine == old(k).machine,
        final(k).objects == old(k).objects,
        final(k).current == old(k).current,
        final(k).tasks@.len() == old(k).tasks@.len(),
        final(k).next_task_id == old(k).next_task_id,
        final(k).tasks@[i as int].state == st,
        final(k).tasks@[i as int].task == old(k).tasks@[i as int].task,
        final(k).tasks@[i as int].cont == old(k).tasks@[i as int].cont,
        forall|j: int| 0 <= j < old(k).tasks@.len() && j != i
            ==> final(k).tasks@[j] == old(k).tasks@[j],
{
    k.tasks[i].state = st;
    proof {
        assert forall|a: int, b: int| 0 <= a < b < k.tasks@.len() implies
            (#[trigger] k.tasks@[a]).task.id.0 < (#[trigger] k.tasks@[b]).task.id.0 by {
            assert(old(k).tasks@[a].task.id.0 < old(k).tasks@[b].task.id.0);
        }
    }
}

fn set_started(k: &mut Kernel, i: usize)
    requires
        old(k).tasks_wf(),
        i < old(k).tasks@.len(),
    ensures
        final(k).tasks_wf(),
        final(k).machine == old(k).machine,
        final(k).objects == old(k).objects,
        final(k).tasks@.len() == old(k).tasks@.len(),
        final(k).next_task_id == old(k).next_task_id,
        final(k).tasks@[i as int].cont.started,
        final(k).tasks@[i as int].task == old(k).tasks@[i as int].task,
        final(k).tasks@[i as int].state == old(k).tasks@[i as int].state,
        final(k).tasks@[i as int].cont.trap_frame
            == old(k).tasks@[i as int].cont.trap_frame,
        final(k).tasks@[i as int].cont.pending_frame
            == old(k).tasks@[i as int].cont.pending_frame,
        forall|j: int| 0 <= j < old(k).tasks@.len() && j != i
            ==> final(k).tasks@[j] == old(k).tasks@[j],
{
    let tf = k.tasks[i].cont.trap_frame;
    let pf = k.tasks[i].cont.pending_frame;
    k.tasks[i].cont = crate::task::TaskCont {
        trap_frame: tf,
        started: true,
        pending_frame: pf,
    };
    proof {
        assert forall|a: int, b: int| 0 <= a < b < k.tasks@.len() implies
            (#[trigger] k.tasks@[a]).task.id.0 < (#[trigger] k.tasks@[b]).task.id.0 by {
            assert(old(k).tasks@[a].task.id.0 < old(k).tasks@[b].task.id.0);
        }
    }
}

/// Hands a parked task its I/O outcome: the result register of the
/// held syscall frame receives the encoded word and the task becomes
/// ready to resume user mode. An unknown or unparked task is left
/// alone.
pub fn complete_io(k: &mut Kernel, task_id: crate::task::TaskId, result: SysResult<u64>)
    requires
        old(k).tasks_wf(),
    ensures
        final(k).tasks_wf(),
        final(k).machine == old(k).machine,
        final(k).objects == old(k).objects,
        final(k).current == old(k).current,
        final(k).next_task_id == old(k).next_task_id,
        old(k).has_task(task_id)
                && old(k).tasks@[old(k).task_index(task_id)].cont.pending_frame
                    is Some ==> {
            let i = old(k).task_index(task_id);
            let f = old(k).tasks@[i].cont.pending_frame->Some_0;
            let res2: SysResult<u64> = if result is Ok
                    && result->Ok_0 <= crate::interface::MAX_SYS_RESULT {
                result
            } else if result is Ok {
                Err(SysError::IllegalValue)
            } else {
                result
            };
            &&& final(k).tasks@.len() == old(k).tasks@.len()
            &&& final(k).tasks@[i].state == crate::task::TaskState::User(
                crate::interrupt::with_rax(f,
                    crate::interface::encode_result_spec(res2)))
            &&& final(k).tasks@[i].cont.pending_frame is None
            &&& final(k).tasks@[i].task == old(k).tasks@[i].task
            &&& (forall|j: int| 0 <= j < old(k).tasks@.len() && j != i
                ==> (#[trigger] final(k).tasks@[j]) == old(k).tasks@[j])
        },
        !(old(k).has_task(task_id)
                && old(k).tasks@[old(k).task_index(task_id)].cont.pending_frame
                    is Some)
            ==> *final(k) == *old(k),
{
    let i = match crate::task::find_task_index(k, task_id) {
        Some(i) => i,
        None => {
            return;
        }
    };
    let pf = k.tasks[i].cont.pending_frame;
    let mut frame = match pf {
        Some(f) => f,
        None => {
            return;
        }
    };
    let word = match result {
        Ok(v) => {
            if v <= crate::interface::MAX_SYS_RESULT {
                crate::interface::encode_result(Ok(v))
            } else {
                crate::interface::encode_result(Err(SysError::IllegalValue))
            }
        }
        Err(e) => crate::interface::encode_result(Err(e)),
    };
    frame.regs.rax = word;
    let started = k.tasks[i].cont.started;
    let tf = k.tasks[i].cont.trap_frame;
    k.tasks[i].cont = crate::task::TaskCont {
        trap_frame: tf,
        started,
        pending_frame: None,
    };
    set_state(k, i, crate::task::TaskState::User(frame));
}

/// The kernel invariant cares only about the machine, the objects,
/// the id allocator, and the identity of each task slot; state
/// transitions keep it.
proof fn lemma_kernel_inv_frame(k1: Kernel, k2: Kernel)
    requires
        kernel_inv(k1),
        k2.machine.phys_wf(),
        k2.machine.temp is None,
        k2.machine.rc_enabled,
        cr3_ok(k2.machine),
        k2.objects == k1.objects,
        k2.next_task_id == k1.next_task_id,
        k2.tasks_wf(),
        k2.tasks@.len() == k1.tasks@.len(),
        forall|j: int| 0 <= j < k1.tasks@.len()
            ==> (#[trigger] k2.tasks@[j]).task == k1.tasks@[j].task,
    ensures
        kernel_inv(k2),
{
    assert forall|j: int| 0 <= j < k2.tasks@.len() implies
        (#[trigger] k2.tasks@[j]).task.page_ctx.id < k2.objects.store@.len()
            && k2.objects.store@[k2.tasks@[j].task.page_ctx.id as int].count
                < u64::MAX - 1
            && k2.objects.store@[k2.tasks@[j].task.page_ctx.id as int].count >= 1 by {
        assert(k1.tasks@[j].task.page_ctx.id < k1.objects.store@.len());
    }
}

/// One scheduling pass, run inside the interrupt handler before the
/// return to user mode: save the incoming frame into the task it
/// interrupted, pick the next runnable task round-robin, poll its
/// continuation if it has kernel work, and resume the first task that
/// is ready for user mode. `Idle` asks to be entered again on the
/// next tick.
/// After a lone entered syscall was polled, the task is gone or
/// holds its encoded result, and the later selection steps keep the
/// slots as the poll left them.
proof fn lone_outcome(
    k0: Kernel,
    kb: Kernel,
    kp: Kernel,
    kf: Kernel,
    io: Option<IoRequest>,
)
    requires
        kf.tasks_wf(),
        kf.tasks == kp.tasks,
        kb.tasks@.len() >= 1,
        k0.tasks@.len() == 1 && k0.tasks@[0].state is SyscallEntry
                && k0.current == Some(k0.tasks@[0].task.id) ==> {
            &&& kb.tasks@[0].state == k0.tasks@[0].state
            &&& kb.tasks@[0].task == k0.tasks@[0].task
            &&& io is None
            &&& (kb.tasks@[0].state is SyscallEntry
                    && kp.has_task(kb.tasks@[0].task.id)
                    && io is None ==> {
                let f = kb.tasks@[0].state->SyscallEntry_0;
                let i2 = kp.task_index(kb.tasks@[0].task.id);
                exists|res: SysResult<u64>|
                    (res is Ok ==> res->Ok_0 <= crate::interface::MAX_SYS_RESULT)
                    && kp.tasks@[i2].state == crate::task::TaskState::User(
                        crate::interrupt::with_rax(f,
                            #[trigger] crate::interface::encode_result_spec(res)))
            })
        },
    ensures
        k0.tasks@.len() == 1 && k0.tasks@[0].state is SyscallEntry
                && k0.current == Some(k0.tasks@[0].task.id) ==> {
            let id0 = k0.tasks@[0].task.id;
            let f0 = k0.tasks@[0].state->SyscallEntry_0;
            ||| !kf.has_task(id0)
            ||| exists|res: SysResult<u64>|
                (res is Ok ==> res->Ok_0 <= crate::interface::MAX_SYS_RESULT)
                && kf.has_task(id0)
                && kf.tasks@[kf.task_index(id0)].state
                    == crate::task::TaskState::User(crate::interrupt::with_rax(f0,
                        #[trigger] crate::interface::encode_result_spec(res)))
        },
{
    if k0.tasks@.len() == 1 && k0.tasks@[0].state is SyscallEntry
        && k0.current == Some(k0.tasks@[0].task.id) {
        let id0 = k0.tasks@[0].task.id;
        let f0 = k0.tasks@[0].state->SyscallEntry_0;
        if kf.has_task(id0) {
            let j = kf.task_index(id0);
            assert(kf.tasks@[j].task.id == id0);
            assert(kp.has_task(id0)) by {
                assert(kp.tasks@[j].task.id == id0);
            }
            assert(kp.task_index(id0) == kf.task_index(id0)) by {
                assert(kp.tasks@ == kf.tasks@);
            }
            let res = choose|res: SysResult<u64>|
                (res is Ok ==> res->Ok_0 <= crate::interface::MAX_SYS_RESULT)
                && kp.tasks@[kp.task_index(id0)].state
                    == crate::task::TaskState::User(crate::interrupt::with_rax(f0,
                        #[trigger] crate::interface::encode_result_spec(res)));
            assert(kf.tasks@[kf.task_index(id0)].state
                == crate::task::TaskState::User(crate::interrupt::with_rax(f0,
                    crate::interface::encode_result_spec(res))));
        }
    }
}

pub fn switch(k: &mut Kernel, frame: &mut crate::interrupt::TrapFrame)
    -> (r: crate::task::Resume)
    requires
        kernel_inv(*old(k)),
    ensures
        kernel_post(*final(k)),
        // the resumed task really is scheduled, current, and in the
        // state whose frame the iret will restore
        r is User ==> {
            &&& final(k).current == Some(r->User_0)
            &&& *final(frame) == r->User_1
            &&& final(k).has_task(r->User_0)
            &&& final(k).tasks@[final(k).task_index(r->User_0)].state
                == crate::task::TaskState::User(r->User_1)
        },
        // with every task ready for user mode, the pick is exactly
        // the round-robin successor of the previous task
        old(k).tasks@.len() > 0
                && (forall|j: int| 0 <= j < old(k).tasks@.len()
                    ==> (#[trigger] old(k).tasks@[j]).state is User) ==> {
            &&& r is User
            &&& crate::task::rr_pick(*final(k),
                (if old(k).current is Some { old(k).current->Some_0.0 } else { 0u64 }),
                final(k).task_index(r->User_0))
        },
        // an I/O resumption really parked the picked task: it sleeps
        // on its syscall frame until the driver completes it
        r is Io ==> {
            let tid = r->Io_0;
            &&& final(k).current == Some(tid)
            &&& final(k).has_task(tid)
            &&& final(k).tasks@[final(k).task_index(tid)].state is Sleep
            &&& final(k).tasks@[final(k).task_index(tid)].cont.pending_frame is Some
        },
        // nothing runnable means nothing resumed
        (forall|j: int| 0 <= j < old(k).tasks@.len()
                ==> !crate::task::runnable(*old(k), j))
            ==> r is Idle && final(k).tasks@ == old(k).tasks@,
        // a lone freshly spawned task is booted in this very pass,
        // entering user mode on its initial frame
        old(k).tasks@.len() == 1
                && old(k).tasks@[0].state is Wake
                && !old(k).tasks@[0].cont.started
            ==> r == crate::task::Resume::User(old(k).tasks@[0].task.id,
                old(k).tasks@[0].cont.trap_frame),
        // a lone entered syscall is dispatched in this very pass: the
        // task parks on I/O, tears itself down, or ends up holding
        // its encoded result
        old(k).tasks@.len() == 1
                && old(k).tasks@[0].state is SyscallEntry
                && old(k).current == Some(old(k).tasks@[0].task.id) ==> {
            let id0 = old(k).tasks@[0].task.id;
            let f0 = old(k).tasks@[0].state->SyscallEntry_0;
            ||| (r is Io && r->Io_0 == id0)
            ||| !final(k).has_task(id0)
            ||| exists|res: SysResult<u64>|
                (res is Ok ==> res->Ok_0 <= crate::interface::MAX_SYS_RESULT)
                && final(k).has_task(id0)
                && final(k).tasks@[final(k).task_index(id0)].state
                    == crate::task::TaskState::User(crate::interrupt::with_rax(f0,
                        #[trigger] crate::interface::encode_result_spec(res)))
        },
{
    let ghost lone = old(k).tasks@.len() == 1
        && old(k).tasks@[0].state is SyscallEntry
        && old(k).current == Some(old(k).tasks@[0].task.id);
    let ghost lone_wake = old(k).tasks@.len() == 1
        && old(k).tasks@[0].state is Wake
        && !old(k).tasks@[0].cont.started;
    let previous = crate::task::save_current_task(k, frame);
    let ghost k1 = *k;
    proof {
        // saving a frame never changes who is runnable
        assert forall|j: int| 0 <= j < k1.tasks@.len() implies
            crate::task::runnable(k1, j) == crate::task::runnable(*old(k), j) by {
            if old(k).current is Some && old(k).has_task(old(k).current->Some_0) {
                let ci = old(k).task_index(old(k).current->Some_0);
                if j != ci {
                    assert(k1.tasks@[j].state == old(k).tasks@[j].state);
                }
            }
        }
    }
    let i = match crate::task::find_next_work_item(k, previous) {
        Some(i) => i,
        None => {
            proof {
                assert(k.tasks@ =~= old(k).tasks@) by {
                    if old(k).current is Some
                        && old(k).has_task(old(k).current->Some_0) {
                        let ci = old(k).task_index(old(k).current->Some_0);
                        assert(!crate::task::runnable(k1, ci));
                        assert(!(k1.tasks@[ci].state is User));
                        assert(forall|j: int|
                            0 <= j < old(k).tasks@.len() && j != ci
                            ==> (#[trigger] k1.tasks@[j]).state
                                == old(k).tasks@[j].state);
                        assert forall|j: int| 0 <= j < old(k).tasks@.len() implies
                            k1.tasks@[j] == old(k).tasks@[j] by {}
                    }
                }
                // nothing was runnable, so the all-ready hypothesis
                // cannot hold
                if old(k).tasks@.len() > 0
                    && (forall|j: int| 0 <= j < old(k).tasks@.len()
                        ==> (#[trigger] old(k).tasks@[j]).state is User) {
                    assert(crate::task::runnable(*old(k), 0));
                    assert(crate::task::runnable(k1, 0));
                    assert(false);
                }
                if lone || lone_wake {
                    assert(crate::task::runnable(k1, 0)) by {
                        assert(k1.tasks@[0].state == old(k).tasks@[0].state);
                    }
                    assert(false);
                }
            }
            return crate::task::Resume::Idle;
        }
    };
    let id = k.tasks[i].task.id;
    k.current = Some(id);
    proof {
        assert(k.tasks_wf());
    }
    let ghost k_sel = *k;
    switch_address_space(k, i);
    let user_frame = match &k.tasks[i].state {
        crate::task::TaskState::User(f) => Some(*f),
        _ => None,
    };
    match user_frame {
        Some(f) => {
            *frame = f;
            proof {
                crate::task::lemma_task_index_pub(*k, id, i as int);
                // the pick was round-robin over states that have not
                // changed since the selection
                let prev_id: u64 = if old(k).current is Some {
                    old(k).current->Some_0.0
                } else {
                    0u64
                };
                assert(previous == old(k).current);
                assert(crate::task::rr_pick(k1, prev_id, i as int));
                assert(k_sel.tasks == k1.tasks);
                assert(k.tasks == k_sel.tasks);
                assert(k.tasks@ == k1.tasks@);
                assert forall|j: int| 0 <= j < k.tasks@.len() implies
                    crate::task::runnable(*k, j)
                        == crate::task::runnable(k1, j) by {
                    assert(k.tasks@[j].state == k1.tasks@[j].state);
                }
                assert(crate::task::rr_pick(*k, prev_id, i as int)) by {
                    if k.tasks@[i as int].task.id.0 > prev_id {
                        assert forall|j: int| 0 <= j < i implies
                            !(crate::task::runnable(*k, j)
                                && (#[trigger] k.tasks@[j]).task.id.0 > prev_id) by {
                            assert(!(crate::task::runnable(k1, j)
                                && k1.tasks@[j].task.id.0 > prev_id));
                        }
                    } else {
                        assert forall|j: int| 0 <= j < k.tasks@.len() implies
                            !(crate::task::runnable(*k, j)
                                && (#[trigger] k.tasks@[j]).task.id.0 > prev_id) by {
                            assert(!(crate::task::runnable(k1, j)
                                && k1.tasks@[j].task.id.0 > prev_id));
                        }
                        assert forall|j: int| 0 <= j < i implies
                            !crate::task::runnable(*k, j) by {
                            assert(!crate::task::runnable(k1, j));
                        }
                    }
                }
            }
            proof {
                if lone {
                    assert(k_sel.tasks@[0].state is SyscallEntry) by {
                        assert(k1.tasks@[0].state == old(k).tasks@[0].state);
                    }
                    assert(false);
                }
                if lone_wake {
                    assert(k_sel.tasks@[0].state is Wake) by {
                        assert(k1.tasks@[0].state == old(k).tasks@[0].state);
                    }
                    assert(false);
                }
            }
            return crate::task::Resume::User(id, f);
        }
        None => {}
    }
    proof {
        // a task that is not in the User state refutes the all-User
        // hypothesis: the interrupted task stayed User through the
        // save, and selection does not change states
        if old(k).tasks@.len() > 0
            && (forall|j: int| 0 <= j < old(k).tasks@.len()
                ==> (#[trigger] old(k).tasks@[j]).state is User) {
            assert(k1.tasks@[i as int].state is User) by {
                if old(k).current is Some
                    && old(k).has_task(old(k).current->Some_0) {
                    let ci = old(k).task_index(old(k).current->Some_0);
                    assert(old(k).tasks@[ci].state is User);
                }
            }
            assert(false);
        }
    }
    proof {
        lemma_kernel_inv_frame(*old(k), *k);
    }
    let ghost kb = *k;
    let io = poll_task(k, i);
    let ghost kp = *k;
    proof {
        if lone || lone_wake {
            assert(i == 0);
            assert(kb.tasks@[0].state == old(k).tasks@[0].state);
            assert(kb.tasks@[0].task == old(k).tasks@[0].task);
            assert(kb.tasks@[0].cont == old(k).tasks@[0].cont);
            assert(id == old(k).tasks@[0].task.id);
        }
        if lone_wake {
            // a freshly woken task posts its frame and never parks
            assert(io is None);
            assert(kp.tasks@[0].state == crate::task::TaskState::User(
                old(k).tasks@[0].cont.trap_frame));
            assert(kp.tasks@.len() == 1) by {
                assert(kp.tasks@.len() == kb.tasks@.len());
            }
        }
    }
    match io {
        Some(req) => {
            return crate::task::Resume::Io(id, req);
        }
        None => {}
    }
    // one more selection: a completed syscall usually leaves the task
    // ready for user mode
    let i2 = match crate::task::find_next_work_item(k, Some(id)) {
        Some(i2) => i2,
        None => {
            proof {
                lone_outcome(*old(k), kb, kp, *k, io);
                if lone_wake {
                    assert(crate::task::runnable(kp, 0));
                    assert(false);
                }
            }
            return crate::task::Resume::Idle;
        }
    };
    let id2 = k.tasks[i2].task.id;
    k.current = Some(id2);
    proof {
        assert(k.tasks_wf());
    }
    let user_frame2 = match &k.tasks[i2].state {
        crate::task::TaskState::User(f) => Some(*f),
        _ => None,
    };
    match user_frame2 {
        Some(f) => {
            *frame = f;
            proof {
                crate::task::lemma_task_index_pub(*k, id2, i2 as int);
                lone_outcome(*old(k), kb, kp, *k, io);
                if lone_wake {
                    assert(i2 == 0);
                    assert(id2 == old(k).tasks@[0].task.id);
                    assert(f == old(k).tasks@[0].cont.trap_frame);
                }
            }
            crate::task::Resume::User(id2, f)
        }
        None => {
            proof {
                lone_outcome(*old(k), kb, kp, *k, io);
                if lone_wake {
                    assert(k.tasks@[0].state is User);
                    assert(false);
                }
            }
            crate::task::Resume::Idle
        }
    }
}

/// Loads the chosen task's address space: its PML4 goes to CR3 with a
/// fresh count unit, and the frame that was there gives its unit
/// back. A slot whose counts cannot be trusted is left in the old
/// address space rather than corrupting the allocator.
fn switch_address_space(k: &mut Kernel, i: usize)
    requires
        old(k).machine.phys_wf(),
        old(k).machine.temp is None,
        old(k).machine.rc_enabled,
        old(k).tasks_wf(),
        old(k).objects.wf(),
        i < old(k).tasks@.len(),
        phys::page_aligned(old(k).machine.cr3),
        old(k).machine.cr3 != 0,
    ensures
        final(k).machine.phys_wf(),
        final(k).machine.temp is None,
        final(k).machine.rc_enabled,
        final(k).tasks_wf(),
        final(k).objects.wf(),
        final(k).tasks == old(k).tasks,
        final(k).current == old(k).current,
        final(k).next_task_id == old(k).next_task_id,
        final(k).objects == old(k).objects,
        cr3_ok(old(k).machine) ==> cr3_ok(final(k).machine),
{
    let rid = k.tasks[i].task.page_ctx.id;
    if rid >= k.objects.store.len() {
        return;
    }
    let pml4_raw = match &k.objects.store[rid].object {
        Some(obj) => match &obj.kind {
            ObjectKind::PageCtx(ctx) => ctx.pml4.raw,
            _ => {
                return;
            }
        },
        None => {
            return;
        }
    };
    if pml4_raw == 0 || pml4_raw & 0xfff != 0 {
        return;
    }
    if pml4_raw == k.machine.cr3 {
        return;
    }
    let countable = match phys::ref_count(&k.machine, pml4_raw) {
        None => false,
        Some(c) => c >= 1 && c < u64::MAX - 1,
    };
    if !countable {
        return;
    }
    if !k.machine.mem.contains(pml4_raw) {
        return;
    }
    if !object::can_release(&k.machine, k.machine.cr3) {
        return;
    }
    let ghost m0 = k.machine;
    proof {
        if k.machine.rc_enabled && k.machine.managed(pml4_raw) {
            if k.machine.bump_avail(pml4_raw) {
                assert(k.machine.rc_of(pml4_raw) == Some(0u64));
            }
            if k.machine.free_list@.contains(pml4_raw) {
                let kk = choose|kk: int| 0 <= kk < k.machine.free_list@.len()
                    && k.machine.free_list@[kk] == pml4_raw;
                assert(k.machine.free_frame_wf(kk));
            }
        }
    }
    let holder = phys::Phys::new(&mut k.machine, phys::RawPhys(pml4_raw));
    let ghost m1 = k.machine;
    let releasable = object::can_release(&k.machine, k.machine.cr3);
    if !releasable {
        // stay in the old address space rather than free a frame the
        // counts cannot vouch for; the taken unit is parked with CR3
        return;
    }
    let old_root = k.machine.cr3;
    page::set_ctx(&mut k.machine, PageCtx { pml4: holder });
    proof {
        let fin = k.machine;
        if cr3_ok(m0) {
            // the new root keeps at least its two units, so it is
            // live and can give one back
            assert(fin.cr3 == pml4_raw);
            assert(phys::page_aligned(fin.cr3) && fin.cr3 != 0);
            phys::lemma_regions_congruent(m0, m1);
            phys::lemma_bump_congruent(m0, m1);
            assert(fin.rc_same_except(m1, old_root));
            if fin.managed(pml4_raw) {
                assert(m0.managed(pml4_raw));
                assert(m1.rc_of(pml4_raw)->Some_0 >= 2);
                assert(fin.rc_of(pml4_raw) == m1.rc_of(pml4_raw));
                assert(fin.rc_of(pml4_raw)->Some_0 >= 1);
            }
            assert(fin.mem.has_frame(pml4_raw)) by {
                if !(m1.rc_enabled && m1.managed(old_root)
                        && m1.rc_of(old_root) == Some(1u64)) {
                    assert(fin.mem == m1.mem);
                } else {
                    assert(fin.mem.same_except(m1.mem, old_root));
                }
            }
            assert(!fin.free_list@.contains(fin.cr3)) by {
                if fin.free_list@.contains(fin.cr3) {
                    let kk = choose|kk: int| 0 <= kk < fin.free_list@.len()
                        && fin.free_list@[kk] == fin.cr3;
                    assert(fin.free_frame_wf(kk));
                    assert(fin.rc_of(fin.cr3) == Some(0u64));
                    assert(fin.managed(fin.cr3)) by {
                        phys::lemma_regions_congruent(m1, fin);
                    }
                }
            }
            assert(!fin.bump_avail(fin.cr3));
            assert(page::leaf_release_ok(fin, fin.cr3)) by {
                if fin.rc_enabled && fin.managed(fin.cr3) {
                    phys::lemma_regions_congruent(m1, fin);
                    assert(m1.managed(pml4_raw));
                }
            }
            if fin.rc_enabled && fin.managed(fin.cr3) {
                phys::lemma_regions_congruent(m1, fin);
                assert(fin.rc_of(fin.cr3)->Some_0 < u64::MAX);
            }
        }
    }
}

/// Entry of the syscall vector: the running task moves from `User` to
/// `SyscallEntry` with the incoming frame, and the scheduler runs.
pub fn dispatch_syscall(k: &mut Kernel, frame: &mut crate::interrupt::TrapFrame)
    -> (r: crate::task::Resume)
    requires
        kernel_inv(*old(k)),
        old(k).current is Some,
    ensures
        kernel_post(*final(k)),
        // a syscall from anything but a running user task is refused
        // without effect
        !(old(k).has_task(old(k).current->Some_0)
                && old(k).tasks@[old(k).task_index(old(k).current->Some_0)]
                    .state is User)
            ==> r is Idle && *final(k) == *old(k),
        // whoever is resumed is current, scheduled, and holds the
        // frame the iret will restore
        r is User ==> {
            &&& final(k).current == Some(r->User_0)
            &&& *final(frame) == r->User_1
            &&& final(k).has_task(r->User_0)
            &&& final(k).tasks@[final(k).task_index(r->User_0)].state
                == crate::task::TaskState::User(r->User_1)
        },
        // a lone running task's syscall is handled in this very pass:
        // the task parks on I/O, tears itself down, or ends up
        // holding its encoded result in RAX
        old(k).tasks@.len() == 1
                && old(k).has_task(old(k).current->Some_0)
                && old(k).tasks@[old(k).task_index(old(k).current->Some_0)]
                    .state is User ==> {
            let cur = old(k).current->Some_0;
            ||| (r is Io && r->Io_0 == cur)
            ||| !final(k).has_task(cur)
            ||| exists|res: SysResult<u64>|
                (res is Ok ==> res->Ok_0 <= crate::interface::MAX_SYS_RESULT)
                && final(k).has_task(cur)
                && final(k).tasks@[final(k).task_index(cur)].state
                    == crate::task::TaskState::User(crate::interrupt::with_rax(
                        *old(frame),
                        #[trigger] crate::interface::encode_result_spec(res)))
        },
{
    let cur = crate::task::current(k);
    let i = match crate::task::find_task_index(k, cur) {
        Some(i) => i,
        None => {
            return crate::task::Resume::Idle;
        }
    };
    let is_user = match &k.tasks[i].state {
        crate::task::TaskState::User(_) => true,
        _ => false,
    };
    if !is_user {
        // a syscall from kernel context is refused
        return crate::task::Resume::Idle;
    }
    set_state(k, i, crate::task::TaskState::SyscallEntry(*frame));
    proof {
        lemma_kernel_inv_frame(*old(k), *k);
    }
    let ghost ks = *k;
    let r = switch(k, frame);
    proof {
        if old(k).tasks@.len() == 1 && old(k).has_task(cur)
            && old(k).tasks@[old(k).task_index(cur)].state is User {
            assert(old(k).task_index(cur) == i as int);
            assert(i == 0);
            assert(ks.tasks@[0].state
                == crate::task::TaskState::SyscallEntry(*old(frame)));
            assert(ks.tasks@[0].task == old(k).tasks@[0].task);
            assert(ks.current == Some(ks.tasks@[0].task.id)) by {
                assert(old(k).tasks@[0].task.id == cur);
            }
        }
    }
    r
}

/// Boots the scheduler: invents an empty frame and runs the first
/// scheduling pass.
pub fn start(k: &mut Kernel) -> (r: crate::task::Resume)
    requires
        kernel_inv(*old(k)),
        old(k).current is None,
    ensures
        kernel_post(*final(k)),
        r is User ==> {
            &&& final(k).current == Some(r->User_0)
            &&& final(k).has_task(r->User_0)
            &&& final(k).tasks@[final(k).task_index(r->User_0)].state
                == crate::task::TaskState::User(r->User_1)
        },
        // with every spawned task ready for user mode, the lowest id
        // runs first
        old(k).tasks@.len() > 0
                && (forall|j: int| 0 <= j < old(k).tasks@.len()
                    ==> (#[trigger] old(k).tasks@[j]).state is User)
            ==> r is User && crate::task::rr_pick(*final(k), 0,
                final(k).task_index(r->User_0)),
        // a lone freshly spawned task is booted at once, entering
        // user mode on its initial frame
        old(k).tasks@.len() == 1
                && old(k).tasks@[0].state is Wake
                && !old(k).tasks@[0].cont.started
            ==> r == crate::task::Resume::User(old(k).tasks@[0].task.id,
                old(k).tasks@[0].cont.trap_frame),
        (forall|j: int| 0 <= j < old(k).tasks@.len()
                ==> !crate::task::runnable(*old(k), j))
            ==> r is Idle,
{
    let mut frame = crate::interrupt::TrapFrame::new(0, 0);
    switch(k, &mut frame)
}


/// Law: asking for a handle to the current address space and then
/// switching to that very handle is a no-op for everything user code
/// can observe — CR3, memory contents, the free list and every
/// reference count come back unchanged.
pub fn get_set_page_context_round_trip(k: &mut Kernel) -> (r: Option<u64>)
    requires
        kernel_inv(*old(k)),
        old(k).current is Some,
        old(k).has_task(old(k).current->Some_0),
        ({
            let pid = old(k).tasks@[old(k).task_index(old(k).current->Some_0)]
                .task.page_ctx.id;
            &&& old(k).objects.store@[pid as int].object is Some
            &&& old(k).objects.store@[pid as int].object->Some_0.kind is PageCtx
            &&& old(k).objects.store@[pid as int].object->Some_0.kind
                ->PageCtx_0.pml4.raw == old(k).machine.cr3
            &&& old(k).objects.store@[pid as int].count < u64::MAX - 2
        }),
    ensures
        final(k).machine.phys_wf(),
        r is Some ==> {
            &&& final(k).machine.cr3 == old(k).machine.cr3
            &&& final(k).machine.mem == old(k).machine.mem
            &&& final(k).machine.free_list == old(k).machine.free_list
            &&& final(k).machine.free_head == old(k).machine.free_head
            &&& (forall|g: u64| phys::page_aligned(g)
                ==> (#[trigger] final(k).machine.rc_of(g))
                    == old(k).machine.rc_of(g))
        },
{
    let ghost cur0 = old(k).current->Some_0;
    let ghost pid = old(k).tasks@[old(k).task_index(cur0)].task.page_ctx.id;
    let h = match get_page_context(k) {
        Ok(h) => h,
        Err(_) => {
            return None;
        }
    };
    let ghost mid = *k;
    proof {
        // the fresh handle names the current address space
        assert(handle_names_cr3(mid, Handle(h))) by {
            let t = mid.objects.table_of(cur0);
            let i = choose|i: int|
                0 <= i < mid.objects.tables@[t].entries@.len()
                && (#[trigger] mid.objects.tables@[t].entries@[i]).0 == h
                && mid.objects.tables@[t].entries@[i].1.id == pid;
            assert(mid.objects.store@[pid as int].object
                == old(k).objects.store@[pid as int].object);
            assert(mid.machine.cr3 == old(k).machine.cr3);
            assert(h != 0);
        }
        // the invariant survives the handle insertion
        assert(kernel_inv(mid)) by {
            assert(mid.machine == old(k).machine);
            assert(mid.tasks == old(k).tasks);
            assert(mid.next_task_id == old(k).next_task_id);
            assert(mid.tasks_wf()) by {
                assert forall|i: int, j: int|
                    0 <= i < j < mid.tasks@.len() implies
                    (#[trigger] mid.tasks@[i]).task.id.0
                        < (#[trigger] mid.tasks@[j]).task.id.0 by {
                    assert(old(k).tasks@[i].task.id.0 < old(k).tasks@[j].task.id.0);
                }
                assert forall|i: int| 0 <= i < mid.tasks@.len() implies
                    (#[trigger] mid.tasks@[i]).task.id.0 < mid.next_task_id by {
                    assert(old(k).tasks@[i].task.id.0 < old(k).next_task_id);
                }
            }
            assert(objects_ok(mid.objects));
            assert(tasks_objects_ok(mid));
        }
    }
    let res = set_page_context(k, Handle(h));
    match res {
        Ok(_) => {
            proof {
                assert(mid.machine == old(k).machine);
            }
            Some(h)
        }
        Err(_) => None,
    }
}

} // verus!
