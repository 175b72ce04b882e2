//! The recursive page tables and the temporary mapping window.
//!
//! The temp window is one fixed kernel-virtual page through which an
//! arbitrary physical frame can be read and written inside a critical
//! section. The window is exclusive: installing it while occupied is a
//! kernel bug, so the operations here demand it free and leave it free.

use vstd::prelude::*;
use crate::critical;
use crate::critical::Critical;
use crate::machine::{Machine, zero_page};
use crate::mem::MemoryExhausted;
use crate::mem::phys;
use crate::mem::phys::{Phys, RawPhys, page_aligned};
use crate::mem::phys::{lemma_bump_congruent, lemma_rc_congruent, lemma_regions_congruent};
use crate::mem::phys::{lemma_avail_congruent, lemma_wf_fields};

verus! {

/// Bit 0 of a page-table entry: the mapping is present.
pub const PAGE_PRESENT: u64 = 0x001;

/// Bit 1 of a page-table entry: writable.
pub const PAGE_WRITE: u64 = 0x002;

/// Bit 2 of a page-table entry: reachable from user mode.
pub const PAGE_USER: u64 = 0x004;

/// The low-twelve flag bits of a page-table entry.
#[derive(Clone, Copy, PartialEq, Eq, Structural, Debug)]
pub struct PageFlags {
    pub bits: u64,
}

impl PageFlags {
    /// No flags.
    pub fn empty() -> (r: PageFlags)
        ensures
            r.bits == 0,
    {
        PageFlags { bits: 0 }
    }

    /// Accepts only words whose bits all lie in the defined set.
    pub fn from_bits(bits: u64) -> (r: Option<PageFlags>)
        ensures
            bits & 0xffff_ffff_ffff_fff8 == 0 ==> r == Some(PageFlags { bits }),
            bits & 0xffff_ffff_ffff_fff8 != 0 ==> r is None,
    {
        if bits & 0xffff_ffff_ffff_fff8 == 0 {
            Some(PageFlags { bits })
        } else {
            None
        }
    }

    pub fn bits(self) -> (r: u64)
        ensures
            r == self.bits,
    {
        self.bits
    }

    /// Whether every flag of `other` is set here.
    pub fn contains(self, other: PageFlags) -> (r: bool)
        ensures
            r == (self.bits & other.bits == other.bits),
    {
        self.bits & other.bits == other.bits
    }

    /// Sets every flag of `other`.
    pub fn insert(&mut self, other: PageFlags)
        ensures
            final(self).bits == old(self).bits | other.bits,
    {
        self.bits = self.bits | other.bits;
    }
}

/// One 64-bit page-table entry: address bits above the low twelve,
/// flags below.
#[derive(Clone, Copy, PartialEq, Eq, Structural, Debug)]
pub struct PmlEntry(pub u64);

/// The physical address an entry points at.
pub open spec fn entry_addr(e: u64) -> u64 {
    e & 0xffff_ffff_ffff_f000
}

impl PmlEntry {
    /// The entry's target frame, or `None` when its address bits are
    /// all clear.
    pub fn raw_phys(&self) -> (r: Option<RawPhys>)
        ensures
            entry_addr(self.0) != 0 ==> r == Some(RawPhys(entry_addr(self.0))),
            entry_addr(self.0) == 0 ==> r is None,
    {
        let raw = self.0 & 0xffff_ffff_ffff_f000;
        if raw != 0 {
            Some(RawPhys(raw))
        } else {
            None
        }
    }

    /// The entry's flag bits.
    pub fn flags(&self) -> (r: PageFlags)
        ensures
            r.bits == self.0 & 0xfff,
    {
        PageFlags { bits: self.0 & 0xfff }
    }

    /// Replaces the flag bits, keeping the address; bits outside the
    /// low twelve are discarded, so a stray word can never smear into
    /// the address.
    pub fn set_flags(&mut self, flags: PageFlags)
        ensures
            final(self).0 == (old(self).0 & 0xffff_ffff_ffff_f000)
                | (flags.bits & 0xfff),
    {
        let new_entry = (self.0 & 0xffff_ffff_ffff_f000) | (flags.bits & 0xfff);
        self.0 = new_entry;
    }
}

/// Index of `v`'s entry in the PML4.
pub open spec fn l4_index(v: u64) -> int {
    ((v >> 39) & 0x1ff) as int
}

/// Index of `v`'s entry in its PDPT.
pub open spec fn l3_index(v: u64) -> int {
    ((v >> 30) & 0x1ff) as int
}

/// Index of `v`'s entry in its PD.
pub open spec fn l2_index(v: u64) -> int {
    ((v >> 21) & 0x1ff) as int
}

/// Index of `v`'s entry in its PT.
pub open spec fn l1_index(v: u64) -> int {
    ((v >> 12) & 0x1ff) as int
}

impl Machine {
    /// Step of the walk: the frame entry `e` hands the walk to, if the
    /// entry is written and its target has been touched.
    pub open spec fn walk_step(self, t: u64, idx: int) -> Option<u64> {
        if self.mem.has_frame(t) {
            let e = self.mem.frame(t)[idx];
            if e != 0 && self.mem.has_frame(entry_addr(e)) {
                Some(entry_addr(e))
            } else {
                None
            }
        } else {
            None
        }
    }

    /// The PDPT frame of `v`'s walk.
    pub open spec fn l3_table(self, v: u64) -> Option<u64> {
        self.walk_step(self.cr3, l4_index(v))
    }

    /// The PD frame of `v`'s walk.
    pub open spec fn l2_table(self, v: u64) -> Option<u64> {
        match self.l3_table(v) {
            Some(t) => self.walk_step(t, l3_index(v)),
            None => None,
        }
    }

    /// The PT frame of `v`'s walk.
    pub open spec fn l1_table(self, v: u64) -> Option<u64> {
        match self.l2_table(v) {
            Some(t) => self.walk_step(t, l2_index(v)),
            None => None,
        }
    }

    /// The leaf entry of `v`, if every level of the walk is present
    /// and the leaf word is written.
    pub open spec fn leaf_entry(self, v: u64) -> Option<u64> {
        match self.l1_table(v) {
            Some(t) => {
                let w = self.mem.frame(t)[l1_index(v)];
                if w != 0 {
                    Some(w)
                } else {
                    None
                }
            }
            None => None,
        }
    }

    /// Whether `f` is one of the table frames `v`'s walk goes through.
    pub open spec fn in_path(self, v: u64, f: u64) -> bool {
        ||| f == self.cr3
        ||| self.l3_table(v) == Some(f)
        ||| self.l2_table(v) == Some(f)
        ||| self.l1_table(v) == Some(f)
    }

    /// A table frame the paging structures may write through: touched,
    /// and not handed back to the allocator.
    pub open spec fn table_frame_live(self, t: u64) -> bool {
        &&& self.mem.has_frame(t)
        &&& !self.free_list@.contains(t)
        &&& !self.bump_avail(t)
    }

    /// Every table frame of `v`'s walk is live.
    pub open spec fn path_live(self, v: u64) -> bool {
        &&& self.table_frame_live(self.cr3)
        &&& self.l3_table(v) is Some ==> self.table_frame_live(self.l3_table(v)->Some_0)
        &&& self.l2_table(v) is Some ==> self.table_frame_live(self.l2_table(v)->Some_0)
        &&& self.l1_table(v) is Some ==> self.table_frame_live(self.l1_table(v)->Some_0)
    }

    /// The table frames of `v`'s walk are pairwise distinct.
    pub open spec fn path_distinct(self, v: u64) -> bool {
        &&& self.l3_table(v) is Some ==> self.l3_table(v)->Some_0 != self.cr3
        &&& self.l2_table(v) is Some ==> self.l2_table(v)->Some_0 != self.cr3
            && self.l2_table(v) != self.l3_table(v)
        &&& self.l1_table(v) is Some ==> self.l1_table(v)->Some_0 != self.cr3
            && self.l1_table(v) != self.l3_table(v)
            && self.l1_table(v) != self.l2_table(v)
    }
}

/// Two machines with the same memory and root translate every
/// address alike.
pub proof fn lemma_walk_congruent(m1: Machine, m2: Machine)
    requires
        m1.mem == m2.mem,
        m1.cr3 == m2.cr3,
    ensures
        forall|va: u64|
            #![trigger m1.leaf_entry(va)]
            #![trigger m2.leaf_entry(va)]
            m1.leaf_entry(va) == m2.leaf_entry(va),
        forall|va: u64|
            #![trigger m1.l1_table(va)]
            #![trigger m2.l1_table(va)]
            m1.l1_table(va) == m2.l1_table(va),
{
    assert forall|va: u64|
        #![trigger m1.l1_table(va)]
        #![trigger m2.l1_table(va)]
        m1.l1_table(va) == m2.l1_table(va) by {
        assert(m1.l3_table(va) == m2.l3_table(va));
        assert(m1.l2_table(va) == m2.l2_table(va));
    }
    assert forall|va: u64|
        #![trigger m1.leaf_entry(va)]
        #![trigger m2.leaf_entry(va)]
        m1.leaf_entry(va) == m2.leaf_entry(va) by {
        assert(m1.l3_table(va) == m2.l3_table(va));
        assert(m1.l2_table(va) == m2.l2_table(va));
        assert(m1.l1_table(va) == m2.l1_table(va));
    }
}

/// A virtual address is absent from the current address space.
#[derive(Clone, Copy, PartialEq, Eq, Structural, Debug)]
pub struct NotMapped;

/// Faults map can report.
#[derive(Clone, Copy, PartialEq, Eq, Structural, Debug)]
pub enum MapError {
    AlreadyMapped,
    CannotAllocatePageTable,
}

/// Computes `v`'s entry index at the given shift.
fn pml_index(v: u64, shift: u64) -> (r: usize)
    requires
        shift == 39 || shift == 30 || shift == 21 || shift == 12,
    ensures
        r == ((v >> shift) & 0x1ff) as usize,
        r < 512,
        r as int == ((v >> shift) & 0x1ff) as int,
{
    proof {
        assert(forall|x: u64, s: u64| ((x >> s) & 0x1ff) < 512) by (bit_vector);
    }
    ((v >> shift) & 0x1ff) as usize
}

/// Finds `v`'s PT frame and leaf index, demanding every walk level and
/// a written leaf word, as the callers of the leaf entry do. Reads
/// only; interrupts stay as they are.
pub(crate) fn checked_pml1_entry(m: &Machine, virt: u64)
    -> (r: Result<(u64, usize), NotMapped>)
    requires
        m.mem.wf(),
    ensures
        match r {
            Ok((t, idx)) => m.l1_table(virt) == Some(t)
                && idx < 512
                && idx as int == l1_index(virt)
                && m.mem.has_frame(t)
                && m.leaf_entry(virt) == Some(m.mem.frame(t)[idx as int])
                && m.mem.frame(t)[idx as int] != 0,
            Err(NotMapped) => m.leaf_entry(virt) is None,
        },
{
    if !m.mem.contains(m.cr3) {
        return Err(NotMapped);
    }
    let i4 = pml_index(virt, 39);
    let e4 = m.mem.read_word(m.cr3, i4);
    if e4 == 0 {
        return Err(NotMapped);
    }
    let t3 = e4 & 0xffff_ffff_ffff_f000;
    if !m.mem.contains(t3) {
        return Err(NotMapped);
    }
    let i3 = pml_index(virt, 30);
    let e3 = m.mem.read_word(t3, i3);
    if e3 == 0 {
        return Err(NotMapped);
    }
    let t2 = e3 & 0xffff_ffff_ffff_f000;
    if !m.mem.contains(t2) {
        return Err(NotMapped);
    }
    let i2 = pml_index(virt, 21);
    let e2 = m.mem.read_word(t2, i2);
    if e2 == 0 {
        return Err(NotMapped);
    }
    let t1 = e2 & 0xffff_ffff_ffff_f000;
    if !m.mem.contains(t1) {
        return Err(NotMapped);
    }
    let i1 = pml_index(virt, 12);
    let e1 = m.mem.read_word(t1, i1);
    if e1 == 0 {
        return Err(NotMapped);
    }
    Ok((t1, i1))
}

/// Whether `virt` is mapped in the current address space; never
/// faults.
pub fn is_mapped(m: &Machine, virt: u64) -> (r: bool)
    requires
        m.mem.wf(),
    ensures
        r == (m.leaf_entry(virt) is Some),
{
    match checked_pml1_entry(m, virt) {
        Ok(_) => true,
        Err(_) => false,
    }
}

/// The leaf entry of `virt`, read under a critical section.
pub fn entry(m: &Machine, virt: u64, _crit: &Critical) -> (r: Result<PmlEntry, NotMapped>)
    requires
        m.mem.wf(),
    ensures
        match r {
            Ok(e) => m.leaf_entry(virt) == Some(e.0),
            Err(NotMapped) => m.leaf_entry(virt) is None,
        },
{
    let (t, idx) = match checked_pml1_entry(m, virt) {
        Ok(p) => p,
        Err(e) => {
            return Err(e);
        }
    };
    Ok(PmlEntry(m.mem.read_word(t, idx)))
}


/// Installs `phys` in the temp window. The window must be free, and
/// only a critical section may hold it.
pub fn temp_map(m: &mut Machine, phys: RawPhys, _crit: &Critical)
    requires
        old(m).temp is None,
    ensures
        *final(m) == (Machine { temp: Some(phys.0), ..*old(m) }),
{
    m.temp = Some(phys.0);
}

/// Clears the temp window.
pub fn temp_unmap(m: &mut Machine, _crit: &Critical)
    ensures
        *final(m) == (Machine { temp: None, ..*old(m) }),
{
    m.temp = None;
}

/// Reads one word of the frame mapped in the temp window.
pub fn temp_read_word(m: &Machine, idx: usize) -> (w: u64)
    requires
        m.temp is Some,
        m.mem.wf(),
        m.mem.has_frame(m.temp->Some_0),
        idx < 512,
    ensures
        w == m.mem.frame(m.temp->Some_0)[idx as int],
{
    let f = m.temp.unwrap();
    m.mem.read_word(f, idx)
}

/// Writes one word of the frame mapped in the temp window.
pub fn temp_write_word(m: &mut Machine, idx: usize, w: u64)
    requires
        old(m).temp is Some,
        old(m).mem.wf(),
        old(m).mem.has_frame(old(m).temp->Some_0),
        idx < 512,
    ensures
        final(m).mem.wf(),
        final(m).mem.has_frame(old(m).temp->Some_0),
        final(m).mem.frame(old(m).temp->Some_0)
            == old(m).mem.frame(old(m).temp->Some_0).update(idx as int, w),
        final(m).mem.same_except(old(m).mem, old(m).temp->Some_0),
        *final(m) == (Machine { mem: final(m).mem, ..*old(m) }),
{
    let f = m.temp.unwrap();
    m.mem.write_word(f, idx, w);
}

/// Zero-fills the frame mapped in the temp window.
pub fn temp_zero(m: &mut Machine)
    requires
        old(m).temp is Some,
        old(m).mem.wf(),
        old(m).mem.has_frame(old(m).temp->Some_0),
    ensures
        final(m).mem.wf(),
        final(m).mem.has_frame(old(m).temp->Some_0),
        final(m).mem.frame(old(m).temp->Some_0) == zero_page(),
        final(m).mem.same_except(old(m).mem, old(m).temp->Some_0),
        *final(m) == (Machine { mem: final(m).mem, ..*old(m) }),
{
    let f = m.temp.unwrap();
    m.mem.zero_frame(f);
}

/// First touch of a bump-allocated frame: brings it into memory
/// zero-filled, through the temp window.
pub fn temp_init_zero(m: &mut Machine)
    requires
        old(m).temp is Some,
        old(m).mem.wf(),
        !old(m).mem.has_frame(old(m).temp->Some_0),
        old(m).temp->Some_0 & 0xfff == 0,
        old(m).temp->Some_0 != 0,
    ensures
        final(m).mem.wf(),
        final(m).mem.has_frame(old(m).temp->Some_0),
        final(m).mem.frame(old(m).temp->Some_0) == zero_page(),
        final(m).mem.same_except(old(m).mem, old(m).temp->Some_0),
        *final(m) == (Machine { mem: final(m).mem, ..*old(m) }),
{
    let f = m.temp.unwrap();
    m.mem.insert_zero_frame(f);
}


impl Machine {
    /// A written entry of a touched table leads to a touched frame.
    pub open spec fn walk_entry_sound(self, t: u64, idx: int) -> bool {
        self.mem.has_frame(t) && self.mem.frame(t)[idx] != 0
            ==> self.mem.has_frame(entry_addr(self.mem.frame(t)[idx]))
    }

    /// Every written entry along `v`'s walk leads to a touched frame.
    pub open spec fn path_resolved(self, v: u64) -> bool {
        &&& self.walk_entry_sound(self.cr3, l4_index(v))
        &&& self.l3_table(v) is Some
            ==> self.walk_entry_sound(self.l3_table(v)->Some_0, l3_index(v))
        &&& self.l2_table(v) is Some
            ==> self.walk_entry_sound(self.l2_table(v)->Some_0, l2_index(v))
    }
}

/// Writes one word of a live table frame, keeping the allocator's
/// invariant: the frame is touched and not on the free list, so no
/// free-list link can be clobbered.
fn write_table_word(m: &mut Machine, t: u64, idx: usize, w: u64)
    requires
        old(m).phys_wf(),
        old(m).mem.has_frame(t),
        !old(m).free_list@.contains(t),
        idx < 512,
    ensures
        final(m).phys_wf(),
        final(m).mem.has_frame(t),
        final(m).mem.frame(t) == old(m).mem.frame(t).update(idx as int, w),
        final(m).mem.same_except(old(m).mem, t),
        *final(m) == (Machine { mem: final(m).mem, ..*old(m) }),
{
    m.mem.write_word(t, idx, w);
    proof {
        let s0 = *old(m);
        lemma_regions_congruent(s0, *m);
        lemma_bump_congruent(s0, *m);
        lemma_rc_congruent(s0, *m);
        assert forall|j: int| 0 <= j < m.regions_seq().len() implies
            #[trigger] m.region_wf(j) by {
            assert(s0.region_wf(j));
        }
        assert forall|k: int| 0 <= k < m.free_list@.len() implies
            #[trigger] m.free_frame_wf(k) by {
            assert(s0.free_frame_wf(k));
            let fr = s0.free_list@[k];
            assert(fr != t);
            assert(m.mem.frame(fr) == s0.mem.frame(fr));
            assert(m.rc_of(fr) == s0.rc_of(fr));
        }
        assert forall|g: u64| #[trigger] m.bump_avail(g) implies
            !m.mem.has_frame(g) by {
            assert(s0.bump_avail(g));
            assert(g != t);
        }
        if m.rc_enabled {
            assert forall|g: u64| #[trigger] m.bump_avail(g) implies
                m.rc_of(g) == Some(0u64) by {
                assert(s0.bump_avail(g));
                assert(m.rc_of(g) == s0.rc_of(g));
            }
        }
    }
}

/// What holds after [`ensure_table`] finds or installs a child table.
pub open spec fn ensure_table_ok(pre: Machine, post: Machine, t: u64, idx: int, child: u64)
    -> bool
{
    &&& post.walk_step(t, idx) == Some(child)
    &&& post.mem.has_frame(child)
    &&& !post.free_list@.contains(child)
    &&& !post.bump_avail(child)
    &&& child != 0 && child & 0xfff == 0
    &&& (pre.mem.frame(t)[idx] != 0 ==> post == pre
        && child == entry_addr(pre.mem.frame(t)[idx]))
    &&& (pre.mem.frame(t)[idx] == 0 ==> {
        &&& pre.avail(child)
        &&& post.mem.same_except2(pre.mem, t, child)
        &&& post.mem.frame(child) == zero_page()
        &&& post.mem.frame(t) == pre.mem.frame(t).update(idx, child | 0x7)
        &&& post.cr3 == pre.cr3
        &&& post.iflag == pre.iflag
        &&& post.temp == pre.temp
        &&& post.regions == pre.regions
        &&& post.rc_enabled == pre.rc_enabled
        &&& post.kv_next == pre.kv_next
        &&& post.kv_free == pre.kv_free
        &&& post.heap == pre.heap
        &&& forall|g: u64| g != child && page_aligned(g)
            ==> (#[trigger] post.avail(g)) == pre.avail(g)
        &&& !post.avail(child)
    })
}

/// Zero-fills a live data frame in place, keeping the allocator's
/// invariant: the frame is touched and not on the free list, so no
/// free-list link can be clobbered.
pub(crate) fn zero_live_frame(m: &mut Machine, f: u64)
    requires
        old(m).phys_wf(),
        old(m).mem.has_frame(f),
        !old(m).free_list@.contains(f),
    ensures
        final(m).phys_wf(),
        final(m).mem.has_frame(f),
        final(m).mem.frame(f) == zero_page(),
        final(m).mem.same_except(old(m).mem, f),
        *final(m) == (Machine { mem: final(m).mem, ..*old(m) }),
{
    m.mem.zero_frame(f);
    proof {
        let s0 = *old(m);
        lemma_regions_congruent(s0, *m);
        lemma_bump_congruent(s0, *m);
        lemma_rc_congruent(s0, *m);
        assert forall|j: int| 0 <= j < m.regions_seq().len() implies
            #[trigger] m.region_wf(j) by {
            assert(s0.region_wf(j));
        }
        assert forall|kk: int| 0 <= kk < m.free_list@.len() implies
            #[trigger] m.free_frame_wf(kk) by {
            assert(s0.free_frame_wf(kk));
            let fr = s0.free_list@[kk];
            assert(fr != f);
            assert(m.mem.frame(fr) == s0.mem.frame(fr));
            assert(m.rc_of(fr) == s0.rc_of(fr));
        }
        assert forall|g: u64| #[trigger] m.bump_avail(g) implies
            !m.mem.has_frame(g) by {
            assert(s0.bump_avail(g));
            assert(g != f);
        }
        if m.rc_enabled {
            assert forall|g: u64| #[trigger] m.bump_avail(g) implies
                m.rc_of(g) == Some(0u64) by {
                assert(s0.bump_avail(g));
                assert(m.rc_of(g) == s0.rc_of(g));
            }
        }
    }
}

/// Zero-fills words `[w0, w1)` of a live data frame in place, keeping
/// the allocator's invariant: the frame is touched and not on the
/// free list, so no free-list link can be clobbered.
pub(crate) fn zero_frame_words(m: &mut Machine, f: u64, w0: usize, w1: usize)
    requires
        old(m).phys_wf(),
        old(m).mem.has_frame(f),
        !old(m).free_list@.contains(f),
        w0 <= w1,
        w1 <= 512,
    ensures
        final(m).phys_wf(),
        final(m).mem.has_frame(f),
        forall|j: int| w0 <= j < w1 ==> final(m).mem.frame(f)[j] == 0,
        forall|j: int| 0 <= j < 512 && !(w0 <= j < w1)
            ==> final(m).mem.frame(f)[j] == old(m).mem.frame(f)[j],
        final(m).mem.same_except(old(m).mem, f),
        *final(m) == (Machine { mem: final(m).mem, ..*old(m) }),
{
    let ghost s0 = *old(m);
    proof {
        let i = s0.mem.idx_of(f);
        assert(0 <= i < s0.mem.pages@.len() && s0.mem.pages@[i].base == f);
        assert(s0.mem.pages@[i].wf());
        assert(s0.mem.frame(f).len() == 512);
    }
    let mut w = w0;
    while w < w1
        invariant
            m.phys_wf(),
            m.mem.has_frame(f),
            !m.free_list@.contains(f),
            w0 <= w <= w1,
            w1 <= 512,
            m.mem.frame(f).len() == 512,
            forall|j: int| w0 <= j < w ==> m.mem.frame(f)[j] == 0,
            forall|j: int| 0 <= j < 512 && !(w0 <= j < w)
                ==> m.mem.frame(f)[j] == s0.mem.frame(f)[j],
            m.mem.same_except(s0.mem, f),
            *m == (Machine { mem: m.mem, ..s0 }),
            s0.phys_wf(),
            s0.mem.has_frame(f),
            s0.mem.frame(f).len() == 512,
        decreases w1 - w,
    {
        let ghost mp = *m;
        write_table_word(m, f, w, 0);
        proof {
            assert forall|g: u64| g != f implies
                (#[trigger] m.mem.has_frame(g) <==> s0.mem.has_frame(g)) by {
                assert(m.mem.has_frame(g) <==> mp.mem.has_frame(g));
            }
            assert forall|g: u64| g != f && m.mem.has_frame(g) implies
                #[trigger] m.mem.frame(g) == s0.mem.frame(g) by {
                assert(m.mem.frame(g) == mp.mem.frame(g));
            }
        }
        w += 1;
    }
}

/// Walks one level down from entry `idx` of table `t`, allocating and
/// installing a fresh zeroed table when the entry is empty.
fn ensure_table(m: &mut Machine, t: u64, idx: usize) -> (r: Result<u64, MapError>)
    requires
        old(m).phys_wf(),
        old(m).temp is None,
        old(m).mem.has_frame(t),
        !old(m).free_list@.contains(t),
        !old(m).bump_avail(t),
        idx < 512,
        old(m).walk_entry_sound(t, (idx as int)),
        old(m).mem.frame(t)[idx as int] != 0
            ==> old(m).table_frame_live(entry_addr(old(m).mem.frame(t)[idx as int])),
    ensures
        final(m).phys_wf(),
        final(m).temp is None,
        r is Err ==> (*final(m) == *old(m)
            && old(m).mem.frame(t)[idx as int] == 0
            && (forall|f: u64| !old(m).avail(f))),
        r is Ok ==> ensure_table_ok(*old(m), *final(m), t, (idx as int), (r->Ok_0)),
{
    let e = m.mem.read_word(t, idx);
    if e != 0 {
        let child = e & 0xffff_ffff_ffff_f000;
        proof {
            assert(m.mem.has_frame(entry_addr(e)));
            assert(child == entry_addr(e));
            assert(m.table_frame_live(child));
            assert(child != 0) by {
                if child == 0 {
                    assert(m.mem.has_frame(0));
                    let i = choose|i: int| 0 <= i < m.mem.pages@.len()
                        && (#[trigger] m.mem.pages@[i]).base == 0;
                    assert(m.mem.pages@[i].wf());
                }
            }
            assert((e & 0xffff_ffff_ffff_f000) & 0xfff == 0u64) by (bit_vector);
            assert(m.walk_step(t, idx as int) == Some(child));
        }
        return Ok(child);
    }
    let tab = match phys::alloc_frame(m) {
        Ok(p) => p,
        Err(_) => {
            return Err(MapError::CannotAllocatePageTable);
        }
    };
    let ghost s1 = *m;
    let tab_raw = tab.into_raw();
    let child = tab_raw.0;
    write_table_word(m, t, idx, child | 0x7);
    proof {
        let s0 = *old(m);
        assert(child != t);
        assert((child & 0xfff == 0) ==> ((child | 0x7) & 0xffff_ffff_ffff_f000 == child
            && (child | 0x7) != 0)) by (bit_vector);
        assert(m.mem.frame(t)[idx as int] == (child | 0x7));
        assert(m.mem.has_frame(child));
        assert(m.walk_step(t, idx as int) == Some(child));
        assert(m.mem.same_except2(s0.mem, t, child)) by {
            assert forall|g: u64| g != t && g != child implies
                (#[trigger] m.mem.has_frame(g) <==> s0.mem.has_frame(g)) by {}
            assert forall|g: u64| g != t && g != child && m.mem.has_frame(g) implies
                #[trigger] m.mem.frame(g) == s0.mem.frame(g) by {}
        }
        assert(!m.free_list@.contains(child)) by {
            assert(m.free_list@ == s1.free_list@);
            if s1.free_list@.contains(child) {
                let k = choose|k: int| 0 <= k < s1.free_list@.len()
                    && s1.free_list@[k] == child;
                assert(s1.free_frame_wf(k));
                assert(s1.avail(child));
            }
        }
        assert(!m.bump_avail(child)) by {
            lemma_bump_congruent(s1, *m);
            if s1.bump_avail(child) {
                assert(s1.avail(child));
            }
        }
        assert(m.mem.frame(child) == zero_page());
        assert forall|g: u64| g != child && page_aligned(g) implies
            (#[trigger] m.avail(g)) == s0.avail(g) by {
            lemma_bump_congruent(s1, *m);
            assert(m.free_list@ == s1.free_list@);
            assert(s1.avail(g) == s0.avail(g));
        }
        assert(!m.avail(child)) by {
            lemma_bump_congruent(s1, *m);
            assert(m.free_list@ == s1.free_list@);
        }
    }
    Ok(child)
}

/// What holds after a successful [`map`].
pub open spec fn map_ok(pre: Machine, post: Machine, raw: u64, virt: u64, flags: PageFlags)
    -> bool
{
    &&& pre.leaf_entry(virt) is None
    &&& post.leaf_entry(virt) == Some(raw | flags.bits)
    &&& post.cr3 == pre.cr3
    &&& post.iflag == pre.iflag
    &&& post.temp == pre.temp
    &&& post.regions == pre.regions
    &&& post.rc_enabled == pre.rc_enabled
    &&& post.kv_next == pre.kv_next
    &&& post.kv_free == pre.kv_free
    &&& post.heap == pre.heap
    &&& forall|f: u64| #[trigger] post.avail(f) ==> pre.avail(f)
    &&& (pre.l1_table(virt) is Some ==> {
        let t1 = pre.l1_table(virt)->Some_0;
        &&& post.l1_table(virt) == Some(t1)
        &&& post.mem.same_except(pre.mem, t1)
        &&& post.mem.frame(t1) == pre.mem.frame(t1).update(l1_index(virt), raw | flags.bits)
        &&& post.free_list == pre.free_list
        &&& post.free_head == pre.free_head
        &&& post.cursors == pre.cursors
        &&& post.rc == pre.rc
    })
}

/// Anything the allocator could hand out is page aligned.
pub(crate) proof fn lemma_avail_aligned(m: Machine, f: u64)
    requires
        m.phys_wf(),
        m.avail(f),
    ensures
        page_aligned(f),
{
    if m.free_list@.contains(f) {
        let k = choose|k: int| 0 <= k < m.free_list@.len() && m.free_list@[k] == f;
        assert(m.free_frame_wf(k));
    }
    if m.bump_avail(f) {
        let i = choose|i: int| 0 <= i < m.regions_seq().len()
            && #[trigger] m.bump_avail_in(i, f);
    }
}

/// What holds after [`map`] found the leaf occupied: the first
/// mapping is intact, and the frame handed in gave its count unit
/// back, exactly as discarding a dropped frame reference does.
pub open spec fn map_already_mapped(pre: Machine, post: Machine, f: u64, virt: u64)
    -> bool
{
    &&& pre.leaf_entry(virt) is Some
    &&& (!pre.in_path(virt, f) ==> post.leaf_entry(virt) == pre.leaf_entry(virt))
    &&& post.rc_same_except(pre, f)
    &&& post.cursors == pre.cursors
    &&& post.cr3 == pre.cr3
    &&& post.iflag == pre.iflag
    &&& post.temp == pre.temp
    &&& post.regions == pre.regions
    &&& post.rc_enabled == pre.rc_enabled
    &&& post.heap == pre.heap
    &&& post.kv_next == pre.kv_next
    &&& post.kv_free == pre.kv_free
    &&& (pre.rc_enabled && pre.managed(f) && pre.rc_of(f) == Some(1u64) ==> {
        &&& post.free_list@ == seq![f] + pre.free_list@
        &&& post.rc_of(f) == Some(0u64)
        &&& post.mem.same_except(pre.mem, f)
    })
    &&& (!(pre.rc_enabled && pre.managed(f) && pre.rc_of(f) == Some(1u64)) ==> {
        &&& post.mem == pre.mem
        &&& post.free_list == pre.free_list
        &&& post.free_head == pre.free_head
        &&& post.rc_of(f) == (if pre.rc_enabled && pre.managed(f) {
            Some((pre.rc_of(f)->Some_0 - 1) as u64)
        } else {
            pre.rc_of(f)
        })
    })
}

/// Installs `phys_frame` at `virt` with the given flags, creating
/// inner tables as needed; the frame's owned count unit moves into the
/// leaf entry. An occupied leaf fails with `AlreadyMapped` — and only
/// then — leaving the first mapping intact and dropping the frame's
/// unit, as discarding the handed-in reference must.
#[verifier::rlimit(60)]
pub fn map(m: &mut Machine, phys_frame: Phys, virt: u64, flags: PageFlags)
    -> (r: Result<(), MapError>)
    requires
        old(m).phys_wf(),
        old(m).temp is None,
        old(m).path_live(virt),
        old(m).path_distinct(virt),
        old(m).path_resolved(virt),
        page_aligned(phys_frame.raw),
        phys_frame.raw != 0,
        flags.bits & 0xfff == flags.bits,
        leaf_release_ok(*old(m), phys_frame.raw),
    ensures
        final(m).phys_wf(),
        final(m).temp is None,
        old(m).leaf_entry(virt) is Some
            <==> r == Result::<(), MapError>::Err(MapError::AlreadyMapped),
        r == Result::<(), MapError>::Err(MapError::AlreadyMapped)
            ==> map_already_mapped(*old(m), *final(m), phys_frame.raw, virt),
        r == Result::<(), MapError>::Err(MapError::CannotAllocatePageTable)
            ==> (final(m).leaf_entry(virt) is None
                && (forall|f: u64| #[trigger] final(m).avail(f) ==> old(m).avail(f))
                && (forall|f: u64| !final(m).avail(f))
                && final(m).cr3 == old(m).cr3 && final(m).iflag == old(m).iflag
                && final(m).heap == old(m).heap
                && final(m).temp == old(m).temp
                && final(m).rc_enabled == old(m).rc_enabled
                && final(m).kv_next == old(m).kv_next
                && final(m).kv_free == old(m).kv_free),
        r is Ok ==> map_ok(*old(m), *final(m), phys_frame.raw, virt, flags),
        // each inner table the walk lacked was installed with the
        // present, writable and user bits, as ensure_table_ok pins
        r is Ok && old(m).l3_table(virt) is None
            ==> final(m).mem.frame(final(m).cr3)[l4_index(virt)] & 0xfff == 0x7,
        r is Ok && old(m).l3_table(virt) is Some && old(m).l2_table(virt) is None
            ==> final(m).mem.frame(old(m).l3_table(virt)->Some_0)[l3_index(virt)]
                & 0xfff == 0x7,
        r is Ok && old(m).l2_table(virt) is Some && old(m).l1_table(virt) is None
            ==> final(m).mem.frame(old(m).l2_table(virt)->Some_0)[l2_index(virt)]
                & 0xfff == 0x7,
        old(m).l1_table(virt) is Some && old(m).leaf_entry(virt) is None ==> r is Ok,
        // the installed frame itself is never written: its contents
        // survive the mapping, as long as it is off the walk and not
        // a frame the allocator could hand out for an inner table
        r is Ok && !old(m).avail(phys_frame.raw) && !old(m).in_path(virt, phys_frame.raw)
                && old(m).mem.has_frame(phys_frame.raw)
            ==> final(m).mem.has_frame(phys_frame.raw)
                && final(m).mem.frame(phys_frame.raw) == old(m).mem.frame(phys_frame.raw),
{
    let ghost s0 = *old(m);
    let crit = critical::begin(m);
    let ghost sb = *m;
    proof {
        lemma_wf_fields(s0, sb);
        assert(sb.phys_wf());
        assert(sb.l3_table(virt) == s0.l3_table(virt));
        assert(sb.l2_table(virt) == s0.l2_table(virt));
        assert(sb.l1_table(virt) == s0.l1_table(virt));
        assert(sb.leaf_entry(virt) == s0.leaf_entry(virt));
        assert(sb.table_frame_live(sb.cr3));
        s0.mem.lemma_frame_aligned(s0.cr3);
    }
    let cr3 = m.cr3;
    let i4 = pml_index(virt, 39);
    let i3 = pml_index(virt, 30);
    let i2 = pml_index(virt, 21);
    let i1 = pml_index(virt, 12);
    proof {
        assert(sb.walk_entry_sound(cr3, i4 as int)) by {
            assert(s0.walk_entry_sound(s0.cr3, l4_index(virt)));
        }
        if sb.mem.frame(cr3)[i4 as int] != 0 {
            assert(s0.l3_table(virt) is Some);
            assert(s0.table_frame_live(s0.l3_table(virt)->Some_0));
            assert(sb.table_frame_live(entry_addr(sb.mem.frame(cr3)[i4 as int])));
        }
    }
    let t3 = match ensure_table(m, cr3, i4) {
        Ok(t) => t,
        Err(e) => {
            proof {
                assert(*m == sb);
            }
            critical::end(m, crit);
            proof {
                lemma_wf_fields(sb, *m);
                assert(m.leaf_entry(virt) is None) by {
                    assert(m.l3_table(virt) is None);
                }
                assert forall|f: u64| #[trigger] m.avail(f) implies s0.avail(f) by {
                    assert(m.avail(f) == sb.avail(f));
                }
                assert forall|f: u64| !(#[trigger] m.avail(f)) by {
                    assert(m.avail(f) == sb.avail(f));
                    assert(!sb.avail(f));
                }
                assert(s0.l3_table(virt) is None);
                assert(s0.l1_table(virt) is None);
            }
            return Err(MapError::CannotAllocatePageTable);
        }
    };
    let ghost g1 = *m;
    let ghost e4_old = sb.mem.frame(cr3)[i4 as int];
    proof {
        assert(ensure_table_ok(sb, g1, cr3, i4 as int, t3));
        assert(g1.walk_step(cr3, i4 as int) == Some(t3));
        if e4_old != 0 {
            assert(g1 == sb);
            assert(t3 == entry_addr(e4_old));
            assert(s0.l3_table(virt) == Some(t3));
            assert(t3 != cr3);
        } else {
            assert(g1.mem.frame(t3) == zero_page());
            // a fresh table cannot be the root, which was not available
            assert(!sb.avail(cr3));
            assert(t3 != cr3);
        }
        // soundness and liveness for the next level
        if g1.mem.frame(t3)[i3 as int] != 0 {
            assert(e4_old != 0);
            assert(g1.walk_entry_sound(t3, i3 as int)) by {
                assert(s0.walk_entry_sound(t3, l3_index(virt)));
            }
            assert(s0.l2_table(virt) == s0.walk_step(t3, l3_index(virt)));
            assert(s0.l2_table(virt) is Some);
            assert(g1.table_frame_live(entry_addr(g1.mem.frame(t3)[i3 as int]))) by {
                assert(s0.table_frame_live(s0.l2_table(virt)->Some_0));
            }
        }
    }
    let t2 = match ensure_table(m, t3, i3) {
        Ok(t) => t,
        Err(e) => {
            critical::end(m, crit);
            proof {
                lemma_wf_fields(g1, *m);
                assert(m.walk_step(cr3, i4 as int) == Some(t3));
                assert(m.l3_table(virt) == Some(t3));
                assert(m.mem.frame(t3)[i3 as int] == 0);
                assert(m.l2_table(virt) is None);
                assert(m.leaf_entry(virt) is None);
                assert forall|f: u64| #[trigger] m.avail(f) implies s0.avail(f) by {
                    lemma_avail_aligned(*m, f);
                    assert(m.avail(f) == g1.avail(f));
                    if f != t3 {
                        assert(g1.avail(f) == sb.avail(f));
                    } else {
                        assert(!g1.avail(t3));
                    }
                }
                assert forall|f: u64| !(#[trigger] m.avail(f)) by {
                    assert(m.avail(f) == g1.avail(f));
                    assert(!g1.avail(f));
                }
                assert(s0.l1_table(virt) is None) by {
                    if s0.l1_table(virt) is Some {
                        assert(e4_old != 0);
                        assert(s0.l3_table(virt) == Some(t3));
                        assert(s0.l2_table(virt) is Some);
                        assert(s0.mem.frame(t3)[l3_index(virt)] != 0);
                    }
                }
            }
            return Err(MapError::CannotAllocatePageTable);
        }
    };
    let ghost g2 = *m;
    let ghost e3_old = g1.mem.frame(t3)[i3 as int];
    proof {
        assert(ensure_table_ok(g1, g2, t3, i3 as int, t2));
        assert(g2.walk_step(t3, i3 as int) == Some(t2));
        // distinctness of t2 from the frames above it
        if e3_old != 0 {
            assert(g2 == g1 && g1 == sb);
            assert(t2 == entry_addr(e3_old));
            assert(s0.l2_table(virt) == Some(t2));
            assert(t2 != cr3 && t2 != t3);
        } else {
            assert(!g1.avail(cr3)) by {
                if e4_old != 0 {
                    assert(g1 == sb);
                    assert(!sb.avail(cr3));
                } else {
                    assert(g1.avail(cr3) == sb.avail(cr3));
                }
            }
            assert(!g1.avail(t3));
            assert(g1.avail(t2));
            assert(t2 != cr3 && t2 != t3);
            assert(g2.mem.frame(t2) == zero_page());
        }
        // the root's entry is untouched by the second step
        assert(g2.mem.has_frame(cr3));
        assert(g2.mem.frame(cr3) == g1.mem.frame(cr3)) by {
            if e3_old == 0 {
                assert(g2.mem.same_except2(g1.mem, t3, t2));
            }
        }
        assert(g2.walk_step(cr3, i4 as int) == Some(t3)) by {
            assert(g2.mem.has_frame(t3));
        }
        // soundness and liveness for the last level
        if g2.mem.frame(t2)[i2 as int] != 0 {
            assert(e3_old != 0 && e4_old != 0);
            assert(g2.walk_entry_sound(t2, i2 as int)) by {
                assert(s0.walk_entry_sound(t2, l2_index(virt)));
            }
            assert(s0.l1_table(virt) == s0.walk_step(t2, l2_index(virt)));
            assert(s0.l1_table(virt) is Some);
            assert(g2.table_frame_live(entry_addr(g2.mem.frame(t2)[i2 as int]))) by {
                assert(s0.table_frame_live(s0.l1_table(virt)->Some_0));
            }
        }
    }
    let t1 = match ensure_table(m, t2, i2) {
        Ok(t) => t,
        Err(e) => {
            critical::end(m, crit);
            proof {
                lemma_wf_fields(g2, *m);
                assert(m.walk_step(cr3, i4 as int) == Some(t3));
                assert(m.l3_table(virt) == Some(t3));
                assert(m.walk_step(t3, i3 as int) == Some(t2));
                assert(m.l2_table(virt) == Some(t2));
                assert(m.mem.frame(t2)[i2 as int] == 0);
                assert(m.l1_table(virt) is None);
                assert(m.leaf_entry(virt) is None);
                assert forall|f: u64| #[trigger] m.avail(f) implies s0.avail(f) by {
                    lemma_avail_aligned(*m, f);
                    assert(m.avail(f) == g2.avail(f));
                    if f != t2 {
                        assert(g2.avail(f) == g1.avail(f));
                    } else {
                        assert(!g2.avail(t2));
                    }
                    if f != t3 {
                        assert(g1.avail(f) == sb.avail(f));
                    } else {
                        assert(!g1.avail(t3));
                    }
                }
                assert forall|f: u64| !(#[trigger] m.avail(f)) by {
                    assert(m.avail(f) == g2.avail(f));
                    assert(!g2.avail(f));
                }
                assert(s0.l1_table(virt) is None) by {
                    if s0.l1_table(virt) is Some {
                        assert(e4_old != 0 && e3_old != 0);
                        assert(s0.l3_table(virt) == Some(t3));
                        assert(s0.l2_table(virt) == Some(t2));
                        assert(s0.mem.frame(t2)[l2_index(virt)] != 0);
                    }
                }
            }
            return Err(MapError::CannotAllocatePageTable);
        }
    };
    let ghost g3 = *m;
    let ghost e2_old = g2.mem.frame(t2)[i2 as int];
    proof {
        assert(ensure_table_ok(g2, g3, t2, i2 as int, t1));
        assert(g3.walk_step(t2, i2 as int) == Some(t1));
        if e2_old != 0 {
            assert(g3 == g2 && g2 == g1 && g1 == sb);
            assert(t1 == entry_addr(e2_old));
            assert(s0.l1_table(virt) == Some(t1));
            assert(t1 != cr3 && t1 != t3 && t1 != t2);
        } else {
            assert(!g2.avail(cr3)) by {
                if e4_old != 0 && e3_old != 0 {
                    assert(g2 == sb);
                } else if e3_old != 0 {
                    assert(g2 == g1);
                    assert(g1.avail(cr3) == sb.avail(cr3));
                } else {
                    assert(g2.avail(cr3) == g1.avail(cr3));
                    assert(g1.avail(cr3) == sb.avail(cr3)) by {
                        if e4_old == 0 {
                            assert(cr3 != t3);
                        }
                    }
                }
            }
            assert(!g2.avail(t3)) by {
                if e3_old != 0 {
                    assert(g2 == g1);
                    assert(!g1.avail(t3)) by {
                        if e4_old != 0 {
                            assert(g1 == sb);
                            assert(s0.path_live(virt));
                            assert(sb.table_frame_live(t3));
                        }
                    }
                } else {
                    assert(g2.avail(t3) == g1.avail(t3));
                    assert(!g1.avail(t3)) by {
                        if e4_old != 0 {
                            assert(sb.table_frame_live(t3));
                        }
                    }
                }
            }
            assert(!g2.avail(t2));
            assert(g2.avail(t1));
            assert(t1 != cr3 && t1 != t3 && t1 != t2);
            assert(g3.mem.frame(t1) == zero_page());
        }
        // frames above are untouched by the third step
        assert(g3.mem.has_frame(cr3) && g3.mem.has_frame(t3));
        assert(g3.mem.frame(cr3) == g2.mem.frame(cr3)) by {
            if e2_old == 0 {
                assert(g3.mem.same_except2(g2.mem, t2, t1));
            }
        }
        assert(g3.mem.frame(t3) == g2.mem.frame(t3)) by {
            if e2_old == 0 {
                assert(g3.mem.same_except2(g2.mem, t2, t1));
            }
        }
        assert(g3.walk_step(cr3, i4 as int) == Some(t3));
        assert(g3.walk_step(t3, i3 as int) == Some(t2)) by {
            assert(g3.mem.has_frame(t2));
        }
    }
    let e1 = m.mem.read_word(t1, i1);
    if e1 != 0 {
        proof {
            // a fresh table is zero-filled, so the leaf existed before
            assert(e2_old != 0 && e3_old != 0 && e4_old != 0);
            assert(*m == sb);
            assert(s0.l1_table(virt) == Some(t1));
            assert(s0.leaf_entry(virt) == Some(e1));
        }
        critical::end(m, crit);
        proof {
            assert(*m == s0);
        }
        // the handed-in reference is dropped, its unit given back
        let fr = phys_frame.raw;
        phys_frame.release(m);
        proof {
            let fin = *m;
            if !s0.in_path(virt, fr) {
                // the release touched at most `fr`, off the walk
                assert(fr != s0.cr3 && Some(fr) != s0.l3_table(virt)
                    && Some(fr) != s0.l2_table(virt) && Some(fr) != s0.l1_table(virt));
                let wt3 = s0.l3_table(virt)->Some_0;
                let wt2 = s0.l2_table(virt)->Some_0;
                assert(fin.mem.has_frame(s0.cr3) && fin.mem.frame(s0.cr3)
                    == s0.mem.frame(s0.cr3));
                assert(fin.mem.has_frame(wt3) && fin.mem.frame(wt3)
                    == s0.mem.frame(wt3));
                assert(fin.mem.has_frame(wt2) && fin.mem.frame(wt2)
                    == s0.mem.frame(wt2));
                assert(fin.mem.has_frame(t1) && fin.mem.frame(t1)
                    == s0.mem.frame(t1));
                assert(fin.l3_table(virt) == Some(wt3));
                assert(fin.l2_table(virt) == Some(wt2));
                assert(fin.l1_table(virt) == Some(t1));
                assert(fin.leaf_entry(virt) == Some(e1));
            }
        }
        return Err(MapError::AlreadyMapped);
    }
    let raw = phys_frame.into_raw();
    let word = raw.0 | flags.bits;
    proof {
        let rr = raw.0;
        let fb = flags.bits;
        assert((rr != 0) ==> (rr | fb) != 0u64) by (bit_vector);
        assert((rr & 0xfff == 0 && fb & 0xfff == fb)
            ==> ((rr | fb) & 0xffff_ffff_ffff_f000) == rr) by (bit_vector);
    }
    write_table_word(m, t1, i1, word);
    let ghost g4 = *m;
    critical::end(m, crit);
    proof {
        let fin = *m;
        lemma_wf_fields(g4, fin);
        assert(fin.mem == g4.mem);
        assert(g4.mem.frame(t1) == g3.mem.frame(t1).update(i1 as int, word));
        // the walk in the final state
        assert(fin.mem.has_frame(cr3) && fin.mem.has_frame(t3)
            && fin.mem.has_frame(t2) && fin.mem.has_frame(t1));
        assert(fin.mem.frame(cr3) == g3.mem.frame(cr3));
        assert(fin.mem.frame(t3) == g3.mem.frame(t3));
        assert(fin.mem.frame(t2) == g3.mem.frame(t2));
        assert(fin.walk_step(cr3, i4 as int) == Some(t3));
        assert(fin.walk_step(t3, i3 as int) == Some(t2));
        assert(fin.walk_step(t2, i2 as int) == Some(t1));
        assert(fin.l3_table(virt) == Some(t3));
        assert(fin.l2_table(virt) == Some(t2));
        assert(fin.l1_table(virt) == Some(t1));
        assert(fin.mem.frame(t1)[i1 as int] == word);
        assert(fin.leaf_entry(virt) == Some(word));
        // nothing was mapped at virt before
        assert(s0.leaf_entry(virt) is None) by {
            if s0.l1_table(virt) is Some {
                assert(e4_old != 0 && e3_old != 0 && e2_old != 0);
                assert(s0.l1_table(virt) == Some(t1));
                assert(s0.mem.frame(t1)[l1_index(virt)] == e1);
            }
        }
        // the allocator only lost frames
        assert forall|f: u64| #[trigger] fin.avail(f) implies s0.avail(f) by {
            lemma_avail_aligned(fin, f);
            lemma_avail_congruent(g4, fin);
            lemma_avail_congruent(g3, g4);
            assert(g4.avail(f) == g3.avail(f));
            if e2_old == 0 && f == t1 {
                assert(!g3.avail(t1));
            } else {
                if e2_old == 0 {
                    assert(g3.avail(f) == g2.avail(f));
                } else {
                    assert(g3 == g2);
                }
            }
            if e3_old == 0 && f == t2 {
                assert(!g2.avail(t2));
            } else {
                if e3_old == 0 {
                    assert(g2.avail(f) == g1.avail(f));
                } else {
                    assert(g2 == g1);
                }
            }
            if e4_old == 0 && f == t3 {
                assert(!g1.avail(t3));
            } else {
                if e4_old == 0 {
                    assert(g1.avail(f) == sb.avail(f));
                } else {
                    assert(g1 == sb);
                }
            }
        }
        // flag words of the tables the walk gained
        if s0.l3_table(virt) is None {
            assert(e4_old == 0);
            assert(fin.mem.frame(fin.cr3)[i4 as int] == (t3 | 0x7));
            let c = t3;
            assert((c & 0xfff == 0) ==> ((c | 0x7) & 0xfff == 0x7)) by (bit_vector);
        }
        if s0.l3_table(virt) is Some && s0.l2_table(virt) is None {
            assert(e4_old != 0);
            assert(t3 == entry_addr(e4_old));
            assert(s0.l3_table(virt) == Some(t3));
            assert(e3_old == 0);
            assert(fin.mem.frame(t3)[i3 as int] == (t2 | 0x7));
            let c = t2;
            assert((c & 0xfff == 0) ==> ((c | 0x7) & 0xfff == 0x7)) by (bit_vector);
        }
        if s0.l2_table(virt) is Some && s0.l1_table(virt) is None {
            assert(e4_old != 0 && e3_old != 0);
            assert(s0.l2_table(virt) == Some(t2));
            assert(e2_old == 0);
            assert(fin.mem.frame(t2)[i2 as int] == (t1 | 0x7));
            let c = t1;
            assert((c & 0xfff == 0) ==> ((c | 0x7) & 0xfff == 0x7)) by (bit_vector);
        }
        // the precise shape when no table was created
        if s0.l1_table(virt) is Some {
            assert(e4_old != 0 && e3_old != 0 && e2_old != 0);
            assert(g3 == sb);
            assert(s0.l1_table(virt) == Some(t1));
            assert(fin.mem.same_except(s0.mem, t1));
            assert(fin.l1_table(virt) == Some(t1));
        }
        // the data frame itself was never written: every write went to
        // a walk frame or to a table the allocator handed out
        let fr = raw.0;
        if !s0.avail(fr) && !s0.in_path(virt, fr) && s0.mem.has_frame(fr) {
            lemma_avail_congruent(s0, sb);
            assert(fr != cr3);
            assert(fr != t3) by {
                if e4_old != 0 {
                    assert(s0.l3_table(virt) == Some(t3));
                } else {
                    assert(sb.avail(t3));
                }
            }
            assert(fr != t2) by {
                if e3_old != 0 {
                    assert(s0.l2_table(virt) == Some(t2));
                } else {
                    assert(g1.avail(t2));
                    if e4_old == 0 {
                        assert(t2 != t3) by {
                            assert(!g1.avail(t3));
                        }
                        assert(g1.avail(t2) == sb.avail(t2));
                    } else {
                        assert(g1 == sb);
                    }
                }
            }
            assert(fr != t1) by {
                if e2_old != 0 {
                    assert(s0.l1_table(virt) == Some(t1));
                } else {
                    assert(g2.avail(t1));
                    if e3_old == 0 {
                        assert(t1 != t2) by {
                            assert(!g2.avail(t2));
                        }
                        assert(g2.avail(t1) == g1.avail(t1));
                    } else {
                        assert(g2 == g1);
                    }
                    if e4_old == 0 {
                        assert(t1 != t3) by {
                            assert(!g1.avail(t3));
                        }
                        assert(g1.avail(t1) == sb.avail(t1));
                    } else {
                        assert(g1 == sb);
                    }
                }
            }
            assert(g1.mem.has_frame(fr) && g1.mem.frame(fr) == s0.mem.frame(fr)) by {
                if e4_old == 0 {
                    assert(g1.mem.same_except2(sb.mem, cr3, t3));
                } else {
                    assert(g1 == sb);
                }
            }
            assert(g2.mem.has_frame(fr) && g2.mem.frame(fr) == g1.mem.frame(fr)) by {
                if e3_old == 0 {
                    assert(g2.mem.same_except2(g1.mem, t3, t2));
                } else {
                    assert(g2 == g1);
                }
            }
            assert(g3.mem.has_frame(fr) && g3.mem.frame(fr) == g2.mem.frame(fr)) by {
                if e2_old == 0 {
                    assert(g3.mem.same_except2(g2.mem, t2, t1));
                } else {
                    assert(g3 == g2);
                }
            }
            assert(fin.mem.has_frame(fr) && fin.mem.frame(fr) == g3.mem.frame(fr)) by {
                assert(g4.mem.same_except(g3.mem, t1));
            }
        }
    }
    Ok(())
}


/// Release-safety of the frame a leaf entry owns: its count can drop.
pub open spec fn leaf_release_ok(m: Machine, d: u64) -> bool {
    &&& m.rc_enabled && m.managed(d) ==> m.rc_of(d)->Some_0 >= 1
    &&& m.rc_enabled && m.managed(d) && m.rc_of(d) == Some(1u64) ==> m.mem.has_frame(d)
}

/// What holds after a successful [`unmap`].
pub open spec fn unmap_ok(pre: Machine, post: Machine, virt: u64) -> bool {
    let t1 = pre.l1_table(virt)->Some_0;
    let d = entry_addr(pre.leaf_entry(virt)->Some_0);
    &&& post.leaf_entry(virt) is None
    &&& post.l1_table(virt) == pre.l1_table(virt)
    &&& post.mem.same_except2(pre.mem, t1, d)
    &&& post.mem.frame(t1) == pre.mem.frame(t1).update(l1_index(virt), 0)
    &&& post.cr3 == pre.cr3
    &&& post.iflag == pre.iflag
    &&& post.temp == pre.temp
    &&& post.cursors == pre.cursors
    &&& post.regions == pre.regions
    &&& post.rc_enabled == pre.rc_enabled
    &&& post.kv_next == pre.kv_next
    &&& post.kv_free == pre.kv_free
    &&& post.heap == pre.heap
    &&& post.rc_same_except(pre, d)
    &&& (pre.rc_enabled && pre.managed(d) && pre.rc_of(d) == Some(1u64) ==> {
        &&& post.free_list@ == seq![d] + pre.free_list@
        &&& post.rc_of(d) == Some(0u64)
    })
    &&& (!(pre.rc_enabled && pre.managed(d) && pre.rc_of(d) == Some(1u64)) ==> {
        &&& post.free_list == pre.free_list
        &&& post.free_head == pre.free_head
        &&& post.mem.same_except(pre.mem, t1)
        &&& post.rc_of(d) == (if pre.rc_enabled && pre.managed(d) {
            Some((pre.rc_of(d)->Some_0 - 1) as u64)
        } else {
            pre.rc_of(d)
        })
    })
}

/// Clears the leaf entry of `virt` and gives the count unit it owned
/// back, freeing the frame when it was the last reference.
pub fn unmap(m: &mut Machine, virt: u64) -> (r: Result<(), NotMapped>)
    requires
        old(m).phys_wf(),
        old(m).temp is None,
        old(m).path_live(virt),
        old(m).path_distinct(virt),
        old(m).leaf_entry(virt) is Some ==> {
            let d = entry_addr(old(m).leaf_entry(virt)->Some_0);
            &&& leaf_release_ok(*old(m), d)
            &&& !old(m).in_path(virt, d)
        },
    ensures
        final(m).phys_wf(),
        final(m).temp is None,
        r is Err ==> *final(m) == *old(m)
            && (old(m).leaf_entry(virt) is None
                || entry_addr(old(m).leaf_entry(virt)->Some_0) == 0),
        r is Ok ==> old(m).leaf_entry(virt) is Some
            && entry_addr(old(m).leaf_entry(virt)->Some_0) != 0
            && unmap_ok(*old(m), *final(m), virt),
{
    let ghost s0 = *old(m);
    let crit = critical::begin(m);
    let ghost sb = *m;
    proof {
        lemma_wf_fields(s0, sb);
    }
    let (t1, i1) = match checked_pml1_entry(m, virt) {
        Ok(p) => p,
        Err(e) => {
            critical::end(m, crit);
            return Err(e);
        }
    };
    let w = m.mem.read_word(t1, i1);
    let d = w & 0xffff_ffff_ffff_f000;
    if d == 0 {
        critical::end(m, crit);
        return Err(NotMapped);
    }
    proof {
        assert(d == entry_addr(w));
        assert(s0.leaf_entry(virt) == Some(w));
        assert(s0.l1_table(virt) == Some(t1));
        assert(s0.table_frame_live(t1));
        assert((w & 0xffff_ffff_ffff_f000) & 0xfff == 0u64) by (bit_vector);
    }
    write_table_word(m, t1, i1, 0);
    let ghost g1 = *m;
    critical::end(m, crit);
    let ghost g2 = *m;
    proof {
        lemma_wf_fields(g1, g2);
        assert(g2.mem == g1.mem);
        assert(d != t1);
    }
    let p = Phys::from_raw(RawPhys(d));
    proof {
        // the counters were untouched so far
        lemma_regions_congruent(s0, g2);
        lemma_rc_congruent(s0, g2);
        lemma_bump_congruent(s0, g2);
        assert(g2.rc_of(d) == s0.rc_of(d));
    }
    p.release(m);
    proof {
        let fin = *m;
        // the walk is unchanged: only t1's word and d were written
        assert(fin.mem.same_except2(s0.mem, t1, d)) by {
            assert(g2.mem.same_except(s0.mem, t1));
            assert forall|g: u64| g != t1 && g != d implies
                (#[trigger] fin.mem.has_frame(g) <==> s0.mem.has_frame(g)) by {
                assert(fin.mem.same_except(g2.mem, d));
            }
            assert forall|g: u64| g != t1 && g != d && fin.mem.has_frame(g) implies
                #[trigger] fin.mem.frame(g) == s0.mem.frame(g) by {
                assert(fin.mem.same_except(g2.mem, d));
            }
        }
        assert(fin.mem.has_frame(s0.cr3)) by {
            assert(s0.cr3 != t1 || s0.cr3 == t1);
            if s0.cr3 != d {
            }
        }
        assert(s0.cr3 != d && s0.cr3 != t1);
        assert(fin.mem.frame(s0.cr3) == s0.mem.frame(s0.cr3));
        assert(fin.cr3 == s0.cr3);
        let t3 = s0.l3_table(virt)->Some_0;
        let t2 = s0.l2_table(virt)->Some_0;
        assert(t3 != d && t3 != t1 && t2 != d && t2 != t1);
        assert(fin.mem.has_frame(t3) && fin.mem.frame(t3) == s0.mem.frame(t3));
        assert(fin.mem.has_frame(t2) && fin.mem.frame(t2) == s0.mem.frame(t2));
        assert(fin.walk_step(fin.cr3, l4_index(virt)) == Some(t3));
        assert(fin.l3_table(virt) == Some(t3));
        assert(fin.walk_step(t3, l3_index(virt)) == Some(t2));
        assert(fin.l2_table(virt) == Some(t2));
        assert(fin.mem.has_frame(t1));
        assert(fin.walk_step(t2, l2_index(virt)) == Some(t1));
        assert(fin.l1_table(virt) == Some(t1));
        assert(fin.mem.frame(t1) == s0.mem.frame(t1).update(l1_index(virt), 0)) by {
            assert(fin.mem.frame(t1) == g2.mem.frame(t1));
        }
        assert(fin.leaf_entry(virt) is None);
    }
    Ok(())
}

/// Rewrites the flag bits of `virt`'s leaf entry, keeping the frame.
pub fn modify(m: &mut Machine, virt: u64, flags: PageFlags) -> (r: Result<(), NotMapped>)
    requires
        old(m).phys_wf(),
        old(m).path_live(virt),
        old(m).path_distinct(virt),
    ensures
        final(m).phys_wf(),
        final(m).temp == old(m).temp,
        r is Err ==> *final(m) == *old(m) && old(m).leaf_entry(virt) is None,
        r is Ok ==> {
            let t1 = old(m).l1_table(virt)->Some_0;
            let w = old(m).leaf_entry(virt)->Some_0;
            let w2 = (w & 0xffff_ffff_ffff_f000) | (flags.bits & 0xfff);
            &&& old(m).leaf_entry(virt) is Some
            &&& final(m).l1_table(virt) == old(m).l1_table(virt)
            &&& final(m).mem.frame(t1)
                == old(m).mem.frame(t1).update(l1_index(virt), w2)
            &&& final(m).mem.same_except(old(m).mem, t1)
            &&& final(m).leaf_entry(virt) == (if w2 != 0 { Some(w2) } else { None })
            &&& *final(m) == (Machine { mem: final(m).mem, ..*old(m) })
        },
{
    let ghost s0 = *old(m);
    let crit = critical::begin(m);
    let ghost sb = *m;
    proof {
        lemma_wf_fields(s0, sb);
    }
    let (t1, i1) = match checked_pml1_entry(m, virt) {
        Ok(p) => p,
        Err(e) => {
            critical::end(m, crit);
            return Err(e);
        }
    };
    let w = m.mem.read_word(t1, i1);
    let mut e = PmlEntry(w);
    e.set_flags(flags);
    proof {
        assert(s0.table_frame_live(t1));
    }
    write_table_word(m, t1, i1, e.0);
    let ghost g1 = *m;
    critical::end(m, crit);
    proof {
        let fin = *m;
        lemma_wf_fields(g1, fin);
        let t3 = s0.l3_table(virt)->Some_0;
        let t2 = s0.l2_table(virt)->Some_0;
        assert(t3 != t1 && t2 != t1 && s0.cr3 != t1);
        assert(fin.mem.frame(s0.cr3) == s0.mem.frame(s0.cr3));
        assert(fin.mem.has_frame(t3) && fin.mem.frame(t3) == s0.mem.frame(t3));
        assert(fin.mem.has_frame(t2) && fin.mem.frame(t2) == s0.mem.frame(t2));
        assert(fin.l3_table(virt) == Some(t3));
        assert(fin.l2_table(virt) == Some(t2));
        assert(fin.mem.has_frame(t1));
        assert(fin.l1_table(virt) == Some(t1));
    }
    Ok(())
}

/// Looks up the frame mapped at `virt`, taking a new owned reference
/// to it.
pub fn virt_to_phys(m: &mut Machine, virt: u64) -> (r: Result<Phys, NotMapped>)
    requires
        old(m).phys_wf(),
        old(m).leaf_entry(virt) is Some ==> {
            let d = entry_addr(old(m).leaf_entry(virt)->Some_0);
            old(m).rc_enabled && old(m).managed(d)
                ==> old(m).rc_of(d)->Some_0 < u64::MAX
                    && !old(m).bump_avail(d) && !old(m).free_list@.contains(d)
        },
    ensures
        final(m).phys_wf(),
        r is Err ==> *final(m) == *old(m)
            && (old(m).leaf_entry(virt) is None
                || entry_addr(old(m).leaf_entry(virt)->Some_0) == 0),
        r is Ok ==> {
            let d = entry_addr(old(m).leaf_entry(virt)->Some_0);
            &&& old(m).leaf_entry(virt) is Some && d != 0
            &&& r->Ok_0.raw == d
            &&& final(m).mem == old(m).mem
            &&& final(m).rc_same_except(*old(m), d)
        },
{
    let ghost s0 = *old(m);
    let crit = critical::begin(m);
    let ghost sb = *m;
    proof {
        lemma_wf_fields(s0, sb);
    }
    let (t1, i1) = match checked_pml1_entry(m, virt) {
        Ok(p) => p,
        Err(e) => {
            critical::end(m, crit);
            return Err(e);
        }
    };
    let w = m.mem.read_word(t1, i1);
    let d = w & 0xffff_ffff_ffff_f000;
    if d == 0 {
        critical::end(m, crit);
        return Err(NotMapped);
    }
    proof {
        assert((w & 0xffff_ffff_ffff_f000) & 0xfff == 0u64) by (bit_vector);
        assert(*m == sb);
        lemma_regions_congruent(s0, sb);
        lemma_rc_congruent(s0, sb);
        lemma_bump_congruent(s0, sb);
        assert(sb.l3_table(virt) == s0.l3_table(virt));
        assert(sb.l2_table(virt) == s0.l2_table(virt));
        assert(sb.l1_table(virt) == s0.l1_table(virt));
        assert(sb.leaf_entry(virt) == s0.leaf_entry(virt));
        assert(s0.leaf_entry(virt) == Some(w));
    }
    let p = Phys::new(m, RawPhys(d));
    let ghost g1 = *m;
    critical::end(m, crit);
    proof {
        let fin = *m;
        lemma_wf_fields(g1, fin);
        lemma_regions_congruent(g1, fin);
        assert forall|g: u64| g != d && page_aligned(g) implies
            #[trigger] fin.rc_of(g) == s0.rc_of(g) by {
            assert(fin.rc_of(g) == g1.rc_of(g));
            assert(g1.rc_of(g) == sb.rc_of(g));
            assert(sb.rc_of(g) == s0.rc_of(g));
        }
    }
    Ok(p)
}

/// Law: mapping a freshly allocated frame and then unmapping it
/// returns the address space and the allocator to where they started —
/// the mapping is gone, the frame is available again, and no frame was
/// gained or lost.
pub fn map_unmap_round_trip(m: &mut Machine, virt: u64, flags: PageFlags)
    -> (r: Option<()>)
    requires
        old(m).phys_wf(),
        old(m).temp is None,
        old(m).rc_enabled,
        old(m).path_live(virt),
        old(m).path_distinct(virt),
        old(m).path_resolved(virt),
        old(m).l1_table(virt) is Some,
        old(m).leaf_entry(virt) is None,
        flags.bits & 0xfff == flags.bits,
    ensures
        final(m).phys_wf(),
        final(m).temp is None,
        r is Some ==> {
            &&& final(m).leaf_entry(virt) is None
            &&& final(m).l1_table(virt) == old(m).l1_table(virt)
            &&& (forall|g: u64|
                #![trigger final(m).avail(g)]
                #![trigger old(m).avail(g)]
                final(m).avail(g) == old(m).avail(g))
        },
{
    let ghost s0 = *old(m);
    let frame = match phys::alloc_frame(m) {
        Ok(p) => p,
        Err(_) => {
            return None;
        }
    };
    let ghost f = frame.raw;
    let ghost m1 = *m;
    proof {
        // the fresh frame is none of the path's table frames
        assert(s0.table_frame_live(s0.cr3));
        assert(!s0.avail(s0.cr3));
        let t3 = s0.l3_table(virt)->Some_0;
        let t2 = s0.l2_table(virt)->Some_0;
        let t1 = s0.l1_table(virt)->Some_0;
        assert(!s0.avail(t3) && !s0.avail(t2) && !s0.avail(t1));
        assert(f != s0.cr3 && f != t3 && f != t2 && f != t1);
        // the path survives the allocation
        assert(m1.cr3 == s0.cr3);
        assert(m1.mem.frame(s0.cr3) == s0.mem.frame(s0.cr3));
        assert(m1.mem.has_frame(t3) && m1.mem.frame(t3) == s0.mem.frame(t3));
        assert(m1.mem.has_frame(t2) && m1.mem.frame(t2) == s0.mem.frame(t2));
        assert(m1.mem.has_frame(t1) && m1.mem.frame(t1) == s0.mem.frame(t1));
        assert(m1.l3_table(virt) == Some(t3));
        assert(m1.l2_table(virt) == Some(t2));
        assert(m1.l1_table(virt) == Some(t1));
        assert(m1.leaf_entry(virt) is None);
        assert forall|g: u64| g != f implies
            (#[trigger] m1.avail(g)) == s0.avail(g) by {
            if page_aligned(g) {
            } else {
                if m1.avail(g) {
                    lemma_avail_aligned(m1, g);
                }
                if s0.avail(g) {
                    lemma_avail_aligned(s0, g);
                }
            }
        }
        assert(m1.path_live(virt)) by {
            assert(m1.table_frame_live(m1.cr3));
            assert(m1.table_frame_live(t3));
            assert(m1.table_frame_live(t2));
            assert(m1.table_frame_live(t1));
        }
        assert(m1.path_distinct(virt));
        assert(m1.path_resolved(virt));
    }
    let mapped = map(m, frame, virt, flags);
    proof {
        assert(mapped is Ok);
    }
    let ghost m2 = *m;
    proof {
        assert(map_ok(m1, m2, f, virt, flags));
        let t1 = m1.l1_table(virt)->Some_0;
        assert(m2.leaf_entry(virt) == Some(f | flags.bits));
        assert(entry_addr(f | flags.bits) == f) by {
            let fb = flags.bits;
            assert((f & 0xfff == 0 && fb & 0xfff == fb)
                ==> ((f | fb) & 0xffff_ffff_ffff_f000) == f) by (bit_vector);
        }
        // requirements of the unmap that follows
        assert(m2.path_live(virt)) by {
            lemma_avail_congruent(m1, m2);
            assert(m2.table_frame_live(m2.cr3));
            assert(m2.table_frame_live(m1.l3_table(virt)->Some_0));
            assert(m2.table_frame_live(m1.l2_table(virt)->Some_0));
            assert(m2.table_frame_live(t1));
        }
        assert(m2.path_distinct(virt));
        assert(leaf_release_ok(m2, f)) by {
            assert(m2.rc == m1.rc);
            lemma_rc_congruent(m1, m2);
            assert(m2.rc_of(f) == Some(1u64));
        }
        assert(!m2.in_path(virt, f));
    }
    let unmapped = unmap(m, virt);
    proof {
        assert(unmapped is Ok);
        let fin = *m;
        assert(unmap_ok(m2, fin, virt));
        assert(fin.rc_of(f) == Some(0u64));
        assert(fin.free_list@ == seq![f] + m2.free_list@);
        assert forall|g: u64|
            #![trigger fin.avail(g)]
            #![trigger s0.avail(g)]
            fin.avail(g) == s0.avail(g) by {
            if g == f {
                assert(fin.free_list@[0] == f);
                assert(fin.free_list@.contains(f));
                assert(fin.avail(f));
                assert(s0.avail(f));
            } else {
                assert(fin.avail(g) == m2.avail(g)) by {
                    lemma_bump_congruent(m2, fin);
                    if m2.free_list@.contains(g) {
                        let k = choose|k: int| 0 <= k < m2.free_list@.len()
                            && m2.free_list@[k] == g;
                        assert(fin.free_list@[k + 1] == g);
                        assert(fin.free_list@.contains(g));
                    }
                    if fin.free_list@.contains(g) {
                        let k = choose|k: int| 0 <= k < fin.free_list@.len()
                            && fin.free_list@[k] == g;
                        assert(k != 0);
                        assert(m2.free_list@[k - 1] == g);
                        assert(m2.free_list@.contains(g));
                    }
                }
                assert(m2.avail(g) == m1.avail(g)) by {
                    lemma_avail_congruent(m1, m2);
                }
            }
        }
    }
    Some(())
}


/// One address space: an owned reference to its PML4 frame. Cloning
/// an address space is a reference-count bump on the PML4 alone; the
/// lower tables are shared through the page tables themselves.
pub struct PageCtx {
    pub pml4: Phys,
}

impl PageCtx {
    /// Builds a fresh address space: a new PML4 whose kernel half is
    /// copied from the current one and whose last slot maps the table
    /// onto itself.
    pub fn new(m: &mut Machine) -> (r: Result<PageCtx, MemoryExhausted>)
        requires
            old(m).phys_wf(),
            old(m).temp is None,
            old(m).table_frame_live(old(m).cr3),
        ensures
            final(m).phys_wf(),
            final(m).temp is None,
            r is Err <==> (forall|f: u64| !old(m).avail(f)),
            r is Err ==> *final(m) == *old(m),
            r is Ok ==> {
                let p = r->Ok_0.pml4.raw;
                &&& p != 0 && page_aligned(p) && p != old(m).cr3
                &&& final(m).mem.has_frame(p)
                &&& (forall|j: int| 0 <= j < 256 ==> final(m).mem.frame(p)[j] == 0)
                &&& (forall|j: int| 256 <= j < 511
                    ==> final(m).mem.frame(p)[j] == old(m).mem.frame(old(m).cr3)[j])
                &&& final(m).mem.frame(p)[511] == p | 0x3
                &&& final(m).mem.same_except(old(m).mem, p)
                &&& final(m).cr3 == old(m).cr3
                &&& final(m).iflag == old(m).iflag
                &&& (old(m).rc_enabled ==> final(m).rc_of(p) == Some(1u64))
                &&& final(m).rc_same_except(*old(m), p)
                &&& !final(m).avail(p)
                &&& (forall|g: u64| g != p && page_aligned(g)
                    ==> (#[trigger] final(m).avail(g)) == old(m).avail(g))
            },
    {
        let ghost s0 = *old(m);
        let pml4 = match phys::alloc_frame(m) {
            Ok(p) => p,
            Err(e) => {
                return Err(e);
            }
        };
        let ghost m1 = *m;
        let raw = pml4.into_raw();
        let p = raw.0;
        let cr3 = m.cr3;
        proof {
            assert(p != cr3);
            assert(m1.mem.frame(p) == zero_page());
            assert(m1.mem.has_frame(cr3) && m1.mem.frame(cr3) == s0.mem.frame(s0.cr3));
            assert(!m1.free_list@.contains(p));
        }
        let crit = critical::begin(m);
        temp_map(m, RawPhys(p), &crit);
        proof {
            let ghost mt = *m;
            lemma_wf_fields(m1, mt);
        }
        let mut i: usize = 256;
        while i < 511
            invariant
                256 <= i <= 511,
                m.phys_wf(),
                m.temp == Some(p),
                m.cr3 == cr3,
                p != cr3,
                m.mem.has_frame(p),
                m.mem.has_frame(cr3),
                m.mem.frame(cr3) == m1.mem.frame(cr3),
                m.mem.same_except(m1.mem, p),
                forall|j: int| 0 <= j < 256 ==> m.mem.frame(p)[j] == 0,
                forall|j: int| 256 <= j < i ==> m.mem.frame(p)[j] == m1.mem.frame(cr3)[j],
                forall|j: int| i <= j < 512 ==> m.mem.frame(p)[j] == 0,
                !m.free_list@.contains(p),
                m.free_list == m1.free_list,
                m.free_head == m1.free_head,
                m.cursors == m1.cursors,
                m.rc == m1.rc,
                m.regions == m1.regions,
                m.rc_enabled == m1.rc_enabled,
                m.kv_next == m1.kv_next,
                m.kv_free == m1.kv_free,
                m.heap == m1.heap,
                m1.phys_wf(),
                m.mem.frame(p).len() == 512,
            decreases 511 - i,
        {
            let e = m.mem.read_word(cr3, i);
            write_table_word(m, p, i, e);
            proof {
                assert forall|g: u64| g != p implies
                    (#[trigger] m.mem.has_frame(g) <==> m1.mem.has_frame(g)) by {}
                assert forall|g: u64| g != p && m.mem.has_frame(g) implies
                    #[trigger] m.mem.frame(g) == m1.mem.frame(g) by {}
            }
            i += 1;
        }
        write_table_word(m, p, 511, p | 0x3);
        let ghost g2 = *m;
        temp_unmap(m, &crit);
        critical::end(m, crit);
        proof {
            let fin = *m;
            lemma_wf_fields(g2, fin);
            lemma_regions_congruent(m1, fin);
            lemma_rc_congruent(m1, fin);
            assert forall|g: u64| g != p implies
                (#[trigger] fin.mem.has_frame(g) <==> m1.mem.has_frame(g)) by {}
            assert forall|g: u64| g != p && fin.mem.has_frame(g) implies
                #[trigger] fin.mem.frame(g) == m1.mem.frame(g) by {}
            assert(fin.mem.same_except(s0.mem, p)) by {
                assert forall|g: u64| g != p implies
                    (#[trigger] fin.mem.has_frame(g) <==> s0.mem.has_frame(g)) by {}
                assert forall|g: u64| g != p && fin.mem.has_frame(g) implies
                    #[trigger] fin.mem.frame(g) == s0.mem.frame(g) by {}
            }
            if s0.rc_enabled {
                assert(fin.rc_of(p) == m1.rc_of(p));
            }
            assert forall|g: u64| g != p && page_aligned(g) implies
                #[trigger] fin.rc_of(g) == s0.rc_of(g) by {
                assert(fin.rc_of(g) == m1.rc_of(g));
            }
            assert(!fin.avail(p)) by {
                lemma_avail_congruent(m1, fin);
            }
            assert forall|g: u64| g != p && page_aligned(g) implies
                (#[trigger] fin.avail(g)) == s0.avail(g) by {
                lemma_avail_congruent(m1, fin);
            }
        }
        Ok(PageCtx { pml4: Phys::from_raw(RawPhys(p)) })
    }
}

/// Writes the given address space's PML4 into CR3 and drops the count
/// unit held by the frame that was there.
pub fn set_ctx(m: &mut Machine, ctx: PageCtx)
    requires
        old(m).phys_wf(),
        old(m).temp is None,
        page_aligned(old(m).cr3),
        old(m).cr3 != 0,
        leaf_release_ok(*old(m), old(m).cr3),
    ensures
        final(m).phys_wf(),
        final(m).temp is None,
        final(m).cr3 == ctx.pml4.raw,
        final(m).rc_enabled == old(m).rc_enabled,
        final(m).iflag == old(m).iflag,
        final(m).regions == old(m).regions,
        final(m).cursors == old(m).cursors,
        final(m).kv_next == old(m).kv_next,
        final(m).kv_free == old(m).kv_free,
        final(m).heap == old(m).heap,
        final(m).rc_same_except(*old(m), old(m).cr3),
        final(m).mem.same_except(old(m).mem, old(m).cr3),
        final(m).rc_enabled && final(m).managed(old(m).cr3)
            ==> final(m).rc_of(old(m).cr3)
                == Some((old(m).rc_of(old(m).cr3)->Some_0 - 1) as u64),
        !(old(m).rc_enabled && old(m).managed(old(m).cr3)
                && old(m).rc_of(old(m).cr3) == Some(1u64)) ==> {
            &&& final(m).mem == old(m).mem
            &&& final(m).free_list == old(m).free_list
            &&& final(m).free_head == old(m).free_head
        },
{
    let old_cr3 = m.cr3;
    let new_cr3 = ctx.pml4.into_raw();
    m.cr3 = new_cr3.0;
    let ghost g1 = *m;
    proof {
        lemma_wf_fields(*old(m), g1);
        lemma_regions_congruent(*old(m), g1);
        lemma_rc_congruent(*old(m), g1);
        lemma_bump_congruent(*old(m), g1);
    }
    let dropped = Phys::from_raw(RawPhys(old_cr3));
    dropped.release(m);
    proof {
        assert forall|g: u64| g != old_cr3 && page_aligned(g) implies
            #[trigger] m.rc_of(g) == old(m).rc_of(g) by {
            assert(m.rc_of(g) == g1.rc_of(g));
        }
    }
}

/// A handle to the current address space, with its own count unit.
pub fn current_ctx(m: &mut Machine) -> (r: PageCtx)
    requires
        old(m).phys_wf(),
        page_aligned(old(m).cr3),
        old(m).rc_enabled && old(m).managed(old(m).cr3)
            ==> old(m).rc_of(old(m).cr3)->Some_0 < u64::MAX
                && !old(m).bump_avail(old(m).cr3)
                && !old(m).free_list@.contains(old(m).cr3),
    ensures
        final(m).phys_wf(),
        r.pml4.raw == old(m).cr3,
        final(m).mem == old(m).mem,
        final(m).cr3 == old(m).cr3,
        final(m).temp == old(m).temp,
        final(m).rc_same_except(*old(m), old(m).cr3),
        old(m).rc_enabled && old(m).managed(old(m).cr3)
            ==> final(m).rc_of(old(m).cr3)
                == Some((old(m).rc_of(old(m).cr3)->Some_0 + 1) as u64),
    {
    let raw = m.cr3;
    let pml4 = Phys::new(m, RawPhys(raw));
    PageCtx { pml4 }
}

/// Fills every empty kernel-half PML4 slot (256 to 510) with a fresh
/// zeroed table, so all address spaces can share one kernel half.
pub fn init_kernel_pml4_entries(m: &mut Machine, _crit: &Critical)
    -> (r: Result<(), MemoryExhausted>)
    requires
        old(m).phys_wf(),
        old(m).temp is None,
        old(m).table_frame_live(old(m).cr3),
    ensures
        final(m).phys_wf(),
        final(m).temp is None,
        final(m).cr3 == old(m).cr3,
        r is Ok ==> forall|j: int| 256 <= j < 511
            ==> final(m).mem.frame(final(m).cr3)[j] != 0,
        // failure comes from the frame allocator alone: it means the
        // machine ran out of physical frames
        r is Err ==> (forall|f: u64| !final(m).avail(f)),
{
    let cr3 = m.cr3;
    let mut i: usize = 256;
    while i < 511
        invariant
            256 <= i <= 511,
            m.phys_wf(),
            m.temp is None,
            m.cr3 == cr3,
            cr3 == old(m).cr3,
            m.table_frame_live(cr3),
            forall|j: int| 256 <= j < i ==> m.mem.frame(cr3)[j] != 0,
        decreases 511 - i,
    {
        let e = m.mem.read_word(cr3, i);
        if e == 0 {
            let ghost gpre = *m;
            let tab = match phys::alloc_frame(m) {
                Ok(t) => t,
                Err(e) => {
                    return Err(e);
                }
            };
            let ghost g1 = *m;
            let traw = tab.into_raw();
            proof {
                assert(traw.0 != cr3);
                assert(g1.mem.frame(cr3) == gpre.mem.frame(cr3));
                assert(!g1.free_list@.contains(cr3));
                let t0 = traw.0;
                assert((t0 & 0xfff == 0 && t0 != 0) ==> (t0 | 0x7) != 0u64) by (bit_vector);
            }
            write_table_word(m, cr3, i, traw.0 | 0x7);
            proof {
                assert(m.table_frame_live(cr3)) by {
                    lemma_avail_congruent(g1, *m);
                    assert(!g1.avail(cr3)) by {
                        assert(gpre.table_frame_live(cr3));
                        assert(g1.avail(cr3) == gpre.avail(cr3));
                    }
                }
            }
        }
        i += 1;
    }
    Ok(())
}

/// The frames referenced by the entries of table `t` and, below it,
/// of every table it reaches: each written entry contributes its
/// target once, followed by that target's own references when it is a
/// table level. `upto` bounds the entries of `t` considered.
pub open spec fn table_refs(mem: crate::machine::PhysMem, t: u64, level: int, upto: int)
    -> Seq<u64>
    decreases level, upto,
{
    if upto <= 0 || level <= 0 {
        Seq::empty()
    } else {
        let prefix = table_refs(mem, t, level, upto - 1);
        let e = if mem.has_frame(t) { mem.frame(t)[upto - 1] } else { 0u64 };
        if entry_addr(e) != 0 {
            let d = entry_addr(e);
            if level > 1 && mem.has_frame(d) {
                prefix + seq![d] + table_refs(mem, d, level - 1, 512)
            } else {
                prefix + seq![d]
            }
        } else {
            prefix
        }
    }
}

/// Every frame referenced from the current page tables, visited once
/// per reference: the root's frame first, then the references of the
/// whole tree, skipping the recursive slot.
pub open spec fn boot_refs(m: Machine) -> Seq<u64> {
    seq![m.cr3] + table_refs(m.mem, m.cr3, 4, 511)
}

/// Collects the references of one table, in entry order.
fn collect_refs(m: &Machine, t: u64, level: u64, max: usize) -> (r: Vec<u64>)
    requires
        m.mem.wf(),
        1 <= level <= 4,
        max <= 512,
    ensures
        r@ == table_refs(m.mem, t, level as int, max as int),
    decreases level,
{
    let mut out: Vec<u64> = Vec::new();
    let present = m.mem.contains(t);
    let mut i: usize = 0;
    while i < max
        invariant
            i <= max,
            max <= 512,
            1 <= level <= 4,
            m.mem.wf(),
            present == m.mem.has_frame(t),
            out@ == table_refs(m.mem, t, level as int, i as int),
        decreases max - i,
    {
        let e = if present { m.mem.read_word(t, i) } else { 0 };
        let d = e & 0xffff_ffff_ffff_f000;
        proof {
            assert(d == entry_addr(e));
            if !present {
                assert(entry_addr(0) == 0u64) by (bit_vector);
            }
        }
        if d != 0 {
            out.push(d);
            if level > 1 && m.mem.contains(d) {
                let mut sub = collect_refs(m, d, level - 1, 512);
                out.append(&mut sub);
            }
        }
        proof {
            assert(out@ =~= table_refs(m.mem, t, level as int, i as int + 1));
        }
        i += 1;
    }
    out
}

/// Walks the whole current address space, yielding the root and every
/// frame a written entry points at, once per reference; the recursive
/// slot is skipped.
pub fn each_phys(m: &Machine) -> (r: Vec<u64>)
    requires
        m.mem.wf(),
    ensures
        r@ == boot_refs(*m),
{
    let mut out: Vec<u64> = Vec::new();
    out.push(m.cr3);
    let mut refs = collect_refs(m, m.cr3, 4, 511);
    out.append(&mut refs);
    proof {
        assert(out@ =~= boot_refs(*m));
    }
    out
}


/// A reference the counters can credit: page aligned, and when some
/// region covers it, outside the allocator's free and bump space.
pub open spec fn countable_ref(m: Machine, f: u64) -> bool {
    &&& page_aligned(f)
    &&& (m.managed(f) ==> !m.bump_avail(f) && !m.free_list@.contains(f))
}

/// Every reference of the current page tables can be counted.
pub open spec fn boot_refs_countable(m: Machine) -> bool {
    forall|k: int| 0 <= k < boot_refs(m).len()
        ==> countable_ref(m, #[trigger] boot_refs(m)[k])
}

/// Switches reference counting on, first crediting one count per
/// reference found in the live page tables, plus one for the root
/// itself.
pub fn init_ref_counts(m: &mut Machine, _crit: &Critical)
    requires
        old(m).phys_wf(),
        !old(m).rc_enabled,
        forall|f: u64| page_aligned(f) && old(m).managed(f)
            ==> old(m).rc_of(f) == Some(0u64),
        boot_refs_countable(*old(m)),
        page_aligned(old(m).cr3),
        boot_refs(*old(m)).len() < 0xffff_ffff_ffff_ffff,
    ensures
        final(m).phys_wf(),
        final(m).rc_enabled,
        final(m).mem == old(m).mem,
        final(m).cr3 == old(m).cr3,
        final(m).temp == old(m).temp,
        final(m).iflag == old(m).iflag,
        final(m).free_list == old(m).free_list,
        final(m).free_head == old(m).free_head,
        final(m).cursors == old(m).cursors,
        final(m).regions == old(m).regions,
        final(m).kv_next == old(m).kv_next,
        final(m).kv_free == old(m).kv_free,
        final(m).heap == old(m).heap,
        final(m).managed(old(m).cr3) ==> final(m).rc_of(old(m).cr3)->Some_0 >= 1,
        // only walked references and the root were credited
        forall|f: u64| page_aligned(f) && !boot_refs(*old(m)).contains(f)
                && f != old(m).cr3
            ==> (#[trigger] final(m).rc_of(f)) == old(m).rc_of(f),
{
    let ghost s0 = *old(m);
    let refs = each_phys(m);
    let n = refs.len();
    proof {
        assert forall|f: u64| s0.bump_avail(f) implies
            #[trigger] m.rc_of(f) == Some(0u64) by {
            let i = choose|i: int| 0 <= i < s0.regions_seq().len()
                && #[trigger] s0.bump_avail_in(i, f);
            assert(s0.region_wf(i));
            assert(crate::mem::phys::slot_contains(s0.regions_seq()[i], f));
            assert(s0.managed(f));
        }
    }
    let mut k: usize = 0;
    while k < n
        invariant
            k <= n,
            n == boot_refs(s0).len(),
            refs@ == boot_refs(s0),
            s0 == *old(m),
            boot_refs_countable(s0),
            m.phys_wf(),
            !m.rc_enabled,
            m.mem == s0.mem,
            m.cr3 == s0.cr3,
            m.temp == s0.temp,
            m.iflag == s0.iflag,
            m.free_list == s0.free_list,
            m.free_head == s0.free_head,
            m.cursors == s0.cursors,
            m.regions == s0.regions,
            m.kv_next == s0.kv_next,
            m.kv_free == s0.kv_free,
            m.heap == s0.heap,
            n <= usize::MAX,
            n < 0xffff_ffff_ffff_ffff,
            forall|f: u64| page_aligned(f) && m.managed(f)
                ==> (#[trigger] m.rc_of(f)) is Some && m.rc_of(f)->Some_0 <= k,
            forall|f: u64| s0.bump_avail(f) ==> #[trigger] m.rc_of(f) == Some(0u64),
            forall|f: u64| page_aligned(f) && !boot_refs(s0).contains(f)
                ==> (#[trigger] m.rc_of(f)) == s0.rc_of(f),
        decreases n - k,
    {
        let f = refs[k];
        let ghost gp = *m;
        proof {
            lemma_regions_congruent(s0, gp);
            lemma_bump_congruent(s0, gp);
            assert(countable_ref(s0, boot_refs(s0)[k as int]));
            assert(page_aligned(f));
            if gp.managed(f) {
                assert(s0.managed(f));
                assert(!s0.bump_avail(f) && !s0.free_list@.contains(f));
                assert(!gp.bump_avail(f));
                assert(gp.rc_of(f)->Some_0 <= k);
            }
        }
        crate::mem::phys::inc_ref_for_init(m, f);
        proof {
            lemma_regions_congruent(gp, *m);
            assert forall|f2: u64| page_aligned(f2) && m.managed(f2) implies
                (#[trigger] m.rc_of(f2)) is Some && m.rc_of(f2)->Some_0 <= k + 1 by {
                assert(gp.managed(f2));
                if f2 != f {
                    assert(m.rc_of(f2) == gp.rc_of(f2));
                }
            }
            assert forall|f2: u64| page_aligned(f2) && !boot_refs(s0).contains(f2)
                implies (#[trigger] m.rc_of(f2)) == s0.rc_of(f2) by {
                assert(f2 != f) by {
                    if f2 == f {
                        assert(boot_refs(s0)[k as int] == f);
                        assert(boot_refs(s0).contains(f));
                    }
                }
                assert(m.rc_of(f2) == gp.rc_of(f2));
            }
            assert forall|f2: u64| s0.bump_avail(f2) implies
                #[trigger] m.rc_of(f2) == Some(0u64) by {
                assert(gp.rc_of(f2) == Some(0u64));
                assert(f2 != f) by {
                    if f2 == f {
                        assert(gp.bump_avail(f2));
                        assert(gp.managed(f2)) by {
                            let i = choose|i: int| 0 <= i < gp.regions_seq().len()
                                && #[trigger] gp.bump_avail_in(i, f2);
                            assert(gp.region_wf(i));
                            assert(crate::mem::phys::slot_contains(
                                gp.regions_seq()[i], f2));
                        }
                        assert(!gp.bump_avail(f2));
                    }
                }
                assert(m.rc_of(f2) == gp.rc_of(f2)) by {
                    assert(page_aligned(f2)) by {
                        let i = choose|i: int| 0 <= i < s0.regions_seq().len()
                            && #[trigger] s0.bump_avail_in(i, f2);
                    }
                }
            }
        }
        k += 1;
    }
    let cr3 = m.cr3;
    let ghost gp = *m;
    proof {
        lemma_regions_congruent(s0, gp);
        lemma_bump_congruent(s0, gp);
        if gp.managed(cr3) {
            assert(s0.managed(cr3));
            assert(boot_refs(s0)[0] == s0.cr3);
            assert(!s0.bump_avail(cr3) && !s0.free_list@.contains(cr3));
            assert(!gp.bump_avail(cr3));
        }
    }
    proof {
        assert(boot_refs(s0).len() >= 1);
        assert(countable_ref(s0, boot_refs(s0)[0]));
        assert(boot_refs(s0)[0] == s0.cr3);
    }
    crate::mem::phys::inc_ref_for_init(m, cr3);
    let ghost g2 = *m;
    m.rc_enabled = true;
    proof {
        let fin = *m;
        lemma_regions_congruent(g2, fin);
        lemma_bump_congruent(g2, fin);
        lemma_rc_congruent(g2, fin);
        assert forall|j: int| 0 <= j < fin.regions_seq().len() implies
            #[trigger] fin.region_wf(j) by {
            assert(g2.region_wf(j));
        }
        assert forall|kk: int| 0 <= kk < fin.free_list@.len() implies
            #[trigger] fin.free_frame_wf(kk) by {
            assert(g2.free_frame_wf(kk));
            let fr = g2.free_list@[kk];
            assert(fin.rc_of(fr) == g2.rc_of(fr));
        }
        assert forall|g: u64| #[trigger] fin.bump_avail(g) implies
            !fin.mem.has_frame(g) by {
            assert(g2.bump_avail(g));
        }
        assert forall|g: u64| #[trigger] fin.bump_avail(g) implies
            fin.rc_of(g) == Some(0u64) by {
            assert(g2.bump_avail(g));
            lemma_bump_congruent(s0, g2);
            lemma_regions_congruent(s0, g2);
            assert(s0.bump_avail(g));
            // bump frames were never credited
            assert(g2.rc_of(g) == Some(0u64)) by {
                assert(gp.rc_of(g) == Some(0u64));
                assert(g != s0.cr3) by {
                    if g == s0.cr3 {
                        assert(countable_ref(s0, boot_refs(s0)[0]));
                        assert(s0.managed(g)) by {
                            let i = choose|i: int| 0 <= i < s0.regions_seq().len()
                                && #[trigger] s0.bump_avail_in(i, g);
                            assert(s0.region_wf(i));
                            assert(crate::mem::phys::slot_contains(
                                s0.regions_seq()[i], g));
                        }
                        assert(!s0.bump_avail(g));
                    }
                }
                assert(page_aligned(g)) by {
                    let i = choose|i: int| 0 <= i < s0.regions_seq().len()
                        && #[trigger] s0.bump_avail_in(i, g);
                }
                assert(g2.rc_of(g) == gp.rc_of(g));
            }
            assert(fin.rc_of(g) == g2.rc_of(g));
        }
        if fin.managed(s0.cr3) {
            assert(fin.rc_of(s0.cr3)->Some_0 >= 1) by {
                lemma_regions_congruent(s0, gp);
                assert(gp.managed(cr3));
                assert(g2.rc_of(cr3) == Some((gp.rc_of(cr3)->Some_0 + 1) as u64));
                assert(gp.rc_of(cr3)->Some_0 <= n);
                assert(fin.rc_of(cr3) == g2.rc_of(cr3));
            }
        }
    }
}

} // verus!
