//! The reference-counted physical frame allocator.
//!
//! Usable RAM is registered at boot as up to eight regions, each with a
//! bump cursor. `alloc` prefers the free list — an intrusive stack
//! threaded through the first word of each free frame — and falls back
//! to bumping the first region with space left. Every frame handed out
//! is zero-filled. A [`Phys`] value owns one unit of a frame's
//! reference count; releasing the last unit returns the frame to the
//! free list.

use vstd::prelude::*;
use crate::bounded::{region_slots, cursor_slots};
use crate::bounded;
use crate::critical;
use crate::machine::{Machine, zero_page};
use crate::mem::MemoryExhausted;
use crate::mem::page;

verus! {

/// Largest physical address the allocator will manage.
pub const MAX_PHYS_PAGE: u64 = 0x1_0000_0000_0000;

/// A raw physical frame address, 4 KiB aligned. Carries no ownership.
#[derive(Clone, Copy, PartialEq, Eq, Structural, Debug)]
pub struct RawPhys(pub u64);

/// An owned reference to a physical frame: one unit of its reference
/// count. Dropping the last unit through [`Phys::release`] frees the
/// frame.
pub struct Phys {
    pub raw: u64,
}

/// Whether a physical address is 4 KiB aligned.
pub open spec fn page_aligned(f: u64) -> bool {
    f & 0xfff == 0
}

/// Whether `f` falls in the half-open region `slot`.
pub open spec fn slot_contains(slot: (u64, u64), f: u64) -> bool {
    slot.0 <= f < slot.1
}

/// Index of `f`'s counter inside its region's counter vector.
pub open spec fn rc_slot(slot: (u64, u64), f: u64) -> int {
    (((f - slot.0) as u64) >> 12) as int
}

impl Machine {
    pub open spec fn regions_seq(self) -> Seq<(u64, u64)> {
        region_slots(self.regions)
    }

    pub open spec fn cursors_seq(self) -> Seq<u64> {
        cursor_slots(self.cursors)
    }

    /// Whether some registered region covers `f`; addresses outside any
    /// region (memory-mapped hardware) have no counter.
    pub open spec fn managed(self, f: u64) -> bool {
        exists|i: int| 0 <= i < self.regions_seq().len()
            && #[trigger] slot_contains(self.regions_seq()[i], f)
    }

    /// The region covering `f`.
    pub open spec fn region_of(self, f: u64) -> int {
        choose|i: int| 0 <= i < self.regions_seq().len()
            && #[trigger] slot_contains(self.regions_seq()[i], f)
    }

    /// The reference count of `f`, or `None` where no region covers it.
    pub open spec fn rc_of(self, f: u64) -> Option<u64> {
        if self.managed(f) {
            let i = self.region_of(f);
            Some(self.rc@[i]@[rc_slot(self.regions_seq()[i], f)])
        } else {
            None
        }
    }

    /// Well-formedness of region `i` and its cursor and counters.
    pub open spec fn region_wf(self, i: int) -> bool {
        let (b, e) = self.regions_seq()[i];
        let c = self.cursors_seq()[i];
        &&& page_aligned(b) && page_aligned(e) && page_aligned(c)
        &&& 0 < b <= c <= e < MAX_PHYS_PAGE
        &&& self.rc@[i]@.len() as int == (((e - b) as u64) >> 12) as int
    }

    /// Frame `k` of the free list, with its link word and zero count.
    pub open spec fn free_frame_wf(self, k: int) -> bool {
        let f = self.free_list@[k];
        &&& f != 0 && page_aligned(f)
        &&& self.managed(f)
        &&& self.mem.has_frame(f)
        &&& self.mem.frame(f)[0] == (if k + 1 < self.free_list@.len() {
                self.free_list@[k + 1]
            } else {
                0u64
            })
        &&& self.rc_of(f) == Some(0u64)
    }

    /// Whether `f` is still unallocated bump space of region `i`.
    pub open spec fn bump_avail_in(self, i: int, f: u64) -> bool {
        &&& self.cursors_seq()[i] <= f < self.regions_seq()[i].1
        &&& page_aligned(f)
    }

    /// Whether `f` is still unallocated bump space.
    pub open spec fn bump_avail(self, f: u64) -> bool {
        exists|i: int| 0 <= i < self.regions_seq().len()
            && #[trigger] self.bump_avail_in(i, f)
    }

    /// Whether the allocator could hand out `f`: free-listed or bump
    /// space.
    pub open spec fn avail(self, f: u64) -> bool {
        self.free_list@.contains(f) || self.bump_avail(f)
    }

    /// Whether region `i` is the lowest-numbered one with bump space
    /// left.
    pub open spec fn is_first_bump(self, i: int) -> bool {
        &&& 0 <= i < self.regions_seq().len()
        &&& self.cursors_seq()[i] < self.regions_seq()[i].1
        &&& forall|j: int| 0 <= j < i ==>
                #[trigger] self.cursors_seq()[j] >= self.regions_seq()[j].1
    }

    /// The lowest-numbered region whose cursor has not reached its end.
    pub open spec fn first_bump_region(self) -> Option<int> {
        if exists|i: int| #[trigger] self.is_first_bump(i) {
            Some(choose|i: int| #[trigger] self.is_first_bump(i))
        } else {
            None
        }
    }

    /// Registered regions do not overlap.
    pub open spec fn regions_disjoint(self) -> bool {
        forall|i: int, j: int|
            0 <= i < self.regions_seq().len() && 0 <= j < self.regions_seq().len() && i != j
                ==> (#[trigger] self.regions_seq()[i]).1 <= (#[trigger] self.regions_seq()[j]).0
                    || self.regions_seq()[j].1 <= self.regions_seq()[i].0
    }

    /// The frame allocator's invariant.
    pub open spec fn phys_wf(self) -> bool {
        &&& self.mem.wf()
        &&& self.regions_seq().len() == self.cursors_seq().len()
        &&& self.rc@.len() == self.regions_seq().len()
        &&& self.regions_seq().len() <= 8
        &&& forall|i: int| 0 <= i < self.regions_seq().len() ==> #[trigger] self.region_wf(i)
        &&& self.regions_disjoint()
        // the intrusive free list
        &&& self.free_head == (if self.free_list@.len() == 0 {
                0u64
            } else {
                self.free_list@[0]
            })
        &&& forall|k: int| 0 <= k < self.free_list@.len() ==> #[trigger] self.free_frame_wf(k)
        &&& forall|k: int, l: int| 0 <= k < l < self.free_list@.len()
                ==> self.free_list@[k] != self.free_list@[l]
        // bump space has never been touched
        &&& forall|f: u64| #[trigger] self.bump_avail(f) ==> !self.mem.has_frame(f)
        // once counting is on, bump space counts zero
        &&& self.rc_enabled ==>
                forall|f: u64| #[trigger] self.bump_avail(f) ==> self.rc_of(f) == Some(0u64)
    }

    /// The counters of every aligned frame but `f` agree with `other`.
    pub open spec fn rc_same_except(self, other: Machine, f: u64) -> bool {
        forall|g: u64| g != f && page_aligned(g)
            ==> #[trigger] self.rc_of(g) == other.rc_of(g)
    }

    /// Region table, enablement flag and everything outside the frame
    /// allocator agree with `other`.
    pub open spec fn phys_frame_ops_only(self, other: Machine) -> bool {
        &&& self.regions == other.regions
        &&& self.rc_enabled == other.rc_enabled
        &&& self.cr3 == other.cr3
        &&& self.iflag == other.iflag
        &&& self.kv_next == other.kv_next
        &&& self.kv_free == other.kv_free
        &&& self.heap == other.heap
    }
}

pub(crate) proof fn lemma_region_of_contains(m: Machine, f: u64)
    requires
        m.managed(f),
    ensures
        0 <= m.region_of(f) < m.regions_seq().len(),
        slot_contains(m.regions_seq()[m.region_of(f)], f),
{
}

pub(crate) proof fn lemma_region_of_unique(m: Machine, f: u64, i: int)
    requires
        m.regions_disjoint(),
        0 <= i < m.regions_seq().len(),
        slot_contains(m.regions_seq()[i], f),
    ensures
        m.managed(f),
        m.region_of(f) == i,
{
    assert(m.managed(f));
    let j = m.region_of(f);
    if j != i {
        assert(slot_contains(m.regions_seq()[j], f));
        assert(m.regions_seq()[i].1 <= m.regions_seq()[j].0
            || m.regions_seq()[j].1 <= m.regions_seq()[i].0);
    }
}

/// Two machines with the same region table agree on coverage.
pub(crate) proof fn lemma_regions_congruent(m1: Machine, m2: Machine)
    requires
        m1.regions_seq() == m2.regions_seq(),
        m1.regions_disjoint(),
    ensures
        m2.regions_disjoint(),
        forall|f: u64|
            #![trigger m1.managed(f)]
            #![trigger m2.managed(f)]
            m1.managed(f) == m2.managed(f),
        forall|f: u64|
            #![trigger m1.region_of(f)]
            #![trigger m2.region_of(f)]
            m1.managed(f) ==> m1.region_of(f) == m2.region_of(f),
{
    assert forall|f: u64|
        #![trigger m1.managed(f)]
        #![trigger m2.managed(f)]
        m1.managed(f) == m2.managed(f) by {
        if m1.managed(f) {
            let i = m1.region_of(f);
            assert(slot_contains(m1.regions_seq()[i], f));
            assert(slot_contains(m2.regions_seq()[i], f));
            assert(m2.managed(f));
        }
        if m2.managed(f) {
            let i = m2.region_of(f);
            assert(slot_contains(m2.regions_seq()[i], f));
            assert(slot_contains(m1.regions_seq()[i], f));
            assert(m1.managed(f));
        }
    }
    assert forall|f: u64|
        #![trigger m1.region_of(f)]
        #![trigger m2.region_of(f)]
        m1.managed(f) implies m1.region_of(f) == m2.region_of(f) by {
        let i = m1.region_of(f);
        assert(slot_contains(m1.regions_seq()[i], f));
        lemma_region_of_unique(m1, f, i);
        assert(slot_contains(m2.regions_seq()[i], f));
        lemma_region_of_unique(m2, f, i);
    }
}

/// Two machines with the same regions and cursors agree on bump space.
pub(crate) proof fn lemma_bump_congruent(m1: Machine, m2: Machine)
    requires
        m1.regions_seq() == m2.regions_seq(),
        m1.cursors_seq() == m2.cursors_seq(),
    ensures
        forall|f: u64|
            #![trigger m1.bump_avail(f)]
            #![trigger m2.bump_avail(f)]
            m1.bump_avail(f) == m2.bump_avail(f),
{
    assert forall|f: u64|
        #![trigger m1.bump_avail(f)]
        #![trigger m2.bump_avail(f)]
        m1.bump_avail(f) == m2.bump_avail(f) by {
        if m1.bump_avail(f) {
            let i = choose|i: int| 0 <= i < m1.regions_seq().len()
                && #[trigger] m1.bump_avail_in(i, f);
            assert(m2.bump_avail_in(i, f));
        }
        if m2.bump_avail(f) {
            let i = choose|i: int| 0 <= i < m2.regions_seq().len()
                && #[trigger] m2.bump_avail_in(i, f);
            assert(m1.bump_avail_in(i, f));
        }
    }
}

/// Two machines with the same region table and counters agree on every
/// reference count.
pub(crate) proof fn lemma_rc_congruent(m1: Machine, m2: Machine)
    requires
        m1.regions_seq() == m2.regions_seq(),
        m1.regions_disjoint(),
        m1.rc@ == m2.rc@,
    ensures
        forall|f: u64|
            #![trigger m1.rc_of(f)]
            #![trigger m2.rc_of(f)]
            m1.rc_of(f) == m2.rc_of(f),
{
    lemma_regions_congruent(m1, m2);
    assert forall|f: u64|
        #![trigger m1.rc_of(f)]
        #![trigger m2.rc_of(f)]
        m1.rc_of(f) == m2.rc_of(f) by {
        if m1.managed(f) {
            assert(m2.managed(f));
            assert(m1.region_of(f) == m2.region_of(f));
        } else {
            assert(!m2.managed(f));
        }
    }
}

/// Two machines with the same regions, cursors and free list agree on
/// what the allocator could hand out.
pub(crate) proof fn lemma_avail_congruent(m1: Machine, m2: Machine)
    requires
        m1.regions_seq() == m2.regions_seq(),
        m1.cursors_seq() == m2.cursors_seq(),
        m1.free_list == m2.free_list,
    ensures
        forall|f: u64|
            #![trigger m1.avail(f)]
            #![trigger m2.avail(f)]
            m1.avail(f) == m2.avail(f),
{
    lemma_bump_congruent(m1, m2);
}

/// The allocator's invariant cares only about its own fields: a
/// machine that differs in CR3, the temp window, the interrupt flag or
/// the heap keeps it.
pub(crate) proof fn lemma_wf_fields(m1: Machine, m2: Machine)
    requires
        m1.phys_wf(),
        m2.mem == m1.mem,
        m2.regions == m1.regions,
        m2.cursors == m1.cursors,
        m2.rc == m1.rc,
        m2.free_head == m1.free_head,
        m2.free_list == m1.free_list,
        m2.rc_enabled == m1.rc_enabled,
    ensures
        m2.phys_wf(),
        forall|f: u64|
            #![trigger m1.avail(f)]
            #![trigger m2.avail(f)]
            m1.avail(f) == m2.avail(f),
        forall|f: u64|
            #![trigger m1.rc_of(f)]
            #![trigger m2.rc_of(f)]
            m1.rc_of(f) == m2.rc_of(f),
{
    lemma_regions_congruent(m1, m2);
    lemma_bump_congruent(m1, m2);
    lemma_rc_congruent(m1, m2);
    lemma_avail_congruent(m1, m2);
    assert forall|i: int| 0 <= i < m2.regions_seq().len() implies
        #[trigger] m2.region_wf(i) by {
        assert(m1.region_wf(i));
    }
    assert forall|k: int| 0 <= k < m2.free_list@.len() implies
        #[trigger] m2.free_frame_wf(k) by {
        assert(m1.free_frame_wf(k));
        let fr = m1.free_list@[k];
        assert(m2.rc_of(fr) == m1.rc_of(fr));
    }
    assert forall|g: u64| #[trigger] m2.bump_avail(g) implies !m2.mem.has_frame(g) by {
        assert(m1.bump_avail(g));
    }
    if m2.rc_enabled {
        assert forall|g: u64| #[trigger] m2.bump_avail(g) implies
            m2.rc_of(g) == Some(0u64) by {
            assert(m1.bump_avail(g));
            assert(m2.rc_of(g) == m1.rc_of(g));
        }
    }
}

/// Finds the region covering `f`, with the index of `f`'s counter.
fn region_lookup(m: &Machine, f: u64) -> (r: Option<(usize, usize)>)
    requires
        m.phys_wf(),
        page_aligned(f),
    ensures
        match r {
            Some((i, k)) => m.managed(f)
                && m.region_of(f) == i as int
                && i < m.rc@.len()
                && (k as int) == rc_slot(m.regions_seq()[i as int], f)
                && (k as int) < m.rc@[i as int]@.len(),
            None => !m.managed(f),
        },
{
    let n = bounded::region_vec_len(&m.regions);
    let mut i: usize = 0;
    while i < n
        invariant
            m.phys_wf(),
            page_aligned(f),
            n == m.regions_seq().len(),
            i <= n,
            forall|j: int| 0 <= j < i ==> !slot_contains(#[trigger] m.regions_seq()[j], f),
        decreases n - i,
    {
        let (b, e) = bounded::region_vec_get(&m.regions, i);
        if b <= f && f < e {
            proof {
                lemma_region_of_unique(*m, f, i as int);
                assert(m.region_wf(i as int));
                assert((b & 0xfff == 0 && f & 0xfff == 0 && e & 0xfff == 0
                    && b <= f && f < e)
                    ==> ((f - b) as u64) >> 12 < ((e - b) as u64) >> 12) by (bit_vector);
                let len_i = m.rc@[i as int]@.len();
                assert((((f - b) as u64) >> 12) as int == rc_slot(m.regions_seq()[i as int], f));
                assert(((((f - b) as u64) >> 12) as int) < (len_i as int));
            }
            let k64 = (f - b) >> 12;
            let len_exec = m.rc[i].len();
            proof {
                assert(k64 < len_exec as u64);
            }
            let k = k64 as usize;
            return Some((i, k));
        }
        i += 1;
    }
    proof {
        if m.managed(f) {
            let j = m.region_of(f);
            assert(slot_contains(m.regions_seq()[j], f));
        }
    }
    None
}

/// Reads `f`'s reference count, if any region covers it.
pub fn ref_count(m: &Machine, f: u64) -> (r: Option<u64>)
    requires
        m.phys_wf(),
        page_aligned(f),
    ensures
        r == m.rc_of(f),
{
    match region_lookup(m, f) {
        Some((i, k)) => Some(m.rc[i][k]),
        None => None,
    }
}

/// Overwrites `f`'s counter. Touches nothing else.
fn rc_write(m: &mut Machine, f: u64, v: u64)
    requires
        old(m).phys_wf(),
        page_aligned(f),
        old(m).managed(f),
        v != 0 ==> !old(m).free_list@.contains(f),
        old(m).rc_enabled && v != 0 ==> !old(m).bump_avail(f),
    ensures
        final(m).phys_wf(),
        final(m).rc_of(f) == Some(v),
        final(m).rc_same_except(*old(m), f),
        final(m).mem == old(m).mem,
        final(m).cursors == old(m).cursors,
        final(m).free_head == old(m).free_head,
        final(m).free_list == old(m).free_list,
        final(m).temp == old(m).temp,
        final(m).phys_frame_ops_only(*old(m)),
        final(m).regions_seq() == old(m).regions_seq(),
        final(m).cursors_seq() == old(m).cursors_seq(),
{
    let (i, k) = region_lookup(m, f).unwrap();
    m.rc[i][k] = v;
    proof {
        let iv = i as int;
        let kv = k as int;
        assert(m.regions == old(m).regions);
        assert(m.rc@ == old(m).rc@.update(iv, m.rc@[iv]));
        assert(m.rc@[iv]@ == old(m).rc@[iv]@.update(kv, v));
        lemma_regions_congruent(*old(m), *m);
        lemma_bump_congruent(*old(m), *m);
        assert(m.managed(f));
        assert(m.region_of(f) == iv);
        assert(m.rc_of(f) == Some(v));
        assert forall|g: u64| g != f && page_aligned(g) implies
            #[trigger] m.rc_of(g) == old(m).rc_of(g) by {
            if old(m).managed(g) {
                let j = old(m).region_of(g);
                assert(slot_contains(old(m).regions_seq()[j], g));
                assert(m.managed(g) && m.region_of(g) == j);
                if j == iv {
                    // same region: distinct aligned frames use distinct slots
                    lemma_region_of_contains(*old(m), f);
                    assert(old(m).region_of(f) == iv);
                    let b = m.regions_seq()[iv].0;
                    assert(old(m).region_wf(iv));
                    assert(b <= g && b <= f);
                    assert((b & 0xfff == 0 && g & 0xfff == 0 && f & 0xfff == 0
                        && b <= g && b <= f && g != f)
                        ==> ((g - b) as u64) >> 12 != ((f - b) as u64) >> 12)
                        by (bit_vector);
                    assert(rc_slot(m.regions_seq()[iv], g) != kv);
                    let e = m.regions_seq()[iv].1;
                    assert((b & 0xfff == 0 && g & 0xfff == 0 && e & 0xfff == 0
                        && b <= g && g < e)
                        ==> ((g - b) as u64) >> 12 < ((e - b) as u64) >> 12)
                        by (bit_vector);
                    assert(rc_slot(m.regions_seq()[iv], g) < old(m).rc@[iv]@.len());
                    assert(m.rc_of(g) == old(m).rc_of(g));
                } else {
                    assert(m.rc@[j] == old(m).rc@[j]);
                    assert(m.rc_of(g) == old(m).rc_of(g));
                }
            } else {
                assert(!m.managed(g));
            }
        }
        // region_wf: only counter values changed, lengths kept
        assert forall|j: int| 0 <= j < m.regions_seq().len() implies
            #[trigger] m.region_wf(j) by {
            assert(old(m).region_wf(j));
            if j != iv {
                assert(m.rc@[j] == old(m).rc@[j]);
            }
        }
        assert forall|k2: int| 0 <= k2 < m.free_list@.len() implies
            #[trigger] m.free_frame_wf(k2) by {
            assert(old(m).free_frame_wf(k2));
            let fr = m.free_list@[k2];
            assert(m.managed(fr));
            if fr == f {
                assert(old(m).free_list@.contains(f));
                assert(v == 0);
                assert(m.rc_of(fr) == Some(0u64));
            } else {
                assert(m.rc_of(fr) == old(m).rc_of(fr));
            }
        }
        if m.rc_enabled {
            assert forall|g: u64| #[trigger] m.bump_avail(g) implies
                m.rc_of(g) == Some(0u64) by {
                let i2 = choose|i2: int| 0 <= i2 < m.regions_seq().len()
                    && #[trigger] m.bump_avail_in(i2, g);
                assert(old(m).bump_avail_in(i2, g));
                assert(old(m).bump_avail(g));
                if g != f {
                    assert(m.rc_of(g) == old(m).rc_of(g));
                } else {
                    assert(v == 0);
                }
            }
        }
    }
}

/// Bumps `f`'s counter by one, if counting is on and a region covers
/// `f`; otherwise does nothing.
pub fn inc_ref(m: &mut Machine, f: u64)
    requires
        old(m).phys_wf(),
        page_aligned(f),
        old(m).rc_enabled && old(m).managed(f)
            ==> old(m).rc_of(f)->Some_0 < u64::MAX,
        old(m).rc_enabled && old(m).managed(f)
            ==> !old(m).bump_avail(f) && !old(m).free_list@.contains(f),
    ensures
        final(m).phys_wf(),
        final(m).rc_same_except(*old(m), f),
        final(m).rc_of(f) == (if old(m).rc_enabled && old(m).managed(f) {
            Some((old(m).rc_of(f)->Some_0 + 1) as u64)
        } else {
            old(m).rc_of(f)
        }),
        final(m).mem == old(m).mem,
        final(m).cursors == old(m).cursors,
        final(m).free_head == old(m).free_head,
        final(m).free_list == old(m).free_list,
        final(m).temp == old(m).temp,
        final(m).phys_frame_ops_only(*old(m)),
{
    if m.rc_enabled {
        if let Some(c) = ref_count(m, f) {
            rc_write(m, f, c + 1);
        }
    }
}

/// Bumps `f`'s counter whether or not counting is on yet; used only
/// while seeding the counters from the live page tables.
pub fn inc_ref_for_init(m: &mut Machine, f: u64)
    requires
        old(m).phys_wf(),
        page_aligned(f),
        old(m).managed(f) ==> old(m).rc_of(f)->Some_0 < u64::MAX,
        old(m).managed(f) ==> !old(m).bump_avail(f) && !old(m).free_list@.contains(f),
    ensures
        final(m).phys_wf(),
        final(m).rc_same_except(*old(m), f),
        final(m).rc_of(f) == (if old(m).managed(f) {
            Some((old(m).rc_of(f)->Some_0 + 1) as u64)
        } else {
            old(m).rc_of(f)
        }),
        final(m).mem == old(m).mem,
        final(m).cursors == old(m).cursors,
        final(m).free_head == old(m).free_head,
        final(m).free_list == old(m).free_list,
        final(m).temp == old(m).temp,
        final(m).phys_frame_ops_only(*old(m)),
{
    if let Some(c) = ref_count(m, f) {
        rc_write(m, f, c + 1);
    }
}

enum PhysStatus {
    InUse,
    ShouldFree,
}

/// Drops one unit of `f`'s count; reports whether that was the last.
/// An unmanaged or not-yet-counted frame is never freed.
fn dec_ref(m: &mut Machine, f: u64) -> (st: PhysStatus)
    requires
        old(m).phys_wf(),
        page_aligned(f),
        old(m).rc_enabled && old(m).managed(f) ==> old(m).rc_of(f)->Some_0 >= 1,
    ensures
        final(m).phys_wf(),
        final(m).rc_same_except(*old(m), f),
        (st is ShouldFree) == (old(m).rc_enabled && old(m).managed(f)
            && old(m).rc_of(f) == Some(1u64)),
        final(m).rc_of(f) == (if old(m).rc_enabled && old(m).managed(f) {
            Some((old(m).rc_of(f)->Some_0 - 1) as u64)
        } else {
            old(m).rc_of(f)
        }),
        final(m).mem == old(m).mem,
        final(m).cursors == old(m).cursors,
        final(m).free_head == old(m).free_head,
        final(m).free_list == old(m).free_list,
        final(m).temp == old(m).temp,
        final(m).phys_frame_ops_only(*old(m)),
{
    if m.rc_enabled {
        if let Some(c) = ref_count(m, f) {
            proof {
                if c - 1 != 0 {
                    // a frame still referenced cannot be free or bump space
                    if m.free_list@.contains(f) {
                        let k = choose|k: int| 0 <= k < m.free_list@.len()
                            && m.free_list@[k] == f;
                        assert(m.free_frame_wf(k));
                    }
                    if m.bump_avail(f) {
                        assert(m.rc_of(f) == Some(0u64));
                    }
                }
            }
            rc_write(m, f, c - 1);
            if c == 1 {
                return PhysStatus::ShouldFree;
            } else {
                return PhysStatus::InUse;
            }
        }
    }
    PhysStatus::InUse
}

impl Phys {
    /// Creates an owned reference, incrementing the frame's count.
    pub fn new(m: &mut Machine, raw: RawPhys) -> (p: Phys)
        requires
            old(m).phys_wf(),
            page_aligned(raw.0),
            old(m).rc_enabled && old(m).managed(raw.0)
                ==> old(m).rc_of(raw.0)->Some_0 < u64::MAX,
            old(m).rc_enabled && old(m).managed(raw.0)
                ==> !old(m).bump_avail(raw.0) && !old(m).free_list@.contains(raw.0),
        ensures
            p.raw == raw.0,
            final(m).phys_wf(),
            final(m).rc_same_except(*old(m), raw.0),
            final(m).rc_of(raw.0) == (if old(m).rc_enabled && old(m).managed(raw.0) {
                Some((old(m).rc_of(raw.0)->Some_0 + 1) as u64)
            } else {
                old(m).rc_of(raw.0)
            }),
            final(m).mem == old(m).mem,
            final(m).cursors == old(m).cursors,
            final(m).free_head == old(m).free_head,
            final(m).free_list == old(m).free_list,
            final(m).temp == old(m).temp,
            final(m).phys_frame_ops_only(*old(m)),
    {
        inc_ref(m, raw.0);
        Phys { raw: raw.0 }
    }

    /// Consumes the reference, returning the raw address without
    /// touching the count; the caller now owns the dropped unit.
    pub fn into_raw(self) -> (r: RawPhys)
        ensures
            r.0 == self.raw,
    {
        RawPhys(self.raw)
    }

    /// Reclaims ownership of a unit given away by [`Phys::into_raw`];
    /// the count is untouched.
    pub fn from_raw(raw: RawPhys) -> (p: Phys)
        ensures
            p.raw == raw.0,
    {
        Phys { raw: raw.0 }
    }

    /// A second owned reference to the same frame; the count grows by
    /// one.
    pub fn clone_ref(&self, m: &mut Machine) -> (p: Phys)
        requires
            old(m).phys_wf(),
            page_aligned(self.raw),
            old(m).rc_enabled && old(m).managed(self.raw)
                ==> old(m).rc_of(self.raw)->Some_0 < u64::MAX,
            old(m).rc_enabled && old(m).managed(self.raw)
                ==> !old(m).bump_avail(self.raw) && !old(m).free_list@.contains(self.raw),
        ensures
            p.raw == self.raw,
            final(m).phys_wf(),
            final(m).rc_same_except(*old(m), self.raw),
            final(m).rc_of(self.raw) == (if old(m).rc_enabled && old(m).managed(self.raw) {
                Some((old(m).rc_of(self.raw)->Some_0 + 1) as u64)
            } else {
                old(m).rc_of(self.raw)
            }),
            final(m).mem == old(m).mem,
            final(m).free_list == old(m).free_list,
            final(m).free_head == old(m).free_head,
            final(m).cursors == old(m).cursors,
            final(m).temp == old(m).temp,
            final(m).phys_frame_ops_only(*old(m)),
    {
        Phys::new(m, RawPhys(self.raw))
    }

    /// Law: `from_raw` after `into_raw` is the identity on the owned
    /// reference, and neither touches any reference count — they take
    /// no machine at all.
    pub fn raw_round_trip(self) -> (p: Phys)
        ensures
            p.raw == self.raw,
    {
        let raw = self.into_raw();
        Phys::from_raw(raw)
    }

    /// Gives the owned unit back. When it was the last, the frame goes
    /// to the head of the free list; otherwise only the count drops.
    pub fn release(self, m: &mut Machine)
        requires
            old(m).phys_wf(),
            old(m).temp is None,
            page_aligned(self.raw),
            self.raw != 0,
            old(m).rc_enabled && old(m).managed(self.raw)
                ==> old(m).rc_of(self.raw)->Some_0 >= 1,
            old(m).rc_enabled && old(m).managed(self.raw)
                    && old(m).rc_of(self.raw) == Some(1u64)
                ==> old(m).mem.has_frame(self.raw),
        ensures
            final(m).phys_wf(),
            final(m).temp is None,
            final(m).rc_same_except(*old(m), self.raw),
            final(m).cursors == old(m).cursors,
            final(m).phys_frame_ops_only(*old(m)),
            old(m).rc_enabled && old(m).managed(self.raw)
                    && old(m).rc_of(self.raw) == Some(1u64) ==> {
                &&& final(m).free_list@ == seq![self.raw] + old(m).free_list@
                &&& final(m).free_head == self.raw
                &&& final(m).rc_of(self.raw) == Some(0u64)
                &&& final(m).mem.same_except(old(m).mem, self.raw)
                &&& final(m).mem.has_frame(self.raw)
                &&& final(m).mem.frame(self.raw)
                    == old(m).mem.frame(self.raw).update(0, old(m).free_head)
            },
            !(old(m).rc_enabled && old(m).managed(self.raw)
                    && old(m).rc_of(self.raw) == Some(1u64)) ==> {
                &&& final(m).mem == old(m).mem
                &&& final(m).free_list == old(m).free_list
                &&& final(m).free_head == old(m).free_head
                &&& final(m).rc_of(self.raw) == (if old(m).rc_enabled
                        && old(m).managed(self.raw) {
                    Some((old(m).rc_of(self.raw)->Some_0 - 1) as u64)
                } else {
                    old(m).rc_of(self.raw)
                })
            },
    {
        let raw = self.raw;
        match dec_ref(m, raw) {
            PhysStatus::InUse => {}
            PhysStatus::ShouldFree => {
                let ghost s0 = *old(m);
                let ghost s1 = *m;
                let crit = critical::begin(m);
                page::temp_map(m, RawPhys(raw), &crit);
                let old_head = m.free_head;
                page::temp_write_word(m, 0, old_head);
                page::temp_unmap(m, &crit);
                critical::end(m, crit);
                m.free_head = raw;
                let ghost old_fl = m.free_list@;
                m.free_list = Ghost(seq![raw] + old_fl);
                proof {
                    assert(s1.phys_wf());
                    assert(old_fl == s0.free_list@);
                    assert(m.free_list@ == seq![raw] + s0.free_list@);
                    assert(m.free_list@[0] == raw);
                    assert(forall|k: int| 1 <= k < m.free_list@.len()
                        ==> m.free_list@[k] == s0.free_list@[k - 1]);
                    lemma_regions_congruent(s1, *m);
                    lemma_bump_congruent(s1, *m);
                    lemma_rc_congruent(s1, *m);
                    lemma_bump_congruent(s0, *m);
                    assert(s0.rc_of(raw) == Some(1u64));
                    assert(s0.mem.has_frame(raw));
                    assert(!s0.free_list@.contains(raw)) by {
                        if s0.free_list@.contains(raw) {
                            let k = choose|k: int| 0 <= k < s0.free_list@.len()
                                && s0.free_list@[k] == raw;
                            assert(s0.free_frame_wf(k));
                        }
                    }
                    assert(m.mem.frame(raw) == s0.mem.frame(raw).update(0, s0.free_head));
                    assert(m.mem.same_except(s0.mem, raw)) by {
                        assert forall|g: u64| g != raw implies
                            (#[trigger] m.mem.has_frame(g) <==> s0.mem.has_frame(g)) by {}
                        assert forall|g: u64| g != raw && m.mem.has_frame(g) implies
                            #[trigger] m.mem.frame(g) == s0.mem.frame(g) by {}
                    }
                    assert forall|j: int| 0 <= j < m.regions_seq().len() implies
                        #[trigger] m.region_wf(j) by {
                        assert(s1.region_wf(j));
                    }
                    assert forall|k: int| 0 <= k < m.free_list@.len() implies
                        #[trigger] m.free_frame_wf(k) by {
                        if k == 0 {
                            assert(m.free_list@[0] == raw);
                            assert(m.mem.frame(raw)[0] == s0.free_head);
                            assert(m.rc_of(raw) == s1.rc_of(raw));
                            if m.free_list@.len() > 1 {
                                assert(s0.free_frame_wf(0));
                            }
                        } else {
                            assert(s0.free_frame_wf(k - 1));
                            let fr = s0.free_list@[k - 1];
                            assert(fr != raw);
                            assert(m.mem.frame(fr) == s0.mem.frame(fr));
                            assert(m.rc_of(fr) == s1.rc_of(fr));
                            assert(s1.rc_of(fr) == s0.rc_of(fr));
                            if k < m.free_list@.len() - 1 {
                                assert(m.free_list@[k + 1] == s0.free_list@[k]);
                            }
                        }
                    }
                    assert forall|k: int, l: int| 0 <= k < l < m.free_list@.len() implies
                        m.free_list@[k] != m.free_list@[l] by {
                        if k == 0 {
                            assert(!s0.free_list@.contains(raw));
                            assert(s0.free_list@[l - 1] == m.free_list@[l]);
                        }
                    }
                    assert forall|g: u64| #[trigger] m.bump_avail(g) implies
                        !m.mem.has_frame(g) by {
                        assert(s0.bump_avail(g));
                        assert(!s0.mem.has_frame(g));
                        assert(g != raw);
                    }
                    if m.rc_enabled {
                        assert forall|g: u64| #[trigger] m.bump_avail(g) implies
                            m.rc_of(g) == Some(0u64) by {
                            assert(s0.bump_avail(g));
                            assert(g != raw) by {
                                if g == raw {
                                    assert(!s0.mem.has_frame(g));
                                }
                            }
                            assert(m.rc_of(g) == s1.rc_of(g));
                            assert(s1.rc_of(g) == s0.rc_of(g));
                        }
                    }
                    assert forall|g: u64| g != raw && page_aligned(g) implies
                        #[trigger] m.rc_of(g) == s0.rc_of(g) by {
                        assert(m.rc_of(g) == s1.rc_of(g));
                    }
                }
            }
        }
    }
}

proof fn lemma_first_bump_is(m: Machine, i: int)
    requires
        m.is_first_bump(i),
    ensures
        m.first_bump_region() == Some(i),
{
    assert(exists|j: int| #[trigger] m.is_first_bump(j));
    let j = choose|j: int| #[trigger] m.is_first_bump(j);
    if j < i {
        assert(m.cursors_seq()[j] >= m.regions_seq()[j].1);
    } else if i < j {
        assert(m.cursors_seq()[i] >= m.regions_seq()[i].1);
    }
}

/// Takes the head of the free list, zero-filled, if the list is not
/// empty.
fn alloc_freelist(m: &mut Machine) -> (r: Option<Phys>)
    requires
        old(m).phys_wf(),
        old(m).temp is None,
    ensures
        final(m).phys_wf(),
        final(m).temp is None,
        old(m).free_list@.len() == 0 ==> r is None && *final(m) == *old(m),
        old(m).free_list@.len() > 0 ==> r is Some && {
            let p = r->Some_0;
            &&& p.raw == old(m).free_list@[0]
            &&& final(m).free_list@ == old(m).free_list@.drop_first()
            &&& final(m).free_head == (if final(m).free_list@.len() == 0 {
                    0u64
                } else {
                    final(m).free_list@[0]
                })
            &&& final(m).mem.has_frame(p.raw)
            &&& final(m).mem.frame(p.raw) == zero_page()
            &&& final(m).mem.same_except(old(m).mem, p.raw)
            &&& final(m).rc_same_except(*old(m), p.raw)
            &&& final(m).rc_of(p.raw) == Some(if old(m).rc_enabled { 1u64 } else { 0u64 })
            &&& final(m).cursors == old(m).cursors
            &&& final(m).phys_frame_ops_only(*old(m))
            &&& page_aligned(p.raw) && p.raw != 0 && old(m).managed(p.raw)
            &&& !final(m).avail(p.raw)
            &&& forall|g: u64| g != p.raw && page_aligned(g)
                ==> (#[trigger] final(m).avail(g)) == old(m).avail(g)
        },
{
    if m.free_head == 0 {
        proof {
            if m.free_list@.len() > 0 {
                assert(m.free_frame_wf(0));
            }
        }
        return None;
    }
    let f = m.free_head;
    let ghost s0 = *old(m);
    proof {
        assert(s0.free_list@.len() > 0);
        assert(s0.free_frame_wf(0));
        assert(s0.free_list@[0] == f);
    }
    let crit = critical::begin(m);
    page::temp_map(m, RawPhys(f), &crit);
    let link = page::temp_read_word(m, 0);
    m.free_head = link;
    let ghost old_fl = m.free_list@;
    m.free_list = Ghost(old_fl.drop_first());
    page::temp_zero(m);
    page::temp_unmap(m, &crit);
    critical::end(m, crit);
    let ghost s1 = *m;
    proof {
        lemma_regions_congruent(s0, s1);
        lemma_bump_congruent(s0, s1);
        lemma_rc_congruent(s0, s1);
        assert(s1.free_list@ == s0.free_list@.drop_first());
        assert(forall|k: int| 0 <= k < s1.free_list@.len()
            ==> s1.free_list@[k] == s0.free_list@[k + 1]);
        assert(s1.mem.same_except(s0.mem, f));
        assert(link == s0.mem.frame(f)[0]);
        assert forall|j: int| 0 <= j < s1.regions_seq().len() implies
            #[trigger] s1.region_wf(j) by {
            assert(s0.region_wf(j));
        }
        assert forall|k: int| 0 <= k < s1.free_list@.len() implies
            #[trigger] s1.free_frame_wf(k) by {
            assert(s0.free_frame_wf(k + 1));
            let fr = s0.free_list@[k + 1];
            assert(fr != f);
            assert(s1.mem.frame(fr) == s0.mem.frame(fr));
            if k == 0 {
                assert(s1.free_head == s0.free_list@[1]);
            }
            if k < s1.free_list@.len() - 1 {
                assert(s1.free_list@[k + 1] == s0.free_list@[k + 2]);
            }
        }
        assert forall|g: u64| #[trigger] s1.bump_avail(g) implies
            !s1.mem.has_frame(g) by {
            assert(s0.bump_avail(g));
            assert(g != f);
        }
        if s1.rc_enabled {
            assert forall|g: u64| #[trigger] s1.bump_avail(g) implies
                s1.rc_of(g) == Some(0u64) by {
                assert(s0.bump_avail(g));
            }
        }
        assert(s1.phys_wf());
        assert(!s1.free_list@.contains(f)) by {
            if s1.free_list@.contains(f) {
                let k = choose|k: int| 0 <= k < s1.free_list@.len()
                    && s1.free_list@[k] == f;
                assert(s0.free_list@[k + 1] == f);
                assert(s0.free_list@[0] == f);
            }
        }
        assert(!s1.bump_avail(f)) by {
            if s1.bump_avail(f) {
                assert(s0.bump_avail(f));
                assert(!s0.mem.has_frame(f));
            }
        }
    }
    inc_ref(m, f);
    proof {
        assert(m.mem == s1.mem);
        assert forall|g: u64| g != f && page_aligned(g) implies
            #[trigger] m.rc_of(g) == s0.rc_of(g) by {
            assert(m.rc_of(g) == s1.rc_of(g));
            assert(s1.rc_of(g) == s0.rc_of(g));
        }
        if s0.rc_enabled {
            assert(m.rc_of(f) == Some(1u64));
        } else {
            assert(m.rc_of(f) == s1.rc_of(f));
            assert(s1.rc_of(f) == Some(0u64));
        }
        assert(!m.avail(f)) by {
            lemma_bump_congruent(s1, *m);
            assert(m.free_list@ == s1.free_list@);
        }
        lemma_bump_congruent(s0, *m);
        assert forall|g: u64| g != f && page_aligned(g) implies
            (#[trigger] m.avail(g)) == s0.avail(g) by {
            assert(m.free_list@ == s0.free_list@.drop_first());
            if s0.free_list@.contains(g) {
                let k = choose|k: int| 0 <= k < s0.free_list@.len()
                    && s0.free_list@[k] == g;
                assert(k != 0);
                assert(m.free_list@[k - 1] == g);
                assert(m.free_list@.contains(g));
            }
            if m.free_list@.contains(g) {
                let k = choose|k: int| 0 <= k < m.free_list@.len()
                    && m.free_list@[k] == g;
                assert(s0.free_list@[k + 1] == g);
                assert(s0.free_list@.contains(g));
            }
        }
    }
    Some(Phys { raw: f })
}

/// Consumes one page from the first region with bump space left.
fn alloc_new(m: &mut Machine) -> (r: Result<Phys, MemoryExhausted>)
    requires
        old(m).phys_wf(),
        old(m).temp is None,
    ensures
        final(m).phys_wf(),
        final(m).temp is None,
        r is Err ==> *final(m) == *old(m)
            && old(m).first_bump_region() is None
            && (forall|f: u64| !old(m).bump_avail(f)),
        r is Ok ==> {
            let p = r->Ok_0;
            let i = old(m).first_bump_region()->Some_0;
            &&& old(m).first_bump_region() is Some
            &&& p.raw == old(m).cursors_seq()[i]
            &&& old(m).bump_avail(p.raw)
            &&& final(m).cursors_seq()
                == old(m).cursors_seq().update(i, (p.raw + 4096) as u64)
            &&& final(m).free_list == old(m).free_list
            &&& final(m).free_head == old(m).free_head
            &&& !old(m).mem.has_frame(p.raw)
            &&& final(m).mem.has_frame(p.raw)
            &&& final(m).mem.frame(p.raw) == zero_page()
            &&& final(m).mem.same_except(old(m).mem, p.raw)
            &&& final(m).rc_same_except(*old(m), p.raw)
            &&& (old(m).rc_enabled ==> final(m).rc_of(p.raw) == Some(1u64))
            &&& (!old(m).rc_enabled ==> final(m).rc_of(p.raw) == old(m).rc_of(p.raw))
            &&& final(m).phys_frame_ops_only(*old(m))
            &&& page_aligned(p.raw) && p.raw != 0 && old(m).managed(p.raw)
            &&& !final(m).avail(p.raw)
            &&& forall|g: u64| g != p.raw && page_aligned(g)
                ==> (#[trigger] final(m).avail(g)) == old(m).avail(g)
        },
{
    let ghost s0 = *old(m);
    let n = bounded::region_vec_len(&m.regions);
    let mut i: usize = 0;
    while i < n
        invariant
            s0 == *old(m),
            *m == s0,
            s0.phys_wf(),
            s0.temp is None,
            n == s0.regions_seq().len(),
            i <= n,
            forall|j: int| 0 <= j < i ==>
                #[trigger] s0.cursors_seq()[j] >= s0.regions_seq()[j].1,
        decreases n - i,
    {
        let c = bounded::cursor_vec_get(&m.cursors, i);
        let (b, e) = bounded::region_vec_get(&m.regions, i);
        if c < e {
            proof {
                assert(s0.is_first_bump(i as int));
                lemma_first_bump_is(s0, i as int);
                assert(s0.region_wf(i as int));
                assert((c & 0xfff == 0 && e & 0xfff == 0 && c < e)
                    ==> ((c + 4096) as u64 <= e
                        && ((c + 4096) as u64) & 0xfff == 0)) by (bit_vector);
                assert(s0.bump_avail_in(i as int, c));
                assert(s0.bump_avail(c));
                assert(!s0.mem.has_frame(c));
                assert(slot_contains(s0.regions_seq()[i as int], c));
                lemma_region_of_unique(s0, c, i as int);
            }
            bounded::cursor_vec_set(&mut m.cursors, i, c + 4096);
            let ghost s1 = *m;
            proof {
                lemma_regions_congruent(s0, s1);
                lemma_rc_congruent(s0, s1);
                assert(s1.cursors_seq() == s0.cursors_seq().update(i as int, (c + 4096) as u64));
                assert forall|j: int| 0 <= j < s1.regions_seq().len() implies
                    #[trigger] s1.region_wf(j) by {
                    assert(s0.region_wf(j));
                }
                assert forall|g: u64| #[trigger] s1.bump_avail(g) implies
                    s0.bump_avail(g) by {
                    let j = choose|j: int| 0 <= j < s1.regions_seq().len()
                        && #[trigger] s1.bump_avail_in(j, g);
                    if j == i as int {
                        assert(g >= (c + 4096) as u64);
                        assert(s0.bump_avail_in(j, g));
                    } else {
                        assert(s0.bump_avail_in(j, g));
                    }
                }
                assert forall|k: int| 0 <= k < s1.free_list@.len() implies
                    #[trigger] s1.free_frame_wf(k) by {
                    assert(s0.free_frame_wf(k));
                    let fr = s0.free_list@[k];
                    assert(s1.rc_of(fr) == s0.rc_of(fr));
                }
                assert(s1.phys_wf());
                // the claimed frame is out of bump space now
                assert(!s1.bump_avail(c)) by {
                    if s1.bump_avail(c) {
                        let j = choose|j: int| 0 <= j < s1.regions_seq().len()
                            && #[trigger] s1.bump_avail_in(j, c);
                        if j == i as int {
                            assert(c >= (c + 4096) as u64);
                        } else {
                            assert(s0.bump_avail_in(j, c));
                            assert(s0.cursors_seq()[j] >= s0.regions_seq()[j].0) by {
                                assert(s0.region_wf(j));
                            }
                            assert(slot_contains(s0.regions_seq()[j], c));
                            assert(s0.regions_disjoint());
                        }
                    }
                }
                assert(!s1.free_list@.contains(c)) by {
                    if s1.free_list@.contains(c) {
                        let k = choose|k: int| 0 <= k < s1.free_list@.len()
                            && s1.free_list@[k] == c;
                        assert(s1.free_frame_wf(k));
                        assert(s1.mem.has_frame(c));
                    }
                }
            }
            let crit = critical::begin(m);
            page::temp_map(m, RawPhys(c), &crit);
            page::temp_init_zero(m);
            page::temp_unmap(m, &crit);
            critical::end(m, crit);
            let ghost s2 = *m;
            proof {
                lemma_regions_congruent(s1, s2);
                lemma_rc_congruent(s1, s2);
                lemma_bump_congruent(s1, s2);
                assert forall|j: int| 0 <= j < s2.regions_seq().len() implies
                    #[trigger] s2.region_wf(j) by {
                    assert(s1.region_wf(j));
                }
                assert forall|k: int| 0 <= k < s2.free_list@.len() implies
                    #[trigger] s2.free_frame_wf(k) by {
                    assert(s1.free_frame_wf(k));
                    let fr = s1.free_list@[k];
                    assert(fr != c);
                    assert(s2.mem.frame(fr) == s1.mem.frame(fr));
                    assert(s2.rc_of(fr) == s1.rc_of(fr));
                }
                assert forall|g: u64| #[trigger] s2.bump_avail(g) implies
                    !s2.mem.has_frame(g) by {
                    assert(s1.bump_avail(g));
                    assert(g != c);
                    assert(!s1.mem.has_frame(g));
                }
                if s2.rc_enabled {
                    assert forall|g: u64| #[trigger] s2.bump_avail(g) implies
                        s2.rc_of(g) == Some(0u64) by {
                        assert(s1.bump_avail(g));
                        assert(s1.rc_of(g) == s0.rc_of(g));
                        assert(s0.bump_avail(g));
                    }
                }
                assert(s2.phys_wf());
                if s2.rc_enabled {
                    assert(s0.rc_of(c) == Some(0u64));
                    assert(s2.rc_of(c) == Some(0u64));
                }
            }
            inc_ref(m, c);
            proof {
                assert(m.mem == s2.mem);
                assert forall|g: u64| g != c && page_aligned(g) implies
                    #[trigger] m.rc_of(g) == s0.rc_of(g) by {
                    assert(m.rc_of(g) == s2.rc_of(g));
                    assert(s2.rc_of(g) == s1.rc_of(g));
                    assert(s1.rc_of(g) == s0.rc_of(g));
                }
                if s0.rc_enabled {
                    assert(m.rc_of(c) == Some(1u64));
                } else {
                    assert(m.rc_of(c) == s2.rc_of(c));
                    assert(s2.rc_of(c) == s0.rc_of(c));
                }
                assert(!m.avail(c)) by {
                    lemma_bump_congruent(s1, *m);
                    assert(m.free_list@ == s1.free_list@);
                }
                lemma_bump_congruent(s1, *m);
                assert forall|g: u64| g != c && page_aligned(g) implies
                    (#[trigger] m.avail(g)) == s0.avail(g) by {
                    assert(m.free_list@ == s0.free_list@);
                    assert((c & 0xfff == 0 && g & 0xfff == 0 && c < g)
                        ==> ((c + 4096) as u64) <= g) by (bit_vector);
                    if s0.bump_avail(g) {
                        let j = choose|j: int| 0 <= j < s0.regions_seq().len()
                            && #[trigger] s0.bump_avail_in(j, g);
                        if j == i as int {
                            assert(c <= g && g != c);
                            assert(s1.bump_avail_in(j, g));
                        } else {
                            assert(s1.bump_avail_in(j, g));
                        }
                        assert(s1.bump_avail(g));
                    }
                    if s1.bump_avail(g) {
                        let j = choose|j: int| 0 <= j < s1.regions_seq().len()
                            && #[trigger] s1.bump_avail_in(j, g);
                        if j == i as int {
                            assert(g >= (c + 4096) as u64);
                            assert(s0.bump_avail_in(j, g));
                        } else {
                            assert(s0.bump_avail_in(j, g));
                        }
                        assert(s0.bump_avail(g));
                    }
                }
            }
            return Ok(Phys { raw: c });
        }
        i += 1;
    }
    proof {
        if exists|j: int| #[trigger] s0.is_first_bump(j) {
            let j = choose|j: int| #[trigger] s0.is_first_bump(j);
            assert(s0.cursors_seq()[j] >= s0.regions_seq()[j].1);
        }
        assert forall|f: u64| !s0.bump_avail(f) by {
            if s0.bump_avail(f) {
                let j = choose|j: int| 0 <= j < s0.regions_seq().len()
                    && #[trigger] s0.bump_avail_in(j, f);
                assert(s0.cursors_seq()[j] >= s0.regions_seq()[j].1);
            }
        }
    }
    Err(MemoryExhausted)
}

/// Hands out one zero-filled 4 KiB frame: the head of the free list
/// when one is there, else the first page of bump space. Fails only
/// when both are exhausted.
pub fn alloc_frame(m: &mut Machine) -> (r: Result<Phys, MemoryExhausted>)
    requires
        old(m).phys_wf(),
        old(m).temp is None,
    ensures
        final(m).phys_wf(),
        final(m).temp is None,
        r is Err ==> *final(m) == *old(m)
            && (forall|f: u64| !old(m).avail(f)),
        r is Ok ==> {
            let p = r->Ok_0;
            &&& page_aligned(p.raw) && p.raw != 0 && old(m).managed(p.raw)
            &&& old(m).avail(p.raw)
            &&& final(m).mem.has_frame(p.raw)
            &&& final(m).mem.frame(p.raw) == zero_page()
            &&& final(m).mem.same_except(old(m).mem, p.raw)
            &&& final(m).rc_same_except(*old(m), p.raw)
            &&& (old(m).rc_enabled ==> final(m).rc_of(p.raw) == Some(1u64))
            &&& final(m).phys_frame_ops_only(*old(m))
            &&& !final(m).avail(p.raw)
            &&& forall|g: u64| g != p.raw && page_aligned(g)
                ==> (#[trigger] final(m).avail(g)) == old(m).avail(g)
            // LIFO: a free-listed frame is reused first
            &&& (old(m).free_list@.len() > 0 ==> p.raw == old(m).free_list@[0]
                && final(m).free_list@ == old(m).free_list@.drop_first()
                && final(m).cursors == old(m).cursors)
            &&& (old(m).free_list@.len() == 0 ==> {
                let i = old(m).first_bump_region()->Some_0;
                &&& old(m).first_bump_region() is Some
                &&& p.raw == old(m).cursors_seq()[i]
                &&& final(m).cursors_seq()
                    == old(m).cursors_seq().update(i, (p.raw + 4096) as u64)
                &&& final(m).free_list == old(m).free_list
                &&& !old(m).mem.has_frame(p.raw)
            })
        },
{
    if let Some(page) = alloc_freelist(m) {
        return Ok(page);
    }
    alloc_new(m)
}

/// One entry of the firmware's memory map, as the boot loader hands it
/// over.
#[derive(Clone, Copy, PartialEq, Eq, Structural, Debug)]
pub struct BiosMemoryRegion {
    pub begin: RawPhys,
    pub size: u64,
    pub kind: u32,
    pub acpi_ex_attrs: u32,
}

/// The firmware's tag for usable RAM.
pub const REGION_KIND_USABLE: u32 = 1;

/// Rounds up to the next page boundary (wrapping near the top).
pub open spec fn align_up(a: u64) -> u64 {
    vstd::wrapping::u64_specs::wrapping_add(a, 0xfff) & 0xffff_ffff_ffff_f000
}

/// Rounds down to a page boundary.
pub open spec fn align_down(a: u64) -> u64 {
    a & 0xffff_ffff_ffff_f000
}

/// The region that one memory-map entry contributes after clamping to
/// the high-memory boundary and to page alignment, appended to `acc`
/// if it is usable, nonempty, in bounds, ordered after what has been
/// accepted, and the table is not full.
pub open spec fn reg_step(acc: Seq<(u64, u64)>, r: BiosMemoryRegion, boundary: u64)
    -> Seq<(u64, u64)>
{
    if acc.len() < 8 && r.kind == REGION_KIND_USABLE {
        let end = align_down(vstd::wrapping::u64_specs::wrapping_add(r.begin.0, r.size));
        let lo = if r.begin.0 < boundary { boundary } else { r.begin.0 };
        let begin = align_up(lo);
        let prev = if acc.len() == 0 { 0u64 } else { acc.last().1 };
        if 0 < begin && begin < end && end < MAX_PHYS_PAGE && begin >= prev
            && (((end - begin) as u64) >> 12) <= usize::MAX as u64 {
            acc.push((begin, end))
        } else {
            acc
        }
    } else {
        acc
    }
}

/// The regions registered from a memory map, in order.
pub open spec fn registered(map: Seq<BiosMemoryRegion>, boundary: u64) -> Seq<(u64, u64)>
    decreases map.len(),
{
    if map.len() == 0 {
        Seq::empty()
    } else {
        reg_step(registered(map.drop_last(), boundary), map.last(), boundary)
    }
}

/// Registers the firmware's usable memory regions, above the
/// high-memory boundary only, clamped to whole pages, at most eight;
/// starts every bump cursor at its region's base and every reference
/// count at zero. The allocator is ready afterwards; reference
/// counting stays off until the counts are seeded.
pub fn phys_init(
    m: &mut Machine,
    bios_memory_map: &Vec<BiosMemoryRegion>,
    high_memory_boundary: RawPhys,
)
    requires
        old(m).mem.pages@.len() == 0,
        old(m).regions_seq().len() == 0,
        old(m).cursors_seq().len() == 0,
        old(m).rc@.len() == 0,
        old(m).free_list@.len() == 0,
        old(m).free_head == 0,
        !old(m).rc_enabled,
    ensures
        final(m).phys_wf(),
        !final(m).rc_enabled,
        final(m).regions_seq() == registered(bios_memory_map@, high_memory_boundary.0),
        final(m).free_list@.len() == 0,
        final(m).free_head == 0,
        forall|i: int| 0 <= i < final(m).regions_seq().len()
            ==> final(m).cursors_seq()[i] == (#[trigger] final(m).regions_seq()[i]).0,
        forall|f: u64| page_aligned(f) && final(m).managed(f)
            ==> final(m).rc_of(f) == Some(0u64),
        final(m).mem == old(m).mem,
        final(m).temp == old(m).temp,
        final(m).cr3 == old(m).cr3,
        final(m).iflag == old(m).iflag,
        final(m).kv_next == old(m).kv_next,
        final(m).kv_free == old(m).kv_free,
        final(m).heap == old(m).heap,
{
    let ghost bnd = high_memory_boundary.0;
    let n = bios_memory_map.len();
    let mut idx: usize = 0;
    while idx < n
        invariant
            n == bios_memory_map@.len(),
            idx <= n,
            m.regions_seq() == registered(bios_memory_map@.take(idx as int), bnd),
            bnd == high_memory_boundary.0,
            m.cursors_seq().len() == m.regions_seq().len(),
            m.rc@.len() == m.regions_seq().len(),
            m.regions_seq().len() <= 8,
            forall|i: int| 0 <= i < m.regions_seq().len()
                ==> m.cursors_seq()[i] == (#[trigger] m.regions_seq()[i]).0,
            forall|i: int| 0 <= i < m.regions_seq().len() ==> #[trigger] m.region_wf(i),
            // sorted, hence disjoint
            forall|i: int, j: int| 0 <= i < j < m.regions_seq().len()
                ==> (#[trigger] m.regions_seq()[i]).1 <= (#[trigger] m.regions_seq()[j]).0,
            forall|i: int, k: int| 0 <= i < m.rc@.len() && 0 <= k < m.rc@[i]@.len()
                ==> m.rc@[i]@[k] == 0u64,
            m.mem == old(m).mem,
            m.mem.pages@.len() == 0,
            m.free_list@.len() == 0,
            m.free_head == 0,
            !m.rc_enabled,
            m.temp == old(m).temp,
            m.cr3 == old(m).cr3,
            m.iflag == old(m).iflag,
            m.kv_next == old(m).kv_next,
            m.kv_free == old(m).kv_free,
            m.heap == old(m).heap,
        decreases n - idx,
    {
        let ghost mprev = *m;
        let r = bios_memory_map[idx];
        proof {
            assert(bios_memory_map@.take(idx as int + 1).drop_last()
                =~= bios_memory_map@.take(idx as int));
            assert(bios_memory_map@.take(idx as int + 1).last() == r);
            assert(registered(bios_memory_map@.take(idx as int + 1), bnd)
                == reg_step(mprev.regions_seq(), r, bnd));
        }
        let count = bounded::region_vec_len(&m.regions);
        if count < 8 && r.kind == REGION_KIND_USABLE {
            let wrapped_end = r.begin.0.wrapping_add(r.size);
            let end = wrapped_end & 0xffff_ffff_ffff_f000;
            let lo = if r.begin.0 < high_memory_boundary.0 {
                high_memory_boundary.0
            } else {
                r.begin.0
            };
            let begin = lo.wrapping_add(0xfff) & 0xffff_ffff_ffff_f000;
            let prev = if count == 0 {
                0u64
            } else {
                let last = bounded::region_vec_get(&m.regions, count - 1);
                last.1
            };
            proof {
                assert(begin == align_up(lo));
                assert(end == align_down(wrapped_end));
            }
            if 0 < begin && begin < end && end < MAX_PHYS_PAGE && begin >= prev
                && ((end - begin) >> 12) <= usize::MAX as u64 {
                let pushed = bounded::region_vec_try_push(&mut m.regions, begin, end);
                let pushed2 = bounded::cursor_vec_try_push(&mut m.cursors, begin);
                let words = ((end - begin) >> 12) as usize;
                let counters: Vec<u64> = zero_counters(words);
                m.rc.push(counters);
                proof {
                    assert(pushed && pushed2);
                    let l = lo;
                    assert(l.wrapping_add(0xfff) & 0xffff_ffff_ffff_f000 & 0xfff == 0u64)
                        by (bit_vector);
                    let w = wrapped_end;
                    assert(w & 0xffff_ffff_ffff_f000 & 0xfff == 0u64) by (bit_vector);
                    assert(m.regions_seq()
                        == registered(bios_memory_map@.take(idx as int + 1), bnd));
                    let nl = m.regions_seq().len();
                    assert(m.regions_seq()[nl - 1] == (begin, end));
                    assert(m.cursors_seq()[nl - 1] == begin);
                    assert(m.rc@[nl - 1]@.len() as int
                        == ((((end - begin) as u64) >> 12) as int));
                    assert forall|i: int| 0 <= i < nl implies
                        #[trigger] m.region_wf(i) by {
                        if i < nl - 1 {
                            assert(mprev.region_wf(i));
                            assert(m.regions_seq()[i] == mprev.regions_seq()[i]);
                            assert(m.cursors_seq()[i] == mprev.cursors_seq()[i]);
                            assert(m.rc@[i] == mprev.rc@[i]);
                        }
                    }
                    assert forall|i: int, j: int| 0 <= i < j < nl implies
                        (#[trigger] m.regions_seq()[i]).1
                            <= (#[trigger] m.regions_seq()[j]).0 by {
                        if j < nl - 1 {
                            assert(mprev.regions_seq()[i].1 <= mprev.regions_seq()[j].0);
                        } else {
                            // everything accepted earlier ends before `begin`
                            if i < nl - 2 {
                                assert(mprev.regions_seq()[i].1
                                    <= mprev.regions_seq()[nl - 2].0);
                                assert(mprev.region_wf(nl - 2));
                            }
                        }
                    }
                }
            } else {
                proof {
                    assert(m.regions_seq()
                        == registered(bios_memory_map@.take(idx as int + 1), bnd));
                }
            }
        } else {
            proof {
                assert(m.regions_seq()
                    == registered(bios_memory_map@.take(idx as int + 1), bnd));
            }
        }
        idx += 1;
    }
    proof {
        assert(bios_memory_map@.take(n as int) =~= bios_memory_map@);
        assert(m.regions_disjoint());
        assert forall|f: u64| page_aligned(f) && m.managed(f) implies
            m.rc_of(f) == Some(0u64) by {
            lemma_region_of_contains(*m, f);
            let i = m.region_of(f);
            let b = m.regions_seq()[i].0;
            let e = m.regions_seq()[i].1;
            assert(m.region_wf(i));
            assert((b & 0xfff == 0 && f & 0xfff == 0 && e & 0xfff == 0
                && b <= f && f < e)
                ==> ((f - b) as u64) >> 12 < ((e - b) as u64) >> 12) by (bit_vector);
            assert(0 <= rc_slot(m.regions_seq()[i], f) < m.rc@[i]@.len());
        }
        assert(m.phys_wf());
    }
}

/// Law: frames handed out by the allocator are 4 KiB aligned and
/// zero-filled, and two allocations with no free in between return
/// distinct frames.
pub fn alloc_distinct_law(m: &mut Machine) -> (r: Option<(Phys, Phys)>)
    requires
        old(m).phys_wf(),
        old(m).temp is None,
    ensures
        final(m).phys_wf(),
        r is Some ==> {
            let (a, b) = r->Some_0;
            &&& a.raw != b.raw
            &&& page_aligned(a.raw) && page_aligned(b.raw)
            &&& final(m).mem.frame(b.raw) == zero_page()
        },
{
    let a = match alloc_frame(m) {
        Ok(p) => p,
        Err(_) => {
            return None;
        }
    };
    let ghost m1 = *m;
    let b = match alloc_frame(m) {
        Ok(p) => p,
        Err(_) => {
            return None;
        }
    };
    proof {
        assert(!m1.avail(a.raw));
        assert(m1.avail(b.raw));
    }
    Some((a, b))
}

/// Law: after a clone, dropping either reference leaves the frame
/// allocated; dropping both returns it to the free list exactly once.
pub fn clone_release_law(p: Phys, m: &mut Machine)
    requires
        old(m).phys_wf(),
        old(m).temp is None,
        old(m).rc_enabled,
        page_aligned(p.raw),
        p.raw != 0,
        old(m).managed(p.raw),
        old(m).rc_of(p.raw) == Some(1u64),
        old(m).mem.has_frame(p.raw),
        !old(m).bump_avail(p.raw),
        !old(m).free_list@.contains(p.raw),
    ensures
        final(m).phys_wf(),
        // freed exactly once, and only by the second release
        final(m).free_list@ == seq![p.raw] + old(m).free_list@,
        final(m).rc_of(p.raw) == Some(0u64),
{
    let ghost raw = p.raw;
    let q = p.clone_ref(m);
    let ghost m1 = *m;
    proof {
        assert(m1.rc_of(raw) == Some(2u64));
    }
    q.release(m);
    let ghost m2 = *m;
    proof {
        // after the first release the frame is still allocated
        assert(m2.rc_of(raw) == Some(1u64));
        assert(m2.free_list == m1.free_list);
        assert(!m2.free_list@.contains(raw)) by {
            assert(m2.free_list@ == old(m).free_list@);
        }
        assert(m2.mem.has_frame(raw)) by {
            assert(m2.mem == m1.mem);
        }
    }
    p.release(m);
    proof {
        assert(m.free_list@ == seq![raw] + m2.free_list@);
        assert(m2.free_list@ == old(m).free_list@);
        assert(m.free_list@ =~= seq![raw] + old(m).free_list@);
    }
}

/// A vector of `n` zeroed counters.
fn zero_counters(n: usize) -> (v: Vec<u64>)
    ensures
        v@.len() == n,
        forall|i: int| 0 <= i < n ==> v@[i] == 0u64,
{
    let mut v: Vec<u64> = Vec::new();
    let mut i: usize = 0;
    while i < n
        invariant
            i <= n,
            v@.len() == i,
            forall|j: int| 0 <= j < i ==> v@[j] == 0u64,
        decreases n - i,
    {
        v.push(0u64);
        i += 1;
    }
    v
}

} // verus!
