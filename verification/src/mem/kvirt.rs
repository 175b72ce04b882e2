//! The kernel-virtual page allocator: a bump region that starts past
//! the kernel image, growing one mapped page at a time, with a free
//! list of pages given back.

use vstd::prelude::*;
use crate::machine::Machine;
use crate::mem::MemoryExhausted;
use crate::mem::page;
use crate::mem::page::{PageFlags, map_ok};
use crate::mem::phys;
use crate::mem::phys::page_aligned;

verus! {

/// What holds after a successful [`alloc_page`]: a page-aligned
/// kernel-virtual page, mapped present and writable onto a
/// zero-filled frame, from the free list (most recent first) or from
/// the bump cursor.
pub open spec fn alloc_page_ok(pre: Machine, post: Machine, addr: u64) -> bool {
    &&& page_aligned(addr)
    &&& post.leaf_entry(addr) is Some
    &&& post.leaf_entry(addr)->Some_0 & 0x3 == 0x3
    &&& page::entry_addr(post.leaf_entry(addr)->Some_0) != 0
    &&& post.mem.has_frame(page::entry_addr(post.leaf_entry(addr)->Some_0))
    &&& post.mem.frame(page::entry_addr(post.leaf_entry(addr)->Some_0))
        == crate::machine::zero_page()
    &&& (pre.kv_free@.len() > 0 ==> {
        let d = page::entry_addr(pre.leaf_entry(addr)->Some_0);
        &&& addr == pre.kv_free@.last()
        &&& post.kv_free@ == pre.kv_free@.drop_last()
        &&& post.kv_next == pre.kv_next
        &&& post.free_list == pre.free_list
        &&& post.cursors == pre.cursors
        // the page handed out again keeps its mapping; the frame
        // behind it is wiped before it leaves the allocator
        &&& post.leaf_entry(addr) == pre.leaf_entry(addr)
        &&& post.mem.same_except(pre.mem, d)
    })
    &&& (pre.kv_free@.len() == 0 ==> {
        &&& addr == pre.kv_next
        &&& post.kv_next == pre.kv_next + 4096
        &&& post.kv_free == pre.kv_free
        &&& forall|f: u64| #[trigger] post.avail(f) ==> pre.avail(f)
    })
    &&& post.cr3 == pre.cr3
    &&& post.iflag == pre.iflag
    &&& post.temp == pre.temp
    &&& post.heap == pre.heap
}

/// Whether a reused page's backing frame can be wiped in place:
/// touched and, with counting on, holding at least one reference —
/// which keeps it off the allocator's free list.
pub open spec fn reused_page_sound(m: Machine, d: u64) -> bool {
    &&& d != 0
    &&& m.mem.has_frame(d)
    &&& m.rc_enabled
    &&& (m.managed(d) ==> m.rc_of(d)->Some_0 >= 1)
}

/// A page on the kernel-virtual free list is still a live kernel
/// mapping: present and writable, onto a wipeable data frame off the
/// page's own walk. Pages reach the list only through [`free_page`],
/// which takes back pages this allocator handed out, so the kernel
/// maintains this for every listed page.
pub open spec fn kv_page_live(m: Machine, a: u64) -> bool {
    &&& m.leaf_entry(a) is Some
    &&& m.leaf_entry(a)->Some_0 & 0x3 == 0x3
    &&& reused_page_sound(m, page::entry_addr(m.leaf_entry(a)->Some_0))
    &&& !m.in_path(a, page::entry_addr(m.leaf_entry(a)->Some_0))
}

/// Hands out one kernel-virtual page: a page from the free list if
/// one is there, else the next page of the bump region, backed by a
/// freshly mapped frame.
pub fn alloc_page(m: &mut Machine) -> (r: Result<u64, MemoryExhausted>)
    requires
        old(m).phys_wf(),
        old(m).temp is None,
        page_aligned(old(m).kv_next),
        old(m).kv_next + 4096 < 0x1_0000_0000_0000_0000,
        forall|a: u64| 0 <= a < old(m).kv_free@.len()
            ==> page_aligned(#[trigger] old(m).kv_free@[a as int]),
        old(m).kv_free@.len() > 0
            ==> kv_page_live(*old(m), old(m).kv_free@.last()),
        old(m).kv_free@.len() == 0 ==> {
            &&& old(m).path_live(old(m).kv_next)
            &&& old(m).path_distinct(old(m).kv_next)
            &&& old(m).path_resolved(old(m).kv_next)
            &&& old(m).leaf_entry(old(m).kv_next) is None
        },
    ensures
        final(m).phys_wf(),
        final(m).temp is None,
        final(m).heap == old(m).heap,
        r is Ok ==> alloc_page_ok(*old(m), *final(m), r->Ok_0),
        // failure needs the free list empty and physical memory gone:
        // none at entry, or none left after the page's own frame
        r is Err ==> old(m).kv_free@.len() == 0
            && (forall|f: u64| !final(m).avail(f)),
        old(m).kv_free@.len() == 0 && (forall|f: u64| !old(m).avail(f))
            ==> r is Err,
{
    if m.kv_free.len() > 0 {
        let ghost s0 = *old(m);
        let addr = m.kv_free.pop().unwrap();
        proof {
            phys::lemma_wf_fields(s0, *m);
            page::lemma_walk_congruent(s0, *m);
            assert(kv_page_live(s0, addr));
        }
        // wipe the backing frame before the page is handed out again
        let (t1, i1) = match page::checked_pml1_entry(m, addr) {
            Ok(p) => p,
            Err(_) => {
                proof {
                    assert(false);
                }
                (0u64, 0usize)
            }
        };
        let w = m.mem.read_word(t1, i1);
        let d = w & 0xffff_ffff_ffff_f000;
        proof {
            assert(d == page::entry_addr(s0.leaf_entry(addr)->Some_0));
            assert(reused_page_sound(s0, d));
            assert(m.mem.has_frame(d));
            assert(!m.free_list@.contains(d)) by {
                if m.free_list@.contains(d) {
                    let kk = choose|kk: int|
                        0 <= kk < m.free_list@.len()
                        && m.free_list@[kk] == d;
                    assert(m.free_frame_wf(kk));
                    assert(m.managed(d));
                    assert(m.rc_of(d) == s0.rc_of(d));
                }
            }
        }
        let ghost mp = *m;
        page::zero_live_frame(m, d);
        proof {
            let z = *m;
            // the walk of the reused page survives the wipe: the data
            // frame is off its own walk
            let wt3 = s0.l3_table(addr)->Some_0;
            let wt2 = s0.l2_table(addr)->Some_0;
            let wt1 = s0.l1_table(addr)->Some_0;
            assert(s0.l3_table(addr) is Some && s0.l2_table(addr) is Some
                && s0.l1_table(addr) is Some);
            assert(d != s0.cr3 && d != wt3 && d != wt2 && d != wt1);
            assert(z.cr3 == s0.cr3);
            assert(z.mem.same_except(mp.mem, d) && mp.mem == s0.mem);
            assert(z.mem.has_frame(s0.cr3)
                && z.mem.frame(s0.cr3) == s0.mem.frame(s0.cr3));
            assert(z.mem.has_frame(wt3) && z.mem.frame(wt3) == s0.mem.frame(wt3));
            assert(z.mem.has_frame(wt2) && z.mem.frame(wt2) == s0.mem.frame(wt2));
            assert(z.mem.has_frame(wt1) && z.mem.frame(wt1) == s0.mem.frame(wt1));
            assert(z.walk_step(z.cr3, page::l4_index(addr)) == Some(wt3));
            assert(z.l3_table(addr) == Some(wt3));
            assert(z.walk_step(wt3, page::l3_index(addr)) == Some(wt2));
            assert(z.l2_table(addr) == Some(wt2));
            assert(z.walk_step(wt2, page::l2_index(addr)) == Some(wt1));
            assert(z.l1_table(addr) == Some(wt1));
            assert(z.leaf_entry(addr) == s0.leaf_entry(addr));
        }
        return Ok(addr);
    }
    let frame = match phys::alloc_frame(m) {
        Ok(f) => f,
        Err(e) => {
            return Err(e);
        }
    };
    let ghost s0 = *old(m);
    let ghost m1 = *m;
    let addr = m.kv_next;
    m.kv_next = m.kv_next + 4096;
    let ghost m2 = *m;
    proof {
        phys::lemma_wf_fields(m1, m2);
        assert(m2.l3_table(addr) == m1.l3_table(addr));
        assert(m2.l2_table(addr) == m1.l2_table(addr));
        assert(m2.l1_table(addr) == m1.l1_table(addr));
        assert(m2.leaf_entry(addr) == m1.leaf_entry(addr));
        // the path of the bump page survives the frame allocation
        let t3 = s0.l3_table(addr)->Some_0;
        let t2 = s0.l2_table(addr)->Some_0;
        let t1 = s0.l1_table(addr)->Some_0;
        assert(!s0.avail(s0.cr3));
        assert(m1.cr3 == s0.cr3);
        assert(frame.raw != s0.cr3);
        assert(m1.mem.frame(s0.cr3) == s0.mem.frame(s0.cr3));
        if s0.l3_table(addr) is Some {
            assert(!s0.avail(t3));
            assert(frame.raw != t3);
            assert(m1.mem.has_frame(t3) && m1.mem.frame(t3) == s0.mem.frame(t3));
        }
        if s0.l2_table(addr) is Some {
            assert(!s0.avail(t2));
            assert(frame.raw != t2);
            assert(m1.mem.has_frame(t2) && m1.mem.frame(t2) == s0.mem.frame(t2));
        }
        if s0.l1_table(addr) is Some {
            assert(!s0.avail(t1));
            assert(frame.raw != t1);
            assert(m1.mem.has_frame(t1) && m1.mem.frame(t1) == s0.mem.frame(t1));
        }
        assert(m1.l3_table(addr) == s0.l3_table(addr));
        assert(m1.l2_table(addr) == s0.l2_table(addr));
        assert(m1.l1_table(addr) == s0.l1_table(addr));
        assert(m1.leaf_entry(addr) == s0.leaf_entry(addr));
        assert(m2.path_live(addr)) by {
            assert(m2.table_frame_live(m2.cr3)) by {
                phys::lemma_avail_congruent(m1, m2);
                assert(!m1.avail(m1.cr3));
            }
            if m2.l3_table(addr) is Some {
                assert(m2.table_frame_live(t3)) by {
                    phys::lemma_avail_congruent(m1, m2);
                }
            }
            if m2.l2_table(addr) is Some {
                assert(m2.table_frame_live(t2)) by {
                    phys::lemma_avail_congruent(m1, m2);
                }
            }
            if m2.l1_table(addr) is Some {
                assert(m2.table_frame_live(t1)) by {
                    phys::lemma_avail_congruent(m1, m2);
                }
            }
        }
        assert(m2.path_distinct(addr));
        assert(m2.path_resolved(addr));
    }
    let flags = PageFlags { bits: 0x3 };
    proof {
        assert(0x3u64 & 0xfff == 0x3u64) by (bit_vector);
    }
    let mapped = match page::map(m, frame, addr, flags) {
        Ok(u) => u,
        Err(e2) => {
            proof {
                if e2 == page::MapError::AlreadyMapped {
                    assert(m2.leaf_entry(addr) is Some);
                }
                assert(e2 == page::MapError::CannotAllocatePageTable);
                assert(forall|f: u64| !m.avail(f));
            }
            // no frame was left for an inner table; the cursor stays
            // advanced, as the bump region never shrinks
            return Err(MemoryExhausted);
        }
    };
    proof {
        assert(map_ok(m2, *m, frame.raw, addr, flags));
        let fin = *m;
        let fr = frame.raw;
        // the fresh frame backs the page: mapped present and
        // writable, and still zero-filled, as map never writes it
        assert(fin.leaf_entry(addr) == Some(fr | 0x3u64));
        assert(((fr | 0x3u64) & 0x3) == 0x3u64) by (bit_vector);
        assert((fr & 0xfff == 0)
            ==> ((fr | 0x3u64) & 0xffff_ffff_ffff_f000) == fr) by (bit_vector);
        assert(page::entry_addr(fin.leaf_entry(addr)->Some_0) == fr);
        assert(!m2.avail(fr)) by {
            phys::lemma_avail_congruent(m1, m2);
            assert(!m1.avail(fr));
        }
        assert(!m2.in_path(addr, fr)) by {
            assert(fr != m2.cr3);
            if m2.l3_table(addr) == Some(fr) {
                assert(s0.l3_table(addr) == Some(fr));
            }
            if m2.l2_table(addr) == Some(fr) {
                assert(s0.l2_table(addr) == Some(fr));
            }
            if m2.l1_table(addr) == Some(fr) {
                assert(s0.l1_table(addr) == Some(fr));
            }
        }
        assert(m2.mem.has_frame(fr));
        assert(m2.mem.frame(fr) == crate::machine::zero_page());
        assert(fin.mem.has_frame(fr) && fin.mem.frame(fr) == m2.mem.frame(fr));
        assert forall|f: u64| #[trigger] m.avail(f) implies s0.avail(f) by {
            if f != frame.raw {
                if page_aligned(f) {
                    assert(m2.avail(f) == m1.avail(f)) by {
                        phys::lemma_avail_congruent(m1, m2);
                    }
                    assert(m1.avail(f) == s0.avail(f));
                } else {
                    if m.avail(f) {
                        page::lemma_avail_aligned(*m, f);
                    }
                }
            } else {
                assert(s0.avail(f));
            }
        }
    }
    Ok(addr)
}

/// Gives a kernel-virtual page back to the allocator's free list.
pub fn free_page(m: &mut Machine, addr: u64)
    requires
        page_aligned(addr),
    ensures
        final(m).kv_free@ == old(m).kv_free@.push(addr),
        *final(m) == (Machine { kv_free: final(m).kv_free, ..*old(m) }),
{
    m.kv_free.push(addr);
}

} // verus!
