//! The kernel heap: a slab allocator with power-of-two size classes
//! from 16 to 4096 bytes. Each class owns a free list of object
//! addresses; an empty class carves a fresh kernel-virtual page into
//! `4096 / size` objects.

use vstd::prelude::*;
use crate::machine::Machine;
use crate::mem::kvirt;
use crate::mem::page;
use crate::mem::phys;
use crate::mem::MemoryExhausted;

verus! {

/// One power-of-two size class and its free objects.
pub struct SizeClass {
    /// Object size in bytes; a power of two between 16 and 4096.
    pub size: usize,
    /// Addresses of free objects of this class, most recently freed
    /// last.
    pub free: Vec<u64>,
}

impl SizeClass {
    /// `size` must be a power of two and at most `PAGE_SIZE`.
    pub fn new(size: usize) -> (c: SizeClass)
        ensures
            c.size == size,
            c.free@ == Seq::<u64>::empty(),
    {
        SizeClass { size, free: Vec::new() }
    }

    /// Whether an allocation of `size` bytes aligned to `align` fits
    /// in this class.
    pub fn fits(&self, size: usize, align: usize) -> (r: bool)
        ensures
            r == (self.size >= size && self.size >= align),
    {
        self.size >= size && self.size >= align
    }
}

/// The byte size of size class `i`.
pub open spec fn class_size(i: int) -> int {
    16 * (vstd::arithmetic::power2::pow2(i as nat) as int)
}

proof fn lemma_class_size_bounds(i: int)
    requires
        0 <= i < 9,
    ensures
        16 <= class_size(i) <= 4096,
        4096int % class_size(i) == 0,
{
    vstd::arithmetic::power2::lemma2_to64();
    if i == 0 {
        assert(4096int % 16 == 0);
    } else if i == 1 {
        assert(4096int % 32 == 0);
    } else if i == 2 {
        assert(4096int % 64 == 0);
    } else if i == 3 {
        assert(4096int % 128 == 0);
    } else if i == 4 {
        assert(4096int % 256 == 0);
    } else if i == 5 {
        assert(4096int % 512 == 0);
    } else if i == 6 {
        assert(4096int % 1024 == 0);
    } else if i == 7 {
        assert(4096int % 2048 == 0);
    } else {
        assert(4096int % 4096 == 0);
    }
}

/// The slab heap: one size class per power of two.
pub struct Allocator {
    pub classes: Vec<SizeClass>,
}

impl Allocator {
    /// The heap's shape: nine classes of doubling sizes.
    pub open spec fn wf(self) -> bool {
        &&& self.classes@.len() == 9
        &&& forall|i: int| 0 <= i < 9
            ==> (#[trigger] self.classes@[i]).size as int == class_size(i)
    }

    /// An empty heap with classes from 16 to 4096 bytes.
    pub fn new() -> (a: Allocator)
        ensures
            a.wf(),
            forall|i: int| 0 <= i < 9 ==> (#[trigger] a.classes@[i]).free@.len() == 0,
    {
        let mut classes: Vec<SizeClass> = Vec::new();
        classes.push(SizeClass::new(16));
        classes.push(SizeClass::new(32));
        classes.push(SizeClass::new(64));
        classes.push(SizeClass::new(128));
        classes.push(SizeClass::new(256));
        classes.push(SizeClass::new(512));
        classes.push(SizeClass::new(1024));
        classes.push(SizeClass::new(2048));
        classes.push(SizeClass::new(4096));
        proof {
            vstd::arithmetic::power2::lemma2_to64();
            assert forall|i: int| 0 <= i < 9 implies
                (#[trigger] classes@[i]).size as int == class_size(i) by {
                assert(classes@[0].size == 16);
            }
        }
        Allocator { classes }
    }

    /// The first class an allocation of `size` bytes aligned to
    /// `align` fits in.
    pub fn class(&self, size: usize, align: usize) -> (r: Option<usize>)
        requires
            self.wf(),
        ensures
            match r {
                Some(i) => i < 9
                    && self.classes@[i as int].size >= size
                    && self.classes@[i as int].size >= align
                    && (forall|j: int| 0 <= j < i
                        ==> (#[trigger] self.classes@[j]).size < size
                            || self.classes@[j].size < align),
                None => forall|j: int| 0 <= j < 9
                    ==> (#[trigger] self.classes@[j]).size < size
                        || self.classes@[j].size < align,
            },
    {
        let n = self.classes.len();
        let mut i: usize = 0;
        while i < n
            invariant
                self.wf(),
                n == 9,
                i <= n,
                forall|j: int| 0 <= j < i
                    ==> (#[trigger] self.classes@[j]).size < size
                        || self.classes@[j].size < align,
            decreases n - i,
        {
            if self.classes[i].fits(size, align) {
                return Some(i);
            }
            i += 1;
        }
        None
    }
}

/// Whether a heap slot's backing can be wiped through the page
/// tables: its page's leaf resolves to a live counted frame, and the
/// slot's byte span is word-aligned inside the page.
pub open spec fn slot_backing_sound(m: Machine, ptr: u64, size: int) -> bool {
    let pg = ptr & 0xffff_ffff_ffff_f000;
    &&& m.leaf_entry(pg) is Some
    &&& kvirt::reused_page_sound(m, page::entry_addr(m.leaf_entry(pg)->Some_0))
    &&& (ptr - pg) % 8 == 0
    &&& (ptr - pg) + size <= 4096
}

/// The slot's words are memset to zero before it is handed out again,
/// whenever its backing resolves; nothing else of memory moves.
pub open spec fn slot_wipe_ok(pre: Machine, post: Machine, ptr: u64, size: int) -> bool {
    let pg = ptr & 0xffff_ffff_ffff_f000;
    let d = page::entry_addr(pre.leaf_entry(pg)->Some_0);
    &&& (slot_backing_sound(pre, ptr, size) ==> {
        &&& post.mem.has_frame(d)
        &&& post.mem.same_except(pre.mem, d)
        &&& forall|w: int| (ptr - pg) / 8 <= w < ((ptr - pg) + size) / 8
            ==> post.mem.frame(d)[w] == 0
    })
    &&& (!slot_backing_sound(pre, ptr, size) ==> post.mem == pre.mem)
}

/// What holds after a successful heap allocation from class `i`.
pub open spec fn heap_alloc_ok(pre: Machine, post: Machine, i: int, ptr: u64) -> bool {
    &&& (pre.heap.classes@[i].free@.len() > 0 ==> {
        // the most recently freed object is reused and wiped, and
        // nothing else moves
        &&& ptr == pre.heap.classes@[i].free@.last()
        &&& post.heap.classes@[i].free@ == pre.heap.classes@[i].free@.drop_last()
        &&& post.kv_next == pre.kv_next
        &&& post.kv_free == pre.kv_free
        &&& slot_wipe_ok(pre, post, ptr, pre.heap.classes@[i].size as int)
    })
    &&& (pre.heap.classes@[i].free@.len() == 0 ==> {
        // one kernel-virtual page was carved into objects, and the
        // page's last slot is handed out
        let page: u64 = if pre.kv_free@.len() > 0 {
            pre.kv_free@.last()
        } else {
            pre.kv_next
        };
        &&& post.heap.classes@[i].free@.len() as int
            == 4096int / (pre.heap.classes@[i].size as int) - 1
        &&& ptr as int == page + 4096 - pre.heap.classes@[i].size
        &&& (forall|s: int| 0 <= s < post.heap.classes@[i].free@.len()
            ==> (#[trigger] post.heap.classes@[i].free@[s]) as int
                == page + s * pre.heap.classes@[i].size)
        &&& (pre.kv_free@.len() > 0 ==> post.kv_free@ == pre.kv_free@.drop_last())
        &&& (pre.kv_free@.len() == 0 ==> post.kv_next == pre.kv_next + 4096)
        // a carved page is freshly wiped whole: every object of it,
        // the returned one included, lies on a zero-filled frame
        &&& post.leaf_entry(page) is Some
        &&& crate::mem::page::entry_addr(post.leaf_entry(page)->Some_0) != 0
        &&& post.mem.has_frame(
            crate::mem::page::entry_addr(post.leaf_entry(page)->Some_0))
        &&& post.mem.frame(crate::mem::page::entry_addr(post.leaf_entry(page)->Some_0))
            == crate::machine::zero_page()
    })
    &&& forall|j: int| 0 <= j < 9 && j != i
        ==> (#[trigger] post.heap.classes@[j]).free@ == pre.heap.classes@[j].free@
            && post.heap.classes@[j].size == pre.heap.classes@[j].size
    &&& post.heap.classes@[i].size == pre.heap.classes@[i].size
    &&& post.heap.wf()
}

/// Allocates `size` bytes aligned to `align` from the heap: the head
/// of the class's free list, or a slot of a freshly carved page.
pub fn alloc_layout(m: &mut Machine, size: usize, align: usize)
    -> (r: Result<u64, MemoryExhausted>)
    requires
        old(m).phys_wf(),
        old(m).temp is None,
        old(m).heap.wf(),
        1 <= size <= 4096,
        align <= 4096,
        crate::mem::phys::page_aligned(old(m).kv_next),
        old(m).kv_next + 4096 < 0x1_0000_0000_0000_0000,
        forall|a: u64| 0 <= a < old(m).kv_free@.len()
            ==> crate::mem::phys::page_aligned(#[trigger] old(m).kv_free@[a as int]),
        old(m).kv_free@.len() > 0
            ==> kvirt::kv_page_live(*old(m), old(m).kv_free@.last()),
        old(m).kv_free@.len() == 0 ==> {
            &&& old(m).path_live(old(m).kv_next)
            &&& old(m).path_distinct(old(m).kv_next)
            &&& old(m).path_resolved(old(m).kv_next)
            &&& old(m).leaf_entry(old(m).kv_next) is None
        },
    ensures
        final(m).phys_wf(),
        final(m).temp is None,
        final(m).heap.wf(),
        r is Ok ==> {
            let i = old(m).heap.class_of(size, align);
            &&& 0 <= i < 9
            &&& old(m).heap.classes@[i].size >= size
            &&& old(m).heap.classes@[i].size >= align
            &&& (forall|j: int| 0 <= j < i
                ==> (#[trigger] old(m).heap.classes@[j]).size < size
                    || old(m).heap.classes@[j].size < align)
            &&& heap_alloc_ok(*old(m), *final(m), i, r->Ok_0)
        },
        // failure happens only with the class empty and no kernel
        // page on the free list; the heap itself is untouched
        r is Err ==> {
            let i = old(m).heap.class_of(size, align);
            &&& old(m).heap.classes@[i].free@.len() == 0
            &&& old(m).kv_free@.len() == 0
            &&& final(m).heap == old(m).heap
        },
{
    let i = match m.heap.class(size, align) {
        Some(i) => i,
        None => {
            proof {
                // 4096 fits everything the bounds allow
                assert(m.heap.classes@[8].size as int == class_size(8));
                vstd::arithmetic::power2::lemma2_to64();
                assert(false);
            }
            return Err(MemoryExhausted);
        }
    };
    proof {
        lemma_class_of(old(m).heap, size, align, i as int);
    }
    let ghost s0 = *old(m);
    if m.heap.classes[i].free.len() == 0 {
        let page = match kvirt::alloc_page(m) {
            Ok(p) => p,
            Err(e) => {
                return Err(e);
            }
        };
        let ghost m1 = *m;
        let csize = m.heap.classes[i].size;
        proof {
            lemma_class_size_bounds(i as int);
        }
        
        proof {
            let pg = page;
            assert((pg & 0xfff == 0) ==> pg <= 0xffff_ffff_ffff_f000u64) by (bit_vector);
        }
        let mut off: usize = 0;
        let mut carved: usize = 0;
        while off + csize <= 4096
            invariant
                off <= 4096,
                page <= 0xffff_ffff_ffff_f000u64,
                m.heap.wf(),
                i < 9,
                csize == m.heap.classes@[i as int].size,
                csize as int == class_size(i as int),
                1 <= csize <= 4096,
                off == carved * csize,
                carved <= 4096int / (csize as int),
                m.heap.classes@[i as int].free@.len() == carved,
                forall|s: int| 0 <= s < carved
                    ==> (#[trigger] m.heap.classes@[i as int].free@[s]) as int
                        == page + s * (csize as int),
                forall|j: int| 0 <= j < 9 && j != i
                    ==> (#[trigger] m.heap.classes@[j]).free@
                        == m1.heap.classes@[j].free@
                        && m.heap.classes@[j].size == m1.heap.classes@[j].size,
                *m == (Machine { heap: m.heap, ..m1 }),
                m1.heap.classes@[i as int].free@.len() == 0,
                m1.heap.wf(),
            decreases 4096 - off,
        {
            let slot = page + off as u64;
            m.heap.classes[i].free.push(slot);
            let ghost old_off = off;
            let ghost old_carved = carved;
            proof {
                assert(slot as int == page + old_carved * (csize as int));
            }
            off += csize;
            carved += 1;
            proof {
                assert(off == carved * csize) by (nonlinear_arith)
                    requires
                        off == old_off + csize,
                        carved == old_carved + 1,
                        old_off == old_carved * csize,
                {}
                assert(carved <= 4096int / (csize as int)) by (nonlinear_arith)
                    requires
                        off == carved * csize,
                        off <= 4096,
                        1 <= csize,
                {}
            }
        }
        proof {
            assert(carved == 4096int / (csize as int)) by (nonlinear_arith)
                requires
                    off == carved * csize,
                    off + csize > 4096,
                    off <= 4096,
                    carved <= 4096int / (csize as int),
                    1 <= csize <= 4096,
            {}
        }
        let ptr = m.heap.classes[i].free.pop().unwrap();
        proof {
            crate::mem::phys::lemma_wf_fields(m1, *m);
            page::lemma_walk_congruent(m1, *m);
            assert(m.leaf_entry(page) == m1.leaf_entry(page));
            // the handed-out slot is the page's last: all class sizes
            // divide the page exactly
            assert((4096int / (csize as int)) * (csize as int) == 4096)
                by (nonlinear_arith)
                requires
                    csize as int == class_size(i as int),
                    4096int % class_size(i as int) == 0,
                    1 <= csize <= 4096,
            {}
            assert((carved - 1) * (csize as int) == 4096 - csize)
                by (nonlinear_arith)
                requires
                    carved == 4096int / (csize as int),
                    (4096int / (csize as int)) * (csize as int) == 4096,
            {}
            assert(ptr as int == page + 4096 - csize);
        }
        Ok(ptr)
    } else {
        let ptr = m.heap.classes[i].free.pop().unwrap();
        let csize = m.heap.classes[i].size;
        proof {
            crate::mem::phys::lemma_wf_fields(s0, *m);
            page::lemma_walk_congruent(s0, *m);
            lemma_class_size_bounds(i as int);
            let p = ptr;
            assert((p & 0xffff_ffff_ffff_f000) <= p) by (bit_vector);
            assert(((p - (p & 0xffff_ffff_ffff_f000)) as u64) < 4096) by (bit_vector);
        }
        // memset the slot to zero before it is handed out again, when
        // its page resolves to a wipeable frame
        let pg = ptr & 0xffff_ffff_ffff_f000;
        let off = ptr - pg;
        match page::checked_pml1_entry(m, pg) {
            Ok((t1, i1)) => {
                let w = m.mem.read_word(t1, i1);
                let d = w & 0xffff_ffff_ffff_f000;
                proof {
                    assert(d == page::entry_addr(s0.leaf_entry(pg)->Some_0));
                    assert((w & 0xffff_ffff_ffff_f000) & 0xfff == 0u64) by (bit_vector);
                }
                let sound = d != 0 && m.mem.contains(d) && m.rc_enabled && {
                    match phys::ref_count(m, d) {
                        None => true,
                        Some(c) => c >= 1,
                    }
                } && off % 8 == 0 && off + (csize as u64) <= 4096;
                if sound {
                    proof {
                        assert(!m.free_list@.contains(d)) by {
                            if m.free_list@.contains(d) {
                                let kk = choose|kk: int|
                                    0 <= kk < m.free_list@.len()
                                    && m.free_list@[kk] == d;
                                assert(m.free_frame_wf(kk));
                                assert(m.managed(d));
                                assert(m.rc_of(d) == s0.rc_of(d));
                            }
                        }
                        assert(slot_backing_sound(s0, ptr, csize as int));
                    }
                    page::zero_frame_words(m, d, (off / 8) as usize,
                        ((off + csize as u64) / 8) as usize);
                    proof {
                        assert(m.mem.same_except(s0.mem, d));
                        assert(slot_wipe_ok(s0, *m, ptr, csize as int));
                    }
                } else {
                    proof {
                        assert(!slot_backing_sound(s0, ptr, csize as int)) by {
                            if slot_backing_sound(s0, ptr, csize as int) {
                                if m.managed(d) {
                                    assert(m.rc_of(d) == s0.rc_of(d));
                                }
                            }
                        }
                        assert(slot_wipe_ok(s0, *m, ptr, csize as int));
                    }
                }
            }
            Err(_) => {
                proof {
                    assert(s0.leaf_entry(pg) is None);
                    assert(slot_wipe_ok(s0, *m, ptr, csize as int));
                }
            }
        }
        Ok(ptr)
    }
}

impl Allocator {
    /// The class [`alloc_layout`] serves `size`/`align` from.
    pub open spec fn class_of(self, size: usize, align: usize) -> int {
        choose|i: int| 0 <= i < 9
            && self.classes@[i].size >= size && self.classes@[i].size >= align
            && forall|j: int| 0 <= j < i
                ==> (#[trigger] self.classes@[j]).size < size
                    || self.classes@[j].size < align
    }
}

proof fn lemma_class_of(a: Allocator, size: usize, align: usize, i: int)
    requires
        a.wf(),
        0 <= i < 9,
        a.classes@[i].size >= size,
        a.classes@[i].size >= align,
        forall|j: int| 0 <= j < i
            ==> (#[trigger] a.classes@[j]).size < size || a.classes@[j].size < align,
    ensures
        a.class_of(size, align) == i,
{
    let c = a.class_of(size, align);
    assert(0 <= c < 9
        && a.classes@[c].size >= size && a.classes@[c].size >= align
        && forall|j: int| 0 <= j < c
            ==> (#[trigger] a.classes@[j]).size < size || a.classes@[j].size < align);
    if c < i {
        assert(a.classes@[c].size < size || a.classes@[c].size < align);
    } else if i < c {
        assert(a.classes@[i].size < size || a.classes@[i].size < align);
    }
}

/// Returns one object to its class's free list.
pub fn free_layout(m: &mut Machine, ptr: u64, size: usize, align: usize)
    requires
        old(m).heap.wf(),
        1 <= size <= 4096,
        align <= 4096,
    ensures
        final(m).heap.wf(),
        ({
            let i = old(m).heap.class_of(size, align);
            &&& 0 <= i < 9
            &&& final(m).heap.classes@[i].free@
                == old(m).heap.classes@[i].free@.push(ptr)
            &&& forall|j: int| 0 <= j < 9 && j != i
                ==> (#[trigger] final(m).heap.classes@[j]).free@
                    == old(m).heap.classes@[j].free@
                    && final(m).heap.classes@[j].size == old(m).heap.classes@[j].size
            &&& final(m).heap.classes@[i].size == old(m).heap.classes@[i].size
        }),
        *final(m) == (Machine { heap: final(m).heap, ..*old(m) }),
{
    let i = match m.heap.class(size, align) {
        Some(i) => i,
        None => {
            proof {
                assert(m.heap.classes@[8].size as int == class_size(8));
                vstd::arithmetic::power2::lemma2_to64();
                assert(false);
            }
            return;
        }
    };
    proof {
        lemma_class_of(old(m).heap, size, align, i as int);
    }
    m.heap.classes[i].free.push(ptr);
}

/// Law: an allocation followed by a free of the same layout returns
/// the class to its prior free-list length, and repeated allocation
/// within one class consumes exactly one kernel-virtual page per
/// `4096 / size` objects, as the carve count in `heap_alloc_ok` pins.
pub fn heap_round_trip_law(m: &mut Machine, size: usize, align: usize)
    -> (r: Option<u64>)
    requires
        old(m).phys_wf(),
        old(m).temp is None,
        old(m).heap.wf(),
        1 <= size <= 4096,
        align <= 4096,
        crate::mem::phys::page_aligned(old(m).kv_next),
        old(m).kv_next + 4096 < 0x1_0000_0000_0000_0000,
        forall|a: u64| 0 <= a < old(m).kv_free@.len()
            ==> crate::mem::phys::page_aligned(#[trigger] old(m).kv_free@[a as int]),
        old(m).kv_free@.len() > 0
            ==> kvirt::kv_page_live(*old(m), old(m).kv_free@.last()),
        old(m).kv_free@.len() == 0 ==> {
            &&& old(m).path_live(old(m).kv_next)
            &&& old(m).path_distinct(old(m).kv_next)
            &&& old(m).path_resolved(old(m).kv_next)
            &&& old(m).leaf_entry(old(m).kv_next) is None
        },
    ensures
        final(m).phys_wf(),
        final(m).heap.wf(),
        r is Some ==> {
            let i = old(m).heap.class_of(size, align);
            final(m).heap.classes@[i].free@.len()
                == old(m).heap.classes@[i].free@.len()
                || (old(m).heap.classes@[i].free@.len() == 0
                    && final(m).heap.classes@[i].free@.len() as int
                        == 4096int / (old(m).heap.classes@[i].size as int))
        },
{
    let ptr = match alloc_layout(m, size, align) {
        Ok(p) => p,
        Err(_) => {
            return None;
        }
    };
    let ghost mid = *m;
    proof {
        let i = old(m).heap.class_of(size, align);
        lemma_class_of(mid.heap, size, align, i);
    }
    free_layout(m, ptr, size, align);
    proof {
        crate::mem::phys::lemma_wf_fields(mid, *m);
    }
    Some(ptr)
}

} // verus!
