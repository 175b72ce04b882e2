//! The machine state the kernel logic works on: simulated physical
//! memory, the registered RAM regions and their bump cursors, the frame
//! free list and reference counts, the current address-space root (CR3),
//! the temporary mapping window, the interrupt flag, and the kernel
//! heap's bookkeeping.

use vstd::prelude::*;
use crate::mem::kalloc::Allocator;

verus! {

/// Number of 8-byte words in one page.
pub const PAGE_WORDS: usize = 512;

/// The contents of one physical page the kernel has touched.
pub struct Page {
    /// Physical base address, 4 KiB aligned and nonzero.
    pub base: u64,
    /// The page's 512 words.
    pub words: Vec<u64>,
}

impl Page {
    pub open spec fn wf(self) -> bool {
        &&& self.words@.len() == 512
        &&& self.base & 0xfff == 0
        &&& self.base != 0
    }
}

/// A page whose every word is zero.
pub open spec fn zero_page() -> Seq<u64> {
    Seq::new(512, |i: int| 0u64)
}

/// Simulated physical memory: the set of frames the kernel has touched,
/// each with its contents. Frames the allocator has not yet handed out
/// are absent.
pub struct PhysMem {
    pub pages: Vec<Page>,
}

impl PhysMem {
    pub open spec fn wf(self) -> bool {
        &&& forall|i: int| 0 <= i < self.pages@.len() ==> (#[trigger] self.pages@[i]).wf()
        &&& forall|i: int, j: int|
            0 <= i < j < self.pages@.len() ==> self.pages@[i].base != self.pages@[j].base
    }

    /// Whether frame `f` has been touched.
    pub open spec fn has_frame(self, f: u64) -> bool {
        exists|i: int| 0 <= i < self.pages@.len() && (#[trigger] self.pages@[i]).base == f
    }

    pub open spec fn idx_of(self, f: u64) -> int {
        choose|i: int| 0 <= i < self.pages@.len() && (#[trigger] self.pages@[i]).base == f
    }

    /// The contents of frame `f`.
    pub open spec fn frame(self, f: u64) -> Seq<u64> {
        self.pages@[self.idx_of(f)].words@
    }

    proof fn lemma_idx_unique(self, f: u64, i: int)
        requires
            self.wf(),
            0 <= i < self.pages@.len(),
            self.pages@[i].base == f,
        ensures
            self.idx_of(f) == i,
            self.has_frame(f),
    {
        assert(self.has_frame(f));
        let j = self.idx_of(f);
        if i < j {
            assert(self.pages@[i].base != self.pages@[j].base);
        } else if j < i {
            assert(self.pages@[j].base != self.pages@[i].base);
        }
    }

    /// Two memories agree except possibly at frame `f`.
    pub open spec fn same_except(self, other: PhysMem, f: u64) -> bool {
        &&& forall|g: u64|
            g != f ==> (#[trigger] self.has_frame(g) <==> other.has_frame(g))
        &&& forall|g: u64|
            g != f && self.has_frame(g) ==> #[trigger] self.frame(g) == other.frame(g)
    }

    /// Two memories agree except possibly at frames `f1` and `f2`.
    pub open spec fn same_except2(self, other: PhysMem, f1: u64, f2: u64) -> bool {
        &&& forall|g: u64|
            g != f1 && g != f2 ==> (#[trigger] self.has_frame(g) <==> other.has_frame(g))
        &&& forall|g: u64|
            g != f1 && g != f2 && self.has_frame(g)
                ==> #[trigger] self.frame(g) == other.frame(g)
    }

    /// A touched frame's address is aligned and nonzero.
    pub proof fn lemma_frame_aligned(self, f: u64)
        requires
            self.wf(),
            self.has_frame(f),
        ensures
            f & 0xfff == 0,
            f != 0,
    {
        let i = choose|i: int| 0 <= i < self.pages@.len()
            && (#[trigger] self.pages@[i]).base == f;
        assert(self.pages@[i].wf());
    }

    fn find(&self, f: u64) -> (r: Option<usize>)
        requires
            self.wf(),
        ensures
            match r {
                Some(i) => i < self.pages@.len()
                    && self.pages@[i as int].base == f
                    && self.has_frame(f)
                    && self.idx_of(f) == i,
                None => !self.has_frame(f),
            },
    {
        let n = self.pages.len();
        let mut i: usize = 0;
        while i < n
            invariant
                n == self.pages@.len(),
                i <= n,
                self.wf(),
                forall|j: int| 0 <= j < i ==> (#[trigger] self.pages@[j]).base != f,
            decreases n - i,
        {
            if self.pages[i].base == f {
                proof {
                    self.lemma_idx_unique(f, i as int);
                }
                return Some(i);
            }
            i += 1;
        }
        proof {
            assert forall|j: int| 0 <= j < self.pages@.len() implies
                (#[trigger] self.pages@[j]).base != f by {}
        }
        None
    }

    /// Whether the kernel has touched frame `f`.
    pub fn contains(&self, f: u64) -> (r: bool)
        requires
            self.wf(),
        ensures
            r == self.has_frame(f),
    {
        self.find(f).is_some()
    }

    /// Reads one word of a touched frame.
    pub fn read_word(&self, f: u64, idx: usize) -> (w: u64)
        requires
            self.wf(),
            self.has_frame(f),
            idx < 512,
        ensures
            w == self.frame(f)[idx as int],
    {
        let i = self.find(f).unwrap();
        self.pages[i].words[idx]
    }

    /// Writes one word of a touched frame.
    pub fn write_word(&mut self, f: u64, idx: usize, w: u64)
        requires
            old(self).wf(),
            old(self).has_frame(f),
            idx < 512,
        ensures
            final(self).wf(),
            final(self).has_frame(f),
            final(self).frame(f) == old(self).frame(f).update(idx as int, w),
            final(self).same_except(*old(self), f),
            final(self).pages@.len() == old(self).pages@.len(),
    {
        let i = self.find(f).unwrap();
        self.pages[i].words[idx] = w;
        proof {
            let iv = i as int;
            assert(self.pages@[iv].base == f);
            assert(forall|j: int| 0 <= j < self.pages@.len() && j != iv ==>
                self.pages@[j] == old(self).pages@[j]);
            self.lemma_idx_unique(f, iv);
            assert forall|g: u64| g != f && self.has_frame(g) implies
                #[trigger] self.frame(g) == old(self).frame(g) by {
                let j = choose|j: int|
                    0 <= j < self.pages@.len() && (#[trigger] self.pages@[j]).base == g;
                self.lemma_idx_unique(g, j);
                old(self).lemma_idx_unique(g, j);
            }
            assert forall|g: u64| g != f implies
                (#[trigger] self.has_frame(g) <==> old(self).has_frame(g)) by {}
        }
    }

    /// Sets every word of a touched frame to zero.
    pub fn zero_frame(&mut self, f: u64)
        requires
            old(self).wf(),
            old(self).has_frame(f),
        ensures
            final(self).wf(),
            final(self).has_frame(f),
            final(self).frame(f) == zero_page(),
            final(self).same_except(*old(self), f),
            final(self).pages@.len() == old(self).pages@.len(),
    {
        let i = self.find(f).unwrap();
        let zeros: Vec<u64> = zero_words();
        self.pages[i].words = zeros;
        proof {
            let iv = i as int;
            assert(self.pages@[iv].base == f);
            assert(forall|j: int| 0 <= j < self.pages@.len() && j != iv ==>
                self.pages@[j] == old(self).pages@[j]);
            self.lemma_idx_unique(f, iv);
            assert(self.frame(f) =~= zero_page());
            assert forall|g: u64| g != f && self.has_frame(g) implies
                #[trigger] self.frame(g) == old(self).frame(g) by {
                let j = choose|j: int|
                    0 <= j < self.pages@.len() && (#[trigger] self.pages@[j]).base == g;
                self.lemma_idx_unique(g, j);
                old(self).lemma_idx_unique(g, j);
            }
            assert forall|g: u64| g != f implies
                (#[trigger] self.has_frame(g) <==> old(self).has_frame(g)) by {}
        }
    }

    /// Brings an untouched frame into memory with zeroed contents.
    pub fn insert_zero_frame(&mut self, f: u64)
        requires
            old(self).wf(),
            !old(self).has_frame(f),
            f & 0xfff == 0,
            f != 0,
        ensures
            final(self).wf(),
            final(self).has_frame(f),
            final(self).frame(f) == zero_page(),
            final(self).same_except(*old(self), f),
    {
        let zeros: Vec<u64> = zero_words();
        let page = Page { base: f, words: zeros };
        self.pages.push(page);
        proof {
            let n = self.pages@.len() - 1;
            assert(self.pages@[n].base == f);
            assert forall|i: int, j: int| 0 <= i < j < self.pages@.len() implies
                self.pages@[i].base != self.pages@[j].base by {
                if j == n {
                    assert(self.pages@[i] == old(self).pages@[i]);
                    if self.pages@[i].base == f {
                        assert(old(self).has_frame(f));
                    }
                }
            }
            self.lemma_idx_unique(f, n);
            assert(self.frame(f) =~= zero_page());
            assert forall|g: u64| g != f && self.has_frame(g) implies
                #[trigger] self.frame(g) == old(self).frame(g) by {
                let j = choose|j: int|
                    0 <= j < self.pages@.len() && (#[trigger] self.pages@[j]).base == g;
                assert(j != n);
                self.lemma_idx_unique(g, j);
                old(self).lemma_idx_unique(g, j);
            }
            assert forall|g: u64| g != f && old(self).has_frame(g) implies
                self.has_frame(g) by {
                let j = choose|j: int|
                    0 <= j < old(self).pages@.len()
                        && (#[trigger] old(self).pages@[j]).base == g;
                assert(self.pages@[j].base == g);
            }
        }
    }
}

/// A vector of 512 zero words.
fn zero_words() -> (v: Vec<u64>)
    ensures
        v@ == zero_page(),
{
    let v: Vec<u64> = vec![0u64; 512];
    proof {
        assert(v@ =~= zero_page());
    }
    v
}

/// A machine with nothing registered yet: no touched frames, no
/// regions, counting off, everything else zeroed. Boot code registers
/// regions and installs a root table before the kernel runs.
pub fn machine_new() -> (m: Machine)
    ensures
        m.mem.pages@.len() == 0,
        m.mem.wf(),
        crate::bounded::region_slots(m.regions) == Seq::<(u64, u64)>::empty(),
        crate::bounded::cursor_slots(m.cursors) == Seq::<u64>::empty(),
        m.free_head == 0,
        m.free_list@ == Seq::<u64>::empty(),
        m.rc@.len() == 0,
        !m.rc_enabled,
        m.cr3 == 0,
        m.temp is None,
        m.iflag == false,
        m.kv_next == 0,
        m.kv_free@.len() == 0,
        m.heap.wf(),
{
    Machine {
        mem: PhysMem { pages: Vec::new() },
        regions: crate::bounded::region_vec_new(),
        cursors: crate::bounded::cursor_vec_new(),
        free_head: 0,
        free_list: Ghost(Seq::empty()),
        rc: Vec::new(),
        rc_enabled: false,
        cr3: 0,
        temp: None,
        iflag: false,
        kv_next: 0,
        kv_free: Vec::new(),
        heap: crate::mem::kalloc::Allocator::new(),
    }
}

/// All mutable state the kernel multiplexes: simulated physical memory,
/// the frame allocator, the paging registers, and the kernel heap.
pub struct Machine {
    /// Touched physical frames and their contents.
    pub mem: PhysMem,
    /// Usable RAM regions registered at boot, `(begin, end)` half-open.
    pub regions: arrayvec::ArrayVec<(u64, u64), 8>,
    /// Bump cursor of each region; frames at or past the cursor are
    /// still unallocated.
    pub cursors: arrayvec::ArrayVec<u64, 8>,
    /// Head of the intrusive free list threaded through the first word
    /// of each free frame; zero when the list is empty.
    pub free_head: u64,
    /// The frames on the free list, head first.
    pub free_list: Ghost<Seq<u64>>,
    /// Reference counters, one vector per region, one counter per frame.
    pub rc: Vec<Vec<u64>>,
    /// Whether reference counting has been switched on.
    pub rc_enabled: bool,
    /// Physical frame of the current PML4.
    pub cr3: u64,
    /// The frame currently installed in the temporary mapping window.
    pub temp: Option<u64>,
    /// The CPU interrupt-enable flag.
    pub iflag: bool,
    /// Next unmapped page of the kernel-virtual bump region.
    pub kv_next: u64,
    /// Free kernel-virtual pages returned to the page allocator.
    pub kv_free: Vec<u64>,
    /// The slab heap's size classes.
    pub heap: Allocator,
}

} // verus!
