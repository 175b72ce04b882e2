//! Validation of user-supplied pointers. Before a syscall touches user
//! memory it computes the page range the pointer spans and checks every
//! page of it against the current page tables.

use vstd::prelude::*;
use crate::critical::Critical;
use crate::interface::{SysError, SysResult};
use crate::machine::Machine;
use crate::mem::page;
use crate::mem::page::PageFlags;

verus! {

/// Exclusive upper bound of user-space addresses.
pub const MAX_USER_ADDR: u64 = 0x0000_8000_0000_0000;

/// Fails with `BadPointer` unless `addr` is page aligned.
pub fn validate_page_align(addr: u64) -> (r: SysResult<()>)
    ensures
        r is Ok <==> addr & 0xfff == 0,
        r is Err ==> r->Err_0 == SysError::BadPointer,
{
    if addr & 0xfff != 0 {
        return Err(SysError::BadPointer);
    }
    Ok(())
}

/// A page-aligned span of user addresses whose arithmetic has been
/// checked.
#[derive(Clone, Copy, PartialEq, Eq, Structural, Debug)]
pub struct PageRange {
    pub base_page: u64,
    pub page_count: u64,
}

impl PageRange {
    /// A checked range stays inside user space with no overflow.
    pub open spec fn wf(self) -> bool {
        &&& self.base_page & 0xfff == 0
        &&& self.base_page + self.page_count * 4096 <= MAX_USER_ADDR
    }

    /// The page addresses of the range, in order.
    pub open spec fn page_seq(self) -> Seq<u64> {
        Seq::new(self.page_count as nat, |k: int| (self.base_page + k * 4096) as u64)
    }

    /// Checks a page-aligned range: the page count must not overflow
    /// the byte size, and the whole span must lie in user space.
    pub fn new(base_page: u64, page_count: u64) -> (r: Result<PageRange, SysError>)
        ensures
            page_count * 4096 > u64::MAX
                ==> r == Result::<PageRange, SysError>::Err(SysError::MemoryExhausted),
            page_count * 4096 <= u64::MAX
                    && (base_page & 0xfff != 0
                        || base_page > MAX_USER_ADDR
                        || base_page + page_count * 4096 > MAX_USER_ADDR)
                ==> r == Result::<PageRange, SysError>::Err(SysError::BadPointer),
            page_count * 4096 <= u64::MAX
                    && base_page & 0xfff == 0
                    && base_page <= MAX_USER_ADDR
                    && base_page + page_count * 4096 <= MAX_USER_ADDR
                ==> r == Result::<PageRange, SysError>::Ok(PageRange {
                    base_page,
                    page_count,
                }),
            r is Ok ==> r->Ok_0.wf() && r->Ok_0.base_page == base_page
                && r->Ok_0.page_count == page_count,
    {
        let byte_len = match page_count.checked_mul(4096) {
            Some(b) => b,
            None => {
                return Err(SysError::MemoryExhausted);
            }
        };
        if base_page & 0xfff != 0 {
            return Err(SysError::BadPointer);
        }
        if base_page > MAX_USER_ADDR {
            return Err(SysError::BadPointer);
        }
        if byte_len > MAX_USER_ADDR - base_page {
            return Err(SysError::BadPointer);
        }
        Ok(PageRange { base_page, page_count })
    }

    /// The smallest checked range containing `byte_len` bytes starting
    /// at `start_addr`; neither end needs to be aligned.
    pub fn containing(start_addr: u64, byte_len: u64) -> (r: Result<PageRange, SysError>)
        ensures
            r is Ok ==> {
                let pr = r->Ok_0;
                &&& pr.wf()
                &&& pr.base_page == start_addr - (start_addr % 4096)
                &&& pr.base_page <= start_addr
                &&& start_addr + byte_len <= pr.base_page + pr.page_count * 4096
                // and no smaller range covers the span
                &&& (pr.page_count > 0
                    ==> (pr.page_count - 1) * 4096 < start_addr % 4096 + byte_len)
            },
            r is Err ==> r->Err_0 == SysError::MemoryExhausted
                || r->Err_0 == SysError::BadPointer,
    {
        let first_page_offset = start_addr % 4096;
        let base_page = start_addr - first_page_offset;
        let byte_len2 = match byte_len.checked_add(first_page_offset) {
            Some(b) => b,
            None => {
                return Err(SysError::MemoryExhausted);
            }
        };
        let last_page_extent = byte_len2 % 4096;
        let last_page_padding: u64 = if last_page_extent == 0 {
            0
        } else {
            4096 - last_page_extent
        };
        let byte_len3 = match byte_len2.checked_add(last_page_padding) {
            Some(b) => b,
            None => {
                return Err(SysError::MemoryExhausted);
            }
        };
        let page_count = byte_len3 / 4096;
        proof {
            assert(base_page & 0xfff == 0) by {
                let sa = start_addr;
                assert((sa - (sa % 4096)) as u64 & 0xfff == 0u64) by (bit_vector);
            }
            assert(byte_len3 % 4096 == 0);
            assert(page_count * 4096 == byte_len3);
        }
        let pr = match PageRange::new(base_page, page_count) {
            Ok(pr) => pr,
            Err(e) => {
                return Err(e);
            }
        };
        Ok(pr)
    }

    /// The page addresses of the range, in order.
    pub fn pages(&self) -> (r: Vec<u64>)
        requires
            self.wf(),
        ensures
            r@ == self.page_seq(),
    {
        let mut out: Vec<u64> = Vec::new();
        let mut k: u64 = 0;
        while k < self.page_count
            invariant
                self.wf(),
                k <= self.page_count,
                out@.len() == k,
                forall|j: int| 0 <= j < k
                    ==> out@[j] == (self.base_page + j * 4096) as u64,
            decreases self.page_count - k,
        {
            proof {
                assert(k * 4096 + 4096 <= self.page_count * 4096) by (nonlinear_arith)
                    requires
                        k < self.page_count,
                {}
            }
            out.push(self.base_page + k * 4096);
            k += 1;
        }
        proof {
            assert(out@ =~= self.page_seq());
        }
        out
    }
}

/// Every page of the range is mapped with at least the given flags.
pub open spec fn range_mapped(m: Machine, pr: PageRange, flags: PageFlags) -> bool {
    forall|k: int| 0 <= k < pr.page_count
        ==> (#[trigger] m.leaf_entry(pr.page_seq()[k])) is Some
            && (m.leaf_entry(pr.page_seq()[k])->Some_0 & 0xfff) & flags.bits == flags.bits
}

/// No page of the range is mapped.
pub open spec fn range_unmapped(m: Machine, pr: PageRange) -> bool {
    forall|k: int| 0 <= k < pr.page_count
        ==> (#[trigger] m.leaf_entry(pr.page_seq()[k])) is None
}

/// Fails with `BadPointer` unless every page of the range is mapped
/// with the given flags.
pub fn validate_map(m: &Machine, page_range: &PageRange, flags: PageFlags, crit: &Critical)
    -> (r: SysResult<()>)
    requires
        m.mem.wf(),
        page_range.wf(),
    ensures
        r is Ok <==> range_mapped(*m, *page_range, flags),
        r is Err ==> r->Err_0 == SysError::BadPointer,
{
    let addrs = page_range.pages();
    let n = addrs.len();
    let mut k: usize = 0;
    while k < n
        invariant
            m.mem.wf(),
            page_range.wf(),
            n == addrs@.len(),
            addrs@ == page_range.page_seq(),
            k <= n,
            forall|j: int| 0 <= j < k
                ==> (#[trigger] m.leaf_entry(page_range.page_seq()[j])) is Some
                    && (m.leaf_entry(page_range.page_seq()[j])->Some_0 & 0xfff)
                        & flags.bits == flags.bits,
        decreases n - k,
    {
        let valid = match page::entry(m, addrs[k], crit) {
            Ok(e) => e.flags().contains(flags),
            Err(_) => false,
        };
        if !valid {
            return Err(SysError::BadPointer);
        }
        k += 1;
    }
    Ok(())
}

/// Fails with `AlreadyMapped` unless every page of the range is free
/// to be mapped.
pub fn validate_available(m: &Machine, page_range: &PageRange, crit: &Critical)
    -> (r: SysResult<()>)
    requires
        m.mem.wf(),
        page_range.wf(),
    ensures
        r is Ok <==> range_unmapped(*m, *page_range),
        r is Err ==> r->Err_0 == SysError::AlreadyMapped,
{
    let addrs = page_range.pages();
    let n = addrs.len();
    let mut k: usize = 0;
    while k < n
        invariant
            m.mem.wf(),
            page_range.wf(),
            n == addrs@.len(),
            addrs@ == page_range.page_seq(),
            k <= n,
            forall|j: int| 0 <= j < k
                ==> (#[trigger] m.leaf_entry(page_range.page_seq()[j])) is None,
        decreases n - k,
    {
        let exists_ = page::entry(m, addrs[k], crit).is_ok();
        if exists_ {
            return Err(SysError::AlreadyMapped);
        }
        k += 1;
    }
    Ok(())
}

/// Checks that a byte span can be read through the page tables; the
/// present flag itself is not demanded, so pages can still be faulted
/// in.
pub fn validate_read(m: &Machine, addr: u64, len: u64, crit: &Critical) -> (r: SysResult<()>)
    requires
        m.mem.wf(),
    ensures
        r is Ok ==> exists|pr: PageRange| (#[trigger] pr.wf())
            && pr.base_page == addr - addr % 4096
            && pr.base_page <= addr
            && addr + len <= pr.base_page + pr.page_count * 4096
            && (pr.page_count > 0 ==> (pr.page_count - 1) * 4096 < addr % 4096 + len)
            && range_mapped(*m, pr, PageFlags { bits: 0 }),
        r is Err ==> r->Err_0 == SysError::MemoryExhausted
            || r->Err_0 == SysError::BadPointer,
{
    let page_range = match PageRange::containing(addr, len) {
        Ok(pr) => pr,
        Err(e) => {
            return Err(e);
        }
    };
    match validate_map(m, &page_range, PageFlags { bits: 0 }, crit) {
        Ok(()) => {
            proof {
                assert(page_range.wf());
            }
            Ok(())
        }
        Err(e) => Err(e),
    }
}

/// A user byte span whose pages have been validated, tied to the
/// critical section that validated it.
#[derive(Clone, Copy, PartialEq, Eq, Structural, Debug)]
pub struct UserBuf {
    pub addr: u64,
    pub len: u64,
}

/// Validates a user slice of `len` elements of `elem_size` bytes for
/// reading.
pub fn borrow_slice(m: &Machine, addr: u64, len: u64, elem_size: u64, crit: &Critical)
    -> (r: SysResult<UserBuf>)
    requires
        m.mem.wf(),
        elem_size >= 1,
    ensures
        r is Ok ==> {
            &&& r->Ok_0.addr == addr
            &&& r->Ok_0.len == len * elem_size
            // the whole span was validated against the page tables
            &&& exists|pr: PageRange| (#[trigger] pr.wf())
                && pr.base_page <= addr
                && addr + len * elem_size <= pr.base_page + pr.page_count * 4096
                && range_mapped(*m, pr, PageFlags { bits: 0 })
        },
        r is Err ==> r->Err_0 == SysError::MemoryExhausted
            || r->Err_0 == SysError::BadPointer,
{
    let byte_len = match len.checked_mul(elem_size) {
        Some(b) => b,
        None => {
            return Err(SysError::BadPointer);
        }
    };
    match validate_read(m, addr, byte_len, crit) {
        Ok(()) => Ok(UserBuf { addr, len: byte_len }),
        Err(e) => Err(e),
    }
}

/// Validates one user value of `size` bytes.
pub fn borrow(m: &Machine, addr: u64, size: u64, crit: &Critical) -> (r: SysResult<UserBuf>)
    requires
        m.mem.wf(),
        size >= 1,
    ensures
        r is Ok ==> {
            &&& r->Ok_0.addr == addr
            &&& r->Ok_0.len == size
            // the value's whole span was validated against the tables
            &&& exists|pr: PageRange| (#[trigger] pr.wf())
                && pr.base_page <= addr
                && addr + size <= pr.base_page + pr.page_count * 4096
                && range_mapped(*m, pr, PageFlags { bits: 0 })
        },
        r is Err ==> r->Err_0 == SysError::MemoryExhausted
            || r->Err_0 == SysError::BadPointer,
{
    let b = borrow_slice(m, addr, 1, size, crit);
    proof {
        assert(1 * size == size) by (nonlinear_arith);
    }
    b
}

} // verus!
