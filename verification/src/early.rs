//! The allocator itself: a table of donated ranges, bytes handed out from the
//! low end of a range and pages from its high end, nothing ever taken back.

use crate::region::MemUnit;
use crate::state::{
    lemma_alloc_bytes_wf, lemma_alloc_pages_wf, lemma_counters_bounded, lemma_donate_wf,
    lemma_page_align, page_align_ok, AllocError, State,
};
use vstd::arithmetic::power2::is_pow2_equiv;
use vstd::prelude::*;

verus! {

/// An allocator for the time before the real byte and page allocators can
/// work. It holds a table of donated ranges that grows as ranges are donated.
/// Each range is used from both ends:
///
/// ```text
/// [ bytes used | free          | pages used ]
/// start        byte cursor -->   <-- page cursor + PAGE_SIZE        end
/// ```
///
/// Bytes are allocated upward, pages downward. Neither is ever freed.
pub struct EarlyAllocator<const PAGE_SIZE: usize> {
    total_bytes: usize,
    used_bytes: usize,
    total_pages: usize,
    used_pages: usize,
    mem: Vec<MemUnit>,
}

impl<const PAGE_SIZE: usize> View for EarlyAllocator<PAGE_SIZE> {
    type V = State;

    closed spec fn view(&self) -> State {
        State {
            regions: Seq::new(self.mem@.len(), |i: int| self.mem@[i]@),
            total_bytes: self.total_bytes as int,
            used_bytes: self.used_bytes as int,
            total_pages: self.total_pages as int,
            used_pages: self.used_pages as int,
        }
    }
}

impl<const PAGE_SIZE: usize> EarlyAllocator<PAGE_SIZE> {
    /// The invariant that every operation keeps.
    pub open spec fn wf(&self) -> bool {
        self@.wf(PAGE_SIZE as int)
    }

    /// An allocator with no memory.
    pub fn new() -> (a: Self)
        ensures
            a@ == State::empty(),
            PAGE_SIZE > 0 ==> a.wf(),
    {
        let a = EarlyAllocator {
            total_bytes: 0,
            used_bytes: 0,
            total_pages: 0,
            used_pages: 0,
            mem: Vec::new(),
        };
        assert(a@.regions =~= Seq::empty());
        a
    }

    /// Appends `[start, start + size)` to the table and adds it to the totals.
    fn push_region(&mut self, start: usize, size: usize)
        requires
            old(self).wf(),
            0 < size,
            PAGE_SIZE <= start + size <= usize::MAX,
            !old(self)@.overlaps(start as int, size as int),
        ensures
            final(self).wf(),
            final(self)@ == old(self)@.donate(start as int, size as int, PAGE_SIZE as int),
    {
        let ghost before = self@;
        let ghost after = before.donate(start as int, size as int, PAGE_SIZE as int);
        proof {
            lemma_donate_wf(before, start as int, size as int, PAGE_SIZE as int);
            lemma_counters_bounded(after, PAGE_SIZE as int);
        }
        let mut unit = MemUnit::new();
        unit.start = start;
        unit.ptr_byte = start;
        unit.ptr_page = start + size - PAGE_SIZE;
        unit.size = size;
        self.mem.push(unit);
        self.total_bytes += size;
        self.total_pages += size / PAGE_SIZE;
        assert(self@.regions =~= after.regions);
    }

    /// Gives the allocator its first range, `[start, start + size)`. To be
    /// called once, before any other operation.
    pub fn init(&mut self, start: usize, size: usize)
        requires
            old(self).wf(),
            old(self)@.regions.len() == 0,
            0 < size,
            PAGE_SIZE <= start + size <= usize::MAX,
        ensures
            final(self).wf(),
            final(self)@ == old(self)@.donate(start as int, size as int, PAGE_SIZE as int),
    {
        self.push_region(start, size);
    }

    /// Donates `[start, start + size)`. A range that shares an address with a
    /// range of the table is turned down and the table stays as it was.
    pub fn add_memory(&mut self, start: usize, size: usize) -> (res: Result<(), AllocError>)
        requires
            old(self).wf(),
            0 < size,
            PAGE_SIZE <= start + size <= usize::MAX,
        ensures
            final(self).wf(),
            final(self)@ == old(self)@.add_memory(start as int, size as int, PAGE_SIZE as int).0,
            res == old(self)@.add_memory(start as int, size as int, PAGE_SIZE as int).1,
    {
        let ghost before = self@;
        let mut i: usize = 0;
        while i < self.mem.len()
            invariant
                i <= self.mem.len(),
                self@ == before,
                before.wf(PAGE_SIZE as int),
                start + size <= usize::MAX,
                forall|j: int|
                    0 <= j < i ==> !(#[trigger] before.regions[j]).overlaps(
                        start as int,
                        size as int,
                    ),
            decreases self.mem.len() - i,
        {
            assert(before.regions[i as int].wf(PAGE_SIZE as int));
            if self.mem[i].overlaps(start, size) {
                return Err(AllocError::MemoryOverlap);
            }
            i += 1;
        }
        self.push_region(start, size);
        Ok(())
    }

    /// Allocates `size` bytes at a multiple of `align` from the first range in
    /// table order that has room for them between its byte cursor and its page
    /// cursor. The address is the byte cursor rounded up to `align`.
    ///
    /// The byte cursor then moves up by `size` alone. What the rounding skipped
    /// is not counted as used, and the cursor does not move past it: when the
    /// byte cursor was not a multiple of `align`, the end of the block lies
    /// above the new cursor and a later request can be granted it again. A
    /// caller that needs its blocks apart keeps the cursor aligned, by asking
    /// for sizes that are multiples of the alignments it uses.
    pub fn alloc_bytes(&mut self, size: usize, align: usize) -> (res: Result<usize, AllocError>)
        requires
            old(self).wf(),
            align > 0,
        ensures
            final(self).wf(),
            final(self)@ == old(self)@.alloc_bytes(size as int, align as int).0,
            match res {
                Ok(addr) => old(self)@.alloc_bytes(size as int, align as int).1 == Some(addr as int)
                    && addr % align == 0,
                Err(e) => e == AllocError::NoMemory && old(self)@.alloc_bytes(
                    size as int,
                    align as int,
                ).1.is_none(),
            },
    {
        let ghost before = self@;
        let ghost after = before.alloc_bytes(size as int, align as int).0;
        let mut i: usize = 0;
        while i < self.mem.len()
            invariant
                i <= self.mem.len(),
                self@ == before,
                before == old(self)@,
                align > 0,
                before.wf(PAGE_SIZE as int),
                after == before.alloc_bytes(size as int, align as int).0,
                before.first_byte_fit(size as int, align as int, 0) == before.first_byte_fit(
                    size as int,
                    align as int,
                    i as int,
                ),
            decreases self.mem.len() - i,
        {
            match self.mem[i].byte_fit(size, align) {
                Some(addr) => {
                    proof {
                        lemma_alloc_bytes_wf(before, size as int, align as int, PAGE_SIZE as int);
                        lemma_counters_bounded(after, PAGE_SIZE as int);
                        assert(after.regions[i as int].wf(PAGE_SIZE as int));
                    }
                    self.mem[i].ptr_byte += size;
                    self.used_bytes += size;
                    assert(self@.regions =~= after.regions);
                    return Ok(addr);
                },
                None => {},
            }
            i += 1;
        }
        Err(AllocError::NoMemory)
    }

    /// Does nothing: bytes are never given back.
    pub fn dealloc(&mut self, pos: usize, size: usize, align: usize)
        ensures
            *final(self) == *old(self),
    {
    }

    /// Total memory in bytes.
    pub fn total_bytes(&self) -> (n: usize)
        ensures
            n == self@.total_bytes,
    {
        self.total_bytes
    }

    /// Allocated memory in bytes.
    pub fn used_bytes(&self) -> (n: usize)
        ensures
            n == self@.used_bytes,
    {
        self.used_bytes
    }

    /// Memory in bytes that was donated and not allocated.
    pub fn available_bytes(&self) -> (n: usize)
        requires
            self.wf(),
        ensures
            n == self@.total_bytes - self@.used_bytes,
    {
        proof {
            lemma_counters_bounded(self@, PAGE_SIZE as int);
        }
        self.total_bytes - self.used_bytes
    }

    /// Allocates `num_pages` contiguous pages from the first range in table
    /// order that has room for them above its byte cursor, and returns the
    /// lowest address of the block. The highest page of the block starts at
    /// the page cursor rounded down to a multiple of `align_pow2`, which must
    /// be a power-of-two number of pages.
    pub fn alloc_pages(&mut self, num_pages: usize, align_pow2: usize) -> (res: Result<
        usize,
        AllocError,
    >)
        requires
            old(self).wf(),
        ensures
            final(self).wf(),
            final(self)@ == old(self)@.alloc_pages(
                num_pages as int,
                align_pow2 as int,
                PAGE_SIZE as int,
            ).0,
            match res {
                Ok(addr) => old(self)@.alloc_pages(
                    num_pages as int,
                    align_pow2 as int,
                    PAGE_SIZE as int,
                ).1 == Ok::<int, AllocError>(addr as int) && addr % PAGE_SIZE == 0,
                Err(e) => old(self)@.alloc_pages(
                    num_pages as int,
                    align_pow2 as int,
                    PAGE_SIZE as int,
                ).1 == Err::<int, AllocError>(e),
            },
    {
        let ghost before = self@;
        let ghost after = before.alloc_pages(
            num_pages as int,
            align_pow2 as int,
            PAGE_SIZE as int,
        ).0;
        if align_pow2 % PAGE_SIZE != 0 {
            return Err(AllocError::InvalidParam);
        }
        let pages_per_align: usize = align_pow2 / PAGE_SIZE;
        proof {
            is_pow2_equiv(pages_per_align as int);
        }
        if !pages_per_align.is_power_of_two() {
            return Err(AllocError::InvalidParam);
        }
        proof {
            lemma_page_align(align_pow2 as int, PAGE_SIZE as int);
        }
        let mut i: usize = 0;
        while i < self.mem.len()
            invariant
                i <= self.mem.len(),
                self@ == before,
                before == old(self)@,
                align_pow2 > 0,
                page_align_ok(align_pow2 as int, PAGE_SIZE as int),
                before.wf(PAGE_SIZE as int),
                after == before.alloc_pages(
                    num_pages as int,
                    align_pow2 as int,
                    PAGE_SIZE as int,
                ).0,
                before.first_page_fit(num_pages as int, align_pow2 as int, PAGE_SIZE as int, 0)
                    == before.first_page_fit(
                    num_pages as int,
                    align_pow2 as int,
                    PAGE_SIZE as int,
                    i as int,
                ),
            decreases self.mem.len() - i,
        {
            match self.mem[i].page_fit(num_pages, align_pow2, PAGE_SIZE) {
                Some(addr) => {
                    proof {
                        lemma_alloc_pages_wf(
                            before,
                            num_pages as int,
                            align_pow2 as int,
                            PAGE_SIZE as int,
                        );
                        lemma_counters_bounded(after, PAGE_SIZE as int);
                        assert(after.regions[i as int].wf(PAGE_SIZE as int));
                    }
                    self.mem[i].ptr_page = addr - PAGE_SIZE;
                    self.used_pages += num_pages;
                    assert(self@.regions =~= after.regions);
                    return Ok(addr);
                },
                None => {},
            }
            i += 1;
        }
        Err(AllocError::NoMemory)
    }

    /// Does nothing: pages are never given back.
    pub fn dealloc_pages(&mut self, pos: usize, num_pages: usize)
        ensures
            *final(self) == *old(self),
    {
    }

    /// Total number of pages.
    pub fn total_pages(&self) -> (n: usize)
        ensures
            n == self@.total_pages,
    {
        self.total_pages
    }

    /// Number of allocated pages.
    pub fn used_pages(&self) -> (n: usize)
        ensures
            n == self@.used_pages,
    {
        self.used_pages
    }

    /// Number of pages that were donated and not allocated.
    pub fn available_pages(&self) -> (n: usize)
        requires
            self.wf(),
        ensures
            n == self@.total_pages - self@.used_pages,
    {
        proof {
            lemma_counters_bounded(self@, PAGE_SIZE as int);
        }
        self.total_pages - self.used_pages
    }
}

} // verus!
