//! One donated address range with its two cursors.
//!
//! Bytes are handed out upward from `byte_cursor`, pages downward from
//! `page_cursor`. The page cursor is the lowest address of the highest page
//! that is still free, so the free part of a range is
//! `[byte_cursor, page_cursor + page)`.

use crate::align::{
    align_down, align_up, lemma_align_down_is_greatest_multiple, round_down, round_up,
};
use vstd::prelude::*;

verus! {

/// The mathematical model of a donated range.
pub struct Region {
    /// First address of the range.
    pub start: int,
    /// Number of addresses in the range; fixed when the range is donated.
    pub size: int,
    /// Where the next byte allocation starts looking.
    pub byte_cursor: int,
    /// Where the next page allocation starts looking.
    pub page_cursor: int,
}

impl Region {
    /// The address one past the last address of the range.
    pub open spec fn end(self) -> int {
        self.start + self.size
    }

    /// The range `[start, start + size)` as it stands right after its donation.
    pub open spec fn fresh(start: int, size: int, page: int) -> Region {
        Region { start, size, byte_cursor: start, page_cursor: start + size - page }
    }

    /// The range lies in the address space, holds at least one address, and
    /// its free part `[byte_cursor, page_cursor + page)` lies inside it. The
    /// page cursor itself may stand below the byte cursor: once the page right
    /// above the byte cursor is granted, it points one page further down.
    pub open spec fn wf(self, page: int) -> bool {
        &&& 0 <= self.start
        &&& 1 <= self.size
        &&& self.end() <= usize::MAX
        &&& self.start <= self.byte_cursor
        &&& self.byte_cursor <= self.page_cursor + page
        &&& self.page_cursor + page <= self.end()
        &&& 0 <= self.page_cursor
    }

    /// Whether `[start, start + size)` shares an address with this range.
    pub open spec fn overlaps(self, start: int, size: int) -> bool {
        self.start < start + size && start < self.end()
    }

    /// Whether the two ranges share an address.
    pub open spec fn meets(self, other: Region) -> bool {
        self.overlaps(other.start, other.size)
    }

    /// The address a byte request with alignment `align` would get here.
    pub open spec fn byte_candidate(self, align: int) -> int {
        align_up(self.byte_cursor, align)
    }

    /// Whether `size` bytes at the candidate address end at or below the page
    /// cursor.
    pub open spec fn admits_bytes(self, size: int, align: int) -> bool {
        self.byte_candidate(align) + size <= self.page_cursor
    }

    /// The range after `size` bytes were granted: the byte cursor moves up by
    /// `size` and not by the padding that the alignment skipped. The padding
    /// is neither counted as used nor kept out of later requests.
    pub open spec fn take_bytes(self, size: int) -> Region {
        Region { byte_cursor: self.byte_cursor + size, ..self }
    }

    /// The page cursor rounded down to a multiple of `align`: the lowest
    /// address of the highest page a page request would get here.
    pub open spec fn page_candidate(self, align: int) -> int {
        align_down(self.page_cursor, align)
    }

    /// The lowest address of the block of `count` pages that ends with the page
    /// at the candidate address.
    pub open spec fn page_block(self, count: int, align: int, page: int) -> int {
        self.page_candidate(align) - (count - 1) * page
    }

    /// Whether a block of `count` pages fits above the byte cursor. A request
    /// for no pages is never admitted.
    pub open spec fn admits_pages(self, count: int, align: int, page: int) -> bool {
        count >= 1 && self.page_block(count, align, page) > self.byte_cursor
    }

    /// The range after a block of `count` pages was granted: the page cursor
    /// moves to the page just below the block.
    pub open spec fn take_pages(self, count: int, align: int, page: int) -> Region {
        Region { page_cursor: self.page_block(count, align, page) - page, ..self }
    }

    /// Whether address `a` lies below the byte cursor of the range.
    pub open spec fn in_byte_area(self, a: int) -> bool {
        self.start <= a < self.byte_cursor
    }

    /// Whether address `a` lies in a page that was granted or skipped: at or
    /// above the end of the free part.
    pub open spec fn in_page_area(self, a: int, page: int) -> bool {
        self.page_cursor + page <= a < self.end()
    }
}

/// One entry of the region table.
#[derive(Clone, Copy, Debug, PartialEq, Eq)]
pub struct MemUnit {
    /// First address of the donated range.
    pub start: usize,
    /// Byte cursor.
    pub ptr_byte: usize,
    /// Page cursor.
    pub ptr_page: usize,
    /// Length of the donated range.
    pub size: usize,
}

impl View for MemUnit {
    type V = Region;

    open spec fn view(&self) -> Region {
        Region {
            start: self.start as int,
            size: self.size as int,
            byte_cursor: self.ptr_byte as int,
            page_cursor: self.ptr_page as int,
        }
    }
}

impl MemUnit {
    /// An entry that describes no range yet.
    pub fn new() -> (unit: MemUnit)
        ensures
            unit@ == (Region { start: 0, size: 0, byte_cursor: 0, page_cursor: 0 }),
    {
        MemUnit { start: 0, ptr_byte: 0, ptr_page: 0, size: 0 }
    }

    /// Whether `[start, start + size)` shares an address with this range.
    pub fn overlaps(&self, start: usize, size: usize) -> (r: bool)
        requires
            self@.end() <= usize::MAX,
            start + size <= usize::MAX,
        ensures
            r == self@.overlaps(start as int, size as int),
    {
        self.start < start + size && start < self.start + self.size
    }

    /// The address that a request for `size` bytes aligned to `align` gets
    /// from this range, if the range admits it.
    pub fn byte_fit(&self, size: usize, align: usize) -> (r: Option<usize>)
        requires
            align > 0,
        ensures
            r.is_some() == self@.admits_bytes(size as int, align as int),
            r matches Some(a) ==> a == self@.byte_candidate(align as int),
    {
        match round_up(self.ptr_byte, align) {
            None => None,
            Some(front) => match front.checked_add(size) {
                None => None,
                Some(back) => if back <= self.ptr_page {
                    Some(front)
                } else {
                    None
                },
            },
        }
    }

    /// The lowest address of the block that a request for `count` pages
    /// aligned to `align` gets from this range, if the range admits it.
    pub fn page_fit(&self, count: usize, align: usize, page: usize) -> (r: Option<usize>)
        requires
            align > 0,
        ensures
            r.is_some() == self@.admits_pages(count as int, align as int, page as int),
            r matches Some(a) ==> a == self@.page_block(count as int, align as int, page as int),
    {
        if count == 0 {
            return None;
        }
        let front: usize = round_down(self.ptr_page, align);
        proof {
            lemma_align_down_is_greatest_multiple(self.ptr_page as int, align as int);
            assert(0 <= (count - 1) * page) by (nonlinear_arith)
                requires
                    count >= 1,
                    page >= 0,
            ;
        }
        match (count - 1).checked_mul(page) {
            None => None,
            Some(below) => if below < front && front - below > self.ptr_byte {
                Some(front - below)
            } else {
                None
            },
        }
    }
}

} // verus!
