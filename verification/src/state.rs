//! The mathematical model of the allocator: the region table, the four
//! counters, and what each operation does to them.

use crate::align::{
    is_aligned, lemma_align_down_is_greatest_multiple, lemma_align_up_is_least_multiple,
};
use crate::region::Region;
use crate::table::{
    any_overlaps, lemma_disjoint_sizes_fit, lemma_pages_le_bytes,
    lemma_push_keeps_disjoint, lemma_total_le, lemma_total_nonnegative, lemma_total_push,
    lemma_total_update, lemma_update_keeps_disjoint, pairwise_disjoint, total, Measure,
};
use vstd::arithmetic::div_mod::{
    lemma_div_is_ordered, lemma_fundamental_div_mod, lemma_hoist_over_denominator,
    lemma_mod_multiples_basic,
};
use vstd::arithmetic::power2::is_pow2;
use vstd::prelude::*;

verus! {

/// Why a request was turned down.
#[derive(Clone, Copy, Debug, PartialEq, Eq, Structural)]
pub enum AllocError {
    /// The alignment of a page request is not a power-of-two number of pages.
    InvalidParam,
    /// A donated range shares an address with a range of the table.
    MemoryOverlap,
    /// No range of the table admits the request.
    NoMemory,
}

/// The region table in insertion order, and the four counters.
pub struct State {
    /// The donated ranges, oldest first.
    pub regions: Seq<Region>,
    /// Sum of the lengths of the donated ranges.
    pub total_bytes: int,
    /// Sum of the sizes of the byte requests granted.
    pub used_bytes: int,
    /// Sum over the donated ranges of the whole pages in their length.
    pub total_pages: int,
    /// Sum of the counts of the page requests granted.
    pub used_pages: int,
}

/// Whether `align` is a multiple of `page` and that multiple a power of two.
pub open spec fn page_align_ok(align: int, page: int) -> bool {
    align % page == 0 && is_pow2(align / page)
}

impl State {
    /// No range, all counters zero.
    pub open spec fn empty() -> State {
        State {
            regions: Seq::empty(),
            total_bytes: 0,
            used_bytes: 0,
            total_pages: 0,
            used_pages: 0,
        }
    }

    /// The invariant of the allocator. Every range is well formed, no two
    /// share an address, and the counters agree with the table.
    pub open spec fn wf(self, page: int) -> bool {
        &&& page > 0
        &&& forall|i: int| 0 <= i < self.regions.len() ==> (#[trigger] self.regions[i]).wf(page)
        &&& pairwise_disjoint(self.regions)
        &&& self.total_bytes == total(self.regions, Measure::Bytes, page)
        &&& self.total_pages == total(self.regions, Measure::Pages, page)
        &&& self.used_bytes == total(self.regions, Measure::BytesUsed, page)
        &&& 0 <= self.used_pages <= total(self.regions, Measure::PagesTaken, page)
    }

    /// Whether `[start, start + size)` shares an address with a range of the
    /// table.
    pub open spec fn overlaps(self, start: int, size: int) -> bool {
        any_overlaps(self.regions, start, size)
    }

    /// The state with `[start, start + size)` appended to the table.
    pub open spec fn donate(self, start: int, size: int, page: int) -> State {
        State {
            regions: self.regions.push(Region::fresh(start, size, page)),
            total_bytes: self.total_bytes + size,
            total_pages: self.total_pages + size / page,
            ..self
        }
    }

    /// What a donation of `[start, start + size)` leaves and returns.
    pub open spec fn add_memory(self, start: int, size: int, page: int) -> (
        State,
        Result<(), AllocError>,
    ) {
        if self.overlaps(start, size) {
            (self, Err(AllocError::MemoryOverlap))
        } else {
            (self.donate(start, size, page), Ok(()))
        }
    }

    /// The index of the first range at or after `from` that admits the byte
    /// request; the length of the table if there is none.
    pub open spec fn first_byte_fit(self, size: int, align: int, from: int) -> int
        decreases self.regions.len() - from,
    {
        if from < 0 || from >= self.regions.len() {
            self.regions.len() as int
        } else if self.regions[from].admits_bytes(size, align) {
            from
        } else {
            self.first_byte_fit(size, align, from + 1)
        }
    }

    /// What a request for `size` bytes aligned to `align` leaves and returns:
    /// the first range in table order that admits it grants it.
    pub open spec fn alloc_bytes(self, size: int, align: int) -> (State, Option<int>) {
        let i = self.first_byte_fit(size, align, 0);
        if i < self.regions.len() {
            (
                State {
                    regions: self.regions.update(i, self.regions[i].take_bytes(size)),
                    used_bytes: self.used_bytes + size,
                    ..self
                },
                Some(self.regions[i].byte_candidate(align)),
            )
        } else {
            (self, None)
        }
    }

    /// The index of the first range at or after `from` that admits the page
    /// request; the length of the table if there is none.
    pub open spec fn first_page_fit(self, count: int, align: int, page: int, from: int) -> int
        decreases self.regions.len() - from,
    {
        if from < 0 || from >= self.regions.len() {
            self.regions.len() as int
        } else if self.regions[from].admits_pages(count, align, page) {
            from
        } else {
            self.first_page_fit(count, align, page, from + 1)
        }
    }

    /// What a request for `count` pages aligned to `align` leaves and returns.
    /// The address returned is the lowest address of the block granted.
    pub open spec fn alloc_pages(self, count: int, align: int, page: int) -> (
        State,
        Result<int, AllocError>,
    ) {
        let i = self.first_page_fit(count, align, page, 0);
        if !page_align_ok(align, page) {
            (self, Err(AllocError::InvalidParam))
        } else if i < self.regions.len() {
            (
                State {
                    regions: self.regions.update(i, self.regions[i].take_pages(count, align, page)),
                    used_pages: self.used_pages + count,
                    ..self
                },
                Ok(self.regions[i].page_block(count, align, page)),
            )
        } else {
            (self, Err(AllocError::NoMemory))
        }
    }

    /// Whether address `a` lies below the byte cursor of some range.
    pub open spec fn in_byte_area(self, a: int) -> bool {
        exists|i: int| 0 <= i < self.regions.len() && (#[trigger] self.regions[i]).in_byte_area(a)
    }

    /// Whether address `a` lies in a page that was granted or skipped in some
    /// range.
    pub open spec fn in_page_area(self, a: int, page: int) -> bool {
        exists|i: int|
            0 <= i < self.regions.len() && (#[trigger] self.regions[i]).in_page_area(a, page)
    }
}

/// The first fit is a range that admits the request, and no range before it
/// does.
pub proof fn lemma_first_byte_fit(s: State, size: int, align: int, from: int)
    requires
        0 <= from <= s.regions.len(),
    ensures
        from <= s.first_byte_fit(size, align, from) <= s.regions.len(),
        s.first_byte_fit(size, align, from) < s.regions.len() ==> s.regions[s.first_byte_fit(
            size,
            align,
            from,
        )].admits_bytes(size, align),
        forall|j: int|
            from <= j < s.first_byte_fit(size, align, from) ==> !(
            #[trigger] s.regions[j]).admits_bytes(size, align),
    decreases s.regions.len() - from,
{
    if from < s.regions.len() && !s.regions[from].admits_bytes(size, align) {
        lemma_first_byte_fit(s, size, align, from + 1);
    }
}

/// The first fit is a range that admits the request, and no range before it
/// does.
pub proof fn lemma_first_page_fit(s: State, count: int, align: int, page: int, from: int)
    requires
        0 <= from <= s.regions.len(),
    ensures
        from <= s.first_page_fit(count, align, page, from) <= s.regions.len(),
        s.first_page_fit(count, align, page, from) < s.regions.len() ==> s.regions[s.first_page_fit(
            count,
            align,
            page,
            from,
        )].admits_pages(count, align, page),
        forall|j: int|
            from <= j < s.first_page_fit(count, align, page, from) ==> !(
            #[trigger] s.regions[j]).admits_pages(count, align, page),
    decreases s.regions.len() - from,
{
    if from < s.regions.len() && !s.regions[from].admits_pages(count, align, page) {
        lemma_first_page_fit(s, count, align, page, from + 1);
    }
}

/// In a well-formed state no counter is negative, what is used never exceeds
/// the total, and the totals fit the address space.
pub proof fn lemma_counters_bounded(s: State, page: int)
    requires
        s.wf(page),
    ensures
        0 <= s.used_bytes <= s.total_bytes <= usize::MAX,
        0 <= s.used_pages <= s.total_pages <= usize::MAX,
{
    let regions = s.regions;
    assert forall|i: int| 0 <= i < regions.len() implies 0 <= (#[trigger] regions[i]).measure(
        Measure::BytesUsed,
        page,
    ) <= regions[i].measure(Measure::Bytes, page) by {
        assert(regions[i].wf(page));
    }
    lemma_total_nonnegative(regions, Measure::BytesUsed, page);
    lemma_total_le(regions, Measure::BytesUsed, Measure::Bytes, page);
    assert forall|i: int| 0 <= i < regions.len() implies (#[trigger] regions[i]).measure(
        Measure::PagesTaken,
        page,
    ) <= regions[i].measure(Measure::Pages, page) by {
        let r = regions[i];
        assert(r.wf(page));
        lemma_div_is_ordered(r.end() - (r.page_cursor + page), r.size, page);
    }
    lemma_total_le(regions, Measure::PagesTaken, Measure::Pages, page);
    assert forall|i: int| 0 <= i < regions.len() implies {
        &&& 0 <= (#[trigger] regions[i]).start
        &&& 1 <= regions[i].size
        &&& regions[i].end() <= usize::MAX
    } by {
        assert(regions[i].wf(page));
    }
    lemma_disjoint_sizes_fit(regions, usize::MAX as int, page);
    lemma_pages_le_bytes(regions, page);
}

/// A donation that overlaps nothing keeps the state well formed.
pub proof fn lemma_donate_wf(s: State, start: int, size: int, page: int)
    requires
        s.wf(page),
        0 <= start,
        0 < size,
        page <= start + size <= usize::MAX,
        !s.overlaps(start, size),
    ensures
        s.donate(start, size, page).wf(page),
{
    let r = Region::fresh(start, size, page);
    let t = s.donate(start, size, page);
    assert(r.wf(page));
    assert forall|i: int| 0 <= i < t.regions.len() implies (#[trigger] t.regions[i]).wf(page) by {
        if i < s.regions.len() {
            assert(s.regions[i].wf(page));
        }
    }
    lemma_push_keeps_disjoint(s.regions, r);
    lemma_total_push(s.regions, r, Measure::Bytes, page);
    lemma_total_push(s.regions, r, Measure::Pages, page);
    lemma_total_push(s.regions, r, Measure::BytesUsed, page);
    lemma_total_push(s.regions, r, Measure::PagesTaken, page);
    assert(r.measure(Measure::PagesTaken, page) == 0) by {
        assert(r.end() - (r.page_cursor + page) == 0);
        assert(0int / page == 0) by (nonlinear_arith)
            requires
                page > 0,
        ;
    }
}

/// A byte request keeps the state well formed. When it is granted, the block
/// starts at a multiple of `align` at or above the old byte cursor and ends at
/// or below the page cursor of its range.
pub proof fn lemma_alloc_bytes_wf(s: State, size: int, align: int, page: int)
    requires
        s.wf(page),
        0 <= size,
        0 < align,
    ensures
        s.alloc_bytes(size, align).0.wf(page),
        s.alloc_bytes(size, align).1 matches Some(a) ==> {
            let r = s.regions[s.first_byte_fit(size, align, 0)];
            &&& is_aligned(a, align)
            &&& r.start <= r.byte_cursor <= a
            &&& a + size <= r.page_cursor < r.end()
        },
{
    let i = s.first_byte_fit(size, align, 0);
    lemma_first_byte_fit(s, size, align, 0);
    if i < s.regions.len() {
        let r = s.regions[i];
        let r2 = r.take_bytes(size);
        let t = s.alloc_bytes(size, align).0;
        assert(r.wf(page));
        lemma_align_up_is_least_multiple(r.byte_cursor, align);
        assert(r2.wf(page));
        assert forall|k: int| 0 <= k < t.regions.len() implies (#[trigger] t.regions[k]).wf(
            page,
        ) by {
            if k != i {
                assert(s.regions[k].wf(page));
            }
        }
        lemma_update_keeps_disjoint(s.regions, i, r2);
        lemma_total_update(s.regions, i, r2, Measure::Bytes, page);
        lemma_total_update(s.regions, i, r2, Measure::Pages, page);
        lemma_total_update(s.regions, i, r2, Measure::BytesUsed, page);
        lemma_total_update(s.regions, i, r2, Measure::PagesTaken, page);
    }
}

/// An alignment that a page request may have is a positive multiple of the
/// page size.
pub proof fn lemma_page_align(align: int, page: int)
    requires
        page > 0,
        page_align_ok(align, page),
    ensures
        align >= page,
        forall|a: int| #[trigger] is_aligned(a, align) ==> is_aligned(a, page),
{
    reveal(is_pow2);
    let n = align / page;
    lemma_fundamental_div_mod(align, page);
    assert(align >= page) by (nonlinear_arith)
        requires
            align == page * n,
            n >= 1,
            page > 0,
    ;
    assert forall|a: int| #[trigger] is_aligned(a, align) implies is_aligned(a, page) by {
        let q = a / align;
        lemma_fundamental_div_mod(a, align);
        assert(a == (q * n) * page) by (nonlinear_arith)
            requires
                a == align * q,
                align == page * n,
        ;
        lemma_mod_multiples_basic(q * n, page);
    }
}

/// A page request keeps the state well formed. When it is granted, the block
/// of `count` pages lies above the byte cursor of its range, inside what was
/// the free part, and starts at a multiple of the page size.
pub proof fn lemma_alloc_pages_wf(s: State, count: int, align: int, page: int)
    requires
        s.wf(page),
        0 <= count,
    ensures
        s.alloc_pages(count, align, page).0.wf(page),
        s.alloc_pages(count, align, page).1 matches Ok(a) ==> {
            let r = s.regions[s.first_page_fit(count, align, page, 0)];
            &&& is_aligned(a, page)
            &&& is_aligned(a + (count - 1) * page, align)
            &&& r.byte_cursor < a
            &&& a + count * page <= r.page_cursor + page
        },
{
    let i = s.first_page_fit(count, align, page, 0);
    lemma_first_page_fit(s, count, align, page, 0);
    if page_align_ok(align, page) && i < s.regions.len() {
        let r = s.regions[i];
        let r2 = r.take_pages(count, align, page);
        let t = s.alloc_pages(count, align, page).0;
        let top = r.page_candidate(align);
        let low = r.page_block(count, align, page);
        assert(r.wf(page));
        lemma_page_align(align, page);
        lemma_align_down_is_greatest_multiple(r.page_cursor, align);
        assert(is_aligned(top, page));
        lemma_block_arithmetic(top, low, count, page);
        assert(r2.wf(page));
        assert forall|k: int| 0 <= k < t.regions.len() implies (#[trigger] t.regions[k]).wf(
            page,
        ) by {
            if k != i {
                assert(s.regions[k].wf(page));
            }
        }
        lemma_update_keeps_disjoint(s.regions, i, r2);
        lemma_total_update(s.regions, i, r2, Measure::Bytes, page);
        lemma_total_update(s.regions, i, r2, Measure::Pages, page);
        lemma_total_update(s.regions, i, r2, Measure::BytesUsed, page);
        lemma_total_update(s.regions, i, r2, Measure::PagesTaken, page);
        assert(r2.measure(Measure::PagesTaken, page) >= r.measure(Measure::PagesTaken, page)
            + count) by {
            let before = r.end() - (r.page_cursor + page);
            let after = r2.end() - (r2.page_cursor + page);
            assert(after == (before + (r.page_cursor - top)) + count * page);
            lemma_hoist_over_denominator(before + (r.page_cursor - top), count, page as nat);
            lemma_div_is_ordered(before, before + (r.page_cursor - top), page);
        }
    }
}

/// A block of `count >= 1` pages whose highest page starts at `top`, a
/// multiple of the page size, and whose lowest address `low` is positive:
/// `low` is a multiple of the page size too, and at least one page.
proof fn lemma_block_arithmetic(top: int, low: int, count: int, page: int)
    requires
        page > 0,
        count >= 1,
        is_aligned(top, page),
        low == top - (count - 1) * page,
        low > 0,
    ensures
        is_aligned(low, page),
        low >= page,
        low <= top,
        low + count * page == top + page,
{
    let q = top / page;
    lemma_fundamental_div_mod(top, page);
    assert(low == (q - (count - 1)) * page) by (nonlinear_arith)
        requires
            low == top - (count - 1) * page,
            top == page * q,
    ;
    lemma_mod_multiples_basic(q - (count - 1), page);
    assert(low >= page) by (nonlinear_arith)
        requires
            low == (q - (count - 1)) * page,
            low > 0,
            page > 0,
    ;
    assert(low <= top && low + count * page == top + page) by (nonlinear_arith)
        requires
            low == top - (count - 1) * page,
            count >= 1,
            page > 0,
    ;
}

} // verus!
