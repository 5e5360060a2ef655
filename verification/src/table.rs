//! Sums over the region table, and what follows from the ranges being
//! pairwise disjoint.

use crate::region::Region;
use vstd::arithmetic::div_mod::{lemma_div_is_ordered, lemma_div_pos_is_pos};
use vstd::prelude::*;

verus! {

/// A quantity that each range contributes to one of the table's counters.
pub enum Measure {
    /// The length of the range.
    Bytes,
    /// The number of whole pages in the length of the range.
    Pages,
    /// The distance the byte cursor has moved from the start of the range.
    BytesUsed,
    /// The number of whole pages between the end of the free part and the end
    /// of the range.
    PagesTaken,
}

impl Region {
    /// What this range contributes to the sum of `m`.
    pub open spec fn measure(self, m: Measure, page: int) -> int {
        match m {
            Measure::Bytes => self.size,
            Measure::Pages => self.size / page,
            Measure::BytesUsed => self.byte_cursor - self.start,
            Measure::PagesTaken => (self.end() - (self.page_cursor + page)) / page,
        }
    }
}

/// The sum of `m` over all ranges of the table.
pub open spec fn total(regions: Seq<Region>, m: Measure, page: int) -> int
    decreases regions.len(),
{
    if regions.len() == 0 {
        0
    } else {
        total(regions.drop_last(), m, page) + regions.last().measure(m, page)
    }
}

/// Whether `[start, start + size)` shares an address with a range of the table.
pub open spec fn any_overlaps(regions: Seq<Region>, start: int, size: int) -> bool {
    exists|i: int| 0 <= i < regions.len() && (#[trigger] regions[i]).overlaps(start, size)
}

/// No two ranges of the table share an address.
pub open spec fn pairwise_disjoint(regions: Seq<Region>) -> bool {
    forall|i: int, j: int|
        0 <= i < regions.len() && 0 <= j < regions.len() && i != j ==> !(
        #[trigger] regions[i]).meets(#[trigger] regions[j])
}

/// A table stays pairwise disjoint when a range in it is replaced by one with
/// the same start and size.
pub proof fn lemma_update_keeps_disjoint(regions: Seq<Region>, i: int, r: Region)
    requires
        0 <= i < regions.len(),
        pairwise_disjoint(regions),
        r.start == regions[i].start,
        r.size == regions[i].size,
    ensures
        pairwise_disjoint(regions.update(i, r)),
{
    let updated = regions.update(i, r);
    assert forall|k: int, j: int|
        0 <= k < updated.len() && 0 <= j < updated.len() && k != j implies !(
    #[trigger] updated[k]).meets(#[trigger] updated[j]) by {
        assert(!regions[k].meets(regions[j]));
    }
}

/// A table stays pairwise disjoint when a range that overlaps none in it is
/// appended.
pub proof fn lemma_push_keeps_disjoint(regions: Seq<Region>, r: Region)
    requires
        pairwise_disjoint(regions),
        !any_overlaps(regions, r.start, r.size),
    ensures
        pairwise_disjoint(regions.push(r)),
{
    let longer = regions.push(r);
    assert forall|k: int, j: int|
        0 <= k < longer.len() && 0 <= j < longer.len() && k != j implies !(
    #[trigger] longer[k]).meets(#[trigger] longer[j]) by {
        if k < regions.len() && j < regions.len() {
            assert(!regions[k].meets(regions[j]));
        } else if k < regions.len() {
            assert(!regions[k].overlaps(r.start, r.size));
        } else {
            assert(!regions[j].overlaps(r.start, r.size));
        }
    }
}

/// Appending a range adds its contribution to the sum.
pub proof fn lemma_total_push(regions: Seq<Region>, r: Region, m: Measure, page: int)
    ensures
        total(regions.push(r), m, page) == total(regions, m, page) + r.measure(m, page),
{
    assert(regions.push(r).drop_last() =~= regions);
}

/// Replacing a range exchanges its contribution to the sum.
pub proof fn lemma_total_update(regions: Seq<Region>, i: int, r: Region, m: Measure, page: int)
    requires
        0 <= i < regions.len(),
    ensures
        total(regions.update(i, r), m, page) == total(regions, m, page) - regions[i].measure(
            m,
            page,
        ) + r.measure(m, page),
    decreases regions.len(),
{
    if i == regions.len() - 1 {
        assert(regions.update(i, r).drop_last() =~= regions.drop_last());
    } else {
        assert(regions.update(i, r).drop_last() =~= regions.drop_last().update(i, r));
        lemma_total_update(regions.drop_last(), i, r, m, page);
    }
}

/// Taking a range out of the table takes its contribution out of the sum.
pub proof fn lemma_total_remove(regions: Seq<Region>, i: int, m: Measure, page: int)
    requires
        0 <= i < regions.len(),
    ensures
        total(regions, m, page) == total(regions.remove(i), m, page) + regions[i].measure(m, page),
    decreases regions.len(),
{
    if i == regions.len() - 1 {
        assert(regions.remove(i) =~= regions.drop_last());
    } else {
        assert(regions.remove(i).drop_last() =~= regions.drop_last().remove(i));
        assert(regions.remove(i).last() == regions.last());
        lemma_total_remove(regions.drop_last(), i, m, page);
    }
}

/// A sum whose every term is bounded by the matching term of another sum is
/// bounded by that sum.
pub proof fn lemma_total_le(regions: Seq<Region>, m: Measure, n: Measure, page: int)
    requires
        forall|i: int|
            0 <= i < regions.len() ==> (#[trigger] regions[i]).measure(m, page)
                <= regions[i].measure(n, page),
    ensures
        total(regions, m, page) <= total(regions, n, page),
    decreases regions.len(),
{
    if regions.len() > 0 {
        lemma_total_le(regions.drop_last(), m, n, page);
    }
}

/// A sum of terms that are not negative is not negative.
pub proof fn lemma_total_nonnegative(regions: Seq<Region>, m: Measure, page: int)
    requires
        forall|i: int| 0 <= i < regions.len() ==> 0 <= (#[trigger] regions[i]).measure(m, page),
    ensures
        0 <= total(regions, m, page),
    decreases regions.len(),
{
    if regions.len() > 0 {
        lemma_total_nonnegative(regions.drop_last(), m, page);
    }
}

/// The index of a range whose end is highest.
pub open spec fn highest(regions: Seq<Region>) -> int
    decreases regions.len(),
{
    if regions.len() <= 1 {
        0
    } else {
        let k = highest(regions.drop_last());
        if regions.last().end() > regions[k].end() {
            regions.len() - 1
        } else {
            k
        }
    }
}

proof fn lemma_highest(regions: Seq<Region>)
    requires
        regions.len() > 0,
    ensures
        0 <= highest(regions) < regions.len(),
        forall|j: int|
            0 <= j < regions.len() ==> (#[trigger] regions[j]).end() <= regions[highest(
                regions,
            )].end(),
    decreases regions.len(),
{
    if regions.len() > 1 {
        lemma_highest(regions.drop_last());
        let k = highest(regions.drop_last());
        assert forall|j: int| 0 <= j < regions.len() implies (#[trigger] regions[j]).end()
            <= regions[highest(regions)].end() by {
            if j < regions.len() - 1 {
                assert(regions[j] == regions.drop_last()[j]);
            }
        }
    }
}

/// Pairwise disjoint ranges of at least one address each, all inside
/// `[0, bound)`, hold at most `bound` addresses together.
pub proof fn lemma_disjoint_sizes_fit(regions: Seq<Region>, bound: int, page: int)
    requires
        0 <= bound,
        pairwise_disjoint(regions),
        forall|i: int|
            0 <= i < regions.len() ==> {
                &&& 0 <= (#[trigger] regions[i]).start
                &&& 1 <= regions[i].size
                &&& regions[i].end() <= bound
            },
    ensures
        total(regions, Measure::Bytes, page) <= bound,
    decreases regions.len(),
{
    if regions.len() > 0 {
        lemma_highest(regions);
        let m = highest(regions);
        let top = regions[m];
        let rest = regions.remove(m);
        assert forall|j: int| 0 <= j < rest.len() implies {
            &&& 0 <= (#[trigger] rest[j]).start
            &&& 1 <= rest[j].size
            &&& rest[j].end() <= top.start
        } by {
            let k = if j < m {
                j
            } else {
                j + 1
            };
            assert(rest[j] == regions[k]);
            assert(!regions[k].meets(regions[m]));
        }
        assert(pairwise_disjoint(rest)) by {
            assert forall|i: int, j: int|
                0 <= i < rest.len() && 0 <= j < rest.len() && i != j implies !(
            #[trigger] rest[i]).meets(#[trigger] rest[j]) by {
                let ki = if i < m {
                    i
                } else {
                    i + 1
                };
                let kj = if j < m {
                    j
                } else {
                    j + 1
                };
                assert(rest[i] == regions[ki]);
                assert(rest[j] == regions[kj]);
            }
        }
        lemma_disjoint_sizes_fit(rest, top.start, page);
        lemma_total_remove(regions, m, Measure::Bytes, page);
    }
}

/// A range holds no more whole pages than addresses.
pub proof fn lemma_pages_le_bytes(regions: Seq<Region>, page: int)
    requires
        page > 0,
        forall|i: int| 0 <= i < regions.len() ==> 0 <= (#[trigger] regions[i]).size,
    ensures
        total(regions, Measure::Pages, page) <= total(regions, Measure::Bytes, page),
{
    assert forall|i: int| 0 <= i < regions.len() implies (#[trigger] regions[i]).measure(
        Measure::Pages,
        page,
    ) <= regions[i].measure(Measure::Bytes, page) by {
        let size = regions[i].size;
        lemma_div_is_ordered(0, size, page);
        lemma_div_pos_is_pos(size, page);
        assert(size / page <= size) by (nonlinear_arith)
            requires
                size >= 0,
                page > 0,
        ;
    }
    lemma_total_le(regions, Measure::Pages, Measure::Bytes, page);
}

} // verus!
