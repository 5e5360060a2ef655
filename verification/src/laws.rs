//! What holds of the allocator over whole sequences of calls.

use crate::region::Region;
use crate::state::{
    lemma_alloc_bytes_wf, lemma_alloc_pages_wf, lemma_first_byte_fit, lemma_first_page_fit,
    AllocError, State,
};
use crate::table::any_overlaps;
use crate::trace::{
    admissible, lemma_run_wf, lemma_state_at_next, reply_at, state_at, step, Call, Reply,
};
use crate::align::{is_aligned, lemma_align_up_is_least_multiple};
use vstd::arithmetic::div_mod::lemma_div_pos_is_pos;
use vstd::arithmetic::power2::is_pow2;
use vstd::prelude::*;

verus! {

/// Two ranges of at least one address each overlap exactly when an endpoint of
/// one lies inside the other, the ranges taken with both endpoints included.
pub proof fn law_overlap_is_an_endpoint_inside(r: Region, start: int, size: int)
    requires
        r.size >= 1,
        size >= 1,
    ensures
        r.overlaps(start, size) <==> {
            let (a, b) = (start, start + size - 1);
            let (c, d) = (r.start, r.end() - 1);
            ||| c <= a <= d
            ||| c <= b <= d
            ||| a <= c <= b
            ||| a <= d <= b
        },
{
}

/// Every call of the sequence is a donation.
pub open spec fn all_donations(calls: Seq<Call>) -> bool {
    forall|k: int| 0 <= k < calls.len() ==> (#[trigger] calls[k]) is Donate
}

/// The range that a donation offers, as it will stand in the table.
pub open spec fn offered(c: Call, page: int) -> Region
    recommends
        c is Donate,
{
    Region::fresh(c->Donate_start, c->Donate_size, page)
}

/// The ranges that the first `n` calls offer.
pub open spec fn offers(calls: Seq<Call>, n: int, page: int) -> Seq<Region> {
    Seq::new(n as nat, |i: int| offered(calls[i], page))
}

/// The first `n` donations of the sequence offer ranges that share no address
/// with one another nor with a range that the table of `s` holds.
pub open spec fn disjoint_offers(s: State, calls: Seq<Call>, n: int, page: int) -> bool {
    &&& forall|i: int, j: int|
        0 <= i < j < n ==> !(#[trigger] offered(calls[i], page)).meets(
            #[trigger] offered(calls[j], page),
        )
    &&& forall|i: int|
        0 <= i < n ==> !s.overlaps(
            (#[trigger] offered(calls[i], page)).start,
            offered(calls[i], page).size,
        )
}

/// A range that overlaps neither the table nor any of the offers before it
/// overlaps nothing in the table followed by these offers.
proof fn lemma_offer_is_new(s: State, calls: Seq<Call>, n: int, k: int, page: int)
    requires
        0 <= k < n <= calls.len(),
        disjoint_offers(s, calls, n, page),
    ensures
        !any_overlaps(
            s.regions + offers(calls, k, page),
            offered(calls[k], page).start,
            offered(calls[k], page).size,
        ),
{
    let table = s.regions + offers(calls, k, page);
    let r = offered(calls[k], page);
    if any_overlaps(table, r.start, r.size) {
        let i = choose|i: int|
            0 <= i < table.len() && (#[trigger] table[i]).overlaps(r.start, r.size);
        if i < s.regions.len() {
            assert(s.regions[i].overlaps(r.start, r.size));
        } else {
            let j = i - s.regions.len();
            assert(table[i] == offered(calls[j], page));
            assert(offered(calls[j], page).overlaps(r.start, r.size));
        }
    }
}

/// While the donations offer disjoint ranges, each is accepted, and the table
/// is the old table followed by the ranges offered so far.
proof fn lemma_disjoint_donations(s: State, calls: Seq<Call>, n: int, page: int)
    requires
        all_donations(calls),
        0 <= n <= calls.len(),
        disjoint_offers(s, calls, n, page),
    ensures
        forall|k: int| 0 <= k < n ==> reply_at(s, calls, k, page) == Reply::Done,
        state_at(s, calls, n, page).regions == s.regions + offers(calls, n, page),
    decreases n,
{
    if n == 0 {
        assert(calls.take(0) =~= Seq::<Call>::empty());
        assert(s.regions + offers(calls, 0, page) =~= s.regions);
    } else {
        lemma_disjoint_donations(s, calls, n - 1, page);
        lemma_state_at_next(s, calls, n - 1, page);
        lemma_offer_is_new(s, calls, n, n - 1, page);
        let r = offered(calls[n - 1], page);
        assert(calls[n - 1] is Donate);
        assert((s.regions + offers(calls, n - 1, page)).push(r) =~= s.regions + offers(
            calls,
            n,
            page,
        ));
    }
}

/// Donations whose ranges share no address with one another, nor with a range
/// that the table already holds, are all accepted.
pub proof fn law_disjoint_donations_all_succeed(s: State, calls: Seq<Call>, page: int)
    requires
        all_donations(calls),
        disjoint_offers(s, calls, calls.len() as int, page),
    ensures
        forall|k: int| 0 <= k < calls.len() ==> reply_at(s, calls, k, page) == Reply::Done,
{
    lemma_disjoint_donations(s, calls, calls.len() as int, page);
}

/// Of the first two donations whose ranges share an address, the earlier is
/// accepted, as is every donation before the later one, and the later one is
/// refused with `MemoryOverlap` and leaves the table as it was.
pub proof fn law_first_overlap_fails_on_later_call(
    s: State,
    calls: Seq<Call>,
    i: int,
    j: int,
    page: int,
)
    requires
        all_donations(calls),
        0 <= i < j < calls.len(),
        disjoint_offers(s, calls, j, page),
        offered(calls[i], page).meets(offered(calls[j], page)),
    ensures
        forall|k: int| 0 <= k < j ==> reply_at(s, calls, k, page) == Reply::Done,
        reply_at(s, calls, j, page) == Reply::Refused(AllocError::MemoryOverlap),
        state_at(s, calls, j + 1, page) == state_at(s, calls, j, page),
{
    lemma_disjoint_donations(s, calls, j, page);
    lemma_state_at_next(s, calls, j, page);
    let before = state_at(s, calls, j, page);
    let r = offered(calls[j], page);
    assert(calls[j] is Donate);
    assert(before.regions[s.regions.len() + i] == offered(calls[i], page));
    assert(before.regions[s.regions.len() + i].overlaps(r.start, r.size));
}

/// A donation whose range shares an address with the range of an earlier
/// donation that was accepted is refused with `MemoryOverlap`, whatever other
/// calls were made in between.
pub proof fn law_overlapping_donation_is_refused(
    s: State,
    calls: Seq<Call>,
    i: int,
    j: int,
    page: int,
)
    requires
        0 <= i < j < calls.len(),
        calls[i] is Donate,
        calls[j] is Donate,
        reply_at(s, calls, i, page) == Reply::Done,
        offered(calls[i], page).meets(offered(calls[j], page)),
    ensures
        reply_at(s, calls, j, page) == Reply::Refused(AllocError::MemoryOverlap),
        state_at(s, calls, j + 1, page) == state_at(s, calls, j, page),
{
    let r = offered(calls[i], page);
    let at = state_at(s, calls, i, page).regions.len() as int;
    lemma_state_at_next(s, calls, i, page);
    assert(state_at(s, calls, i + 1, page).regions[at].start == r.start);
    lemma_ranges_stay(s, calls, i + 1, j, at, page);
    lemma_state_at_next(s, calls, j, page);
    let before = state_at(s, calls, j, page);
    assert(before.regions[at].meets(offered(calls[j], page)));
}

/// No call removes a range from the table, moves it or resizes it.
pub proof fn lemma_ranges_stay(s: State, calls: Seq<Call>, lo: int, hi: int, at: int, page: int)
    requires
        0 <= lo <= hi <= calls.len(),
        0 <= at < state_at(s, calls, lo, page).regions.len(),
    ensures
        at < state_at(s, calls, hi, page).regions.len(),
        state_at(s, calls, hi, page).regions[at].start == state_at(
            s,
            calls,
            lo,
            page,
        ).regions[at].start,
        state_at(s, calls, hi, page).regions[at].size == state_at(
            s,
            calls,
            lo,
            page,
        ).regions[at].size,
    decreases hi - lo,
{
    if lo < hi {
        lemma_ranges_stay(s, calls, lo, hi - 1, at, page);
        lemma_state_at_next(s, calls, hi - 1, page);
        let before = state_at(s, calls, hi - 1, page);
        match calls[hi - 1] {
            Call::AllocBytes { size, align } => {
                lemma_first_byte_fit(before, size, align, 0);
            },
            Call::AllocPages { count, align } => {
                lemma_first_page_fit(before, count, align, page, 0);
            },
            _ => {},
        }
    }
}

/// The sizes of the byte requests among the first `n` calls that were granted,
/// added up.
pub open spec fn bytes_granted(s: State, calls: Seq<Call>, n: int, page: int) -> int
    decreases n,
{
    if n <= 0 {
        0
    } else if calls[n - 1] is AllocBytes && reply_at(s, calls, n - 1, page) is Address {
        bytes_granted(s, calls, n - 1, page) + calls[n - 1]->AllocBytes_size
    } else {
        bytes_granted(s, calls, n - 1, page)
    }
}

/// The counts of the page requests among the first `n` calls that were
/// granted, added up.
pub open spec fn pages_granted(s: State, calls: Seq<Call>, n: int, page: int) -> int
    decreases n,
{
    if n <= 0 {
        0
    } else if calls[n - 1] is AllocPages && reply_at(s, calls, n - 1, page) is Address {
        pages_granted(s, calls, n - 1, page) + calls[n - 1]->AllocPages_count
    } else {
        pages_granted(s, calls, n - 1, page)
    }
}

/// After any calls, the bytes in use are those in use before plus the sizes of
/// the byte requests granted since. No other call changes them.
pub proof fn law_used_bytes_is_sum_of_granted_sizes(s: State, calls: Seq<Call>, n: int, page: int)
    requires
        0 <= n <= calls.len(),
    ensures
        state_at(s, calls, n, page).used_bytes == s.used_bytes + bytes_granted(s, calls, n, page),
    decreases n,
{
    if n == 0 {
        assert(calls.take(0) =~= Seq::<Call>::empty());
    } else {
        law_used_bytes_is_sum_of_granted_sizes(s, calls, n - 1, page);
        lemma_state_at_next(s, calls, n - 1, page);
    }
}

/// After any calls, the pages in use are those in use before plus the counts
/// of the page requests granted since. No other call changes them.
pub proof fn law_used_pages_is_sum_of_granted_counts(s: State, calls: Seq<Call>, n: int, page: int)
    requires
        0 <= n <= calls.len(),
    ensures
        state_at(s, calls, n, page).used_pages == s.used_pages + pages_granted(s, calls, n, page),
    decreases n,
{
    if n == 0 {
        assert(calls.take(0) =~= Seq::<Call>::empty());
    } else {
        law_used_pages_is_sum_of_granted_counts(s, calls, n - 1, page);
        lemma_state_at_next(s, calls, n - 1, page);
    }
}

/// A call that meets its precondition lowers none of the four counters.
proof fn lemma_step_counters(s: State, c: Call, page: int)
    requires
        page > 0,
        c.allowed(s, page),
    ensures
        s.total_bytes <= step(s, c, page).0.total_bytes,
        s.used_bytes <= step(s, c, page).0.used_bytes,
        s.total_pages <= step(s, c, page).0.total_pages,
        s.used_pages <= step(s, c, page).0.used_pages,
{
    match c {
        Call::Init { start, size } => {
            lemma_div_pos_is_pos(size, page);
        },
        Call::Donate { start, size } => {
            lemma_div_pos_is_pos(size, page);
        },
        _ => {},
    }
}

/// None of the four counters ever goes down.
pub proof fn law_counters_never_decrease(s: State, calls: Seq<Call>, lo: int, hi: int, page: int)
    requires
        page > 0,
        admissible(s, calls, page),
        0 <= lo <= hi <= calls.len(),
    ensures
        state_at(s, calls, lo, page).total_bytes <= state_at(s, calls, hi, page).total_bytes,
        state_at(s, calls, lo, page).used_bytes <= state_at(s, calls, hi, page).used_bytes,
        state_at(s, calls, lo, page).total_pages <= state_at(s, calls, hi, page).total_pages,
        state_at(s, calls, lo, page).used_pages <= state_at(s, calls, hi, page).used_pages,
    decreases hi - lo,
{
    if lo < hi {
        law_counters_never_decrease(s, calls, lo, hi - 1, page);
        lemma_state_at_next(s, calls, hi - 1, page);
        lemma_step_counters(state_at(s, calls, hi - 1, page), calls[hi - 1], page);
    }
}

/// A call keeps in the page area every address that was in it.
proof fn lemma_page_area_grows_by_step(s: State, c: Call, a: int, page: int)
    requires
        s.wf(page),
        c.allowed(s, page),
        s.in_page_area(a, page),
    ensures
        step(s, c, page).0.in_page_area(a, page),
{
    let t = step(s, c, page).0;
    let i = choose|i: int|
        0 <= i < s.regions.len() && (#[trigger] s.regions[i]).in_page_area(a, page);
    match c {
        Call::AllocBytes { size, align } => {
            lemma_first_byte_fit(s, size, align, 0);
        },
        Call::AllocPages { count, align } => {
            lemma_first_page_fit(s, count, align, page, 0);
            lemma_alloc_pages_wf(s, count, align, page);
        },
        _ => {},
    }
    assert(t.regions[i].in_page_area(a, page));
}

/// The calls from `lo` up to `hi` keep in the page area every address that
/// was in it.
proof fn lemma_page_area_grows(s: State, calls: Seq<Call>, lo: int, hi: int, a: int, page: int)
    requires
        s.wf(page),
        admissible(s, calls, page),
        0 <= lo <= hi <= calls.len(),
        state_at(s, calls, lo, page).in_page_area(a, page),
    ensures
        state_at(s, calls, hi, page).in_page_area(a, page),
    decreases hi - lo,
{
    if lo < hi {
        lemma_page_area_grows(s, calls, lo, hi - 1, a, page);
        lemma_state_at_next(s, calls, hi - 1, page);
        lemma_run_wf(s, calls, hi - 1, page);
        lemma_page_area_grows_by_step(state_at(s, calls, hi - 1, page), calls[hi - 1], a, page);
    }
}

/// The pages of a block that is granted were outside the page area before the
/// call and are inside it afterwards.
proof fn lemma_block_enters_page_area(s: State, count: int, align: int, a: int, page: int)
    requires
        s.wf(page),
        0 <= count,
        s.alloc_pages(count, align, page).1 matches Ok(low) && low <= a < low + count * page,
    ensures
        !s.in_page_area(a, page),
        s.alloc_pages(count, align, page).0.in_page_area(a, page),
{
    let i = s.first_page_fit(count, align, page, 0);
    let t = s.alloc_pages(count, align, page).0;
    lemma_first_page_fit(s, count, align, page, 0);
    lemma_alloc_pages_wf(s, count, align, page);
    assert(s.regions[i].wf(page));
    assert(t.regions[i].wf(page));
    assert(t.regions[i].in_page_area(a, page));
    if s.in_page_area(a, page) {
        let j = choose|j: int|
            0 <= j < s.regions.len() && (#[trigger] s.regions[j]).in_page_area(a, page);
        assert(s.regions[j].wf(page));
        if j != i {
            assert(!s.regions[i].meets(s.regions[j]));
        }
    }
}

/// The addresses of a block of pages that a call was granted were outside the
/// page area before the call and are inside it afterwards.
proof fn lemma_step_block(s: State, c: Call, a: int, page: int)
    requires
        s.wf(page),
        c.allowed(s, page),
        c is AllocPages,
        step(s, c, page).1 is Address,
        step(s, c, page).1->Address_0 <= a < step(s, c, page).1->Address_0 + c->AllocPages_count
            * page,
    ensures
        !s.in_page_area(a, page),
        step(s, c, page).0.in_page_area(a, page),
{
    lemma_block_enters_page_area(s, c->AllocPages_count, c->AllocPages_align, a, page);
}

/// Whether call `k` was granted a block of pages that holds address `a`.
pub open spec fn in_granted_pages(s: State, calls: Seq<Call>, k: int, a: int, page: int) -> bool {
    &&& calls[k] is AllocPages
    &&& reply_at(s, calls, k, page) is Address
    &&& reply_at(s, calls, k, page)->Address_0 <= a < reply_at(s, calls, k, page)->Address_0
        + calls[k]->AllocPages_count * page
}

/// No address lies in the blocks of two page requests that were granted.
pub proof fn law_page_blocks_share_no_address(
    s: State,
    calls: Seq<Call>,
    i: int,
    j: int,
    a: int,
    page: int,
)
    requires
        s.wf(page),
        admissible(s, calls, page),
        0 <= i < j < calls.len(),
        in_granted_pages(s, calls, i, a, page),
    ensures
        !in_granted_pages(s, calls, j, a, page),
{
    if in_granted_pages(s, calls, j, a, page) {
        lemma_run_wf(s, calls, i, page);
        lemma_run_wf(s, calls, j, page);
        assert(calls[i].allowed(state_at(s, calls, i, page), page));
        assert(calls[j].allowed(state_at(s, calls, j, page), page));
        lemma_step_block(state_at(s, calls, i, page), calls[i], a, page);
        lemma_state_at_next(s, calls, i, page);
        lemma_page_area_grows(s, calls, i + 1, j, a, page);
        lemma_step_block(state_at(s, calls, j, page), calls[j], a, page);
    }
}

/// A block of pages that was granted holds at least one page.
proof fn lemma_granted_block_holds_a_page(s: State, c: Call, page: int)
    requires
        page > 0,
        c is AllocPages,
        step(s, c, page).1 is Address,
    ensures
        c->AllocPages_count * page >= page,
{
    let count = c->AllocPages_count;
    lemma_first_page_fit(s, count, c->AllocPages_align, page, 0);
    assert(count * page >= page) by (nonlinear_arith)
        requires
            count >= 1,
            page > 0,
    ;
}

/// No two blocks of pages that were granted overlap: of two page requests that
/// were granted, one block of `count` pages ends at or below the lowest
/// address of the other.
pub proof fn law_page_blocks_never_overlap(s: State, calls: Seq<Call>, i: int, j: int, page: int)
    requires
        s.wf(page),
        admissible(s, calls, page),
        0 <= i < j < calls.len(),
        calls[i] is AllocPages,
        calls[j] is AllocPages,
        reply_at(s, calls, i, page) is Address,
        reply_at(s, calls, j, page) is Address,
    ensures
        ({
            let first = reply_at(s, calls, i, page)->Address_0;
            let second = reply_at(s, calls, j, page)->Address_0;
            ||| first + calls[i]->AllocPages_count * page <= second
            ||| second + calls[j]->AllocPages_count * page <= first
        }),
{
    let first = reply_at(s, calls, i, page)->Address_0;
    let second = reply_at(s, calls, j, page)->Address_0;
    let a = if first <= second {
        second
    } else {
        first
    };
    lemma_granted_block_holds_a_page(state_at(s, calls, i, page), calls[i], page);
    lemma_granted_block_holds_a_page(state_at(s, calls, j, page), calls[j], page);
    if in_granted_pages(s, calls, i, a, page) {
        law_page_blocks_share_no_address(s, calls, i, j, a, page);
    }
}

/// When no range has room between its cursors, a request for one byte or more
/// is refused and changes nothing.
pub proof fn law_exhausted_table_refuses_bytes(s: State, size: int, align: int, page: int)
    requires
        s.wf(page),
        1 <= size,
        0 < align,
        forall|i: int|
            0 <= i < s.regions.len() ==> (#[trigger] s.regions[i]).page_cursor
                <= s.regions[i].byte_cursor,
    ensures
        s.alloc_bytes(size, align) == (s, None::<int>),
{
    lemma_first_byte_fit(s, size, align, 0);
    let i = s.first_byte_fit(size, align, 0);
    if i < s.regions.len() {
        lemma_align_up_is_least_multiple(s.regions[i].byte_cursor, align);
    }
}

/// A byte request is refused exactly when no range admits it, and then
/// changes nothing. When it is granted, the block lies inside the range that
/// granted it, between the old byte cursor and the page cursor, and starts at
/// a multiple of `align`.
pub proof fn law_bytes_granted_or_no_memory(s: State, size: int, align: int, page: int)
    requires
        s.wf(page),
        0 <= size,
        0 < align,
    ensures
        match s.alloc_bytes(size, align).1 {
            Some(a) => exists|i: int|
                {
                    &&& 0 <= i < s.regions.len()
                    &&& (#[trigger] s.regions[i]).admits_bytes(size, align)
                    &&& is_aligned(a, align)
                    &&& s.regions[i].start <= s.regions[i].byte_cursor <= a
                    &&& a + size <= s.regions[i].page_cursor < s.regions[i].end()
                },
            None => {
                &&& s.alloc_bytes(size, align).0 == s
                &&& forall|i: int|
                    0 <= i < s.regions.len() ==> !(#[trigger] s.regions[i]).admits_bytes(
                        size,
                        align,
                    )
            },
        },
{
    lemma_first_byte_fit(s, size, align, 0);
    lemma_alloc_bytes_wf(s, size, align, page);
}

/// Whether call `k` was granted a block of bytes that holds address `a`.
pub open spec fn in_granted_bytes(s: State, calls: Seq<Call>, k: int, a: int, page: int) -> bool {
    &&& calls[k] is AllocBytes
    &&& reply_at(s, calls, k, page) is Address
    &&& reply_at(s, calls, k, page)->Address_0 <= a < reply_at(s, calls, k, page)->Address_0
        + calls[k]->AllocBytes_size
}

/// Whether call `k` was granted bytes right at the byte cursor of a range, so
/// that the alignment skipped nothing.
pub open spec fn granted_without_padding(s: State, calls: Seq<Call>, k: int, page: int) -> bool {
    let before = state_at(s, calls, k, page);
    let size = calls[k]->AllocBytes_size;
    let align = calls[k]->AllocBytes_align;
    &&& calls[k] is AllocBytes
    &&& reply_at(s, calls, k, page) is Address
    &&& reply_at(s, calls, k, page)->Address_0 == before.regions[before.first_byte_fit(
        size,
        align,
        0,
    )].byte_cursor
}

/// A call keeps in the byte area every address that was in it.
proof fn lemma_byte_area_grows_by_step(s: State, c: Call, a: int, page: int)
    requires
        c.allowed(s, page),
        s.in_byte_area(a),
    ensures
        step(s, c, page).0.in_byte_area(a),
{
    let t = step(s, c, page).0;
    let i = choose|i: int| 0 <= i < s.regions.len() && (#[trigger] s.regions[i]).in_byte_area(a);
    match c {
        Call::AllocBytes { size, align } => {
            lemma_first_byte_fit(s, size, align, 0);
        },
        Call::AllocPages { count, align } => {
            lemma_first_page_fit(s, count, align, page, 0);
        },
        _ => {},
    }
    assert(t.regions[i].in_byte_area(a));
}

/// The calls from `lo` up to `hi` keep in the byte area every address that
/// was in it.
proof fn lemma_byte_area_grows(s: State, calls: Seq<Call>, lo: int, hi: int, a: int, page: int)
    requires
        admissible(s, calls, page),
        0 <= lo <= hi <= calls.len(),
        state_at(s, calls, lo, page).in_byte_area(a),
    ensures
        state_at(s, calls, hi, page).in_byte_area(a),
    decreases hi - lo,
{
    if lo < hi {
        lemma_byte_area_grows(s, calls, lo, hi - 1, a, page);
        lemma_state_at_next(s, calls, hi - 1, page);
        lemma_byte_area_grows_by_step(state_at(s, calls, hi - 1, page), calls[hi - 1], a, page);
    }
}

/// The addresses of a block of bytes that a call was granted were in neither
/// area before the call. When the alignment skipped nothing, they are in the
/// byte area afterwards.
proof fn lemma_step_bytes(s: State, c: Call, a: int, page: int)
    requires
        s.wf(page),
        c.allowed(s, page),
        c is AllocBytes,
        step(s, c, page).1 is Address,
        step(s, c, page).1->Address_0 <= a < step(s, c, page).1->Address_0 + c->AllocBytes_size,
    ensures
        !s.in_byte_area(a),
        !s.in_page_area(a, page),
        step(s, c, page).1->Address_0 == s.regions[s.first_byte_fit(
            c->AllocBytes_size,
            c->AllocBytes_align,
            0,
        )].byte_cursor ==> step(s, c, page).0.in_byte_area(a),
{
    let size = c->AllocBytes_size;
    let align = c->AllocBytes_align;
    let i = s.first_byte_fit(size, align, 0);
    let t = s.alloc_bytes(size, align).0;
    lemma_first_byte_fit(s, size, align, 0);
    lemma_alloc_bytes_wf(s, size, align, page);
    assert(s.regions[i].wf(page));
    if s.regions[i].byte_candidate(align) == s.regions[i].byte_cursor {
        assert(t.regions[i].in_byte_area(a));
    }
    if s.in_byte_area(a) {
        let j = choose|j: int|
            0 <= j < s.regions.len() && (#[trigger] s.regions[j]).in_byte_area(a);
        assert(s.regions[j].wf(page));
        if j != i {
            assert(!s.regions[i].meets(s.regions[j]));
        }
    }
    if s.in_page_area(a, page) {
        let j = choose|j: int|
            0 <= j < s.regions.len() && (#[trigger] s.regions[j]).in_page_area(a, page);
        assert(s.regions[j].wf(page));
        if j != i {
            assert(!s.regions[i].meets(s.regions[j]));
        }
    }
}

/// The addresses of a block of pages that a call was granted were not in the
/// byte area before the call.
proof fn lemma_step_block_above_bytes(s: State, c: Call, a: int, page: int)
    requires
        s.wf(page),
        c.allowed(s, page),
        c is AllocPages,
        step(s, c, page).1 is Address,
        step(s, c, page).1->Address_0 <= a < step(s, c, page).1->Address_0 + c->AllocPages_count
            * page,
    ensures
        !s.in_byte_area(a),
{
    let count = c->AllocPages_count;
    let align = c->AllocPages_align;
    let i = s.first_page_fit(count, align, page, 0);
    lemma_first_page_fit(s, count, align, page, 0);
    lemma_alloc_pages_wf(s, count, align, page);
    assert(s.regions[i].wf(page));
    if s.in_byte_area(a) {
        let j = choose|j: int|
            0 <= j < s.regions.len() && (#[trigger] s.regions[j]).in_byte_area(a);
        assert(s.regions[j].wf(page));
        if j != i {
            assert(!s.regions[i].meets(s.regions[j]));
        }
    }
}

/// No block of bytes holds an address of a block of pages that was granted
/// before it.
pub proof fn law_bytes_avoid_pages_granted_before(
    s: State,
    calls: Seq<Call>,
    i: int,
    j: int,
    a: int,
    page: int,
)
    requires
        s.wf(page),
        admissible(s, calls, page),
        0 <= i < j < calls.len(),
        in_granted_pages(s, calls, i, a, page),
    ensures
        !in_granted_bytes(s, calls, j, a, page),
{
    if in_granted_bytes(s, calls, j, a, page) {
        lemma_run_wf(s, calls, i, page);
        lemma_run_wf(s, calls, j, page);
        assert(calls[i].allowed(state_at(s, calls, i, page), page));
        assert(calls[j].allowed(state_at(s, calls, j, page), page));
        lemma_step_block(state_at(s, calls, i, page), calls[i], a, page);
        lemma_state_at_next(s, calls, i, page);
        lemma_page_area_grows(s, calls, i + 1, j, a, page);
        lemma_step_bytes(state_at(s, calls, j, page), calls[j], a, page);
    }
}

/// The byte cursor moves up by the size of a request, not by the padding that
/// its alignment skipped. So only a block that was granted right at the byte
/// cursor is out of reach of every later request: no block of bytes or of
/// pages granted after it holds one of its addresses.
pub proof fn law_unpadded_bytes_are_never_granted_again(
    s: State,
    calls: Seq<Call>,
    i: int,
    j: int,
    a: int,
    page: int,
)
    requires
        s.wf(page),
        admissible(s, calls, page),
        0 <= i < j < calls.len(),
        granted_without_padding(s, calls, i, page),
        in_granted_bytes(s, calls, i, a, page),
    ensures
        !in_granted_bytes(s, calls, j, a, page),
        !in_granted_pages(s, calls, j, a, page),
{
    lemma_run_wf(s, calls, i, page);
    lemma_run_wf(s, calls, j, page);
    assert(calls[i].allowed(state_at(s, calls, i, page), page));
    assert(calls[j].allowed(state_at(s, calls, j, page), page));
    lemma_step_bytes(state_at(s, calls, i, page), calls[i], a, page);
    lemma_state_at_next(s, calls, i, page);
    lemma_byte_area_grows(s, calls, i + 1, j, a, page);
    if in_granted_bytes(s, calls, j, a, page) {
        lemma_step_bytes(state_at(s, calls, j, page), calls[j], a, page);
    }
    if in_granted_pages(s, calls, j, a, page) {
        lemma_step_block_above_bytes(state_at(s, calls, j, page), calls[j], a, page);
    }
}

/// A page request is refused with `InvalidParam` exactly when its alignment is
/// not a multiple of the page size or that multiple is not a power of two,
/// whatever the table holds; and a request that is refused changes nothing.
pub proof fn law_invalid_param_iff_bad_alignment(s: State, count: int, align: int, page: int)
    ensures
        s.alloc_pages(count, align, page).1 == Err::<int, AllocError>(AllocError::InvalidParam)
            <==> !(align % page == 0 && is_pow2(align / page)),
        s.alloc_pages(count, align, page).1 is Err ==> s.alloc_pages(count, align, page).0 == s,
{
}

} // verus!
