use bump_allocator::{AllocError, EarlyAllocator};

const PAGE: usize = 4096;

fn fresh(start: usize, size: usize) -> EarlyAllocator<PAGE> {
    let mut a = EarlyAllocator::<PAGE>::new();
    a.init(start, size);
    a
}

#[test]
fn new_allocator_has_no_memory() {
    let mut a = EarlyAllocator::<PAGE>::new();
    assert_eq!(a.total_bytes(), 0);
    assert_eq!(a.used_bytes(), 0);
    assert_eq!(a.available_bytes(), 0);
    assert_eq!(a.total_pages(), 0);
    assert_eq!(a.used_pages(), 0);
    assert_eq!(a.available_pages(), 0);
    assert_eq!(a.alloc_bytes(1, 1), Err(AllocError::NoMemory));
    assert_eq!(a.alloc_pages(1, PAGE), Err(AllocError::NoMemory));
}

#[test]
fn init_records_totals() {
    let a = fresh(0x1000, 0x10000);
    assert_eq!(a.total_bytes(), 0x10000);
    assert_eq!(a.total_pages(), 16);
    assert_eq!(a.used_bytes(), 0);
    assert_eq!(a.used_pages(), 0);
    assert_eq!(a.available_bytes(), 0x10000);
    assert_eq!(a.available_pages(), 16);
}

#[test]
fn total_pages_counts_whole_pages_only() {
    let a = fresh(0x1000, 0x1000 * 3 + 0x800);
    assert_eq!(a.total_bytes(), 0x3800);
    assert_eq!(a.total_pages(), 3);
}

#[test]
fn init_then_alloc_64_aligned_8() {
    let mut a = fresh(0x1000, 0x10000);
    let addr = a.alloc_bytes(64, 8).unwrap();
    assert_eq!(addr % 8, 0);
    assert!(0x1000 <= addr && addr < 0x11000);
    assert_eq!(addr, 0x1000);
}

#[test]
fn disjoint_donations_all_succeed() {
    let mut a = fresh(0x1000, 0x10000);
    assert_eq!(a.add_memory(0x20000, 0x2000), Ok(()));
    assert_eq!(a.add_memory(0x11000, 0x1000), Ok(()));
    assert_eq!(a.add_memory(0x40000, 0x8000), Ok(()));
    assert_eq!(a.total_bytes(), 0x10000 + 0x2000 + 0x1000 + 0x8000);
    assert_eq!(a.total_pages(), 16 + 2 + 1 + 8);
}

#[test]
fn overlapping_donation_fails_on_the_later_call() {
    let mut a = fresh(0x1000, 0x10000);
    assert_eq!(a.add_memory(0x20000, 0x4000), Ok(()));
    assert_eq!(a.add_memory(0x23000, 0x4000), Err(AllocError::MemoryOverlap));
    assert_eq!(a.total_bytes(), 0x14000);
    assert_eq!(a.total_pages(), 20);
    assert_eq!(a.add_memory(0x24000, 0x3000), Ok(()));
    assert_eq!(a.total_bytes(), 0x17000);
}

#[test]
fn donation_overlapping_the_first_range_is_refused() {
    let mut a = fresh(0x1000, 0x10000);
    assert_eq!(a.add_memory(0x10000, 0x2000), Err(AllocError::MemoryOverlap));
    assert_eq!(a.add_memory(0x0, 0x1001), Err(AllocError::MemoryOverlap));
    assert_eq!(a.add_memory(0x0, 0x1000), Ok(()));
}

#[test]
fn donation_that_contains_an_existing_range_is_refused() {
    let mut a = fresh(0x10000, 0x1000);
    assert_eq!(a.add_memory(0x8000, 0x10000), Err(AllocError::MemoryOverlap));
    assert_eq!(a.total_bytes(), 0x1000);
}

#[test]
fn donation_inside_an_existing_range_is_refused() {
    let mut a = fresh(0x10000, 0x10000);
    assert_eq!(a.add_memory(0x14000, 0x1000), Err(AllocError::MemoryOverlap));
}

#[test]
fn overlap_is_judged_by_the_donated_range_not_the_cursors() {
    let mut a = fresh(0x10000, 0x4000);
    assert_eq!(a.alloc_bytes(0x1000, 1), Ok(0x10000));
    assert_eq!(a.alloc_pages(1, PAGE), Ok(0x13000));
    assert_eq!(a.add_memory(0x10000, 0x1000), Err(AllocError::MemoryOverlap));
    assert_eq!(a.add_memory(0x13000, 0x1000), Err(AllocError::MemoryOverlap));
    assert_eq!(a.add_memory(0x14000, 0x1000), Ok(()));
}

#[test]
fn used_bytes_is_the_sum_of_the_sizes_granted() {
    let mut a = fresh(0x1000, 0x10000);
    let sizes = [64usize, 1, 300, 0, 4096, 17];
    let mut sum = 0;
    for s in sizes {
        assert!(a.alloc_bytes(s, 8).is_ok());
        sum += s;
        assert_eq!(a.used_bytes(), sum);
        assert_eq!(a.available_bytes(), a.total_bytes() - a.used_bytes());
    }
    assert_eq!(a.used_bytes(), 4478);
    assert_eq!(a.available_bytes(), 0x10000 - 4478);
}

#[test]
fn refused_byte_request_changes_no_counter() {
    let mut a = fresh(0x1000, 0x2000);
    assert_eq!(a.alloc_bytes(0x3000, 1), Err(AllocError::NoMemory));
    assert_eq!(a.used_bytes(), 0);
    assert_eq!(a.available_bytes(), 0x2000);
}

#[test]
fn byte_cursor_moves_by_size_not_by_padding() {
    let mut a = fresh(0x1001, 0x10000);
    assert_eq!(a.alloc_bytes(8, 8), Ok(0x1008));
    assert_eq!(a.used_bytes(), 8);
    assert_eq!(a.alloc_bytes(1, 1), Ok(0x1009));
    assert_eq!(a.alloc_bytes(16, 16), Ok(0x1010));
    assert_eq!(a.used_bytes(), 25);
}

#[test]
fn bytes_stop_below_the_page_cursor() {
    // One page of bytes below the page cursor at 0x2000.
    let mut a = fresh(0x1000, 0x2000);
    assert_eq!(a.alloc_bytes(0x1001, 1), Err(AllocError::NoMemory));
    assert_eq!(a.alloc_bytes(0x1000, 1), Ok(0x1000));
    assert_eq!(a.alloc_bytes(1, 1), Err(AllocError::NoMemory));
    assert_eq!(a.alloc_bytes(0, 1), Ok(0x2000));
}

#[test]
fn exhausted_table_fails_with_no_memory() {
    let mut a = fresh(0x1000, 0x2000);
    assert_eq!(a.add_memory(0x8000, 0x2000), Ok(()));
    assert_eq!(a.alloc_bytes(0x1000, 1), Ok(0x1000));
    assert_eq!(a.alloc_bytes(0x1000, 1), Ok(0x8000));
    assert_eq!(a.alloc_bytes(1, 1), Err(AllocError::NoMemory));
    assert_eq!(a.alloc_bytes(64, 8), Err(AllocError::NoMemory));
    assert_eq!(a.used_bytes(), 0x2000);
}

#[test]
fn byte_request_goes_to_the_first_range_that_admits_it() {
    let mut a = fresh(0x1000, 0x2000);
    assert_eq!(a.add_memory(0x10000, 0x8000), Ok(()));
    assert_eq!(a.alloc_bytes(0x1800, 1), Ok(0x10000));
    assert_eq!(a.alloc_bytes(0x800, 1), Ok(0x1000));
    assert_eq!(a.alloc_bytes(0x800, 1), Ok(0x1800));
    assert_eq!(a.alloc_bytes(0x800, 1), Ok(0x11800));
}

#[test]
fn alignment_that_cannot_be_met_is_no_memory() {
    let mut a = fresh(0x1000, 0x2000);
    assert_eq!(a.alloc_bytes(1, 1 << 20), Err(AllocError::NoMemory));
    let mut top = EarlyAllocator::<PAGE>::new();
    top.init(usize::MAX - 0x3000, 0x3000);
    assert_eq!(top.alloc_bytes(1, 1 << 20), Err(AllocError::NoMemory));
    assert_eq!(top.alloc_bytes(usize::MAX, 1), Err(AllocError::NoMemory));
}

#[test]
fn alloc_pages_4_aligned_8192_passes_the_alignment_check() {
    let mut a = fresh(0x1000, 0x10000);
    assert_eq!(a.alloc_pages(4, 8192), Ok(0xd000));
    assert_eq!(a.used_pages(), 4);
    assert_eq!(a.available_pages(), 12);
}

#[test]
fn alloc_pages_rejects_bad_alignment() {
    let mut a = fresh(0x1000, 0x10000);
    assert_eq!(a.alloc_pages(1, 4097), Err(AllocError::InvalidParam));
    assert_eq!(a.alloc_pages(1, 2048), Err(AllocError::InvalidParam));
    assert_eq!(a.alloc_pages(1, 3 * 4096), Err(AllocError::InvalidParam));
    assert_eq!(a.alloc_pages(1, 0), Err(AllocError::InvalidParam));
    assert_eq!(a.alloc_pages(1, 6 * 4096), Err(AllocError::InvalidParam));
    assert_eq!(a.used_pages(), 0);
    assert_eq!(a.alloc_pages(1, 4096), Ok(0x10000));
    assert_eq!(a.alloc_pages(1, 4 * 4096), Ok(0xc000));
}

#[test]
fn bad_alignment_is_reported_before_no_memory() {
    let mut a = EarlyAllocator::<PAGE>::new();
    assert_eq!(a.alloc_pages(1, 4097), Err(AllocError::InvalidParam));
    assert_eq!(a.alloc_pages(1, 4096), Err(AllocError::NoMemory));
}

#[test]
fn page_address_is_the_lowest_address_of_the_block() {
    let mut a = fresh(0x1000, 0x10000);
    // The page cursor starts at the last page, 0x10000.
    assert_eq!(a.alloc_pages(1, PAGE), Ok(0x10000));
    assert_eq!(a.alloc_pages(3, PAGE), Ok(0xd000));
    assert_eq!(a.alloc_pages(1, PAGE), Ok(0xc000));
    // Cursor 0xb000 rounds down to 0xa000; the block is [0x9000, 0xb000).
    assert_eq!(a.alloc_pages(2, 2 * PAGE), Ok(0x9000));
    assert_eq!(a.used_pages(), 7);
}

#[test]
fn page_blocks_do_not_overlap() {
    let mut a = fresh(0x1000, 0x20000);
    assert_eq!(a.add_memory(0x40000, 0x8000), Ok(()));
    let requests = [
        (1usize, PAGE),
        (2, 2 * PAGE),
        (3, PAGE),
        (1, 8 * PAGE),
        (4, 4 * PAGE),
        (8, PAGE),
        (8, PAGE),
    ];
    let mut blocks: Vec<(usize, usize)> = Vec::new();
    let mut used = 0;
    for (count, align) in requests {
        let before = a.used_pages();
        match a.alloc_pages(count, align) {
            Ok(addr) => {
                blocks.push((addr, addr + count * PAGE));
                used += count;
            }
            Err(e) => assert_eq!(e, AllocError::NoMemory),
        }
        assert!(a.used_pages() >= before);
        assert_eq!(a.used_pages(), used);
    }
    assert!(blocks.len() >= 6);
    for i in 0..blocks.len() {
        for j in 0..i {
            assert!(blocks[i].1 <= blocks[j].0 || blocks[j].1 <= blocks[i].0);
        }
    }
}

#[test]
fn pages_stop_above_the_byte_cursor() {
    let mut a = fresh(0x1000, 0x4000);
    assert_eq!(a.alloc_bytes(1, 1), Ok(0x1000));
    // Pages at 0x4000, 0x3000 and 0x2000 lie above the byte cursor 0x1001.
    assert_eq!(a.alloc_pages(4, PAGE), Err(AllocError::NoMemory));
    assert_eq!(a.alloc_pages(3, PAGE), Ok(0x2000));
    assert_eq!(a.alloc_pages(1, PAGE), Err(AllocError::NoMemory));
    assert_eq!(a.used_pages(), 3);
    assert_eq!(a.available_pages(), 1);
}

#[test]
fn page_at_the_byte_cursor_is_not_granted() {
    let mut a = fresh(0x1000, 0x2000);
    assert_eq!(a.alloc_pages(1, PAGE), Ok(0x2000));
    // The next page would start at 0x1000, which is the byte cursor.
    assert_eq!(a.alloc_pages(1, PAGE), Err(AllocError::NoMemory));
}

#[test]
fn request_for_no_pages_is_no_memory() {
    let mut a = fresh(0x1000, 0x10000);
    assert_eq!(a.alloc_pages(0, PAGE), Err(AllocError::NoMemory));
    assert_eq!(a.used_pages(), 0);
}

#[test]
fn page_request_goes_to_the_first_range_that_admits_it() {
    let mut a = fresh(0x1000, 0x2000);
    assert_eq!(a.add_memory(0x10000, 0x8000), Ok(()));
    assert_eq!(a.alloc_pages(4, PAGE), Ok(0x14000));
    assert_eq!(a.alloc_pages(1, PAGE), Ok(0x2000));
    assert_eq!(a.alloc_pages(1, PAGE), Ok(0x13000));
}

#[test]
fn huge_page_count_is_no_memory() {
    let mut a = fresh(0x1000, 0x10000);
    assert_eq!(a.alloc_pages(usize::MAX, PAGE), Err(AllocError::NoMemory));
    assert_eq!(a.alloc_pages(usize::MAX / PAGE + 2, PAGE), Err(AllocError::NoMemory));
}

#[test]
fn unaligned_range_serves_pages_at_page_boundaries() {
    let mut a = fresh(0x1234, 0x4000);
    // The page cursor 0x4234 rounds down to 0x4000.
    assert_eq!(a.alloc_pages(1, PAGE), Ok(0x4000));
    assert_eq!(a.alloc_pages(2, PAGE), Ok(0x2000));
    assert_eq!(a.alloc_pages(1, PAGE), Err(AllocError::NoMemory));
    assert_eq!(a.alloc_bytes(0x100, 4), Err(AllocError::NoMemory));
    assert_eq!(a.total_pages(), 4);
    assert_eq!(a.available_pages(), 1);
}

#[test]
fn range_smaller_than_a_page_serves_nothing() {
    // The page cursor 0x1800 stands below the start of the range.
    let mut a = fresh(0x2000, 0x800);
    assert_eq!(a.total_bytes(), 0x800);
    assert_eq!(a.total_pages(), 0);
    assert_eq!(a.alloc_bytes(1, 1), Err(AllocError::NoMemory));
    assert_eq!(a.alloc_pages(1, PAGE), Err(AllocError::NoMemory));
    assert_eq!(a.add_memory(0x2400, 0x1000), Err(AllocError::MemoryOverlap));
    assert_eq!(a.add_memory(0x2800, 0x1000), Ok(()));
    // The new range is one unaligned page: its page cursor is its start.
    assert_eq!(a.alloc_pages(1, PAGE), Err(AllocError::NoMemory));
    assert_eq!(a.alloc_bytes(1, 1), Err(AllocError::NoMemory));
    assert_eq!(a.alloc_bytes(0, 1), Ok(0x2800));
}

#[test]
fn dealloc_changes_nothing() {
    let mut a = fresh(0x1000, 0x10000);
    let addr = a.alloc_bytes(64, 8).unwrap();
    let page = a.alloc_pages(2, PAGE).unwrap();
    a.dealloc(addr, 64, 8);
    a.dealloc(0, 0, 0);
    a.dealloc(usize::MAX, usize::MAX, 3);
    assert_eq!(a.used_bytes(), 64);
    assert_eq!(a.available_bytes(), 0x10000 - 64);
    a.dealloc_pages(page, 2);
    a.dealloc_pages(0, usize::MAX);
    assert_eq!(a.used_pages(), 2);
    assert_eq!(a.available_pages(), 14);
    // What was given back is not handed out again.
    assert_eq!(a.alloc_bytes(64, 8), Ok(0x1040));
    assert_eq!(a.alloc_pages(2, PAGE), Ok(0xd000));
}

#[test]
fn other_page_sizes() {
    let mut a = EarlyAllocator::<0x200000>::new();
    a.init(0x4000_0000, 0x100_0000);
    assert_eq!(a.total_pages(), 8);
    assert_eq!(a.alloc_pages(1, 0x200000), Ok(0x40e0_0000));
    assert_eq!(a.alloc_pages(1, 4096), Err(AllocError::InvalidParam));
    // Cursor 0x40c0_0000 is a multiple of 0x400000; the block is two pages ending above it.
    assert_eq!(a.alloc_pages(2, 0x400000), Ok(0x40a0_0000));
}
