use bump_allocator::align::{round_down, round_up};
use bump_allocator::MemUnit;

#[test]
fn round_up_gives_the_least_multiple() {
    assert_eq!(round_up(0, 8), Some(0));
    assert_eq!(round_up(1, 8), Some(8));
    assert_eq!(round_up(8, 8), Some(8));
    assert_eq!(round_up(9, 8), Some(16));
    assert_eq!(round_up(0x1001, 0x1000), Some(0x2000));
    assert_eq!(round_up(10, 3), Some(12));
    assert_eq!(round_up(usize::MAX, 1), Some(usize::MAX));
}

#[test]
fn round_up_past_the_address_space_is_none() {
    assert_eq!(round_up(usize::MAX, 2), None);
    assert_eq!(round_up(usize::MAX - 6, 8), None);
    assert_eq!(round_up(usize::MAX - 7, 8), Some(usize::MAX - 7));
}

#[test]
fn round_down_gives_the_greatest_multiple() {
    assert_eq!(round_down(0, 8), 0);
    assert_eq!(round_down(7, 8), 0);
    assert_eq!(round_down(8, 8), 8);
    assert_eq!(round_down(0x1fff, 0x1000), 0x1000);
    assert_eq!(round_down(10, 3), 9);
    assert_eq!(round_down(usize::MAX, 1), usize::MAX);
}

#[test]
fn new_unit_is_all_zero() {
    let unit = MemUnit::new();
    assert_eq!(unit, MemUnit { start: 0, ptr_byte: 0, ptr_page: 0, size: 0 });
}

fn unit(start: usize, size: usize) -> MemUnit {
    MemUnit { start, ptr_byte: start, ptr_page: start + size - 0x1000, size }
}

#[test]
fn unit_overlap_is_sharing_an_address() {
    let u = unit(0x4000, 0x2000);
    assert!(u.overlaps(0x4000, 0x2000));
    assert!(u.overlaps(0x5fff, 1));
    assert!(u.overlaps(0x3000, 0x1001));
    assert!(u.overlaps(0x1000, 0x10000));
    assert!(u.overlaps(0x4800, 0x100));
    assert!(!u.overlaps(0x3000, 0x1000));
    assert!(!u.overlaps(0x6000, 0x1000));
    assert!(!u.overlaps(0, 1));
}

#[test]
fn unit_byte_fit() {
    let mut u = unit(0x4000, 0x2000);
    u.ptr_byte = 0x4003;
    assert_eq!(u.byte_fit(1, 1), Some(0x4003));
    assert_eq!(u.byte_fit(4, 4), Some(0x4004));
    assert_eq!(u.byte_fit(0xffc, 4), Some(0x4004));
    assert_eq!(u.byte_fit(0xffd, 4), None);
    assert_eq!(u.byte_fit(0, 0x1000), Some(0x5000));
    assert_eq!(u.byte_fit(1, 0x1000), None);
    assert_eq!(u.byte_fit(usize::MAX, 1), None);
}

#[test]
fn unit_page_fit() {
    let mut u = unit(0x4000, 0x8000);
    assert_eq!(u.page_fit(1, 0x1000, 0x1000), Some(0xb000));
    assert_eq!(u.page_fit(1, 0x4000, 0x1000), Some(0x8000));
    assert_eq!(u.page_fit(2, 0x2000, 0x1000), Some(0x9000));
    assert_eq!(u.page_fit(7, 0x1000, 0x1000), Some(0x5000));
    assert_eq!(u.page_fit(8, 0x1000, 0x1000), None);
    assert_eq!(u.page_fit(0, 0x1000, 0x1000), None);
    assert_eq!(u.page_fit(usize::MAX, 0x1000, 0x1000), None);
    u.ptr_byte = 0x5000;
    assert_eq!(u.page_fit(7, 0x1000, 0x1000), None);
    assert_eq!(u.page_fit(6, 0x1000, 0x1000), Some(0x6000));
}
